//! Verified core of a mod manager: the virtual file system built from the
//! installed mods, the listings shown for it, the mod order and the
//! install flow.

pub mod origins;
pub mod text;
pub mod paths;
pub mod vfs;
pub mod organize;
pub mod cache;
pub mod sortlist;
pub mod install;
pub mod launch;

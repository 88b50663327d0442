[package]
name = "superpatch"
version = "0.1.0"
edition = "2021"
publish = false

[dependencies]
ordered_hash_map = "*"
rayon = "*"
regex = "*"
serde_json = "*"
zip = { version = "*", default-features = false, features = ["deflate"] }
sevenz-rust2 = "*"
unrar = "*"
sysinfo = "*"
eframe = { version = "*", default-features = false, features = ["glow", "x11", "default_fonts"] }
egui_extras = { version = "*", default-features = false }
native-dialog = "*"
open = "*"

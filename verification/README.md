# superpatch

A mod manager for S.T.A.L.K.E.R. Anomaly whose core is verified with Verus.

The library (`src/`) holds the logic, each function with a contract that Verus
proves:

- `vfs`: the virtual file system built from the mod folders: folders kept in
  name order, files recording every mod that supplies them, merging where later
  mods win, and the trees read from archives and from listings of folders.
- `origins`: the ordered map (from the `ordered_hash_map` crate) that records a
  file's origins, with the contracts of the calls made on it.
- `cache`: the folders read per mod, and the tree of the whole mod order.
- `sortlist`: the file listing: rows, filters, and open or closed folders.
- `organize`: the mod order and its sorted listing, reordering by dragging, and
  placing newly installed mods.
- `install`: archive kinds, the root picker, name and version read off an
  archive's file name (with `regex`), and extraction prefixes.
- `launch`: the checks made before launching and the command that is run.
- `paths`, `text`: path and string helpers over `std::path` and `str`.

`app/` is the program around it: the `eframe` window, the configuration files
(`serde_json`), reading folders and archives (`zip`, `sevenz-rust2`, `unrar`),
process checks (`sysinfo`), the file dialog and opening folders.

use superpatch::cache::{cache_prune, cache_step, gen_vfs_tree, VfsCache};
use superpatch::organize::ModEntry;
use superpatch::paths::{is_descendant_path, parent_dir, pathdiff};
use superpatch::vfs::{insert_zip_entry, merge_vfs_trees, vfs_scan, vfs_scan_archive, ListedEntry, VfsNode, VfsTree};

fn names(t: &VfsTree) -> Vec<String> {
    t.entries().iter().map(|e| e.0.clone()).collect()
}

fn child<'a>(t: &'a VfsTree, name: &str) -> &'a VfsNode {
    &t.entries().iter().find(|e| e.0 == name).expect("no such entry").1
}

fn dir<'a>(n: &'a VfsNode) -> &'a VfsTree {
    match n {
        VfsNode::Dir(t) => t,
        VfsNode::File(_) => panic!("a file, not a folder"),
    }
}

fn origins(n: &VfsNode) -> Vec<(String, String)> {
    match n {
        VfsNode::File(f) => f.paths.iter().map(|(a, b)| (a.clone(), b.clone())).collect(),
        VfsNode::Dir(_) => panic!("a folder, not a file"),
    }
}

fn file(path: &str) -> ListedEntry {
    ListedEntry { path: path.to_string(), children: None }
}

fn folder(path: &str, children: Vec<ListedEntry>) -> ListedEntry {
    ListedEntry { path: path.to_string(), children: Some(children) }
}

fn tree_of(n: VfsNode) -> VfsTree {
    match n {
        VfsNode::Dir(t) => t,
        VfsNode::File(_) => panic!("a file, not a folder"),
    }
}

fn mod_entry(name: &str, path: &str, enabled: bool) -> ModEntry {
    ModEntry {
        enabled,
        name: name.to_string(),
        path: path.to_string(),
        version: String::new(),
        category: String::new(),
        archive: String::new(),
    }
}

#[test]
fn pathdiff_strips_whole_components() {
    assert_eq!(pathdiff("mods/A/gamedata/a.ltx", "mods/A"), "gamedata/a.ltx");
    assert_eq!(pathdiff("gamedata/a.ltx", "gamedata"), "a.ltx");
    assert_eq!(pathdiff("mods/AB/x", "mods/A"), "mods/AB/x");
    assert_eq!(pathdiff("x/y", ""), "x/y");
    assert_eq!(pathdiff("a", "a"), "");
}

#[test]
fn descendant_paths() {
    assert!(is_descendant_path("a/b", "a"));
    assert!(is_descendant_path("a/b/c", "a"));
    assert!(!is_descendant_path("a", "a"));
    assert!(!is_descendant_path("ab", "a"));
    assert!(!is_descendant_path("a", "a/b"));
    assert!(!is_descendant_path("a/", "a"));
}

#[test]
fn parent_dirs() {
    assert_eq!(parent_dir("gamedata/configs"), "gamedata");
    assert_eq!(parent_dir("gamedata"), "");
    assert_eq!(parent_dir(""), "");
}

#[test]
fn scan_keys_entries_by_path_relative_to_the_mod() {
    let listing = vec![
        folder("mods/A/gamedata", vec![file("mods/A/gamedata/b.ltx"), file("mods/A/gamedata/a.ltx")]),
        file("mods/A/readme.txt"),
    ];
    let t = tree_of(vfs_scan(&listing, "mods/A"));
    assert_eq!(names(&t), vec!["gamedata", "readme.txt"]);
    let g = dir(child(&t, "gamedata"));
    assert_eq!(names(g), vec!["gamedata/a.ltx", "gamedata/b.ltx"]);
    assert_eq!(
        origins(child(g, "gamedata/a.ltx")),
        vec![("mods/A".to_string(), "mods/A/gamedata/a.ltx".to_string())]
    );
}

#[test]
fn merge_adds_origins_in_order_and_later_wins() {
    let a = tree_of(vfs_scan(&vec![file("mods/A/x.ltx"), file("mods/A/only_a.ltx")], "mods/A"));
    let b = vfs_scan(&vec![file("mods/B/x.ltx"), file("mods/B/only_b.ltx")], "mods/B");
    let m = merge_vfs_trees(a, b);
    assert_eq!(names(&m), vec!["only_a.ltx", "only_b.ltx", "x.ltx"]);
    assert_eq!(
        origins(child(&m, "x.ltx")),
        vec![
            ("mods/A".to_string(), "mods/A/x.ltx".to_string()),
            ("mods/B".to_string(), "mods/B/x.ltx".to_string()),
        ]
    );
    match child(&m, "x.ltx") {
        VfsNode::File(f) => {
            assert_eq!(f.winning_source(), Some("mods/B/x.ltx".to_string()));
            assert_eq!(f.origin_count(), 2);
        }
        VfsNode::Dir(_) => panic!("a folder"),
    }
}

#[test]
fn law_later_mod_wins_below_folders() {
    let a = tree_of(vfs_scan(
        &vec![folder("mods/A/gamedata", vec![folder("mods/A/gamedata/configs", vec![file("mods/A/gamedata/configs/w.ltx")])])],
        "mods/A",
    ));
    let b = vfs_scan(
        &vec![folder("mods/B/gamedata", vec![folder("mods/B/gamedata/configs", vec![file("mods/B/gamedata/configs/w.ltx")])])],
        "mods/B",
    );
    let m = merge_vfs_trees(a, b);
    let configs = dir(child(dir(child(&m, "gamedata")), "gamedata/configs"));
    match child(configs, "gamedata/configs/w.ltx") {
        VfsNode::File(f) => assert_eq!(f.winning_source(), Some("mods/B/gamedata/configs/w.ltx".to_string())),
        VfsNode::Dir(_) => panic!("a folder"),
    }
}

#[test]
fn merge_keeps_first_where_folder_meets_file() {
    let a = tree_of(vfs_scan(&vec![folder("mods/A/x", vec![])], "mods/A"));
    let b = vfs_scan(&vec![file("mods/B/x")], "mods/B");
    let m = merge_vfs_trees(a, b);
    assert!(matches!(child(&m, "x"), VfsNode::Dir(_)));
}

#[test]
fn merge_with_a_file_changes_nothing() {
    let a = tree_of(vfs_scan(&vec![file("mods/A/x")], "mods/A"));
    let m = merge_vfs_trees(a, VfsNode::File(superpatch::vfs::VfsFile::new()));
    assert_eq!(names(&m), vec!["x"]);
}

#[test]
fn law_merge_into_empty_gives_the_folder() {
    let b = vfs_scan(&vec![file("mods/B/z"), file("mods/B/a")], "mods/B");
    let m = merge_vfs_trees(VfsTree::new(), b);
    assert_eq!(names(&m), vec!["a", "z"]);
    assert_eq!(origins(child(&m, "a")), vec![("mods/B".to_string(), "mods/B/a".to_string())]);
}

#[test]
fn law_merge_names_are_the_union() {
    let a = tree_of(vfs_scan(&vec![file("m/p"), file("m/q")], "m"));
    let b = vfs_scan(&vec![file("n/q"), file("n/r")], "n");
    let m = merge_vfs_trees(a, b);
    assert_eq!(names(&m), vec!["p", "q", "r"]);
}

#[test]
fn zip_entry_creates_folders_on_the_way() {
    let mut t = VfsTree::new();
    insert_zip_entry(&mut t, "gamedata/configs/a.ltx", "mod.zip", false);
    let g = dir(child(&t, "gamedata"));
    let c = dir(child(g, "configs"));
    assert_eq!(
        origins(child(c, "a.ltx")),
        vec![("mod.zip".to_string(), "gamedata/configs/a.ltx".to_string())]
    );
}

#[test]
fn zip_entry_under_a_file_is_ignored() {
    let mut t = VfsTree::new();
    insert_zip_entry(&mut t, "a", "mod.zip", false);
    insert_zip_entry(&mut t, "a/b.txt", "mod.zip", false);
    assert_eq!(names(&t), vec!["a"]);
    assert!(matches!(child(&t, "a"), VfsNode::File(_)));
}

#[test]
fn zip_folder_entry_keeps_existing_contents() {
    let mut t = VfsTree::new();
    insert_zip_entry(&mut t, "gamedata/a.ltx", "mod.zip", false);
    insert_zip_entry(&mut t, "gamedata/", "mod.zip", true);
    assert_eq!(names(dir(child(&t, "gamedata"))), vec!["a.ltx"]);
}

#[test]
fn archive_tree_from_entries() {
    let entries = vec![
        ("gamedata/".to_string(), true),
        ("gamedata/b.ltx".to_string(), false),
        ("fomod/info.xml".to_string(), false),
    ];
    let t = tree_of(vfs_scan_archive(&entries, "x.zip"));
    assert_eq!(names(&t), vec!["fomod", "gamedata"]);
    assert_eq!(names(dir(child(&t, "gamedata"))), vec!["b.ltx"]);
}

#[test]
fn cache_step_reads_enabled_mods_once() {
    let mut cache = VfsCache::new();
    let a = mod_entry("A", "mods/A", true);
    assert_eq!(cache_step(&mut cache, &a), Some("mods/A".to_string()));
    cache.insert("A".to_string(), vfs_scan(&vec![file("mods/A/x")], "mods/A"));
    assert_eq!(cache_step(&mut cache, &a), None);
    assert!(cache.contains("A"));
    let a_off = mod_entry("A", "mods/A", false);
    assert_eq!(cache_step(&mut cache, &a_off), None);
    assert!(!cache.contains("A"));
    assert_eq!(cache_step(&mut cache, &a_off), None);
}

#[test]
fn cache_prune_drops_mods_not_in_the_order() {
    let mut cache = VfsCache::new();
    cache.insert("A".to_string(), vfs_scan(&vec![], "mods/A"));
    cache.insert("Gone".to_string(), vfs_scan(&vec![], "mods/Gone"));
    let order = vec![mod_entry("A", "mods/A", true)];
    cache_prune(&mut cache, &order);
    assert!(cache.contains("A"));
    assert!(!cache.contains("Gone"));
}

#[test]
fn tree_of_the_order_merges_first_to_last() {
    let order = vec![mod_entry("A", "mods/A", true), mod_entry("B", "mods/B", true), mod_entry("C", "mods/C", false)];
    let mut cache = VfsCache::new();
    for e in &order {
        if let Some(p) = cache_step(&mut cache, e) {
            let listing = vec![file(&format!("{}/x.ltx", p))];
            cache.insert(e.name.clone(), vfs_scan(&listing, &p));
        }
    }
    cache_prune(&mut cache, &order);
    assert!(!cache.contains("C"));
    let t = gen_vfs_tree(&order, &cache);
    match child(&t, "x.ltx") {
        VfsNode::File(f) => assert_eq!(f.winning_source(), Some("mods/B/x.ltx".to_string())),
        VfsNode::Dir(_) => panic!("a folder"),
    }
}

#[test]
fn deep_clone_is_equal() {
    let t = tree_of(vfs_scan(&vec![folder("m/d", vec![file("m/d/f")])], "m"));
    let c = t.deep_clone();
    assert_eq!(names(&c), names(&t));
    assert_eq!(origins(child(dir(child(&c, "d")), "d/f")), vec![("m".to_string(), "m/d/f".to_string())]);
}

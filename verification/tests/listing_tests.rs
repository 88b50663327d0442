use superpatch::sortlist::{
    gen_vfs_sort_data, gen_vfs_sort_data_recursive, toggle_expanded, try_prune_folders, vfs_sort_data_prune_files, vfs_sort_data_prune_folders,
    VFSSort, VFSSortListEntry, VFSSortType,
};
use superpatch::vfs::{merge_vfs_trees, vfs_scan, ListedEntry, VfsNode, VfsTree};

fn file(path: &str) -> ListedEntry {
    ListedEntry { path: path.to_string(), children: None }
}

fn folder(path: &str, children: Vec<ListedEntry>) -> ListedEntry {
    ListedEntry { path: path.to_string(), children: Some(children) }
}

fn tree_of(n: VfsNode) -> VfsTree {
    match n {
        VfsNode::Dir(t) => t,
        VfsNode::File(_) => panic!("a file"),
    }
}

fn sort(t: VFSSortType, expanded: &[&str]) -> VFSSort {
    VFSSort { sort_type: t, expanded: expanded.iter().map(|s| s.to_string()).collect(), query: String::new() }
}

fn row(path: &str, file_type: &str, extended: bool) -> VFSSortListEntry {
    VFSSortListEntry {
        file_type: file_type.to_string(),
        extended,
        path: path.to_string(),
        name: path.to_string(),
        down: 0,
        conflicts: 0,
        conflicts_active: 0,
        dltx_patches: 0,
        dltx_patches_active: 0,
    }
}

fn paths(rows: &[VFSSortListEntry]) -> Vec<String> {
    rows.iter().map(|r| r.path.clone()).collect()
}

/// Two mods: A has gamedata/a.ltx, gamedata/sub/b.dds and readme;
/// B has gamedata/a.ltx.
fn two_mods() -> VfsTree {
    let a = tree_of(vfs_scan(
        &vec![
            folder(
                "mods/A/gamedata",
                vec![file("mods/A/gamedata/a.ltx"), folder("mods/A/gamedata/sub", vec![file("mods/A/gamedata/sub/b.dds")])],
            ),
            file("mods/A/readme"),
        ],
        "mods/A",
    ));
    let b = vfs_scan(&vec![folder("mods/B/gamedata", vec![file("mods/B/gamedata/a.ltx")])], "mods/B");
    merge_vfs_trees(a, b)
}

#[test]
fn listing_of_an_open_tree() {
    let t = two_mods();
    let rows = gen_vfs_sort_data(&t, &sort(VFSSortType::All, &["gamedata", "gamedata/sub"])).unwrap();
    assert_eq!(paths(&rows), vec!["gamedata", "gamedata/a.ltx", "gamedata/sub", "gamedata/sub/b.dds", "readme"]);
    assert_eq!(rows[0].file_type, "folder");
    assert!(rows[0].extended);
    assert_eq!(rows[1].name, "a.ltx");
    assert_eq!(rows[1].file_type, "ltx");
    assert_eq!(rows[1].down, 1);
    assert_eq!(rows[1].conflicts, 2);
    assert_eq!(rows[1].conflicts_active, 2);
    assert_eq!(rows[2].name, "sub");
    assert_eq!(rows[3].name, "b.dds");
    assert_eq!(rows[3].down, 2);
    assert_eq!(rows[3].conflicts, 0);
    assert_eq!(rows[4].file_type, "file");
    assert_eq!(rows[4].down, 0);
}

#[test]
fn closed_folders_hide_what_they_hold() {
    let t = two_mods();
    let rows = gen_vfs_sort_data(&t, &sort(VFSSortType::All, &[])).unwrap();
    assert_eq!(paths(&rows), vec!["gamedata", "readme"]);
    assert!(!rows[0].extended);
    let rows = gen_vfs_sort_data(&t, &sort(VFSSortType::All, &["gamedata"])).unwrap();
    assert_eq!(paths(&rows), vec!["gamedata", "gamedata/a.ltx", "gamedata/sub", "readme"]);
}

#[test]
fn conflicts_filter_keeps_folders_with_conflicts() {
    let t = two_mods();
    let rows = gen_vfs_sort_data(&t, &sort(VFSSortType::Conflicts, &["gamedata", "gamedata/sub"])).unwrap();
    assert_eq!(paths(&rows), vec!["gamedata", "gamedata/a.ltx"]);
}

#[test]
fn law_filtered_listing_shows_only_files_that_pass() {
    let t = two_mods();
    let rows = gen_vfs_sort_data(&t, &sort(VFSSortType::Conflicts, &["gamedata", "gamedata/sub"])).unwrap();
    assert!(!rows.is_empty());
    for r in rows.iter() {
        assert!(r.file_type == "folder" || r.conflicts != 0);
    }
}

#[test]
fn dltx_filter_with_no_patches_shows_nothing() {
    let t = two_mods();
    let rows = gen_vfs_sort_data(&t, &sort(VFSSortType::DLTXPatches, &["gamedata"])).unwrap();
    assert!(rows.is_empty());
}

#[test]
fn prune_files_by_filter() {
    let mut rows = vec![row("d", "folder", true), row("d/x", "ltx", false), row("y", "file", false)];
    rows[1].conflicts = 2;
    let mut c = vec![row("d", "folder", true), row("d/x", "ltx", false), row("y", "file", false)];
    c[1].conflicts = 2;
    vfs_sort_data_prune_files(&mut rows, &sort(VFSSortType::Conflicts, &[]));
    assert_eq!(paths(&rows), vec!["d", "d/x"]);
    vfs_sort_data_prune_files(&mut c, &sort(VFSSortType::All, &[]));
    assert_eq!(paths(&c), vec!["d", "d/x", "y"]);
}

#[test]
fn law_open_listing_with_all_files_is_unchanged() {
    let mut rows = vec![row("d", "folder", true), row("d/e", "folder", true), row("d/e/x", "ltx", false)];
    vfs_sort_data_prune_folders(&mut rows, &sort(VFSSortType::All, &[]));
    assert_eq!(paths(&rows), vec!["d", "d/e", "d/e/x"]);
}

#[test]
fn empty_folders_go_under_a_filter() {
    let mut rows = vec![row("d", "folder", true), row("d/e", "folder", true), row("z", "file", false)];
    assert!(try_prune_folders(&mut rows, &sort(VFSSortType::Conflicts, &[])));
    assert_eq!(paths(&rows), vec!["z"]);
}

#[test]
fn pruning_that_runs_past_the_end_is_refused() {
    // two rows below "d" stand before it: collapsing "d" removes both and
    // the next position looked at is past the end
    let mut rows = vec![row("d/x", "file", false), row("d/y", "file", false), row("d", "folder", false)];
    assert!(!try_prune_folders(&mut rows, &sort(VFSSortType::All, &[])));
    assert_eq!(paths(&rows), vec!["d/x", "d/y", "d"]);
}

#[test]
fn toggle_opens_then_closes() {
    let mut s = sort(VFSSortType::All, &[]);
    assert!(!toggle_expanded(&mut s, "gamedata"));
    assert_eq!(s.expanded, vec!["gamedata".to_string()]);
    assert!(toggle_expanded(&mut s, "gamedata"));
    assert!(s.expanded.is_empty());
}

#[test]
fn law_collapsing_keeps_rows_below_no_closed_folder() {
    let mut rows = vec![
        row("d", "folder", false),
        row("d/x", "ltx", false),
        row("d/e", "folder", true),
        row("d/e/y", "ltx", false),
        row("f", "folder", true),
        row("f/z", "ltx", false),
    ];
    vfs_sort_data_prune_folders(&mut rows, &sort(VFSSortType::All, &[]));
    assert_eq!(paths(&rows), vec!["d", "f", "f/z"]);
}

#[test]
fn law_listed_rows_sit_under_open_listed_folders() {
    let mut rows = vec![
        row("d", "folder", true),
        row("d/e", "folder", true),
        row("d/e/x", "ltx", false),
        row("g", "folder", false),
        row("g/y", "ltx", false),
    ];
    rows[2].conflicts = 2;
    rows[4].conflicts = 2;
    vfs_sort_data_prune_folders(&mut rows, &sort(VFSSortType::Conflicts, &[]));
    assert_eq!(paths(&rows), vec!["d", "d/e", "d/e/x", "g"]);
}

#[test]
fn law_folders_without_files_go_under_a_filter() {
    let mut rows = vec![
        row("d", "folder", true),
        row("d/e", "folder", true),
        row("d/e/f", "folder", true),
        row("k", "folder", true),
        row("k/x", "ltx", false),
    ];
    rows[4].conflicts = 2;
    vfs_sort_data_prune_folders(&mut rows, &sort(VFSSortType::Conflicts, &[]));
    assert_eq!(paths(&rows), vec!["k", "k/x"]);
}

#[test]
fn law_rows_depend_only_on_open_folders() {
    let t = two_mods();
    let s1 = sort(VFSSortType::All, &["gamedata/sub", "gamedata", "gamedata"]);
    let mut s2 = sort(VFSSortType::Conflicts, &["gamedata", "gamedata/sub"]);
    s2.query = "a.ltx".to_string();
    let r1 = gen_vfs_sort_data_recursive(&t, &s1, "", 0);
    let r2 = gen_vfs_sort_data_recursive(&t, &s2, "", 0);
    assert_eq!(paths(&r1), paths(&r2));
    let flags1: Vec<bool> = r1.iter().map(|r| r.extended).collect();
    let flags2: Vec<bool> = r2.iter().map(|r| r.extended).collect();
    assert_eq!(flags1, flags2);
    assert_eq!(r1.len(), 5);
}

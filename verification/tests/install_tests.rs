use superpatch::install::{
    add_installed_mod, archive_copy_path, archive_kind, archive_name_from_match, entry_to_extract, zip_entry_to_extract, clean_name, deselect_path, extraction_prefix,
    install_path_resolves, mod_target_path, normalize_separators, parse_archive_name, relative_to_prefix,
    replaced_mod_archive, replaced_mod_folder, select_path, update_install_modal_sort_list, ArchiveKind,
    ArchiveKindError, InstallModalInputData, InstallModalInstallData, InstallModalSortData,
};
use superpatch::launch::{edited_setting_key, game_command_line, launch_check, LaunchBlock, SettingsEditType};
use superpatch::organize::{ModEntry, SpecificIndexTarget};
use superpatch::text::{replace_all, split_segments, str_lt};
use superpatch::vfs::{vfs_scan_archive, VfsNode};

fn archive() -> VfsNode {
    let entries = vec![
        ("gamedata/configs/a.ltx".to_string(), false),
        ("gamedata/textures/".to_string(), true),
        ("readme.txt".to_string(), false),
    ];
    vfs_scan_archive(&entries, "mod.zip")
}

fn m(name: &str, path: &str, archive: &str) -> ModEntry {
    ModEntry {
        enabled: true,
        name: name.to_string(),
        path: path.to_string(),
        version: String::new(),
        category: String::new(),
        archive: archive.to_string(),
    }
}

#[test]
fn archive_kinds() {
    assert_eq!(archive_kind("/x/mod.zip"), Ok(ArchiveKind::Zip));
    assert_eq!(archive_kind("mod.rar"), Ok(ArchiveKind::Rar));
    assert_eq!(archive_kind("mod.7z"), Ok(ArchiveKind::SevenZip));
    assert_eq!(archive_kind("mod.7zip"), Ok(ArchiveKind::SevenZip));
    assert_eq!(archive_kind("mod.txt"), Err(ArchiveKindError::Unsupported));
    assert_eq!(archive_kind("mod.ZIP"), Err(ArchiveKindError::Unsupported));
    assert_eq!(archive_kind("mod"), Err(ArchiveKindError::NoExtension));
}

#[test]
fn separators_become_slashes() {
    assert_eq!(normalize_separators("gamedata\\configs\\a.ltx"), "gamedata/configs/a.ltx");
}

#[test]
fn root_picker_at_the_top() {
    let d = update_install_modal_sort_list(archive(), &InstallModalInputData::Unset);
    assert_eq!(d.current_path, "");
    assert!(d.selected_paths.is_empty());
    let rows: Vec<(String, String, bool, bool)> =
        d.list.iter().map(|e| (e.name.clone(), e.path.clone(), e.folder, e.selected)).collect();
    assert_eq!(
        rows,
        vec![
            ("gamedata".to_string(), "gamedata".to_string(), true, false),
            ("readme.txt".to_string(), "readme.txt".to_string(), false, false),
        ]
    );
}

#[test]
fn root_picker_inside_a_folder() {
    let input = InstallModalInputData::SortData(InstallModalSortData {
        list: Vec::new(),
        current_path: "gamedata".to_string(),
        selected_paths: vec!["gamedata/textures".to_string()],
    });
    let d = update_install_modal_sort_list(archive(), &input);
    assert_eq!(d.current_path, "gamedata");
    assert_eq!(d.selected_paths, vec!["gamedata/textures".to_string()]);
    let rows: Vec<(String, String, bool, bool)> =
        d.list.iter().map(|e| (e.name.clone(), e.path.clone(), e.folder, e.selected)).collect();
    assert_eq!(
        rows,
        vec![
            ("configs".to_string(), "gamedata/configs".to_string(), true, false),
            ("textures".to_string(), "gamedata/textures".to_string(), true, true),
        ]
    );
}

#[test]
fn picker_paths_that_lead_nowhere() {
    let a = archive();
    assert!(install_path_resolves(&a, ""));
    assert!(install_path_resolves(&a, "gamedata/configs"));
    assert!(install_path_resolves(&a, "/gamedata//configs/"));
    assert!(!install_path_resolves(&a, "readme.txt"));
    assert!(!install_path_resolves(&a, "missing"));
}

#[test]
fn picking_and_unpicking_roots() {
    let mut picks = vec!["a".to_string()];
    select_path(&mut picks, String::new());
    select_path(&mut picks, "a".to_string());
    assert_eq!(picks, vec!["a".to_string(), String::new(), "a".to_string()]);
    deselect_path(&mut picks, "a");
    assert_eq!(picks, vec![String::new()]);
}

#[test]
fn law_picking_then_unpicking_restores_the_picks() {
    let mut picks = vec!["a".to_string(), "c".to_string()];
    select_path(&mut picks, "b".to_string());
    deselect_path(&mut picks, "b");
    assert_eq!(picks, vec!["a".to_string(), "c".to_string()]);
}

#[test]
fn names_and_versions_from_file_names() {
    assert_eq!(parse_archive_name("CoolMod_v1.2.3"), ("CoolMod".to_string(), "1.2.3".to_string()));
    assert_eq!(parse_archive_name("Better_Weapons_2.0"), ("Better Weapons".to_string(), "2.0".to_string()));
    assert_eq!(parse_archive_name("Anomaly-Addon-ver_1_5"), ("Anomaly Addon".to_string(), "1.5".to_string()));
    assert_eq!(parse_archive_name("mod_update_3"), ("mod update".to_string(), "3".to_string()));
    assert_eq!(parse_archive_name("SimpleMod"), ("SimpleMod".to_string(), String::new()));
}

#[test]
fn clean_names() {
    assert_eq!(clean_name("  a..b__c  "), "a b c");
    assert_eq!(clean_name("Big-Mod"), "Big Mod");
    assert_eq!(clean_name(""), "");
    assert_eq!(clean_name("\u{3000}a_b\u{85}"), "a b");
}

#[test]
fn install_paths() {
    assert_eq!(mod_target_path("Cool Mod"), "mods/Cool Mod");
    assert_eq!(archive_copy_path("x.zip"), "archives/x.zip");
}

#[test]
fn prefixes_for_extraction() {
    assert_eq!(extraction_prefix("gamedata"), "gamedata/");
    assert_eq!(extraction_prefix("gamedata/"), "gamedata/");
    assert_eq!(extraction_prefix(""), "");
    assert_eq!(relative_to_prefix("gamedata/a.ltx", "gamedata/"), Some("a.ltx".to_string()));
    assert_eq!(relative_to_prefix("gamedata/", "gamedata/"), Some(String::new()));
    assert_eq!(relative_to_prefix("other/a.ltx", "gamedata/"), None);
    assert_eq!(relative_to_prefix("x", ""), Some("x".to_string()));
}

#[test]
fn installed_mod_goes_into_the_order() {
    let mut order = vec![m("Old", "mods/Old", "archives/old.zip")];
    let data = InstallModalInstallData {
        selected_paths: vec![String::new()],
        copy_archive: true,
        delete_archive: false,
        name: "New".to_string(),
        version: "2.0".to_string(),
        category: "Guns".to_string(),
        specific_index_target: SpecificIndexTarget::Replace,
        specific_index: 0,
    };
    assert_eq!(replaced_mod_folder(&order, data.specific_index_target, 0), Some("mods/Old".to_string()));
    assert_eq!(replaced_mod_archive(&order, data.specific_index_target, 0), Some("archives/old.zip".to_string()));
    add_installed_mod(&mut order, &data, "archives/new.zip".to_string());
    assert_eq!(order.len(), 1);
    assert!(order[0].enabled);
    assert_eq!(order[0].name, "New");
    assert_eq!(order[0].path, "mods/New");
    assert_eq!(order[0].version, "2.0");
    assert_eq!(order[0].category, "Guns");
    assert_eq!(order[0].archive, "archives/new.zip");
    assert_eq!(replaced_mod_folder(&order, SpecificIndexTarget::Last, 0), None);
    let empty = vec![m("X", "", "")];
    assert_eq!(replaced_mod_folder(&empty, SpecificIndexTarget::Replace, 0), None);
    assert_eq!(replaced_mod_archive(&empty, SpecificIndexTarget::Replace, 0), None);
}

#[test]
fn launch_checks() {
    assert_eq!(launch_check(true, "/g", "wine"), Err(LaunchBlock::AlreadyRunning));
    assert_eq!(launch_check(false, "", "wine"), Err(LaunchBlock::MissingSettings));
    assert_eq!(launch_check(false, "/g", ""), Err(LaunchBlock::MissingSettings));
    assert_eq!(launch_check(false, "/g", "wine"), Ok(()));
    assert_eq!(
        LaunchBlock::AlreadyRunning.message(),
        "Game is already running. Please close it before launching again."
    );
}

#[test]
fn game_commands() {
    assert_eq!(
        game_command_line("wine %path%/bin/AnomalyDX11.exe -p %path%", "/home/u/.vfs"),
        "wine /home/u/.vfs/bin/AnomalyDX11.exe -p /home/u/.vfs"
    );
}

#[test]
fn law_command_without_placeholder_is_kept() {
    assert_eq!(game_command_line("steam -applaunch 1", "/x"), "steam -applaunch 1");
    assert_eq!(game_command_line("%pat%h", "/x"), "%pat%h");
}

#[test]
fn settings_keys() {
    assert_eq!(edited_setting_key(SettingsEditType::GamePath), Some("game_path"));
    assert_eq!(edited_setting_key(SettingsEditType::GameCommand), Some("game_command"));
    assert_eq!(edited_setting_key(SettingsEditType::Nothing), None);
}

#[test]
fn text_helpers() {
    assert!(str_lt("a", "b"));
    assert!(str_lt("a", "ab"));
    assert!(!str_lt("b", "ab"));
    assert!(!str_lt("a", "a"));
    assert!(str_lt("Z", "a"));
    assert_eq!(split_segments("/a//b/"), vec!["a".to_string(), "b".to_string()]);
    assert!(split_segments("").is_empty());
    assert_eq!(replace_all("aaa", "aa", "b"), "ba");
}

#[test]
fn names_and_versions_from_a_match() {
    let m = Some(("Big_Mod_".to_string(), "1_2".to_string(), "_final".to_string()));
    assert_eq!(archive_name_from_match("Big_Mod_v1_2_final", m), ("Big Mod final".to_string(), "1.2".to_string()));
    assert_eq!(archive_name_from_match("Plain-Mod", None), ("Plain Mod".to_string(), String::new()));
}

#[test]
fn entries_to_extract() {
    assert_eq!(entry_to_extract("gamedata/a.ltx", "gamedata/"), Some("a.ltx".to_string()));
    assert_eq!(entry_to_extract("gamedata/", "gamedata/"), None);
    assert_eq!(entry_to_extract("other/a.ltx", "gamedata/"), None);
    assert_eq!(entry_to_extract("", ""), Some(String::new()));
    assert_eq!(zip_entry_to_extract("gamedata/a.ltx", "gamedata/"), Some("a.ltx".to_string()));
    assert_eq!(zip_entry_to_extract("gamedata/", "gamedata/"), None);
    assert_eq!(zip_entry_to_extract("", ""), None);
    assert_eq!(zip_entry_to_extract("x", ""), Some("x".to_string()));
}

use superpatch::organize::{
    drag_allowed, drop_position, move_mod, next_organize_sort, place_mod, sort_organize_data, ModEntry,
    OrganizeSort, SortColumn, SpecificIndexTarget,
};

fn m(name: &str, category: &str) -> ModEntry {
    ModEntry {
        enabled: true,
        name: name.to_string(),
        path: format!("mods/{}", name),
        version: "1".to_string(),
        category: category.to_string(),
        archive: String::new(),
    }
}

fn names(order: &[ModEntry]) -> Vec<String> {
    order.iter().map(|e| e.name.clone()).collect()
}

fn order() -> Vec<ModEntry> {
    vec![m("b", "x"), m("a", "y"), m("c", "x"), m("a", "x")]
}

#[test]
fn priority_ascending_shows_the_order() {
    let rows = sort_organize_data(&order(), OrganizeSort::PriorityAsc);
    let got: Vec<(String, i64)> = rows.iter().map(|r| (r.name.clone(), r.priority)).collect();
    assert_eq!(
        got,
        vec![("b".to_string(), 0), ("a".to_string(), 1), ("c".to_string(), 2), ("a".to_string(), 3)]
    );
    assert_eq!(rows[0].path, "mods/b");
    assert_eq!(rows[0].version, "1");
    assert!(rows[0].enabled);
}

#[test]
fn priority_descending_reverses_the_order() {
    let rows = sort_organize_data(&order(), OrganizeSort::PriorityDesc);
    let got: Vec<i64> = rows.iter().map(|r| r.priority).collect();
    assert_eq!(got, vec![3, 2, 1, 0]);
}

#[test]
fn name_sort_is_stable() {
    let rows = sort_organize_data(&order(), OrganizeSort::NameAsc);
    let got: Vec<(String, i64)> = rows.iter().map(|r| (r.name.clone(), r.priority)).collect();
    assert_eq!(
        got,
        vec![("a".to_string(), 1), ("a".to_string(), 3), ("b".to_string(), 0), ("c".to_string(), 2)]
    );
    let rows = sort_organize_data(&order(), OrganizeSort::NameDesc);
    let got: Vec<(String, i64)> = rows.iter().map(|r| (r.name.clone(), r.priority)).collect();
    assert_eq!(
        got,
        vec![("c".to_string(), 2), ("b".to_string(), 0), ("a".to_string(), 1), ("a".to_string(), 3)]
    );
}

#[test]
fn category_sort() {
    let rows = sort_organize_data(&order(), OrganizeSort::CategoryDesc);
    let got: Vec<i64> = rows.iter().map(|r| r.priority).collect();
    assert_eq!(got, vec![1, 0, 2, 3]);
    let rows = sort_organize_data(&order(), OrganizeSort::CategoryAsc);
    let got: Vec<i64> = rows.iter().map(|r| r.priority).collect();
    assert_eq!(got, vec![0, 2, 3, 1]);
}

#[test]
fn empty_order_lists_nothing() {
    assert!(sort_organize_data(&Vec::new(), OrganizeSort::NameAsc).is_empty());
}

#[test]
fn header_clicks() {
    assert_eq!(next_organize_sort(OrganizeSort::PriorityAsc, SortColumn::Name), OrganizeSort::NameAsc);
    assert_eq!(next_organize_sort(OrganizeSort::NameAsc, SortColumn::Name), OrganizeSort::NameDesc);
    assert_eq!(next_organize_sort(OrganizeSort::NameDesc, SortColumn::Category), OrganizeSort::CategoryAsc);
    assert_eq!(next_organize_sort(OrganizeSort::PriorityAsc, SortColumn::Priority), OrganizeSort::PriorityDesc);
}

#[test]
fn law_two_clicks_on_the_sorted_column_restore_the_sort() {
    for (s, c) in [
        (OrganizeSort::NameAsc, SortColumn::Name),
        (OrganizeSort::NameDesc, SortColumn::Name),
        (OrganizeSort::CategoryAsc, SortColumn::Category),
        (OrganizeSort::CategoryDesc, SortColumn::Category),
        (OrganizeSort::PriorityAsc, SortColumn::Priority),
        (OrganizeSort::PriorityDesc, SortColumn::Priority),
    ] {
        assert_eq!(next_organize_sort(next_organize_sort(s, c), c), s);
    }
}

#[test]
fn dragging_only_by_priority() {
    assert!(drag_allowed(OrganizeSort::PriorityAsc));
    assert!(drag_allowed(OrganizeSort::PriorityDesc));
    assert!(!drag_allowed(OrganizeSort::NameAsc));
}

#[test]
fn drop_positions() {
    assert_eq!(drop_position(1, 4, false), 1);
    assert_eq!(drop_position(1, 4, true), 3);
}

#[test]
fn moving_mods() {
    let mut o = vec![m("A", ""), m("B", ""), m("C", "")];
    move_mod(&mut o, 0, 3);
    assert_eq!(names(&o), vec!["B", "C", "A"]);
    let mut o = vec![m("A", ""), m("B", ""), m("C", "")];
    move_mod(&mut o, 2, 0);
    assert_eq!(names(&o), vec!["C", "A", "B"]);
    let mut o = vec![m("A", ""), m("B", ""), m("C", "")];
    move_mod(&mut o, 0, 2);
    assert_eq!(names(&o), vec!["B", "A", "C"]);
}

#[test]
fn law_moving_keeps_every_mod() {
    let mut o = vec![m("A", ""), m("B", ""), m("C", ""), m("D", "")];
    move_mod(&mut o, 1, 4);
    let mut got = names(&o);
    assert_eq!(got[3], "B");
    got.sort();
    assert_eq!(got, vec!["A", "B", "C", "D"]);
}

#[test]
fn placing_an_installed_mod() {
    let mut o = vec![m("A", ""), m("B", "")];
    place_mod(&mut o, m("N", ""), SpecificIndexTarget::Last, 0);
    assert_eq!(names(&o), vec!["A", "B", "N"]);
    place_mod(&mut o, m("P", ""), SpecificIndexTarget::Before, 1);
    assert_eq!(names(&o), vec!["A", "P", "B", "N"]);
    place_mod(&mut o, m("R", ""), SpecificIndexTarget::Replace, 0);
    assert_eq!(names(&o), vec!["R", "P", "B", "N"]);
}

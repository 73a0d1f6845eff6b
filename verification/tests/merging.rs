use m2c::merge::{file_keys, keys_from, merge_keyed, merge_units, next_key, Merged, UnitTable};
use m2c::units::CompilationUnit;

fn unit(file: &str, mark: &str) -> CompilationUnit {
    CompilationUnit {
        directory: "/w".to_string(),
        file: file.to_string(),
        arguments: vec![mark.to_string()],
        output: None,
    }
}

fn marks(m: &Merged) -> Vec<(String, String)> {
    m.units.iter().map(|u| (u.file.clone(), u.arguments[0].clone())).collect()
}

fn pair(file: &str, mark: &str) -> (String, String) {
    (file.to_string(), mark.to_string())
}

#[test]
fn new_units_replace_and_follow() {
    let m = merge_units(
        vec![unit("a.c", "1"), unit("b.c", "2")],
        vec![unit("c.c", "3"), unit("a.c", "4")],
    );
    assert_eq!(m.known, 2);
    assert_eq!(m.duplicates, vec!["a.c".to_string()]);
    assert_eq!(marks(&m), vec![pair("a.c", "4"), pair("b.c", "2"), pair("c.c", "3")]);
}

#[test]
fn last_unit_of_a_file_wins() {
    let m = merge_units(
        vec![unit("a.c", "1"), unit("a.c", "2")],
        vec![unit("b.c", "3"), unit("b.c", "4")],
    );
    assert_eq!(m.known, 1);
    assert_eq!(m.duplicates, vec!["b.c".to_string()]);
    assert_eq!(marks(&m), vec![pair("a.c", "2"), pair("b.c", "4")]);
}

#[test]
fn paths_are_compared_by_their_components() {
    let m = merge_units(
        vec![unit("x/a.c", "1"), unit("./b.c", "2")],
        vec![unit("x//./a.c", "3"), unit("b.c", "4"), unit("/x/a.c", "5"), unit("x/../a.c", "6")],
    );
    assert_eq!(
        marks(&m),
        vec![
            pair("x//./a.c", "3"),
            pair("./b.c", "2"),
            pair("b.c", "4"),
            pair("/x/a.c", "5"),
            pair("x/../a.c", "6"),
        ]
    );
    assert_eq!(m.duplicates, vec!["x//./a.c".to_string()]);
}

#[test]
fn keys_are_shared_by_equal_files() {
    let keys = file_keys(
        &vec![unit("a.c", ""), unit("b.c", "")],
        &vec![unit("b.c", ""), unit("c.c", ""), unit("a.c/", "")],
    );
    assert_eq!(keys, vec![0, 1, 1, 3, 0]);
}

#[test]
fn merging_again_changes_nothing() {
    let new = || vec![unit("b.c", "3"), unit("a.c", "4"), unit("b.c", "5")];
    let once = merge_units(vec![unit("a.c", "1")], new());
    let before = marks(&once);
    let twice = merge_units(once.units, new());
    assert_eq!(marks(&twice), before);
    assert_eq!(twice.known, 2);
    assert_eq!(twice.duplicates.len(), 3);
}

#[test]
fn keys_decide_what_is_replaced() {
    let m = merge_keyed(
        vec![unit("a.c", "1")],
        vec![unit("b.c", "2"), unit("a.c", "3")],
        &vec![7, 7, 8],
    );
    assert_eq!(marks(&m), vec![pair("b.c", "2"), pair("a.c", "3")]);
    assert_eq!(m.duplicates, vec!["b.c".to_string()]);
}

#[test]
fn table_holds_one_unit_for_a_key() {
    let mut t = UnitTable::new();
    assert!(!t.insert(5, unit("a.c", "1")));
    assert!(!t.insert(3, unit("b.c", "2")));
    assert!(t.insert(5, unit("c.c", "3")));
    assert_eq!(t.len(), 2);
    let files: Vec<String> = t.into_units().into_iter().map(|u| u.file).collect();
    assert_eq!(files, vec!["c.c".to_string(), "b.c".to_string()]);
}

#[test]
fn nothing_merges_into_nothing() {
    assert_eq!(
        merge_units(vec![], vec![]),
        Merged { known: 0, duplicates: vec![], units: vec![] }
    );
}

#[test]
fn files_with_backslashes_and_drives_are_kept() {
    let m = merge_units(
        vec![unit("c:\\x\\a.c", "1"), unit("c:\\x\\b.c", "2")],
        vec![unit("c:\\y\\a.c", "3"), unit("//s/t/a.c", "4"), unit("c:\\x\\b.c", "5")],
    );
    assert_eq!(
        marks(&m),
        vec![
            pair("c:\\x\\a.c", "1"),
            pair("c:\\x\\b.c", "5"),
            pair("c:\\y\\a.c", "3"),
            pair("//s/t/a.c", "4"),
        ]
    );
}

#[test]
fn keys_go_by_the_first_yes() {
    assert_eq!(next_key(&vec![0, 1, 0], &vec![false, false, true]), 0);
    assert_eq!(next_key(&vec![0, 1, 0], &vec![false, true]), 1);
    assert_eq!(next_key(&vec![0, 1, 0], &vec![false, false, false]), 3);
    assert_eq!(
        keys_from(&vec![vec![], vec![false], vec![true], vec![false, false, true], vec![false; 4]]),
        vec![0, 1, 0, 0, 4]
    );
}

#[test]
fn portable_files_are_told_apart_beside_others() {
    let m = merge_units(
        vec![unit("c:\\p\\q.c", "1"), unit("x/a.c", "2"), unit("x/y.c", "3")],
        vec![unit("x//a.c", "4"), unit("xy.c", "5"), unit("x\\y.c", "6"), unit("c:\\p\\q.c", "7")],
    );
    assert_eq!(
        marks(&m),
        vec![
            pair("c:\\p\\q.c", "7"),
            pair("x//a.c", "4"),
            pair("x/y.c", "3"),
            pair("xy.c", "5"),
            pair("x\\y.c", "6"),
        ]
    );
    assert_eq!(m.duplicates, vec!["x//a.c".to_string(), "c:\\p\\q.c".to_string()]);
}

use m2c::reference::{solve_reference, VarDict};

fn dict(pairs: &[(&str, &str)]) -> VarDict {
    let mut d = VarDict::new();
    for (name, value) in pairs {
        d.insert(name.to_string(), value.to_string());
    }
    d
}

#[test]
fn text_without_references_stays() {
    let d = dict(&[("A", "x")]);
    for src in ["", "A", "$A", "$()", "$(A", "$(A\n)", "(A)", "$ (A)"] {
        assert_eq!(solve_reference(src, &d).unwrap(), src);
    }
}

#[test]
fn values_are_not_resolved_again() {
    let d = dict(&[("A", "$(B)"), ("B", "x")]);
    assert_eq!(solve_reference("$(A)$(B)", &d).unwrap(), "$(B)x");
}

#[test]
fn first_reference_and_rest_are_resolved_apart() {
    let d = dict(&[("A", "1"), ("B", "")]);
    assert_eq!(solve_reference("x$(A)y$(B)z$(C)", &d).unwrap(), "x1yz");
}

#[test]
fn names_run_to_the_first_parenthesis() {
    let d = dict(&[("A b", "1"), (")", "2"), ("$(C", "3")]);
    assert_eq!(solve_reference("$(A b))", &d).unwrap(), "1)");
    assert_eq!(solve_reference("$())", &d).unwrap(), "2");
    assert_eq!(solve_reference("$($(C)", &d).unwrap(), "3");
}

#[test]
fn references_stand_among_wide_characters() {
    let d = dict(&[("\u{e9}", "\u{1f600}")]);
    assert_eq!(solve_reference("\u{e4}$(\u{e9})\u{f6}", &d).unwrap(), "\u{e4}\u{1f600}\u{f6}");
}

#[test]
fn dictionary_sets_and_unsets() {
    let mut d = dict(&[("A", "1")]);
    d.insert("A".to_string(), "2".to_string());
    assert_eq!(d.get("A"), Some(&"2".to_string()));
    d.remove("A");
    d.remove("B");
    assert_eq!(d.get("A"), None);
    assert_eq!(solve_reference("<$(A)>", &d).unwrap(), "<>");
}

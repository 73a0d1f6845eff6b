use m2c::error::MakeError;
use m2c::recipes::{get_items, Entry, MakeRecipes, WorkingDir};
use m2c::syntax::SyntaxNode;

fn here() -> WorkingDir {
    WorkingDir::Path("/ws".to_string())
}

fn strings(items: &[&str]) -> Vec<String> {
    items.iter().map(|s| s.to_string()).collect()
}

fn entry(key: &str, items: &[&str]) -> Entry {
    Entry { key: key.to_string(), items: strings(items) }
}

fn node(kind: &str, start: usize, end: usize, depth: usize) -> SyntaxNode {
    SyntaxNode { kind: kind.to_string(), named: true, start, end, row: 0, column: start, depth }
}

#[test]
fn rules_give_commands_and_dependencies() {
    let src = "OUT = build\n\
        all: x\n\
        $(OUT)/a.obj b.obj : a.c  a.h\n\t\
        cc -c a.c\n\t\
        cc -c b.c\n";
    let make = MakeRecipes::parse_makefile(src, &here()).unwrap();
    assert_eq!(
        make.recipes,
        vec![entry("all", &[]), entry("build/a.obj b.obj", &["cc -c a.c", "cc -c b.c"])]
    );
    assert_eq!(
        make.depex_dict,
        vec![
            entry("all", &["x"]),
            entry("build/a.obj", &["a.c", "a.h"]),
            entry("b.obj", &["a.c", "a.h"])
        ]
    );
    assert_eq!(make.var_dict.get("OUT"), Some(&"build".to_string()));
    assert_eq!(make.var_dict.get("WORKSPACE"), Some(&"/ws".to_string()));
}

#[test]
fn rules_of_one_target_add_up() {
    let src = "a.obj: a.c a.h\n\tone\na.obj: a.h b.h\n\ttwo\n";
    let make = MakeRecipes::parse_makefile(src, &here()).unwrap();
    assert_eq!(make.recipes, vec![entry("a.obj", &["one", "two"])]);
    assert_eq!(make.depex_dict, vec![entry("a.obj", &["a.c", "a.h", "b.h"])]);
    assert_eq!(get_items(&make.recipes, "a.obj"), Some(&strings(&["one", "two"])));
    assert_eq!(get_items(&make.recipes, "b.obj"), None);
}

#[test]
fn references_see_what_was_assigned_before() {
    let src = "A = 1\nx: y\n\techo $(A)$(WORKSPACE)\nA = 2$(A)\nx: y\n\techo $(A)\n";
    let make = MakeRecipes::parse_makefile(src, &here()).unwrap();
    assert_eq!(make.recipes, vec![entry("x", &["echo 1/ws", "echo 21"])]);
    assert_eq!(make.var_dict.get("A"), Some(&"21".to_string()));
}

#[test]
fn assignment_without_value_unsets() {
    let src = "A = 1\nA =\nx: y\n\techo <$(A)>\n";
    let make = MakeRecipes::parse_makefile(src, &here()).unwrap();
    assert_eq!(make.var_dict.get("A"), None);
    assert_eq!(make.recipes, vec![entry("x", &["echo <>"])]);
}

#[test]
fn empty_makefile_says_nothing() {
    let make = MakeRecipes::parse_makefile("", &here()).unwrap();
    assert!(make.recipes.is_empty());
    assert!(make.depex_dict.is_empty());
    assert_eq!(make.var_dict.get("WORKSPACE"), Some(&"/ws".to_string()));
}

#[test]
fn text_outside_the_grammar_is_reported() {
    let err = MakeRecipes::parse_makefile("a: b\n\techo\n)(\n", &here()).err();
    assert!(matches!(err, Some(MakeError::ErrorNode { .. })));
}

#[test]
fn working_directory_is_needed() {
    let src = "a: b\n\techo\n";
    assert_eq!(
        MakeRecipes::parse_makefile(src, &WorkingDir::Missing).err(),
        Some(MakeError::NoCurrentDir)
    );
    assert_eq!(
        MakeRecipes::parse_makefile(src, &WorkingDir::NotUtf8).err(),
        Some(MakeError::CurrentDirNotUtf8)
    );
}

#[test]
fn nodes_are_read_in_order() {
    // a: b c
    let src = "a: b\n\tc";
    let nodes = vec![
        node("makefile", 0, 7, 0),
        node("rule", 0, 7, 1),
        node("targets", 0, 1, 2),
        node("prerequisites", 3, 4, 2),
        node("recipe", 5, 7, 2),
        node("shell_text", 6, 7, 3),
    ];
    let make = MakeRecipes::from_nodes(&nodes, src, "w").unwrap();
    assert_eq!(make.recipes, vec![entry("a", &["c"])]);
    assert_eq!(make.depex_dict, vec![entry("a", &["b"])]);
}

#[test]
fn error_node_ends_the_reading() {
    let mut nodes = vec![node("makefile", 0, 1, 0), node("ERROR", 0, 1, 1), node("rule", 0, 1, 1)];
    nodes[1].row = 3;
    nodes[1].column = 7;
    assert_eq!(
        MakeRecipes::from_nodes(&nodes, "a", "w").err(),
        Some(MakeError::ErrorNode { row: 3, column: 7 })
    );
}

#[test]
fn rule_without_targets_is_an_error() {
    // The targets that follow belong to another node.
    let nodes = vec![
        node("makefile", 0, 1, 0),
        node("rule", 0, 1, 1),
        node("word", 0, 1, 2),
        node("targets", 0, 1, 1),
    ];
    assert_eq!(MakeRecipes::from_nodes(&nodes, "a", "w").err(), Some(MakeError::NoTarget));
}

#[test]
fn assignment_without_name_is_an_error() {
    let mut nodes = vec![node("variable_assignment", 0, 1, 0), node("=", 0, 1, 1)];
    nodes[1].named = false;
    assert_eq!(MakeRecipes::from_nodes(&nodes, "=", "w").err(), Some(MakeError::NoVariableName));
}

#[test]
fn node_inside_a_character_is_an_error() {
    let nodes = vec![node("rule", 0, 2, 0), node("targets", 0, 1, 1)];
    assert_eq!(
        MakeRecipes::from_nodes(&nodes, "\u{e9}", "w").err(),
        Some(MakeError::InvalidUtf8)
    );
}

#[test]
fn assignment_takes_its_named_children() {
    let mut nodes = vec![
        node("variable_assignment", 0, 7, 0),
        node("word", 0, 1, 1),
        node("=", 2, 3, 1),
        node("text", 4, 7, 1),
        node("inner", 5, 6, 2),
    ];
    nodes[2].named = false;
    let make = MakeRecipes::from_nodes(&nodes, "A = \\(b", "w").unwrap();
    assert_eq!(make.var_dict.get("A"), Some(&"(b".to_string()));
}

#[test]
fn keys_are_trimmed_and_targets_are_words() {
    let src = "A =\n$(A) a.obj  b.obj $(A): x.c $(A)  y.h\n\techo\n";
    let make = MakeRecipes::parse_makefile(src, &here()).unwrap();
    assert_eq!(make.recipes.len(), 1);
    assert_eq!(make.recipes[0].key, make.recipes[0].key.trim());
    let targets: Vec<&str> = make.recipes[0].key.split_whitespace().collect();
    for e in make.depex_dict.iter() {
        assert!(targets.contains(&e.key.as_str()));
        assert_eq!(e.items, strings(&["x.c", "y.h"]));
    }
    assert_eq!(make.depex_dict.len(), targets.len());
}

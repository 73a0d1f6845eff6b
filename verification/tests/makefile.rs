use m2c::escape::patch_error_syntax;
use m2c::reference::{solve_reference, VarDict};
use m2c::rule::parse_rule_node;
use m2c::syntax::TsWalker;

#[test]
fn test_patch_error_syntax() {
    let non_esc_sample = "# comment\n\
        NAME = value\n\
        NAME2 = root/$(NAME)";
    assert_eq!(patch_error_syntax(non_esc_sample), non_esc_sample);

    let esc_sample = "# comment\n\
        NAME = \\value\n\
        NAME2 = $(NAME)\n\
        NAME3 = value \"test\" \\$(NAME) ((abc))\\\n\t\
        CCD";
    let esced_sample = "# comment\n\
        NAME = \\\\value\n\
        NAME2 = $(NAME)\n\
        NAME3 = value \\\"test\\\" \\\\$(NAME) \\(\\(abc\\)\\)\\\n\t\
        CCD";
    assert_eq!(patch_error_syntax(esc_sample), esced_sample);
}

#[test]
fn test_tree_walker() {
    let esced_sample = "# comment\n\
        NAME = value\n\
        NAME2 = $(NAME)\n\
        NAME3 = value \\\"test\\\" $(NAME) \\(\\(abc\\)\\)\n\
        all: dep1 dep2\n\t\
        echo hi1\n\t\
        echo hi2\n";

    let mut ts_parser = tree_sitter::Parser::new();
    ts_parser.set_language(&tree_sitter_make::LANGUAGE.into()).unwrap();
    let tree = ts_parser.parse(esced_sample, None).expect("Not able to parse the makefile");
    let walker = TsWalker::from(tree.walk());
    let nodes = walker.collect_nodes();
    for node in nodes.iter() {
        println!("{:?}", node);
    }
    assert_eq!(nodes.len(), 38);
}

#[test]
fn test_parse_rule_node() {
    let sample = "all: dep1 dep2\n\t\
    echo hi1\n\t\
    echo hi2\n";

    let mut ts_parser = tree_sitter::Parser::new();
    ts_parser.set_language(&tree_sitter_make::LANGUAGE.into()).unwrap();
    let tree = ts_parser.parse(sample, None).expect("Not able to parse the input");
    let nodes = TsWalker::from(tree.walk()).collect_nodes();
    for i in 0..nodes.len() {
        if nodes[i].kind == "rule" {
            let (target, prereq, cmd) = parse_rule_node(&nodes, i, sample).unwrap();
            assert_eq!(target, "all");
            assert_eq!(prereq, Some("dep1 dep2".to_string()));
            assert_eq!(cmd, vec!["echo hi1".to_string(), "echo hi2".to_string()]);
            return;
        }
    }
    panic!("No rule node found");
}

#[test]
fn test_solve_reference() {
    let mut dict = VarDict::new();
    dict.insert("VAR".to_string(), "VAL".to_string());
    assert_eq!(solve_reference("ABC$(VAR)DDE$(VAR)DDD", &dict).unwrap(), "ABCVALDDEVALDDD");
    assert_eq!(solve_reference("ABCDDD$(NON)EE", &dict).unwrap(), "ABCDDDEE");
}

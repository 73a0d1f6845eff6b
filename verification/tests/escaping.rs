use m2c::escape::{
    find_escape_positions, insert_backslashes, nmake_preprocess, patch_error_syntax,
    try_patch_error_syntax, unescape_str, value_escapes,
};
use m2c::pattern::Capture;

#[test]
fn directives_are_commented_out() {
    let src = "A = 1\n!INCLUDE <tools.mak>\nB = 2\n  !INCLUDE a\\b.mak\n";
    assert_eq!(
        nmake_preprocess(src).unwrap(),
        "A = 1\n#!INCLUDE <tools.mak>\nB = 2\n  #!INCLUDE a\\b.mak\n"
    );
}

#[test]
fn directive_runs_to_the_end_of_its_line() {
    assert_eq!(nmake_preprocess("!INCLUDE a !INCLUDE b").unwrap(), "#!INCLUDE a !INCLUDE b");
    assert_eq!(nmake_preprocess("!INCLUDE\n\n a\nb").unwrap(), "#!INCLUDE\n\n a\nb");
    assert_eq!(nmake_preprocess("!INCLUDE  ").unwrap(), "#!INCLUDE  ");
    assert_eq!(nmake_preprocess("!INCLUDE <").unwrap(), "#!INCLUDE <");
}

#[test]
fn text_without_directives_stays() {
    for src in ["", "A = 1\n", "!include a", "!INCLUDE", "!INCLUDE ", "!INCLUDE\n", "!INCLUDEa b"] {
        assert_eq!(nmake_preprocess(src).unwrap(), src);
    }
}

#[test]
fn preprocessing_adds_signs_alone() {
    let src = "# a\n!INCLUDE b # c\nd\n!INCLUDE e";
    let out = nmake_preprocess(src).unwrap();
    assert_eq!(out.replace('#', ""), src.replace('#', ""));
    assert_eq!(out.len(), src.len() + 2);
}

#[test]
fn continued_lines_are_joined() {
    assert_eq!(unescape_str("a\\\n   b"), "a b");
    assert_eq!(unescape_str("a\\\r\n\t b"), "a b");
    assert_eq!(unescape_str("a \\\n\n\n b"), "a  b");
    assert_eq!(unescape_str("a\nb"), "a\nb");
}

#[test]
fn escapes_are_undone() {
    assert_eq!(unescape_str(r#"\(a\) \"b\" \\c \d"#), r#"(a) "b" \c \d"#);
    assert_eq!(unescape_str(r"\\\("), r"\(");
    assert_eq!(unescape_str("a\\"), "a\\");
    // Lines are joined first, and what comes of it is read for escapes.
    assert_eq!(unescape_str("\\\\\n("), "\\ (");
}

#[test]
fn text_without_backslashes_is_left_alone() {
    for src in ["", "cl /c \"a b.c\"", "$(X) (y)", "a\n b"] {
        assert_eq!(unescape_str(src), src);
    }
}

#[test]
fn special_characters_of_values_are_found() {
    assert_eq!(value_escapes("a(b)\"c"), vec![1, 3, 4]);
    assert_eq!(value_escapes("$(X)(y)"), vec![4, 6]);
    assert_eq!(value_escapes("$(X\"(y)z)"), vec![8]);
    assert_eq!(value_escapes("$x(y)"), vec![2, 4]);
    assert_eq!(value_escapes("$(X"), Vec::<usize>::new());
    assert_eq!(value_escapes("$(A)$(B)"), Vec::<usize>::new());
}

#[test]
fn positions_are_counted_from_the_value() {
    let captures = vec![
        Capture { start: 0, end: 6, group: Some((4, 6)) },
        Capture { start: 7, end: 8, group: None },
        Capture { start: 8, end: 12, group: Some((10, 12)) },
    ];
    assert_eq!(find_escape_positions("A = ()\n#B=\"\"", &captures), vec![4, 5, 10, 11]);
}

#[test]
fn backslashes_go_before_the_positions() {
    assert_eq!(insert_backslashes("abc", &vec![0, 1, 1, 3]), "\\a\\\\bc\\");
    assert_eq!(insert_backslashes("\u{e9}a", &vec![2]), "\u{e9}\\a");
    assert_eq!(insert_backslashes("abc", &vec![]), "abc");
}

#[test]
fn values_are_escaped() {
    assert_eq!(patch_error_syntax("A = (b) \"c\""), "A = \\(b\\) \\\"c\\\"");
    assert_eq!(patch_error_syntax("A=$(B)(c)"), "A=$(B)\\(c\\)");
    assert_eq!(patch_error_syntax("A = x \\\n (y)\n"), "A = x \\\n \\(y\\)\n");
    assert_eq!(patch_error_syntax("A = \\(b"), "A = \\\\\\(b");
}

#[test]
fn only_assignments_are_escaped() {
    assert_eq!(patch_error_syntax(" A = (b)"), " A = (b)");
    assert_eq!(patch_error_syntax("a.b = (c)"), "a.b = (c)");
    assert_eq!(patch_error_syntax("all: (b)\n\techo \"c\"\n"), "all: (b)\n\techo \"c\"\n");
    assert_eq!(patch_error_syntax("all:\n\ttype a\\b\n"), "all:\n\ttype a\\\\b\n");
}

#[test]
fn backslashes_before_line_ends_stay() {
    assert_eq!(patch_error_syntax("a\\\nb\\\r\nc\\"), "a\\\nb\\\r\nc\\");
}

#[test]
fn every_ascii_text_can_be_patched() {
    for src in ["", "A = (b)", "A = $((", "\\\\\\", "A = \\\n(\n)"] {
        assert_eq!(try_patch_error_syntax(src), Some(patch_error_syntax(src)));
    }
}

#[test]
fn wide_characters_move_the_backslashes() {
    // A position is a byte offset plus a count of characters.
    assert_eq!(try_patch_error_syntax("A = \u{e9}a("), Some("A = \u{e9}\\a(".to_string()));
    assert_eq!(try_patch_error_syntax("\u{c4} = ("), Some("\u{c4} = \\(".to_string()));
    assert_eq!(try_patch_error_syntax("A = \u{e9}("), None);
}

#[test]
fn values_come_back() {
    for v in [
        "a",
        "c:\\x\\y (z)",
        "\\\\server\\share",
        "\\\\\\x",
        "\"a b\" $(C\\d) \\(e\\)",
        "\\\\",
        "a\\",
        "\\\\(",
        "\\\\\r",
        "a\nb",
    ] {
        let text = format!("A = {}", v.replace('\n', " "));
        let patched = patch_error_syntax(&text);
        assert_eq!(unescape_str(&patched[4..]), v.replace('\n', " "));
    }
}

#[test]
fn four_backslashes_lose_one() {
    let patched = patch_error_syntax("A = \\\\\\\\x");
    assert_eq!(unescape_str(&patched[4..]), "\\\\\\x");
}

#[test]
fn commands_come_back() {
    for c in ["cl /c c:\\a\\b.c", "echo \"a\\\"b\" (c)", "\\\\x", "\\\\\\x"] {
        assert_eq!(unescape_str(&patch_error_syntax(&format!("\t{}", c))), format!("\t{}", c));
    }
}

#[test]
fn two_backslashes_before_a_quotation_mark_lose_one() {
    assert_eq!(unescape_str(&patch_error_syntax("\t\"a\\\\\"")), "\t\"a\\\"");
}

#[test]
fn parts_that_end_with_a_line_are_patched_apart() {
    let parts = ["A = (b)\n", "\tc:\\d\n", "E = f\\\n\"g\"\n", "\n", "H = $(I)(j)"];
    let whole: String = parts.concat();
    let apart: String = parts.iter().map(|p| patch_error_syntax(p)).collect();
    assert_eq!(patch_error_syntax(&whole), apart);
    // A continued line is not the end of a value.
    assert_eq!(patch_error_syntax("A = \\\n(b)"), "A = \\\n\\(b\\)");
    assert_eq!(patch_error_syntax("(b)"), "(b)");
}

#[test]
fn assignment_keeps_all_but_its_value() {
    assert_eq!(patch_error_syntax("A_1  =   \\x (\"y\")"), "A_1  =   \\\\x \\(\\\"y\\\"\\)");
    assert_eq!(patch_error_syntax("A="), "A=");
}

#[test]
fn wide_text_with_nothing_to_escape_stays() {
    for src in ["\u{c4} = \u{e9} x\n", "# \u{1f600}\nA = \u{e9}\n"] {
        assert_eq!(try_patch_error_syntax(src), Some(src.to_string()));
    }
}

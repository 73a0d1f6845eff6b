use m2c::error::MakeError;
use m2c::recipes::{Entry, MakeRecipes, WorkingDir};
use m2c::reference::VarDict;
use m2c::run::{
    flatten_words, is_library_makefile, is_makefile_name, is_nested_makefile, read_makefile, Action,
    MakeRun, RunError,
};
use m2c::units::{Lookup, UnitError};

fn here() -> WorkingDir {
    WorkingDir::Path("/ws".to_string())
}

fn some(s: &str) -> Option<String> {
    Some(s.to_string())
}

#[test]
fn makefile_is_read_from_its_content() {
    let make = read_makefile(
        "!INCLUDE <x>\nCC = \"/bin/c c\" (x)\na.obj: a.c\n\t$(CC) /Fo\\o a.c\n",
        &here(),
    )
    .unwrap()
    .unwrap();
    assert_eq!(make.var_dict.get("CC"), Some(&"\"/bin/c c\" (x)".to_string()));
    assert_eq!(make.recipes[0].items, vec!["\"/bin/c c\" (x) /Fo\\o a.c".to_string()]);
}

#[test]
fn values_that_cannot_be_escaped_give_nothing() {
    assert!(read_makefile("A = \u{e9}(", &here()).is_none());
}

#[test]
fn words_of_library_commands_keep_their_backslashes() {
    let make = MakeRecipes {
        var_dict: VarDict::new(),
        recipes: vec![Entry {
            key: "gen_libs".to_string(),
            items: vec![
                "nmake /f x\\y\\Makefile".to_string(),
                "\"open".to_string(),
                "cd 'a b\\c'".to_string(),
            ],
        }],
        depex_dict: vec![],
    };
    assert_eq!(
        make.library_components(),
        vec![
            "nmake".to_string(),
            "/f".to_string(),
            "x\\y\\Makefile".to_string(),
            "cd".to_string(),
            "a b\\c".to_string(),
        ]
    );
}

#[test]
fn lists_are_flattened() {
    assert_eq!(
        flatten_words(vec![Some(vec!["a".to_string(), "b".to_string()]), None, Some(vec![]),
            Some(vec!["c".to_string()])]),
        vec!["a".to_string(), "b".to_string(), "c".to_string()]
    );
}

#[test]
fn makefiles_go_by_their_names() {
    assert!(is_nested_makefile(true, &some("Makefile"), &None));
    assert!(is_nested_makefile(true, &some("GNUmakefile"), &some("x")));
    assert!(is_nested_makefile(true, &None, &some(".mak")));
    assert!(!is_nested_makefile(true, &some("a.mak"), &some("mak")));
    assert!(!is_nested_makefile(false, &some("Makefile"), &None));
    assert!(!is_nested_makefile(true, &some("makefile"), &None));
    assert!(!is_nested_makefile(true, &None, &None));
    assert!(is_makefile_name("Makefile") && is_makefile_name("GNUmakefile"));
    assert!(!is_makefile_name("Makefile.in"));
}

#[test]
fn units_of_libraries_come_first() {
    let mut run = MakeRun::new(here());
    assert_eq!(
        run.enter("gen_libs:\n\tmake lib\\Makefile\n\tmake x\na.obj: a.c\n\t/cc a.c\n"),
        Ok(())
    );
    assert_eq!(run.advance(), Action::Probe("make".to_string()));
    assert_eq!(run.advance(), Action::Probe("lib\\Makefile".to_string()));
    assert_eq!(run.enter("b.obj: b.c\n\t/cc b.c\n"), Ok(()));
    assert_eq!(run.advance(), Action::Left);
    assert_eq!(run.advance(), Action::Probe("make".to_string()));
    assert_eq!(run.advance(), Action::Probe("x".to_string()));
    assert_eq!(run.advance(), Action::Left);
    assert_eq!(run.advance(), Action::Done);
    let units = run.into_units();
    assert_eq!(units.len(), 2);
    assert_eq!((units[0].file.as_str(), units[1].file.as_str()), ("b.c", "a.c"));
    assert_eq!(units[1].arguments, vec!["/cc".to_string(), "a.c".to_string()]);
    assert_eq!(units[1].directory, "/ws");
    assert_eq!(units[1].output, some("a.obj"));
}

#[test]
fn makefile_without_libraries_is_left_at_once() {
    let mut run = MakeRun::new(here());
    assert_eq!(run.advance(), Action::Done);
    assert_eq!(run.enter("all: x\n\techo\n"), Ok(()));
    assert_eq!(run.advance(), Action::Left);
    assert_eq!(run.advance(), Action::Done);
    assert!(run.into_units().is_empty());
}

#[test]
fn run_reports_what_fails() {
    let mut run = MakeRun::new(here());
    assert_eq!(run.enter("A = \u{e9}("), Err(RunError::Unpatchable));
    assert!(matches!(
        run.enter("a: b\n\techo\n)(\n"),
        Err(RunError::Make(MakeError::ErrorNode { .. }))
    ));
    assert_eq!(run.enter("a.obj: a.c\n\t/cc '\n"), Ok(()));
    assert_eq!(run.advance(), Action::Fail(RunError::Unit(UnitError::BadCommand)));
    let mut run = MakeRun::new(here());
    assert_eq!(run.enter("E =\na.obj: a.c\n\t$(E)\n"), Ok(()));
    assert_eq!(run.advance(), Action::Fail(RunError::NoCommand));
    let mut run = MakeRun::new(WorkingDir::Missing);
    assert_eq!(run.enter("a: b\n"), Err(RunError::Make(MakeError::NoCurrentDir)));
}

#[test]
fn words_are_makefiles_by_their_last_component() {
    for word in ["Makefile", "lib/Makefile", "/a/GNUmakefile", "a/./Makefile/", "../Makefile"] {
        assert!(is_library_makefile(word, true));
        assert!(!is_library_makefile(word, false));
    }
    for word in ["", "a.mak", ".mak", "a/.mak", "Makefile/..", "Makefile/x", "xMakefile", "."] {
        assert!(!is_library_makefile(word, true));
    }
}

#[test]
fn run_takes_what_is_known_of_executables() {
    let mut run = MakeRun::new(here());
    assert_eq!(run.enter("!INCLUDE <x.inc>\na.obj: a.c\n\t/bin/cl -c a.c\n"), Ok(()));
    assert_eq!(run.find_executables(), vec![Lookup::Absolute]);
    assert_eq!(run.advance_with(&vec![Lookup::Found("/y".to_string())]), Action::Left);
    assert_eq!(run.find_executables(), vec![]);
    assert_eq!(run.advance_with(&vec![]), Action::Done);
    let units = run.into_units();
    assert_eq!(units.len(), 1);
    assert_eq!(
        units[0].arguments,
        vec!["/y".to_string(), "-c".to_string(), "a.c".to_string()]
    );
}

#[test]
fn makefile_text_gives_its_unit() {
    let mut run = MakeRun::new(here());
    assert_eq!(run.enter("!INCLUDE <x.inc>\na.obj: a.c\n\t/bin/cl -c a.c\n"), Ok(()));
    assert_eq!(run.advance(), Action::Left);
    let units = run.into_units();
    assert_eq!(units.len(), 1);
    assert_eq!(units[0].directory, "/ws");
    assert_eq!(units[0].file, "a.c");
    assert_eq!(units[0].output, some("a.obj"));
    assert_eq!(
        units[0].arguments,
        vec!["/bin/cl".to_string(), "-c".to_string(), "a.c".to_string()]
    );
}

#[test]
fn libraries_are_taken_in_the_order_of_the_words() {
    let mut run = MakeRun::new(here());
    let leaf = |name: &str| format!("{0}.obj: {0}.c\n\t/cc\n", name);
    assert_eq!(run.enter(&format!("gen_libs:\n\tm1 m2\n{}", leaf("top"))), Ok(()));
    assert_eq!(run.advance(), Action::Probe("m1".to_string()));
    assert_eq!(run.enter(&format!("gen_libs:\n\tm3\n{}", leaf("one"))), Ok(()));
    assert_eq!(run.advance(), Action::Probe("m3".to_string()));
    assert_eq!(run.enter(&leaf("three")), Ok(()));
    assert_eq!((run.advance(), run.advance()), (Action::Left, Action::Left));
    assert_eq!(run.advance(), Action::Probe("m2".to_string()));
    assert_eq!(run.enter(&leaf("two")), Ok(()));
    assert_eq!((run.advance(), run.advance()), (Action::Left, Action::Left));
    assert_eq!(run.advance(), Action::Done);
    let files: Vec<String> = run.into_units().into_iter().map(|u| u.file).collect();
    assert_eq!(files.concat(), "three.cone.ctwo.ctop.c");
}

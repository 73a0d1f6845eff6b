use m2c::recipes::{Entry, MakeRecipes};
use m2c::reference::VarDict;
use m2c::units::{
    command_arguments, executable_name, job_unit, lookup_of, CompilationUnit, CompileJob, Lookup,
    UnitError,
};

fn strings(items: &[&str]) -> Vec<String> {
    items.iter().map(|s| s.to_string()).collect()
}

fn entry(key: &str, items: &[&str]) -> Entry {
    Entry { key: key.to_string(), items: strings(items) }
}

fn make(recipes: Vec<Entry>, depex_dict: Vec<Entry>) -> MakeRecipes {
    MakeRecipes { var_dict: VarDict::new(), recipes, depex_dict }
}

fn job(target: &str, file: &str, command: &str) -> CompileJob {
    CompileJob {
        target: target.to_string(),
        file: file.to_string(),
        command: command.to_string(),
    }
}

fn unit(directory: &str, file: &str, arguments: &[&str], output: &str) -> CompilationUnit {
    CompilationUnit {
        directory: directory.to_string(),
        file: file.to_string(),
        arguments: strings(arguments),
        output: Some(output.to_string()),
    }
}

#[test]
fn jobs_are_objects_from_sources() {
    let m = make(
        vec![
            entry("a.obj all  b.obj", &["one", "two"]),
            entry("c.obj", &["three"]),
            entry("d.obj", &["four"]),
            entry("e.objs", &["five"]),
        ],
        vec![
            entry("a.obj", &["a.c", "a.h", "x.cpp"]),
            entry("all", &["a.c"]),
            entry("b.obj", &["b.cc", "b.C"]),
            entry("c.obj", &[".c", "c"]),
            entry("e.objs", &["e.c"]),
        ],
    );
    assert_eq!(
        m.compile_jobs(),
        vec![
            job("a.obj", "a.c", "one"),
            job("a.obj", "a.c", "two"),
            job("a.obj", "x.cpp", "one"),
            job("a.obj", "x.cpp", "two"),
            job("c.obj", ".c", "three"),
        ]
    );
}

#[test]
fn unit_takes_the_path_that_was_found() {
    let j = job("a.obj", "a.c", "unused");
    assert_eq!(
        job_unit(
            &j,
            Some("/w"),
            Some(strings(&["cc", "-c"])),
            &Lookup::Found("/usr/bin/cc".to_string())
        ),
        Some(Ok(unit("/w", "a.c", &["/usr/bin/cc", "-c"], "a.obj")))
    );
    assert_eq!(
        job_unit(&j, Some("/w"), Some(strings(&["/cc"])), &Lookup::Absolute),
        Some(Ok(unit("/w", "a.c", &["/cc"], "a.obj")))
    );
}

#[test]
fn unit_errors_come_in_order() {
    let j = job("a.obj", "a.c", "unused");
    assert_eq!(job_unit(&j, None, None, &Lookup::Missing), Some(Err(UnitError::BadCommand)));
    assert_eq!(job_unit(&j, None, Some(vec![]), &Lookup::Missing), None);
    assert_eq!(
        job_unit(&j, None, Some(strings(&["cc"])), &Lookup::Missing),
        Some(Err(UnitError::NotFound("cc".to_string())))
    );
    assert_eq!(
        job_unit(&j, None, Some(strings(&["cc"])), &Lookup::NotUtf8),
        Some(Err(UnitError::ExecutableNotUtf8))
    );
    assert_eq!(
        job_unit(&j, None, Some(strings(&["cc"])), &Lookup::Absolute),
        Some(Err(UnitError::NoCurrentDir))
    );
}

#[test]
fn commands_are_split_and_their_backslashes_turned() {
    let m = make(
        vec![entry("a.obj", &["/bin/cl  /c \"a b\"\\c.c 'd e'", "/x"])],
        vec![entry("a.obj", &["a.c"])],
    );
    assert_eq!(
        m.generate_compilation_units(Some("/w")),
        Ok(vec![
            unit("/w", "a.c", &["/bin/cl", "/c", "a b/c.c", "d e"], "a.obj"),
            unit("/w", "a.c", &["/x"], "a.obj"),
        ])
    );
}

#[test]
fn executables_are_looked_up() {
    let up = "../".repeat(30);
    let command = format!("{}bin/sh -c", up);
    let m = make(vec![entry("a.obj", &[command.as_str()])], vec![entry("a.obj", &["a.c"])]);
    let units = m.generate_compilation_units(Some("/w")).unwrap();
    assert_eq!(units.len(), 1);
    let path = &units[0].arguments[0];
    assert!(path.starts_with('/') && path.ends_with("bin/sh"));
    assert_eq!(units[0].arguments[1], "-c");
}

#[test]
fn missing_executable_is_an_error() {
    let m = make(
        vec![entry("a.obj", &["/ok", "no-such-tool-anywhere x", "'"])],
        vec![entry("a.obj", &["a.c"])],
    );
    assert_eq!(
        m.generate_compilation_units(Some("/w")),
        Err(UnitError::NotFound("no-such-tool-anywhere".to_string()))
    );
}

#[test]
fn open_quote_is_an_error() {
    let m = make(vec![entry("a.obj", &["/ok 'x"])], vec![entry("a.obj", &["a.c"])]);
    assert_eq!(m.generate_compilation_units(Some("/w")), Err(UnitError::BadCommand));
}

#[test]
fn directory_is_needed_for_units() {
    let m = make(vec![entry("a.obj", &["/ok"])], vec![entry("a.obj", &["a.c"])]);
    assert_eq!(m.generate_compilation_units(None), Err(UnitError::NoCurrentDir));
    let none = make(vec![entry("a.obj", &["/ok"])], vec![]);
    assert_eq!(none.generate_compilation_units(None), Ok(vec![]));
}

#[test]
fn blank_command_gives_nothing() {
    let m = make(vec![entry("a.obj", &["/ok", " \t"])], vec![entry("a.obj", &["a.c"])]);
    assert_eq!(m.try_compilation_units(Some("/w")), None);
    // An error before it is reported.
    let m = make(vec![entry("a.obj", &["'", " \t"])], vec![entry("a.obj", &["a.c"])]);
    assert_eq!(m.try_compilation_units(Some("/w")), Some(Err(UnitError::BadCommand)));
}

#[test]
fn first_argument_is_the_executable() {
    assert_eq!(executable_name(&Some(strings(&["cc", "-c"]))), Some("cc"));
    assert_eq!(executable_name(&Some(vec![])), None);
    assert_eq!(executable_name(&None), None);
}

#[test]
fn answers_are_told_apart() {
    let path = || Some(Ok(Some("/bin/cc".to_string())));
    assert_eq!(lookup_of(true, None), Lookup::Absolute);
    assert_eq!(lookup_of(true, path()), Lookup::Absolute);
    assert_eq!(lookup_of(false, path()), Lookup::Found("/bin/cc".to_string()));
    assert_eq!(lookup_of(false, Some(Ok(None))), Lookup::NotUtf8);
    assert_eq!(
        lookup_of(false, Some(Err(which::Error::CannotFindBinaryPath))),
        Lookup::Missing
    );
    assert_eq!(lookup_of(false, None), Lookup::Missing);
}

#[test]
fn arguments_are_words_without_quotes() {
    assert_eq!(
        command_arguments("cl  \"-I/my inc\"x 'a\"b' c\\d \"\""),
        Some(strings(&["cl", "-I/my incx", "a\"b", "c/d", ""]))
    );
    assert_eq!(command_arguments(" \t"), Some(vec![]));
    assert_eq!(command_arguments("a 'b"), None);
}

#[test]
fn absolute_commands_give_their_units() {
    let m = make(
        vec![entry("a.obj", &["/bin/cl /c src\\a.c"])],
        vec![entry("a.obj", &["a.c", "a.h"])],
    );
    let expected = || Ok(vec![unit("/w", "a.c", &["/bin/cl", "/c", "src/a.c"], "a.obj")]);
    assert_eq!(m.units_with(Some("/w"), &vec![Lookup::Absolute]), Some(expected()));
    assert_eq!(m.find_executables(), vec![Lookup::Absolute]);
    assert_eq!(m.generate_compilation_units(Some("/w")), expected());
}

#[test]
fn targets_give_units_one_by_one() {
    let m = make(
        vec![entry("a.obj x.lib b.obj", &["/bin/cl z"])],
        vec![entry("a.obj", &["a.c"]), entry("x.lib", &["x.c"]), entry("b.obj", &["b.cpp"])],
    );
    assert_eq!(
        m.generate_compilation_units(Some("/w")),
        Ok(vec![
            unit("/w", "a.c", &["/bin/cl", "z"], "a.obj"),
            unit("/w", "b.cpp", &["/bin/cl", "z"], "b.obj"),
        ])
    );
}

#[test]
fn quoted_arguments_come_out_unquoted() {
    let m = make(
        vec![entry("a.obj", &["/bin/cl \"-I/my inc\" a.c", "/bin/q a.c"])],
        vec![entry("a.obj", &["a.c"])],
    );
    assert_eq!(
        m.generate_compilation_units(Some("/w")),
        Ok(vec![
            unit("/w", "a.c", &["/bin/cl", "-I/my inc", "a.c"], "a.obj"),
            unit("/w", "a.c", &["/bin/q", "a.c"], "a.obj"),
        ])
    );
}

#[test]
fn lookups_stop_at_the_first_that_fails() {
    let m = make(
        vec![entry("a.obj", &["/a", "no-such-tool-anywhere", "/b"]), entry("b", &["'"])],
        vec![entry("a.obj", &["a.c"])],
    );
    assert_eq!(
        m.find_executables(),
        vec![Lookup::Absolute, Lookup::Missing, Lookup::Missing]
    );
    // A command of no job causes no error.
    assert_eq!(
        m.units_with(
            Some("/w"),
            &vec![Lookup::Absolute, Lookup::Found("/t".to_string()), Lookup::Absolute]
        ),
        Some(Ok(vec![
            unit("/w", "a.c", &["/a"], "a.obj"),
            unit("/w", "a.c", &["/t"], "a.obj"),
            unit("/w", "a.c", &["/b"], "a.obj"),
        ]))
    );
}

#[test]
fn relative_executables_are_searched_for() {
    let m = make(vec![entry("a.obj", &["no/such/cl x"])], vec![entry("a.obj", &["a.c"])]);
    assert_eq!(
        m.generate_compilation_units(Some("/w")),
        Err(UnitError::NotFound("no/such/cl".to_string()))
    );
}

#[test]
fn error_before_a_blank_command_is_given() {
    let m = make(vec![entry("a.obj", &["'", " "])], vec![entry("a.obj", &["a.c"])]);
    assert_eq!(m.generate_compilation_units(Some("/w")), Err(UnitError::BadCommand));
}

//! Compilation units: one for each command that makes an object file from a
//! source file.

use vstd::prelude::*;
use vstd::string::*;

use crate::command::{
    law_blank_lines, lemma_twice_none, parse_command, quoted_words, words_view,
};
use crate::recipes::{get_items, items_of, EntryView, MakeRecipes, RecipesView};
use crate::rule::text_view;
use crate::text::{
    ends_with, has_suffix, is_blank, is_white_space, split_whitespace, substitute, substituted,
    views, words,
};

verus! {

// ---------------------------------------------------------------------------
// The calls into the which crate and into std
// ---------------------------------------------------------------------------

#[verifier::external_type_specification]
#[verifier::external_body]
pub struct ExWhichError(which::Error);

/// Calls `which::which`, and hands on the path that it found, unless that is no
/// UTF-8. It claims nothing of the result, which depends on the directories that
/// are searched for executables.
#[verifier::external_body]
fn which_path(name: &str) -> (r: Result<Option<String>, which::Error>) {
    which::which(name).map(|path| path.to_str().map(|text| text.to_string()))
}

/// Whether a path begins with a separator, or with a drive.
pub open spec fn is_anchored(s: Seq<char>) -> bool {
    ||| s.len() > 0 && (s[0] == '/' || s[0] == '\\')
    ||| s.len() > 1 && s[1] == ':'
}

/// Calls `std::path::Path::is_absolute`. It claims that an absolute path begins with
/// the root or with a prefix, which is a drive or begins with separators. It does not
/// say which of these paths are absolute, because that depends on the platform.
#[verifier::external_body]
fn is_absolute(path: &str) -> (r: bool)
    ensures
        r ==> is_anchored(path@),
{
    std::path::Path::new(path).is_absolute()
}

// ---------------------------------------------------------------------------
// Jobs
// ---------------------------------------------------------------------------

/// A command that makes a target from a file.
#[derive(Debug, PartialEq, Eq)]
pub struct CompileJob {
    pub target: String,
    pub file: String,
    pub command: String,
}

/// What a job stands for.
pub struct JobView {
    pub target: Seq<char>,
    pub file: Seq<char>,
    pub command: Seq<char>,
}

impl View for CompileJob {
    type V = JobView;

    open spec fn view(&self) -> JobView {
        JobView { target: self.target@, file: self.file@, command: self.command@ }
    }
}

/// The views of the jobs of `v`.
pub open spec fn job_views(v: Seq<CompileJob>) -> Seq<JobView> {
    Seq::new(v.len(), |i: int| v[i]@)
}

/// Whether a target is an object file.
pub open spec fn is_object(target: Seq<char>) -> bool {
    has_suffix(target, ".obj"@)
}

/// Whether a file is a C or C++ source.
pub open spec fn is_source(file: Seq<char>) -> bool {
    has_suffix(file, ".c"@) || has_suffix(file, ".cpp"@)
}

/// The jobs for one target and one file: one for each command, if the file is a
/// source.
pub open spec fn file_jobs(
    target: Seq<char>,
    file: Seq<char>,
    commands: Seq<Seq<char>>,
) -> Seq<JobView> {
    if is_source(file) {
        Seq::new(commands.len(), |i: int| JobView { target, file, command: commands[i] })
    } else {
        Seq::empty()
    }
}

/// The jobs for one target and the first `n` of the files that it depends on.
pub open spec fn files_jobs(
    target: Seq<char>,
    files: Seq<Seq<char>>,
    commands: Seq<Seq<char>>,
    n: int,
) -> Seq<JobView>
    decreases n,
{
    if n <= 0 {
        Seq::empty()
    } else {
        files_jobs(target, files, commands, n - 1) + file_jobs(target, files[n - 1], commands)
    }
}

/// The jobs for one target: none, unless it is an object file that something is
/// known of that it depends on.
pub open spec fn target_jobs(
    target: Seq<char>,
    depex: Seq<EntryView>,
    commands: Seq<Seq<char>>,
) -> Seq<JobView> {
    match items_of(depex, target) {
        Some(files) => if is_object(target) {
            files_jobs(target, files, commands, files.len() as int)
        } else {
            Seq::empty()
        },
        None => Seq::empty(),
    }
}

/// The jobs for the first `n` of the targets.
pub open spec fn targets_jobs(
    targets: Seq<Seq<char>>,
    depex: Seq<EntryView>,
    commands: Seq<Seq<char>>,
    n: int,
) -> Seq<JobView>
    decreases n,
{
    if n <= 0 {
        Seq::empty()
    } else {
        targets_jobs(targets, depex, commands, n - 1) + target_jobs(
            targets[n - 1],
            depex,
            commands,
        )
    }
}

/// The jobs of one recipe.
pub open spec fn recipe_jobs(recipe: EntryView, depex: Seq<EntryView>) -> Seq<JobView> {
    targets_jobs(words(recipe.key), depex, recipe.items, words(recipe.key).len() as int)
}

/// The jobs of the first `n` recipes.
pub open spec fn jobs_upto(v: RecipesView, n: int) -> Seq<JobView>
    decreases n,
{
    if n <= 0 {
        Seq::empty()
    } else {
        jobs_upto(v, n - 1) + recipe_jobs(v.recipes[n - 1], v.depex)
    }
}

/// The jobs of a makefile: recipe by recipe, target by target, file by file and
/// command by command.
pub open spec fn jobs_of(v: RecipesView) -> Seq<JobView> {
    jobs_upto(v, v.recipes.len() as int)
}

/// Adds the jobs for one target and one file.
fn push_file_jobs(jobs: &mut Vec<CompileJob>, target: &str, file: &str, commands: &Vec<String>)
    ensures
        job_views(final(jobs)@) == job_views(old(jobs)@) + file_jobs(
            target@,
            file@,
            views(commands@),
        ),
{
    let ghost before = job_views(jobs@);
    let ghost all = file_jobs(target@, file@, views(commands@));
    if !(ends_with(file, ".c") || ends_with(file, ".cpp")) {
        assert(before + all == before);
        return;
    }
    let mut k: usize = 0;
    assert(before + all.take(0) == before);
    while k < commands.len()
        invariant
            k <= commands@.len(),
            is_source(file@),
            all == file_jobs(target@, file@, views(commands@)),
            job_views(jobs@) == before + all.take(k as int),
        decreases commands@.len() - k,
    {
        let ghost sofar = job_views(jobs@);
        jobs.push(
            CompileJob {
                target: target.to_string(),
                file: file.to_string(),
                command: commands[k].clone(),
            },
        );
        assert(job_views(jobs@) == sofar.push(all[k as int]));
        k += 1;
    }
    assert(all.take(k as int) == all);
}

/// Adds the jobs for one target.
fn push_target_jobs(
    jobs: &mut Vec<CompileJob>,
    target: &str,
    make: &MakeRecipes,
    commands: &Vec<String>,
)
    ensures
        job_views(final(jobs)@) == job_views(old(jobs)@) + target_jobs(
            target@,
            make@.depex,
            views(commands@),
        ),
{
    let ghost before = job_views(jobs@);
    if !ends_with(target, ".obj") {
        assert(before + Seq::empty() == before);
        return;
    }
    let files = match get_items(&make.depex_dict, target) {
        Some(files) => files,
        None => {
            assert(before + Seq::empty() == before);
            return;
        },
    };
    let mut k: usize = 0;
    assert(before + Seq::empty() == before);
    while k < files.len()
        invariant
            k <= files@.len(),
            job_views(jobs@) == before + files_jobs(
                target@,
                views(files@),
                views(commands@),
                k as int,
            ),
        decreases files@.len() - k,
    {
        let ghost sofar = files_jobs(target@, views(files@), views(commands@), k as int);
        push_file_jobs(jobs, target, files[k].as_str(), commands);
        proof {
            assert(views(files@)[k as int] == files@[k as int]@);
            let more = file_jobs(target@, files@[k as int]@, views(commands@));
            assert(before + sofar + more == before + (sofar + more));
        }
        k += 1;
    }
}

impl MakeRecipes {
    /// Lists the jobs of the makefile.
    pub fn compile_jobs(&self) -> (r: Vec<CompileJob>)
        ensures
            job_views(r@) == jobs_of(self@),
    {
        let mut jobs: Vec<CompileJob> = Vec::new();
        let mut i: usize = 0;
        assert(job_views(jobs@) == Seq::<JobView>::empty());
        while i < self.recipes.len()
            invariant
                i <= self.recipes@.len(),
                job_views(jobs@) == jobs_upto(self@, i as int),
            decreases self.recipes@.len() - i,
        {
            let recipe = &self.recipes[i];
            let targets = split_whitespace(recipe.key.as_str());
            let ghost before = job_views(jobs@);
            assert(self@.recipes[i as int] == recipe@);
            let mut k: usize = 0;
            assert(before + Seq::empty() == before);
            while k < targets.len()
                invariant
                    k <= targets@.len(),
                    job_views(jobs@) == before + targets_jobs(
                        views(targets@),
                        self@.depex,
                        views(recipe.items@),
                        k as int,
                    ),
                decreases targets@.len() - k,
            {
                let ghost sofar = targets_jobs(
                    views(targets@),
                    self@.depex,
                    views(recipe.items@),
                    k as int,
                );
                push_target_jobs(&mut jobs, targets[k].as_str(), self, &recipe.items);
                proof {
                    assert(views(targets@)[k as int] == targets@[k as int]@);
                    let more = target_jobs(
                        targets@[k as int]@,
                        self@.depex,
                        views(recipe.items@),
                    );
                    assert(before + sofar + more == before + (sofar + more));
                }
                k += 1;
            }
            assert(views(targets@).len() == targets@.len());
            i += 1;
        }
        jobs
    }
}

// ---------------------------------------------------------------------------
// Units
// ---------------------------------------------------------------------------

/// One entry of a compilation database: the directory to compile in, the source
/// file, the command as the list of its arguments, and what it makes.
#[derive(Debug, PartialEq, Eq)]
pub struct CompilationUnit {
    pub directory: String,
    pub file: String,
    pub arguments: Vec<String>,
    pub output: Option<String>,
}

/// What a unit stands for.
pub struct UnitView {
    pub directory: Seq<char>,
    pub file: Seq<char>,
    pub arguments: Seq<Seq<char>>,
    pub output: Option<Seq<char>>,
}

impl View for CompilationUnit {
    type V = UnitView;

    open spec fn view(&self) -> UnitView {
        UnitView {
            directory: self.directory@,
            file: self.file@,
            arguments: views(self.arguments@),
            output: text_view(self.output),
        }
    }
}

/// The views of the units of `v`.
pub open spec fn unit_views(v: Seq<CompilationUnit>) -> Seq<UnitView> {
    Seq::new(v.len(), |i: int| v[i]@)
}

/// What is known of the executable that a command names.
#[derive(Debug, PartialEq, Eq)]
pub enum Lookup {
    /// The name is an absolute path already.
    Absolute,
    /// The executable is at this path.
    Found(String),
    /// The path of the executable is no UTF-8.
    NotUtf8,
    /// There is no such executable.
    Missing,
}

/// What a lookup stands for.
pub enum LookupView {
    Absolute,
    Found(Seq<char>),
    NotUtf8,
    Missing,
}

impl View for Lookup {
    type V = LookupView;

    open spec fn view(&self) -> LookupView {
        match self {
            Lookup::Absolute => LookupView::Absolute,
            Lookup::Found(path) => LookupView::Found(path@),
            Lookup::NotUtf8 => LookupView::NotUtf8,
            Lookup::Missing => LookupView::Missing,
        }
    }
}

/// Why a job gives no unit.
#[derive(Debug, PartialEq, Eq)]
pub enum UnitError {
    /// The command line cannot be split into arguments.
    BadCommand,
    /// There is no executable of this name.
    NotFound(String),
    /// The path of the executable is no UTF-8.
    ExecutableNotUtf8,
    /// There is no current directory.
    NoCurrentDir,
}

/// What an error stands for.
pub enum UnitErrorView {
    BadCommand,
    NotFound(Seq<char>),
    ExecutableNotUtf8,
    NoCurrentDir,
}

impl View for UnitError {
    type V = UnitErrorView;

    open spec fn view(&self) -> UnitErrorView {
        match self {
            UnitError::BadCommand => UnitErrorView::BadCommand,
            UnitError::NotFound(name) => UnitErrorView::NotFound(name@),
            UnitError::ExecutableNotUtf8 => UnitErrorView::ExecutableNotUtf8,
            UnitError::NoCurrentDir => UnitErrorView::NoCurrentDir,
        }
    }
}

/// What becomes of a job whose command has these arguments, once the executable
/// that they name was looked up. Nothing becomes of one without arguments.
pub open spec fn job_outcome(
    job: JobView,
    directory: Option<Seq<char>>,
    arguments: Option<Seq<Seq<char>>>,
    lookup: LookupView,
) -> Option<Result<UnitView, UnitErrorView>> {
    match arguments {
        None => Some(Err(UnitErrorView::BadCommand)),
        Some(arguments) => if arguments.len() == 0 {
            None
        } else {
            Some(unit_of(job, directory, arguments, lookup))
        },
    }
}

/// The unit of a job whose command has these arguments, of which there is one.
pub open spec fn unit_of(
    job: JobView,
    directory: Option<Seq<char>>,
    arguments: Seq<Seq<char>>,
    lookup: LookupView,
) -> Result<UnitView, UnitErrorView> {
    match (lookup, directory) {
        (LookupView::Missing, _) => Err(UnitErrorView::NotFound(arguments[0])),
        (LookupView::NotUtf8, _) => Err(UnitErrorView::ExecutableNotUtf8),
        (_, None) => Err(UnitErrorView::NoCurrentDir),
        (_, Some(directory)) => Ok(
            UnitView {
                directory,
                file: job.file,
                arguments: match lookup {
                    LookupView::Found(path) => arguments.update(0, path),
                    _ => arguments,
                },
                output: Some(job.target),
            },
        ),
    }
}

/// The view of a text that may be missing.
pub open spec fn str_view(t: Option<&str>) -> Option<Seq<char>> {
    match t {
        Some(t) => Some(t@),
        None => None,
    }
}

/// The view of what becomes of a job.
pub open spec fn unit_view(r: Option<Result<CompilationUnit, UnitError>>) -> Option<
    Result<UnitView, UnitErrorView>,
> {
    match r {
        Some(Ok(unit)) => Some(Ok(unit@)),
        Some(Err(e)) => Some(Err(e@)),
        None => None,
    }
}

/// Makes the unit of a job from the arguments of its command and what is known of
/// the executable.
pub fn job_unit(
    job: &CompileJob,
    directory: Option<&str>,
    arguments: Option<Vec<String>>,
    lookup: &Lookup,
) -> (r: Option<Result<CompilationUnit, UnitError>>)
    ensures
        unit_view(r) == job_outcome(job@, str_view(directory), words_view(arguments), lookup@),
{
    let mut arguments = match arguments {
        Some(arguments) => arguments,
        None => {
            return Some(Err(UnitError::BadCommand));
        },
    };
    if arguments.len() == 0 {
        return None;
    }
    let ghost given = views(arguments@);
    match lookup {
        Lookup::Absolute => {},
        Lookup::Found(path) => {
            arguments.set(0, path.clone());
            assert(views(arguments@) == given.update(0, path@));
        },
        Lookup::NotUtf8 => {
            return Some(Err(UnitError::ExecutableNotUtf8));
        },
        Lookup::Missing => {
            return Some(Err(UnitError::NotFound(arguments[0].clone())));
        },
    }
    match directory {
        Some(directory) => Some(
            Ok(
                CompilationUnit {
                    directory: directory.to_string(),
                    file: job.file.clone(),
                    arguments,
                    output: Some(job.target.clone()),
                },
            ),
        ),
        None => Some(Err(UnitError::NoCurrentDir)),
    }
}

/// The arguments of a command: its words, with slashes in place of backslashes.
pub open spec fn arguments_of(command: Seq<char>) -> Option<Seq<Seq<char>>> {
    quoted_words(substituted(command, '\\', "/"@))
}

/// Splits a command into its arguments.
pub fn command_arguments(command: &str) -> (r: Option<Vec<String>>)
    ensures
        words_view(r) == arguments_of(command@),
{
    let line = substitute(command, '\\', "/");
    proof {
        lemma_slashes(command@);
        assert forall|i: int| 0 <= i < line@.len() implies (#[trigger] line@[i]) != '\\' by {}
        lemma_twice_none(line@);
    }
    parse_command(line.as_str())
}

/// The units of the first `n` jobs, given what is known of each executable, or the
/// first error among them. There is nothing to say from the first command on that
/// has no arguments.
pub open spec fn units_upto(
    jobs: Seq<JobView>,
    directory: Option<Seq<char>>,
    lookups: Seq<LookupView>,
    n: int,
) -> Option<Result<Seq<UnitView>, UnitErrorView>>
    decreases n,
{
    if n <= 0 {
        Some(Ok(Seq::empty()))
    } else {
        match units_upto(jobs, directory, lookups, n - 1) {
            Some(Ok(units)) => {
                let job = jobs[n - 1];
                match job_outcome(job, directory, arguments_of(job.command), lookups[n - 1]) {
                    Some(Ok(unit)) => Some(Ok(units.push(unit))),
                    Some(Err(e)) => Some(Err(e)),
                    None => None,
                }
            },
            done => done,
        }
    }
}

/// The units of all jobs.
pub open spec fn units_of(
    jobs: Seq<JobView>,
    directory: Option<Seq<char>>,
    lookups: Seq<LookupView>,
) -> Option<Result<Seq<UnitView>, UnitErrorView>> {
    units_upto(jobs, directory, lookups, jobs.len() as int)
}

/// The view of units or an error.
pub open spec fn units_view(r: Result<Vec<CompilationUnit>, UnitError>) -> Result<
    Seq<UnitView>,
    UnitErrorView,
> {
    match r {
        Ok(units) => Ok(unit_views(units@)),
        Err(e) => Err(e@),
    }
}

/// The name of the executable: the first of the arguments, if there is one.
pub open spec fn first_argument(arguments: Option<Seq<Seq<char>>>) -> Option<Seq<char>> {
    match arguments {
        Some(arguments) => if arguments.len() > 0 {
            Some(arguments[0])
        } else {
            None
        },
        None => None,
    }
}

/// Whether this is what `Path::is_absolute` can answer, asked of this very name.
pub closed spec fn absolute_answer(name: Seq<char>, answer: bool) -> bool {
    exists|n: &str| n@ == name && #[trigger] call_ensures(is_absolute, (n,), answer)
}

/// Whether this is what a search can bring, made for this very name.
pub closed spec fn search_answer(
    name: Seq<char>,
    found: Result<Option<String>, which::Error>,
) -> bool {
    exists|n: &str| n@ == name && #[trigger] call_ensures(which_path, (n,), found)
}

/// What a search brought, as a lookup.
pub open spec fn search_lookup(found: Result<Option<String>, which::Error>) -> LookupView {
    match found {
        Ok(Some(path)) => LookupView::Found(path@),
        Ok(None) => LookupView::NotUtf8,
        Err(_) => LookupView::Missing,
    }
}

/// Whether a lookup is what was answered for this very name: whether it is an absolute
/// path, and where it is none, what the search for it brought.
pub open spec fn lookup_answers(name: Seq<char>, lookup: LookupView) -> bool {
    if lookup is Absolute {
        absolute_answer(name, true)
    } else {
        absolute_answer(name, false) && exists|found: Result<Option<String>, which::Error>|
            #[trigger] search_answer(name, found) && lookup == search_lookup(found)
    }
}

/// Whether a lookup can be that of the executable that the arguments name: it is what was
/// answered for the name, and a name that is not anchored is no absolute path; where the
/// arguments name none, nothing is found.
pub open spec fn lookup_fits(arguments: Option<Seq<Seq<char>>>, lookup: LookupView) -> bool {
    match first_argument(arguments) {
        Some(name) => lookup_answers(name, lookup) && (lookup is Absolute ==> is_anchored(name)),
        None => lookup is Missing,
    }
}

/// Whether a job gives no unit: its command cannot be split, or its executable is not
/// found, or found at a path that is no UTF-8.
pub open spec fn job_fails(job: JobView, lookup: LookupView) -> bool {
    arguments_of(job.command) is None || lookup is Missing || lookup is NotUtf8
}

/// Whether one of the first `n` jobs gives no unit.
pub open spec fn some_job_fails(jobs: Seq<JobView>, lookups: Seq<LookupView>, n: int) -> bool {
    exists|j: int| 0 <= j < n && job_fails(#[trigger] jobs[j], lookups[j])
}

/// Whether there is one lookup for each job, which fits the job's command. Behind a job
/// that gives no unit nothing need be looked up.
pub open spec fn lookups_fit(jobs: Seq<JobView>, lookups: Seq<LookupView>) -> bool {
    &&& lookups.len() == jobs.len()
    &&& forall|k: int|
        0 <= k < jobs.len() ==> lookup_fits(
            arguments_of((#[trigger] jobs[k]).command),
            lookups[k],
        ) || (lookups[k] is Missing && some_job_fails(jobs, lookups, k))
}

/// Whether `r` is what becomes of the jobs of a makefile for some outcome of
/// looking up the executables.
pub open spec fn units_for(
    v: RecipesView,
    directory: Option<Seq<char>>,
    r: Option<Result<Seq<UnitView>, UnitErrorView>>,
) -> bool {
    exists|lookups: Seq<LookupView>|
        lookups_fit(jobs_of(v), lookups) && r == #[trigger] units_of(
            jobs_of(v),
            directory,
            lookups,
        )
}

/// Whether every job of a makefile has a command that is not blank.
pub open spec fn commands_given(v: RecipesView) -> bool {
    forall|k: int| 0 <= k < jobs_of(v).len() ==> !is_blank((#[trigger] jobs_of(v)[k]).command)
}

/// Whether no blank command of a makefile is reached, whatever is known of the
/// executables: an error comes before it.
pub open spec fn reaches_no_blank(v: RecipesView, directory: Option<Seq<char>>) -> bool {
    forall|lookups: Seq<LookupView>|
        lookups_fit(jobs_of(v), lookups) ==> (#[trigger] units_of(
            jobs_of(v),
            directory,
            lookups,
        )) is Some
}

/// Where every job has a command, no blank one is reached.
pub proof fn law_commands_given(v: RecipesView, directory: Option<Seq<char>>)
    requires
        commands_given(v),
    ensures
        reaches_no_blank(v, directory),
{
    let jobs = jobs_of(v);
    assert forall|lookups: Seq<LookupView>| lookups_fit(jobs, lookups) implies (
    #[trigger] units_of(jobs, directory, lookups)) is Some by {
        if units_of(jobs, directory, lookups) is None {
            lemma_units_none(jobs, directory, lookups, jobs.len() as int);
            let k = choose|k: int|
                0 <= k < jobs.len() && arguments_of((#[trigger] jobs[k]).command) == Some(
                    Seq::<Seq<char>>::empty(),
                );
            law_blank_commands(jobs[k].command);
        }
    }
}

/// Where nothing is to say of jobs, a command among them has no arguments.
proof fn lemma_units_none(
    jobs: Seq<JobView>,
    directory: Option<Seq<char>>,
    lookups: Seq<LookupView>,
    n: int,
)
    requires
        units_upto(jobs, directory, lookups, n) is None,
    ensures
        exists|k: int|
            0 <= k < n && arguments_of((#[trigger] jobs[k]).command) == Some(
                Seq::<Seq<char>>::empty(),
            ),
    decreases n,
{
    if units_upto(jobs, directory, lookups, n - 1) is None {
        lemma_units_none(jobs, directory, lookups, n - 1);
    } else {
        let arguments = arguments_of(jobs[n - 1].command);
        assert(arguments->0 =~= Seq::<Seq<char>>::empty());
    }
}

proof fn lemma_units_done(
    jobs: Seq<JobView>,
    directory: Option<Seq<char>>,
    lookups: Seq<LookupView>,
    k: int,
    n: int,
)
    requires
        0 <= k <= n,
        !(units_upto(jobs, directory, lookups, k) matches Some(Ok(_))),
    ensures
        units_upto(jobs, directory, lookups, n) == units_upto(jobs, directory, lookups, k),
    decreases n - k,
{
    if k < n {
        lemma_units_done(jobs, directory, lookups, k, n - 1);
    }
}

/// Slashes in place of backslashes change nothing else.
proof fn lemma_slashes(s: Seq<char>)
    ensures
        substituted(s, '\\', "/"@).len() == s.len(),
        forall|i: int|
            0 <= i < s.len() ==> #[trigger] substituted(s, '\\', "/"@)[i] == (if s[i] == '\\' {
                '/'
            } else {
                s[i]
            }),
    decreases s.len(),
{
    reveal_strlit("/");
    if s.len() > 0 {
        lemma_slashes(s.drop_last());
    }
}

/// The commands without arguments are the blank ones.
pub proof fn law_blank_commands(command: Seq<char>)
    ensures
        arguments_of(command) == Some(Seq::<Seq<char>>::empty()) <==> is_blank(command),
{
    let line = substituted(command, '\\', "/"@);
    lemma_slashes(command);
    law_blank_lines(line);
    if is_blank(line) {
        assert forall|i: int| 0 <= i < command.len() implies is_white_space(
            #[trigger] command[i],
        ) by {
            assert(is_white_space(line[i]));
        }
    }
}

/// The name of the executable that is to be looked up: the first of the arguments, if
/// there is one.
pub fn executable_name<'a>(arguments: &'a Option<Vec<String>>) -> (r: Option<&'a str>)
    ensures
        str_view(r) == first_argument(words_view(*arguments)),
{
    match arguments {
        Some(arguments) => if arguments.len() > 0 {
            Some(arguments[0].as_str())
        } else {
            None
        },
        None => None,
    }
}

/// What is known of an executable, from whether its name is an absolute path, and from
/// what a search for it brought: its path, a path that is no UTF-8, or nothing.
pub fn lookup_of(absolute: bool, found: Option<Result<Option<String>, which::Error>>) -> (r:
    Lookup)
    ensures
        absolute ==> r is Absolute,
        !absolute ==> match found {
            Some(Ok(Some(path))) => r@ == LookupView::Found(path@),
            Some(Ok(None)) => r is NotUtf8,
            _ => r is Missing,
        },
{
    if absolute {
        return Lookup::Absolute;
    }
    match found {
        Some(Ok(Some(path))) => Lookup::Found(path),
        Some(Ok(None)) => Lookup::NotUtf8,
        _ => Lookup::Missing,
    }
}

/// Looks up the executable that the arguments name. What is asked, and what is searched
/// for where the answer is no, is that very name; what is made of both answers
/// `lookup_of` says. Which answers there are is left unsaid, because they depend on the
/// platform and on the directories that are searched.
fn look_up(arguments: &Option<Vec<String>>) -> (r: Lookup)
    ensures
        lookup_fits(words_view(*arguments), r@),
{
    match executable_name(arguments) {
        Some(name) => {
            let absolute = is_absolute(name);
            assert(call_ensures(is_absolute, (name,), absolute));
            if absolute {
                return lookup_of(true, None);
            }
            let found = which_path(name);
            assert(call_ensures(which_path, (name,), found));
            assert(search_answer(name@, found));
            lookup_of(false, Some(found))
        },
        None => lookup_of(false, None),
    }
}

/// The views of the lookups of `v`.
pub open spec fn lookup_views(v: Seq<Lookup>) -> Seq<LookupView> {
    Seq::new(v.len(), |i: int| v[i]@)
}

/// The view of what becomes of all jobs.
pub open spec fn outcome_view(r: Option<Result<Vec<CompilationUnit>, UnitError>>) -> Option<
    Result<Seq<UnitView>, UnitErrorView>,
> {
    match r {
        Some(r) => Some(units_view(r)),
        None => None,
    }
}

impl MakeRecipes {
    /// Looks up the executables of all jobs, one after the other. Behind the first job
    /// that can give no unit nothing is looked up any more.
    pub fn find_executables(&self) -> (r: Vec<Lookup>)
        ensures
            lookups_fit(jobs_of(self@), lookup_views(r@)),
    {
        let jobs = self.compile_jobs();
        let ghost all = jobs_of(self@);
        let mut r: Vec<Lookup> = Vec::new();
        let mut stopped = false;
        let mut k: usize = 0;
        while k < jobs.len()
            invariant
                k <= jobs@.len(),
                all == job_views(jobs@),
                r@.len() == k,
                stopped ==> some_job_fails(all, lookup_views(r@), k as int),
                forall|i: int|
                    0 <= i < k ==> lookup_fits(
                        arguments_of((#[trigger] all[i]).command),
                        lookup_views(r@)[i],
                    ) || (lookup_views(r@)[i] is Missing && some_job_fails(
                        all,
                        lookup_views(r@),
                        i,
                    )),
            decreases jobs@.len() - k,
        {
            let ghost before = lookup_views(r@);
            assert(all[k as int] == jobs@[k as int]@);
            let lookup = if stopped {
                Lookup::Missing
            } else {
                look_up(&command_arguments(jobs[k].command.as_str()))
            };
            let fails = match &lookup {
                Lookup::Missing | Lookup::NotUtf8 => true,
                _ => false,
            };
            r.push(lookup);
            proof {
                let after = lookup_views(r@);
                assert(after == before.push(lookup@));
                assert forall|i: int| 0 <= i <= k && some_job_fails(
                    all,
                    before,
                    i,
                ) implies #[trigger] some_job_fails(all, after, i) by {
                    let j = choose|j: int| 0 <= j < i && job_fails(#[trigger] all[j], before[j]);
                    assert(job_fails(all[j], after[j]));
                }
                if stopped {
                    assert(some_job_fails(all, after, k as int));
                    let j = choose|j: int| 0 <= j < k && job_fails(#[trigger] all[j], after[j]);
                    assert(job_fails(all[j], after[j]));
                    assert(some_job_fails(all, after, k + 1));
                }
                if fails {
                    assert(job_fails(all[k as int], after[k as int]));
                    assert(some_job_fails(all, after, k + 1));
                }
                assert forall|i: int| 0 <= i < k + 1 implies lookup_fits(
                    arguments_of((#[trigger] all[i]).command),
                    after[i],
                ) || (after[i] is Missing && some_job_fails(all, after, i)) by {
                    if i < k {
                        assert(after[i] == before[i]);
                    }
                }
            }
            stopped = stopped || fails;
            k += 1;
        }
        r
    }

    /// Makes the units of the makefile, in the order of its jobs, or gives the first
    /// error, from what is known of the executable of each job. Nothing comes back where
    /// a blank command is reached.
    pub fn units_with(&self, directory: Option<&str>, lookups: &Vec<Lookup>) -> (r: Option<
        Result<Vec<CompilationUnit>, UnitError>,
    >)
        requires
            lookups@.len() == jobs_of(self@).len(),
        ensures
            outcome_view(r) == units_of(
                jobs_of(self@),
                str_view(directory),
                lookup_views(lookups@),
            ),
    {
        let jobs = self.compile_jobs();
        let ghost all = jobs_of(self@);
        let ghost dir = str_view(directory);
        let ghost known = lookup_views(lookups@);
        let mut units: Vec<CompilationUnit> = Vec::new();
        let mut k: usize = 0;
        assert(unit_views(units@) == Seq::<UnitView>::empty());
        while k < jobs.len()
            invariant
                k <= jobs@.len(),
                lookups@.len() == jobs@.len(),
                all == jobs_of(self@),
                all == job_views(jobs@),
                dir == str_view(directory),
                known == lookup_views(lookups@),
                units_upto(all, dir, known, k as int) == Some(
                    Ok::<Seq<UnitView>, UnitErrorView>(unit_views(units@)),
                ),
            decreases jobs@.len() - k,
        {
            let ghost sofar = unit_views(units@);
            assert(all[k as int] == jobs@[k as int]@);
            assert(known[k as int] == lookups@[k as int]@);
            proof {
                if !(units_upto(all, dir, known, k + 1) matches Some(Ok(_))) {
                    lemma_units_done(all, dir, known, k + 1, all.len() as int);
                }
            }
            let arguments = command_arguments(jobs[k].command.as_str());
            match job_unit(&jobs[k], directory, arguments, &lookups[k]) {
                Some(Ok(unit)) => {
                    units.push(unit);
                    assert(unit_views(units@) == sofar.push(unit@));
                },
                Some(Err(e)) => {
                    return Some(Err(e));
                },
                None => {
                    return None;
                },
            }
            k += 1;
        }
        Some(Ok(units))
    }

    /// Looks up the executables of the makefile and makes its units of what was found.
    /// Nothing comes back where a blank command is reached.
    pub fn try_compilation_units(&self, directory: Option<&str>) -> (r: Option<
        Result<Vec<CompilationUnit>, UnitError>,
    >)
        ensures
            units_for(self@, str_view(directory), outcome_view(r)),
            r is None ==> !commands_given(self@),
    {
        let lookups = self.find_executables();
        proof {
            if commands_given(self@) {
                law_commands_given(self@, str_view(directory));
            }
        }
        self.units_with(directory, &lookups)
    }

    /// Makes the units of a makefile of which no blank command is reached, as where it
    /// gives every job a command.
    pub fn generate_compilation_units(&self, directory: Option<&str>) -> (r: Result<
        Vec<CompilationUnit>,
        UnitError,
    >)
        requires
            reaches_no_blank(self@, str_view(directory)),
        ensures
            units_for(self@, str_view(directory), Some(units_view(r))),
    {
        match self.try_compilation_units(directory) {
            Some(r) => r,
            None => Ok(Vec::new()),
        }
    }
}

// ---------------------------------------------------------------------------
// Laws
// ---------------------------------------------------------------------------

/// Whether target `t` of recipe `r`, the `f`-th file that it depends on and command
/// `c` of the recipe make a job: the target is an object file and the file a source.
pub open spec fn makes_job(v: RecipesView, r: int, t: int, f: int, c: int) -> bool {
    &&& 0 <= r < v.recipes.len()
    &&& 0 <= t < words(v.recipes[r].key).len()
    &&& is_object(words(v.recipes[r].key)[t])
    &&& items_of(v.depex, words(v.recipes[r].key)[t]) is Some
    &&& 0 <= f < items_of(v.depex, words(v.recipes[r].key)[t])->0.len()
    &&& is_source(items_of(v.depex, words(v.recipes[r].key)[t])->0[f])
    &&& 0 <= c < v.recipes[r].items.len()
}

/// The job that they make.
pub open spec fn job_at(v: RecipesView, r: int, t: int, f: int, c: int) -> JobView {
    let target = words(v.recipes[r].key)[t];
    JobView {
        target,
        file: items_of(v.depex, target)->0[f],
        command: v.recipes[r].items[c],
    }
}

proof fn lemma_concat_contains(a: Seq<JobView>, b: Seq<JobView>, x: JobView)
    ensures
        (a + b).contains(x) == (a.contains(x) || b.contains(x)),
{
    if a.contains(x) {
        assert((a + b)[a.index_of(x)] == x);
    }
    if b.contains(x) {
        assert((a + b)[a.len() + b.index_of(x)] == x);
    }
    if (a + b).contains(x) {
        let i = (a + b).index_of(x);
        if i < a.len() {
            assert(a[i] == x);
        } else {
            assert(b[i - a.len()] == x);
        }
    }
}

proof fn lemma_files_jobs(
    target: Seq<char>,
    files: Seq<Seq<char>>,
    commands: Seq<Seq<char>>,
    n: int,
    x: JobView,
)
    ensures
        files_jobs(target, files, commands, n).contains(x) == (exists|f: int|
            0 <= f < n && file_jobs(target, #[trigger] files[f], commands).contains(x)),
    decreases n,
{
    if n > 0 {
        lemma_files_jobs(target, files, commands, n - 1, x);
        lemma_concat_contains(
            files_jobs(target, files, commands, n - 1),
            file_jobs(target, files[n - 1], commands),
            x,
        );
    }
}

proof fn lemma_targets_jobs(
    targets: Seq<Seq<char>>,
    depex: Seq<EntryView>,
    commands: Seq<Seq<char>>,
    n: int,
    x: JobView,
)
    ensures
        targets_jobs(targets, depex, commands, n).contains(x) == (exists|t: int|
            0 <= t < n && target_jobs(#[trigger] targets[t], depex, commands).contains(x)),
    decreases n,
{
    if n > 0 {
        lemma_targets_jobs(targets, depex, commands, n - 1, x);
        lemma_concat_contains(
            targets_jobs(targets, depex, commands, n - 1),
            target_jobs(targets[n - 1], depex, commands),
            x,
        );
    }
}

proof fn lemma_jobs_upto(v: RecipesView, n: int, x: JobView)
    ensures
        jobs_upto(v, n).contains(x) == (exists|r: int|
            0 <= r < n && recipe_jobs(#[trigger] v.recipes[r], v.depex).contains(x)),
    decreases n,
{
    if n > 0 {
        lemma_jobs_upto(v, n - 1, x);
        lemma_concat_contains(
            jobs_upto(v, n - 1),
            recipe_jobs(v.recipes[n - 1], v.depex),
            x,
        );
    }
}

/// Every job comes from a target that is an object file, from a C or C++ source that
/// it depends on, and from a command of its recipe.
pub proof fn law_jobs_sound(v: RecipesView, job: JobView)
    requires
        jobs_of(v).contains(job),
    ensures
        exists|r: int, t: int, f: int, c: int|
            #[trigger] makes_job(v, r, t, f, c) && job == job_at(v, r, t, f, c),
{
    lemma_jobs_upto(v, v.recipes.len() as int, job);
    let r = choose|r: int|
        0 <= r < v.recipes.len() && recipe_jobs(#[trigger] v.recipes[r], v.depex).contains(job);
    let targets = words(v.recipes[r].key);
    let commands = v.recipes[r].items;
    lemma_targets_jobs(targets, v.depex, commands, targets.len() as int, job);
    let t = choose|t: int|
        0 <= t < targets.len() && target_jobs(#[trigger] targets[t], v.depex, commands).contains(
            job,
        );
    let files = items_of(v.depex, targets[t])->0;
    lemma_files_jobs(targets[t], files, commands, files.len() as int, job);
    let f = choose|f: int|
        0 <= f < files.len() && file_jobs(targets[t], #[trigger] files[f], commands).contains(job);
    let c = file_jobs(targets[t], files[f], commands).index_of(job);
    assert(makes_job(v, r, t, f, c));
    assert(job == job_at(v, r, t, f, c));
}

/// Every target that is an object file, every C or C++ source that it depends on and
/// every command of its recipe make a job.
pub proof fn law_jobs_complete(v: RecipesView, r: int, t: int, f: int, c: int)
    requires
        makes_job(v, r, t, f, c),
    ensures
        jobs_of(v).contains(job_at(v, r, t, f, c)),
{
    let job = job_at(v, r, t, f, c);
    let targets = words(v.recipes[r].key);
    let commands = v.recipes[r].items;
    let files = items_of(v.depex, targets[t])->0;
    assert(file_jobs(targets[t], files[f], commands)[c] == job);
    lemma_files_jobs(targets[t], files, commands, files.len() as int, job);
    assert(target_jobs(targets[t], v.depex, commands).contains(job));
    lemma_targets_jobs(targets, v.depex, commands, targets.len() as int, job);
    assert(recipe_jobs(v.recipes[r], v.depex).contains(job));
    lemma_jobs_upto(v, v.recipes.len() as int, job);
}

/// Where all jobs give units, there is one unit for each job, in order, with the
/// directory, the file and the target of the job, and with the arguments of its
/// command. The first of them is the path that was found, or an absolute path.
pub proof fn law_units_follow_jobs(
    jobs: Seq<JobView>,
    directory: Option<Seq<char>>,
    lookups: Seq<LookupView>,
    n: int,
    k: int,
)
    requires
        0 <= k < n,
        units_upto(jobs, directory, lookups, n) matches Some(Ok(_)),
    ensures
        units_upto(jobs, directory, lookups, n)->0->Ok_0.len() == n,
        ({
            let unit = units_upto(jobs, directory, lookups, n)->0->Ok_0[k];
            &&& directory == Some(unit.directory)
            &&& unit.file == jobs[k].file
            &&& unit.output == Some(jobs[k].target)
            &&& arguments_of(jobs[k].command) is Some
            &&& unit.arguments.len() == arguments_of(jobs[k].command)->0.len()
            &&& unit.arguments.len() > 0
            &&& unit.arguments.skip(1) == arguments_of(jobs[k].command)->0.skip(1)
            &&& match lookups[k] {
                LookupView::Found(path) => unit.arguments[0] == path,
                LookupView::Absolute => unit.arguments[0] == arguments_of(jobs[k].command)->0[0],
                _ => false,
            }
        }),
    decreases n,
{
    let arguments = arguments_of(jobs[n - 1].command);
    assert(job_outcome(jobs[n - 1], directory, arguments, lookups[n - 1]) matches Some(Ok(_)));
    if n == 1 {
        assert(units_upto(jobs, directory, lookups, 0) == Some(
            Ok::<Seq<UnitView>, UnitErrorView>(Seq::empty()),
        ));
    } else {
        law_units_follow_jobs(
            jobs,
            directory,
            lookups,
            n - 1,
            if k < n - 1 {
                k
            } else {
                0
            },
        );
    }
    if k == n - 1 {
        let unit = units_upto(jobs, directory, lookups, n)->0->Ok_0[k];
        assert(unit.arguments.skip(1) =~= arguments->0.skip(1));
    }
}

/// An error is that of the first job that gives no unit.
pub proof fn law_first_error(
    jobs: Seq<JobView>,
    directory: Option<Seq<char>>,
    lookups: Seq<LookupView>,
    n: int,
    e: UnitErrorView,
)
    requires
        units_upto(jobs, directory, lookups, n) == Some(Err::<Seq<UnitView>, UnitErrorView>(e)),
    ensures
        exists|k: int|
            0 <= k < n && units_upto(jobs, directory, lookups, k) is Some && (
            #[trigger] units_upto(jobs, directory, lookups, k))->0 is Ok && job_outcome(
                jobs[k],
                directory,
                arguments_of(jobs[k].command),
                lookups[k],
            ) == Some(Err::<UnitView, UnitErrorView>(e)),
    decreases n,
{
    if units_upto(jobs, directory, lookups, n - 1) == Some(
        Err::<Seq<UnitView>, UnitErrorView>(e),
    ) {
        law_first_error(jobs, directory, lookups, n - 1, e);
    }
}

/// In a directory, and where every command has arguments, there is an error if and only
/// if some job gives no unit.
pub proof fn law_errors_from_jobs(
    jobs: Seq<JobView>,
    directory: Option<Seq<char>>,
    lookups: Seq<LookupView>,
    n: int,
)
    requires
        directory is Some,
        forall|k: int| 0 <= k < n ==> !is_blank((#[trigger] jobs[k]).command),
    ensures
        units_upto(jobs, directory, lookups, n) is Some,
        units_upto(jobs, directory, lookups, n)->0 is Err <==> exists|k: int|
            0 <= k < n && job_fails(#[trigger] jobs[k], lookups[k]),
    decreases n,
{
    if n > 0 {
        law_errors_from_jobs(jobs, directory, lookups, n - 1);
        law_blank_commands(jobs[n - 1].command);
        let arguments = arguments_of(jobs[n - 1].command);
        if arguments is Some && arguments->0.len() == 0 {
            assert(arguments->0 =~= Seq::<Seq<char>>::empty());
        }
    }
}

/// The first argument of every unit is the first word of its command, where the platform
/// says that it is an absolute path, and else a path that the search for that very word
/// brought. All other arguments are the words of the command.
pub proof fn law_executable_of_unit(
    v: RecipesView,
    directory: Option<Seq<char>>,
    units: Seq<UnitView>,
    k: int,
)
    requires
        units_for(v, directory, Some(Ok(units))),
        0 <= k < units.len(),
    ensures
        units.len() == jobs_of(v).len(),
        ({
            let words = arguments_of(jobs_of(v)[k].command)->0;
            let arguments = units[k].arguments;
            &&& arguments_of(jobs_of(v)[k].command) is Some
            &&& words.len() > 0
            &&& arguments.len() == words.len()
            &&& arguments.skip(1) == words.skip(1)
            &&& (absolute_answer(words[0], true) && arguments[0] == words[0]) || (absolute_answer(
                words[0],
                false,
            ) && exists|path: String| #[trigger]
                search_answer(words[0], Ok(Some(path))) && path@ == arguments[0])
        }),
{
    let jobs = jobs_of(v);
    let n = jobs.len() as int;
    let lookups = choose|lookups: Seq<LookupView>|
        lookups_fit(jobs, lookups) && Some(Ok::<Seq<UnitView>, UnitErrorView>(units))
            == #[trigger] units_of(jobs, directory, lookups);
    if n == 0 {
        assert(units_upto(jobs, directory, lookups, 0)->0->Ok_0.len() == 0);
    }
    law_units_follow_jobs(jobs, directory, lookups, n, 0);
    law_units_follow_jobs(jobs, directory, lookups, n, k);
    assert(!some_job_fails(jobs, lookups, k)) by {
        if some_job_fails(jobs, lookups, k) {
            let j = choose|j: int| 0 <= j < k && job_fails(#[trigger] jobs[j], lookups[j]);
            law_units_follow_jobs(jobs, directory, lookups, n, j);
        }
    }
    assert(lookup_fits(arguments_of(jobs[k].command), lookups[k]));
    let name = arguments_of(jobs[k].command)->0[0];
    if lookups[k] !is Absolute {
        let found = choose|found: Result<Option<String>, which::Error>| #[trigger]
            search_answer(name, found) && lookups[k] == search_lookup(found);
        assert(found matches Ok(Some(_)));
        let path = found->Ok_0->Some_0;
        assert(search_answer(name, Ok(Some(path))));
    }
}

/// That an executable was not found is said of a word that a command begins with, that is
/// no absolute path, and that the search for it did not find.
pub proof fn law_executable_not_found(
    v: RecipesView,
    directory: Option<Seq<char>>,
    name: Seq<char>,
)
    requires
        units_for(v, directory, Some(Err(UnitErrorView::NotFound(name)))),
    ensures
        exists|k: int|
            0 <= k < jobs_of(v).len() && first_argument(
                arguments_of((#[trigger] jobs_of(v)[k]).command),
            ) == Some(name),
        absolute_answer(name, false),
        exists|e: which::Error| #[trigger] search_answer(name, Err(e)),
{
    let jobs = jobs_of(v);
    let n = jobs.len() as int;
    let e = UnitErrorView::NotFound(name);
    let lookups = choose|lookups: Seq<LookupView>|
        lookups_fit(jobs, lookups) && Some(Err::<Seq<UnitView>, UnitErrorView>(e))
            == #[trigger] units_of(jobs, directory, lookups);
    law_first_error(jobs, directory, lookups, n, e);
    let k = choose|k: int|
        0 <= k < n && units_upto(jobs, directory, lookups, k) is Some && (
        #[trigger] units_upto(jobs, directory, lookups, k))->0 is Ok && job_outcome(
            jobs[k],
            directory,
            arguments_of(jobs[k].command),
            lookups[k],
        ) == Some(Err::<UnitView, UnitErrorView>(e));
    if some_job_fails(jobs, lookups, k) {
        let j = choose|j: int| 0 <= j < k && job_fails(#[trigger] jobs[j], lookups[j]);
        law_units_follow_jobs(jobs, directory, lookups, k, j);
    }
    assert(lookup_fits(arguments_of(jobs[k].command), lookups[k]));
    assert(jobs[k] == jobs_of(v)[k]);
    let found = choose|found: Result<Option<String>, which::Error>| #[trigger]
        search_answer(name, found) && lookups[k] == search_lookup(found);
    assert(search_answer(name, Err(found->Err_0)));
}

/// That the path of an executable is no UTF-8 is said where a command begins with a word
/// that is no absolute path, and the search for that very word brought such a path.
pub proof fn law_executable_not_utf8(v: RecipesView, directory: Option<Seq<char>>) -> (name: Seq<
    char,
>)
    requires
        units_for(v, directory, Some(Err(UnitErrorView::ExecutableNotUtf8))),
    ensures
        exists|k: int|
            0 <= k < jobs_of(v).len() && first_argument(
                arguments_of((#[trigger] jobs_of(v)[k]).command),
            ) == Some(name),
        absolute_answer(name, false),
        search_answer(name, Ok(None)),
{
    let jobs = jobs_of(v);
    let n = jobs.len() as int;
    let e = UnitErrorView::ExecutableNotUtf8;
    let lookups = choose|lookups: Seq<LookupView>|
        lookups_fit(jobs, lookups) && Some(Err::<Seq<UnitView>, UnitErrorView>(e))
            == #[trigger] units_of(jobs, directory, lookups);
    law_first_error(jobs, directory, lookups, n, e);
    let k = choose|k: int|
        0 <= k < n && units_upto(jobs, directory, lookups, k) is Some && (
        #[trigger] units_upto(jobs, directory, lookups, k))->0 is Ok && job_outcome(
            jobs[k],
            directory,
            arguments_of(jobs[k].command),
            lookups[k],
        ) == Some(Err::<UnitView, UnitErrorView>(e));
    assert(lookup_fits(arguments_of(jobs[k].command), lookups[k]));
    let name = arguments_of(jobs[k].command)->0[0];
    assert(jobs[k] == jobs_of(v)[k]);
    let found = choose|found: Result<Option<String>, which::Error>| #[trigger]
        search_answer(name, found) && lookups[k] == search_lookup(found);
    assert(found == Ok::<Option<String>, which::Error>(None));
    name
}

} // verus!

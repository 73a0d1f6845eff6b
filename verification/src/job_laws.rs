//! Laws of jobs and units, said of the texts of targets, files and commands themselves.

use vstd::prelude::*;
use vstd::string::*;

use crate::command::{
    finished, is_quoteless, law_quoteless_words, quoted_from, quoted_words,
};
use crate::recipes::{items_of, EntryView, RecipesView};
use crate::text::{is_white_space, is_word, substituted, words};
use crate::text_laws::{law_suffix, law_words};
use crate::units::{
    arguments_of, file_jobs, files_jobs, first_argument, is_object, is_source, job_outcome,
    jobs_of, jobs_upto, law_jobs_complete, makes_job, recipe_jobs, target_jobs, targets_jobs,
    JobView, LookupView, UnitErrorView, UnitView,
};

verus! {

// ---------------------------------------------------------------------------
// Files
// ---------------------------------------------------------------------------

/// Whether a text ends in `.obj`.
pub open spec fn ends_in_obj(s: Seq<char>) -> bool {
    let n = s.len();
    n >= 4 && s[n - 4] == '.' && s[n - 3] == 'o' && s[n - 2] == 'b' && s[n - 1] == 'j'
}

/// Whether a text ends in `.c` or in `.cpp`.
pub open spec fn ends_in_c(s: Seq<char>) -> bool {
    let n = s.len();
    ||| n >= 2 && s[n - 2] == '.' && s[n - 1] == 'c'
    ||| n >= 4 && s[n - 4] == '.' && s[n - 3] == 'c' && s[n - 2] == 'p' && s[n - 1] == 'p'
}

/// The object files are the texts that end in `.obj`, whatever stands before it, and no
/// others.
pub proof fn law_objects(p: Seq<char>, s: Seq<char>)
    ensures
        is_object(p + seq!['.', 'o', 'b', 'j']),
        is_object(s) <==> ends_in_obj(s),
{
    reveal_strlit(".obj");
    let x = seq!['.', 'o', 'b', 'j'];
    assert(".obj"@ =~= x);
    law_suffix(p, s, x);
    if ends_in_obj(s) {
        assert(s.skip(s.len() - 4) =~= x);
    }
}

/// The sources are the texts that end in `.c` or in `.cpp`, whatever stands before it, and
/// no others.
pub proof fn law_sources(p: Seq<char>, s: Seq<char>)
    ensures
        is_source(p + seq!['.', 'c']),
        is_source(p + seq!['.', 'c', 'p', 'p']),
        is_source(s) <==> ends_in_c(s),
{
    reveal_strlit(".c");
    reveal_strlit(".cpp");
    let x = seq!['.', 'c'];
    let y = seq!['.', 'c', 'p', 'p'];
    assert(".c"@ =~= x);
    assert(".cpp"@ =~= y);
    law_suffix(p, s, x);
    law_suffix(p, s, y);
    let n = s.len() as int;
    if n >= 2 && s[n - 2] == '.' && s[n - 1] == 'c' {
        assert(s.skip(n - 2) =~= x);
    }
    if n >= 4 && s[n - 4] == '.' && s[n - 3] == 'c' && s[n - 2] == 'p' && s[n - 1] == 'p' {
        assert(s.skip(n - 4) =~= y);
    }
}

// ---------------------------------------------------------------------------
// Jobs
// ---------------------------------------------------------------------------

/// Every target that ends in `.obj`, every file that it depends on and that ends in `.c` or
/// in `.cpp`, and every command of its recipe make a job.
pub proof fn law_every_source_is_compiled(
    v: RecipesView,
    r: int,
    target: Seq<char>,
    files: Seq<Seq<char>>,
    file: Seq<char>,
    command: Seq<char>,
)
    requires
        0 <= r < v.recipes.len(),
        words(v.recipes[r].key).contains(target),
        ends_in_obj(target),
        items_of(v.depex, target) == Some(files),
        files.contains(file),
        ends_in_c(file),
        v.recipes[r].items.contains(command),
    ensures
        jobs_of(v).contains((JobView { target, file, command })),
{
    let t = words(v.recipes[r].key).index_of(target);
    let f = files.index_of(file);
    let c = v.recipes[r].items.index_of(command);
    law_objects(target, target);
    law_sources(file, file);
    assert(makes_job(v, r, t, f, c));
    law_jobs_complete(v, r, t, f, c);
}

proof fn lemma_jobs_agree(v: RecipesView, w: RecipesView, n: int)
    requires
        0 <= n <= v.recipes.len(),
        n <= w.recipes.len(),
        v.depex == w.depex,
        forall|i: int| 0 <= i < n ==> v.recipes[i] == #[trigger] w.recipes[i],
    ensures
        jobs_upto(v, n) == jobs_upto(w, n),
    decreases n,
{
    if n > 0 {
        lemma_jobs_agree(v, w, n - 1);
        assert(v.recipes[n - 1] == w.recipes[n - 1]);
    }
}

proof fn lemma_jobs_behind(v: RecipesView, a: RecipesView, b: RecipesView, n: int)
    requires
        0 <= n <= b.recipes.len(),
        v.recipes == a.recipes + b.recipes,
        v.depex == a.depex,
        v.depex == b.depex,
    ensures
        jobs_upto(v, a.recipes.len() + n) == jobs_of(a) + jobs_upto(b, n),
    decreases n,
{
    if n > 0 {
        lemma_jobs_behind(v, a, b, n - 1);
        assert(v.recipes[a.recipes.len() + n - 1] == b.recipes[n - 1]);
        let last = recipe_jobs(b.recipes[n - 1], b.depex);
        assert(jobs_of(a) + jobs_upto(b, n - 1) + last =~= jobs_of(a) + (jobs_upto(b, n - 1)
            + last));
    } else {
        lemma_jobs_agree(v, a, a.recipes.len() as int);
        assert(jobs_of(a) + Seq::<JobView>::empty() =~= jobs_of(a));
    }
}

/// The jobs of recipes come recipe by recipe, each as if it stood alone.
pub proof fn law_jobs_by_recipe(v: RecipesView, a: RecipesView, b: RecipesView, one: RecipesView)
    requires
        v.recipes == a.recipes + b.recipes,
        v.depex == a.depex,
        v.depex == b.depex,
        one.recipes.len() == 1,
    ensures
        jobs_of(v) == jobs_of(a) + jobs_of(b),
        jobs_of(one) == recipe_jobs(one.recipes[0], one.depex),
{
    lemma_jobs_behind(v, a, b, b.recipes.len() as int);
    reveal_with_fuel(jobs_upto, 2);
    assert(jobs_of(one) =~= recipe_jobs(one.recipes[0], one.depex));
}

proof fn lemma_targets_behind(
    a: Seq<Seq<char>>,
    b: Seq<Seq<char>>,
    depex: Seq<EntryView>,
    commands: Seq<Seq<char>>,
    n: int,
)
    requires
        0 <= n <= b.len(),
    ensures
        targets_jobs(a + b, depex, commands, a.len() + n) == targets_jobs(
            a,
            depex,
            commands,
            a.len() as int,
        ) + targets_jobs(b, depex, commands, n),
    decreases n,
{
    if n > 0 {
        lemma_targets_behind(a, b, depex, commands, n - 1);
        assert((a + b)[a.len() + n - 1] == b[n - 1]);
        let x = targets_jobs(a, depex, commands, a.len() as int);
        let y = targets_jobs(b, depex, commands, n - 1);
        let z = target_jobs(b[n - 1], depex, commands);
        assert(x + y + z =~= x + (y + z));
    } else {
        lemma_targets_agree(a, b, depex, commands, a.len() as int);
        let x = targets_jobs(a, depex, commands, a.len() as int);
        assert(x + Seq::<JobView>::empty() =~= x);
    }
}

proof fn lemma_targets_agree(
    a: Seq<Seq<char>>,
    b: Seq<Seq<char>>,
    depex: Seq<EntryView>,
    commands: Seq<Seq<char>>,
    n: int,
)
    requires
        0 <= n <= a.len(),
    ensures
        targets_jobs(a + b, depex, commands, n) == targets_jobs(a, depex, commands, n),
    decreases n,
{
    if n > 0 {
        lemma_targets_agree(a, b, depex, commands, n - 1);
        assert((a + b)[n - 1] == a[n - 1]);
    }
}

/// The jobs of a recipe come target by target, each as if it stood alone.
pub proof fn law_jobs_by_target(
    a: Seq<char>,
    c: char,
    b: Seq<char>,
    items: Seq<Seq<char>>,
    depex: Seq<EntryView>,
)
    requires
        is_white_space(c),
    ensures
        recipe_jobs((EntryView { key: a + seq![c] + b, items }), depex) == recipe_jobs(
            (EntryView { key: a, items }),
            depex,
        ) + recipe_jobs((EntryView { key: b, items }), depex),
        recipe_jobs((EntryView { key: Seq::empty(), items }), depex) == Seq::<JobView>::empty(),
{
    assert(is_word(seq!['x']));
    law_words(a, c, b, seq!['x']);
    lemma_targets_behind(words(a), words(b), depex, items, words(b).len() as int);
}

/// The jobs for one target and one file: one for each command, in order.
pub open spec fn jobs_for(
    target: Seq<char>,
    file: Seq<char>,
    commands: Seq<Seq<char>>,
) -> Seq<JobView> {
    Seq::new(commands.len(), |i: int| JobView { target, file, command: commands[i] })
}

/// The jobs for one target and its files: for each file that ends in `.c` or in `.cpp`, in
/// order, one for each command.
pub open spec fn jobs_for_files(
    target: Seq<char>,
    files: Seq<Seq<char>>,
    commands: Seq<Seq<char>>,
) -> Seq<JobView>
    decreases files.len(),
{
    if files.len() == 0 {
        Seq::empty()
    } else {
        (if ends_in_c(files[0]) {
            jobs_for(target, files[0], commands)
        } else {
            Seq::empty()
        }) + jobs_for_files(target, files.skip(1), commands)
    }
}

proof fn lemma_jobs_for_push(
    target: Seq<char>,
    files: Seq<Seq<char>>,
    file: Seq<char>,
    commands: Seq<Seq<char>>,
)
    ensures
        jobs_for_files(target, files.push(file), commands) == jobs_for_files(
            target,
            files,
            commands,
        ) + (if ends_in_c(file) {
            jobs_for(target, file, commands)
        } else {
            Seq::empty()
        }),
    decreases files.len(),
{
    let all = files.push(file);
    let last = if ends_in_c(file) {
        jobs_for(target, file, commands)
    } else {
        Seq::empty()
    };
    if files.len() == 0 {
        assert(all.skip(1) =~= Seq::<Seq<char>>::empty());
        reveal_with_fuel(jobs_for_files, 2);
        assert(jobs_for_files(target, all, commands) =~= last);
        assert(Seq::<JobView>::empty() + last =~= last);
    } else {
        lemma_jobs_for_push(target, files.skip(1), file, commands);
        assert(all.skip(1) =~= files.skip(1).push(file));
        let first = if ends_in_c(files[0]) {
            jobs_for(target, files[0], commands)
        } else {
            Seq::empty()
        };
        let rest = jobs_for_files(target, files.skip(1), commands);
        assert(first + (rest + last) =~= first + rest + last);
    }
}

proof fn lemma_files_jobs_are(
    target: Seq<char>,
    files: Seq<Seq<char>>,
    commands: Seq<Seq<char>>,
    n: int,
)
    requires
        0 <= n <= files.len(),
    ensures
        files_jobs(target, files, commands, n) == jobs_for_files(target, files.take(n), commands),
    decreases n,
{
    if n > 0 {
        lemma_files_jobs_are(target, files, commands, n - 1);
        lemma_jobs_for_push(target, files.take(n - 1), files[n - 1], commands);
        assert(files.take(n - 1).push(files[n - 1]) =~= files.take(n));
        law_sources(files[n - 1], files[n - 1]);
        assert(file_jobs(target, files[n - 1], commands) =~= (if ends_in_c(files[n - 1]) {
            jobs_for(target, files[n - 1], commands)
        } else {
            Seq::empty()
        }));
    } else {
        assert(files.take(0) =~= Seq::<Seq<char>>::empty());
    }
}

/// The jobs of a recipe with one target are, where the target ends in `.obj` and something
/// is known of what it depends on, those for its files, and else none.
pub proof fn law_jobs_of_target(
    target: Seq<char>,
    items: Seq<Seq<char>>,
    depex: Seq<EntryView>,
)
    requires
        is_word(target),
    ensures
        recipe_jobs((EntryView { key: target, items }), depex) == (match items_of(depex, target) {
            Some(files) => if ends_in_obj(target) {
                jobs_for_files(target, files, items)
            } else {
                Seq::empty()
            },
            None => Seq::empty(),
        }),
{
    law_words(target, ' ', target, target);
    law_objects(target, target);
    reveal_with_fuel(targets_jobs, 2);
    let jobs = recipe_jobs(EntryView { key: target, items }, depex);
    assert(jobs =~= target_jobs(target, depex, items));
    if let Some(files) = items_of(depex, target) {
        lemma_files_jobs_are(target, files, items, files.len() as int);
        assert(files.take(files.len() as int) =~= files);
    }
}

// ---------------------------------------------------------------------------
// Arguments
// ---------------------------------------------------------------------------

/// The text that has a slash wherever the other has a backslash.
pub open spec fn with_slashes(s: Seq<char>) -> Seq<char> {
    Seq::new(
        s.len(),
        |i: int|
            if s[i] == '\\' {
                '/'
            } else {
                s[i]
            },
    )
}

proof fn lemma_with_slashes(s: Seq<char>)
    ensures
        substituted(s, '\\', "/"@) == with_slashes(s),
    decreases s.len(),
{
    reveal_strlit("/");
    if s.len() > 0 {
        lemma_with_slashes(s.drop_last());
        assert(with_slashes(s) =~= with_slashes(s.drop_last()).push(with_slashes(s).last()));
        assert("/"@ =~= seq!['/']);
    } else {
        assert(with_slashes(s) =~= Seq::<char>::empty());
    }
}

/// The arguments of a command, with quotes or without, are the words of the line that has a
/// slash wherever the command has a backslash; commands that differ in nothing but the two
/// have the same arguments.
pub proof fn law_arguments(command: Seq<char>, other: Seq<char>)
    requires
        with_slashes(command) == with_slashes(other),
    ensures
        arguments_of(command) == quoted_words(with_slashes(command)),
        arguments_of(command) == arguments_of(other),
{
    lemma_with_slashes(command);
    lemma_with_slashes(other);
}

/// The arguments of a command without quotes are exactly what white space parts it into, in
/// order and as often as they stand there, with a slash wherever a backslash stands.
pub proof fn law_plain_arguments(command: Seq<char>)
    requires
        is_quoteless(command),
    ensures
        arguments_of(command) == Some(words(with_slashes(command))),
        (forall|i: int| 0 <= i < command.len() ==> (#[trigger] command[i]) != '\\')
            ==> arguments_of(command) == Some(words(command)),
{
    let line = with_slashes(command);
    lemma_with_slashes(command);
    assert(is_quoteless(line)) by {
        assert forall|i: int| 0 <= i < line.len() implies (#[trigger] line[i]) != '"' && line[i]
            != '\'' by {
            assert(command[i] != '"' && command[i] != '\'');
        }
    }
    law_quoteless_words(line);
    if forall|i: int| 0 <= i < command.len() ==> (#[trigger] command[i]) != '\\' {
        assert(line =~= command);
    }
}

proof fn lemma_quoted_run(
    head: Seq<char>,
    t: Seq<char>,
    tail: Seq<char>,
    mark: char,
    i: int,
    word: Seq<char>,
)
    requires
        0 <= i <= t.len(),
        forall|k: int| 0 <= k < t.len() ==> (#[trigger] t[k]) != mark,
        tail.len() > 0,
        tail[0] == mark,
    ensures
        quoted_from(head + t + tail, head.len() + i, Some(mark), Some(word)) == quoted_from(
            head + t + tail,
            (head.len() + t.len() + 1) as int,
            None,
            Some(word + t.skip(i)),
        ),
    decreases t.len() - i,
{
    let s = head + t + tail;
    let at = head.len() + i;
    if i < t.len() {
        assert(s[at] == t[i]);
        lemma_quoted_run(head, t, tail, mark, i + 1, word.push(t[i]));
        assert(word.push(t[i]) + t.skip(i + 1) =~= word + t.skip(i));
    } else {
        assert(s[at] == mark);
        assert(word + t.skip(i) =~= word);
    }
}

/// What stands between two quotes is one word, just as it is there, white space and the
/// other kind of quote with it, and without the quotes; a quote that is not closed leaves no
/// words.
pub proof fn law_quoted_argument(t: Seq<char>, mark: char)
    requires
        mark == '"' || mark == '\'',
        forall|k: int| 0 <= k < t.len() ==> (#[trigger] t[k]) != mark,
    ensures
        quoted_words(seq![mark] + t + seq![mark]) == Some(seq![t]),
        quoted_words(seq![mark] + t) is None,
{
    let s = seq![mark] + t + seq![mark];
    lemma_marks();
    assert(s[0] == mark);
    lemma_quoted_run(seq![mark], t, seq![mark], mark, 0, Seq::empty());
    assert(Seq::<char>::empty() + t.skip(0) =~= t);
    assert(quoted_words(s) == quoted_from(s, 1, Some(mark), Some(Seq::empty())));
    assert(quoted_from(s, (t.len() + 2) as int, None, Some(t)) == Some(finished(Some(t))));
    let u = seq![mark] + t;
    assert(u[0] == mark);
    lemma_open_to_end(u, 1, mark, Seq::empty());
}

proof fn lemma_marks()
    ensures
        !is_white_space('"'),
        !is_white_space('\''),
{
}

proof fn lemma_open_to_end(s: Seq<char>, i: int, mark: char, word: Seq<char>)
    requires
        0 <= i <= s.len(),
        forall|k: int| i <= k < s.len() ==> (#[trigger] s[k]) != mark,
    ensures
        quoted_from(s, i, Some(mark), Some(word)) is None,
    decreases s.len() - i,
{
    if i < s.len() {
        lemma_open_to_end(s, i + 1, mark, word.push(s[i]));
    }
}

// ---------------------------------------------------------------------------
// Units
// ---------------------------------------------------------------------------

/// What becomes of a job: nothing without arguments, the error that tells what is missing,
/// in this order, and else a unit with the directory, the file and the target, and with the
/// arguments, the first one replaced by the path that was found.
pub proof fn law_job_outcome(
    job: JobView,
    directory: Option<Seq<char>>,
    arguments: Seq<Seq<char>>,
    lookup: LookupView,
    path: Seq<char>,
    dir: Seq<char>,
)
    requires
        arguments.len() > 0,
    ensures
        job_outcome(job, directory, None, lookup) == Some(
            Err::<UnitView, UnitErrorView>(UnitErrorView::BadCommand),
        ),
        job_outcome(job, directory, Some(Seq::empty()), lookup) is None,
        job_outcome(job, directory, Some(arguments), LookupView::Missing) == Some(
            Err::<UnitView, UnitErrorView>(UnitErrorView::NotFound(arguments[0])),
        ),
        job_outcome(job, directory, Some(arguments), LookupView::NotUtf8) == Some(
            Err::<UnitView, UnitErrorView>(UnitErrorView::ExecutableNotUtf8),
        ),
        job_outcome(job, None, Some(arguments), LookupView::Found(path)) == Some(
            Err::<UnitView, UnitErrorView>(UnitErrorView::NoCurrentDir),
        ),
        job_outcome(job, None, Some(arguments), LookupView::Absolute) == Some(
            Err::<UnitView, UnitErrorView>(UnitErrorView::NoCurrentDir),
        ),
        job_outcome(job, Some(dir), Some(arguments), LookupView::Found(path)) == Some(
            Ok::<UnitView, UnitErrorView>(
                UnitView {
                    directory: dir,
                    file: job.file,
                    arguments: seq![path] + arguments.skip(1),
                    output: Some(job.target),
                },
            ),
        ),
        job_outcome(job, Some(dir), Some(arguments), LookupView::Absolute) == Some(
            Ok::<UnitView, UnitErrorView>(
                UnitView {
                    directory: dir,
                    file: job.file,
                    arguments,
                    output: Some(job.target),
                },
            ),
        ),
        first_argument(Some(arguments)) == Some(arguments[0]),
        first_argument(None) is None,
        first_argument(Some(Seq::empty())) is None,
{
    assert(arguments.update(0, path) =~= seq![path] + arguments.skip(1));
}

} // verus!

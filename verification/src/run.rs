//! Collecting the units of a makefile and of the makefiles of the libraries that
//! it builds. Reading files is left to the caller, who is told what to do next.

use vstd::prelude::*;
use vstd::string::*;
use vstd::utf8::*;

use crate::command::{
    is_quoteless, law_quoteless_words, parse_command, quoted_words, twice, words_view,
};
use crate::error::MakeError;
use crate::escape::{
    nmake_preprocess, patchable, patched, patched_lines, preprocessed, try_patch_error_syntax,
};
use crate::path::{
    ask_extension, ask_name, drive_name, extension_answer, holds_part, is_portable, is_share,
    name_answer, portable_extension, slash_name,
};
use crate::pattern::Pattern;
use crate::positions::lemma_ascii_rewritten;
use crate::recipes::{
    get_items, listed, recipes_in, MakeRecipes, RecipesView, WorkingDir,
};
use crate::rule::text_view;
use crate::syntax::make_nodes;
use crate::text::{same_text, substitute, views, words};
use crate::units::{
    jobs_of, lookup_views, lookups_fit, unit_views, units_for, units_of, CompilationUnit, JobView,
    Lookup, LookupView, UnitError, UnitErrorView, UnitView,
};

verus! {

// ---------------------------------------------------------------------------
// Reading one makefile
// ---------------------------------------------------------------------------

/// What the content of a makefile says: directives are commented out, values are
/// escaped, and the text that comes of it is parsed.
pub open spec fn content_recipes(content: Seq<char>, dir: WorkingDir) -> Result<
    RecipesView,
    MakeError,
> {
    let text = patched(preprocessed(content));
    recipes_in(make_nodes(text), text, dir)
}

/// Reads the content of a makefile, or gives nothing where its values cannot be
/// escaped, which does not happen to ASCII.
pub fn read_makefile(content: &str, dir: &WorkingDir) -> (r: Option<
    Result<MakeRecipes, MakeError>,
>)
    ensures
        match r {
            None => !patchable(preprocessed(content@)),
            Some(Ok(make)) => patchable(preprocessed(content@)) && content_recipes(content@, *dir)
                == Ok::<RecipesView, MakeError>(make@),
            Some(Err(e)) => patchable(preprocessed(content@)) && content_recipes(content@, *dir)
                == Err::<RecipesView, MakeError>(e),
        },
        is_ascii_chars(content@) ==> r is Some && patched(preprocessed(content@)) == patched_lines(
            preprocessed(content@),
        ),
{
    proof {
        if is_ascii_chars(content@) {
            reveal_strlit("#$0");
            lemma_ascii_rewritten(Pattern::Directive, content@, "#$0"@, 0);
        }
    }
    let text = match nmake_preprocess(content) {
        Ok(text) => text,
        Err(e) => {
            return Some(Err(e));
        },
    };
    match try_patch_error_syntax(text.as_str()) {
        Some(text) => Some(MakeRecipes::parse_makefile(text.as_str(), dir)),
        None => None,
    }
}

// ---------------------------------------------------------------------------
// The makefiles of libraries
// ---------------------------------------------------------------------------

/// The words of all lists, one list after the other; a missing list has none.
pub open spec fn flat_words(lists: Seq<Option<Seq<Seq<char>>>>) -> Seq<Seq<char>>
    decreases lists.len(),
{
    if lists.len() == 0 {
        Seq::empty()
    } else {
        flat_words(lists.drop_last()) + (match lists.last() {
            Some(list) => list,
            None => Seq::empty(),
        })
    }
}

/// The views of lists of words.
pub open spec fn lists_view(lists: Seq<Option<Vec<String>>>) -> Seq<Option<Seq<Seq<char>>>> {
    Seq::new(lists.len(), |i: int| words_view(lists[i]))
}

/// Puts the words of all lists one after the other.
pub fn flatten_words(lists: Vec<Option<Vec<String>>>) -> (r: Vec<String>)
    ensures
        views(r@) == flat_words(lists_view(lists@)),
{
    let ghost all = lists_view(lists@);
    let mut r: Vec<String> = Vec::new();
    assert(all.take(0) == Seq::<Option<Seq<Seq<char>>>>::empty());
    assert(views(r@) == Seq::<Seq<char>>::empty());
    for list in it: lists
        invariant
            it.seq() == lists@,
            all == lists_view(lists@),
            views(r@) == flat_words(all.take(it.index())),
    {
        let ghost n = it.index();
        let ghost sofar = views(r@);
        assert(all.take(n + 1).drop_last() == all.take(n));
        assert(all.take(n + 1).last() == words_view(list));
        if let Some(list) = list {
            let mut list = list;
            let ghost more = list@;
            r.append(&mut list);
            assert(views(r@) == sofar + views(more));
        } else {
            assert(sofar + Seq::empty() == sofar);
        }
    }
    assert(all.take(all.len() as int) == all);
    r
}

/// The words of the commands of the target `gen_libs`, among which the makefiles
/// of libraries are.
pub open spec fn library_words(v: RecipesView) -> Seq<Seq<char>> {
    let commands = listed(v.recipes, "gen_libs"@);
    flat_words(Seq::new(commands.len(), |i: int| quoted_words(commands[i])))
}

impl MakeRecipes {
    /// Lists the words of the commands that build libraries. Those of a command
    /// without quotes are what white space parts it into.
    pub fn library_components(&self) -> (r: Vec<String>)
        ensures
            views(r@) == library_words(self@),
            ({
                let commands = listed(self@.recipes, "gen_libs"@);
                (forall|i: int|
                    0 <= i < commands.len() ==> is_quoteless(#[trigger] commands[i])) ==> views(r@)
                    == flat_words(Seq::new(commands.len(), |i: int| Some(words(commands[i]))))
            }),
    {
        let ghost commands = listed(self@.recipes, "gen_libs"@);
        let mut lists: Vec<Option<Vec<String>>> = Vec::new();
        if let Some(items) = get_items(&self.recipes, "gen_libs") {
            let mut k: usize = 0;
            while k < items.len()
                invariant
                    k <= items@.len(),
                    lists@.len() == k,
                    forall|i: int|
                        0 <= i < k ==> words_view(#[trigger] lists@[i]) == quoted_words(
                            items@[i]@,
                        ),
                decreases items@.len() - k,
            {
                let command = substitute(items[k].as_str(), '\\', "\\\\");
                assert(command@ == twice(items@[k as int]@));
                lists.push(parse_command(command.as_str()));
                k += 1;
            }
        }
        proof {
            let split = lists_view(lists@);
            assert(split =~= Seq::new(commands.len(), |i: int| quoted_words(commands[i])));
            if forall|i: int| 0 <= i < commands.len() ==> is_quoteless(#[trigger] commands[i]) {
                assert forall|i: int| 0 <= i < split.len() implies split[i] == Some(
                    words(commands[i]),
                ) by {
                    assert(is_quoteless(commands[i]));
                    law_quoteless_words(commands[i]);
                    assert(split[i] == words_view(lists@[i]));
                }
                assert(split =~= Seq::new(commands.len(), |i: int| Some(words(commands[i]))));
            }
        }
        flatten_words(lists)
    }
}

/// The names of makefiles.
pub open spec fn makefile_name(name: Seq<char>) -> bool {
    name == "GNUmakefile"@ || name == "Makefile"@
}

/// Whether a path that exists or not, with this file name and this extension, is
/// that of a makefile to read.
pub open spec fn is_makefile(
    exists: bool,
    file_name: Option<Seq<char>>,
    extension: Option<Seq<char>>,
) -> bool {
    exists && (extension == Some(".mak"@) || (file_name is Some && makefile_name(file_name->0)))
}

/// Whether this is the name of a makefile.
pub fn is_makefile_name(name: &str) -> (r: bool)
    ensures
        r == makefile_name(name@),
{
    same_text(name, "GNUmakefile") || same_text(name, "Makefile")
}

/// Decides whether a path is that of a makefile to read, from what the file system
/// says of it and what its file name and its extension are.
pub fn is_nested_makefile(
    exists: bool,
    file_name: &Option<String>,
    extension: &Option<String>,
) -> (r: bool)
    ensures
        r == is_makefile(exists, text_view(*file_name), text_view(*extension)),
{
    let by_extension = match extension {
        Some(extension) => same_text(extension.as_str(), ".mak"),
        None => false,
    };
    let by_name = match file_name {
        Some(name) => is_makefile_name(name.as_str()),
        None => false,
    };
    exists && (by_extension || by_name)
}

/// Whether a path with this file name is that of a makefile to read, if no extension
/// makes it one.
pub open spec fn is_named_makefile(exists: bool, name: Option<Seq<char>>) -> bool {
    exists && name is Some && makefile_name(name->0)
}

/// Decides whether a word is the path of a makefile to read, from whether it exists as a
/// path. Of a path that is not portable it is left unsaid which of two file names it has,
/// and what the name of one is that begins with two separators, because that depends on
/// the platform.
pub fn is_library_makefile(word: &str, exists: bool) -> (r: bool)
    ensures
        is_portable(word@) ==> r == is_makefile(
            exists,
            slash_name(word@),
            portable_extension(word@),
        ),
        !is_share(word@) ==> r == is_named_makefile(exists, slash_name(word@)) || r
            == is_named_makefile(exists, drive_name(word@)),
        r ==> exists && (holds_part(word@, "GNUmakefile"@) || holds_part(word@, "Makefile"@)),
        exists|name: Option<Seq<char>>, extension: Option<Seq<char>>|
            #![trigger name_answer(word@, name), extension_answer(word@, extension)]
            name_answer(word@, name) && extension_answer(word@, extension) && r == is_makefile(
                exists,
                name,
                extension,
            ),
{
    let name = ask_name(word);
    let extension = ask_extension(word);
    proof {
        reveal_strlit(".mak");
        assert(".mak"@[0] == '.');
    }
    is_nested_makefile(exists, &name, &extension)
}

// ---------------------------------------------------------------------------
// The run
// ---------------------------------------------------------------------------

/// Why a run cannot go on.
#[derive(Debug, PartialEq, Eq)]
pub enum RunError {
    /// The values of a makefile cannot be escaped.
    Unpatchable,
    /// A makefile cannot be read.
    Make(MakeError),
    /// A command gives no unit.
    Unit(UnitError),
    /// A command is blank.
    NoCommand,
}

/// What an error stands for.
pub enum RunErrorView {
    Unpatchable,
    Make(MakeError),
    Unit(UnitErrorView),
    NoCommand,
}

impl View for RunError {
    type V = RunErrorView;

    open spec fn view(&self) -> RunErrorView {
        match self {
            RunError::Unpatchable => RunErrorView::Unpatchable,
            RunError::Make(e) => RunErrorView::Make(*e),
            RunError::Unit(e) => RunErrorView::Unit(e@),
            RunError::NoCommand => RunErrorView::NoCommand,
        }
    }
}

/// A makefile that is being worked on: the words that may be makefiles of
/// libraries, and how many of them are dealt with.
pub struct Frame {
    make: MakeRecipes,
    components: Vec<String>,
    next: usize,
}

/// What a frame stands for.
pub struct FrameView {
    pub recipes: RecipesView,
    pub components: Seq<Seq<char>>,
    pub next: int,
}

impl View for Frame {
    type V = FrameView;

    closed spec fn view(&self) -> FrameView {
        FrameView {
            recipes: self.make@,
            components: views(self.components@),
            next: self.next as int,
        }
    }
}

/// A run over a makefile and those that it leads to: the makefiles that are being
/// worked on, each reached from the one before it, and the units so far.
pub struct MakeRun {
    dir: WorkingDir,
    frames: Vec<Frame>,
    units: Vec<CompilationUnit>,
}

/// What a run stands for.
pub struct RunView {
    pub dir: WorkingDir,
    pub frames: Seq<FrameView>,
    pub units: Seq<UnitView>,
}

impl View for MakeRun {
    type V = RunView;

    closed spec fn view(&self) -> RunView {
        RunView {
            dir: self.dir,
            frames: Seq::new(self.frames@.len(), |i: int| self.frames@[i]@),
            units: unit_views(self.units@),
        }
    }
}

/// What to do next.
#[derive(Debug, PartialEq, Eq)]
pub enum Action {
    /// Look at this path, and enter the makefile that it may lead to.
    Probe(String),
    /// A makefile is done: go on.
    Left,
    /// All makefiles are done.
    Done,
    /// Give up.
    Fail(RunError),
}

/// The path of a working directory, if there is one.
pub open spec fn dir_path(dir: WorkingDir) -> Option<Seq<char>> {
    match dir {
        WorkingDir::Path(path) => Some(path@),
        _ => None,
    }
}

/// The run after a makefile was entered.
pub open spec fn entered(st: RunView, recipes: RecipesView) -> RunView {
    RunView {
        frames: st.frames.push(
            FrameView { recipes, components: library_words(recipes), next: 0 },
        ),
        ..st
    }
}

/// The run after the next word of the last makefile was handed out.
pub open spec fn probed(st: RunView) -> RunView {
    let top = st.frames.last();
    RunView {
        frames: st.frames.drop_last().push(FrameView { next: top.next + 1, ..top }),
        ..st
    }
}

/// The run after the last makefile was left with these units.
pub open spec fn left_with(st: RunView, units: Seq<UnitView>) -> RunView {
    RunView { frames: st.frames.drop_last(), units: st.units + units, ..st }
}

/// Whether the last makefile has handed out all its words, so that it is left next.
pub open spec fn is_leaving(st: RunView) -> bool {
    st.frames.len() > 0 && st.frames.last().next >= st.frames.last().components.len()
}

/// The jobs of the makefile that is left next.
pub open spec fn leaving_jobs(st: RunView) -> Seq<JobView> {
    jobs_of(st.frames.last().recipes)
}

/// Whether the run goes from `st` to `next` with this action, if this is known of the
/// executables of the makefile that is left. While a makefile has words left, the next
/// one is handed out; after that its own units come, behind those of the makefiles that
/// it led to.
pub open spec fn advances_with(
    st: RunView,
    next: RunView,
    action: Action,
    lookups: Seq<LookupView>,
) -> bool {
    if st.frames.len() == 0 {
        action is Done && next == st
    } else if !is_leaving(st) {
        let top = st.frames.last();
        action matches Action::Probe(path) && path@ == top.components[top.next] && next == probed(
            st,
        )
    } else {
        match units_of(leaving_jobs(st), dir_path(st.dir), lookups) {
            Some(Ok(units)) => action is Left && next == left_with(st, units),
            Some(Err(e)) => {
                &&& action matches Action::Fail(RunError::Unit(f)) && f@ == e
                &&& next == st
            },
            None => next == st && action == Action::Fail(RunError::NoCommand),
        }
    }
}

/// Whether the run goes from `st` to `next` with this action for some outcome of
/// looking up the executables.
pub open spec fn advances(st: RunView, next: RunView, action: Action) -> bool {
    exists|lookups: Seq<LookupView>|
        (is_leaving(st) ==> lookups_fit(leaving_jobs(st), lookups)) && #[trigger] advances_with(
            st,
            next,
            action,
            lookups,
        )
}

impl MakeRun {
    /// A run in a working directory, before the first makefile.
    pub fn new(dir: WorkingDir) -> (r: MakeRun)
        ensures
            r@ == (RunView { dir, frames: Seq::empty(), units: Seq::empty() }),
    {
        let r = MakeRun { dir, frames: Vec::new(), units: Vec::new() };
        assert(r@.frames =~= Seq::<FrameView>::empty());
        assert(r@.units =~= Seq::<UnitView>::empty());
        r
    }

    /// Enters a makefile with this content, or says why it cannot be entered.
    pub fn enter(&mut self, content: &str) -> (r: Result<(), RunError>)
        ensures
            if !patchable(preprocessed(content@)) {
                &&& r matches Err(e) && e is Unpatchable
                &&& final(self)@ == old(self)@
            } else {
                match content_recipes(content@, old(self)@.dir) {
                    Ok(recipes) => r is Ok && final(self)@ == entered(old(self)@, recipes),
                    Err(e) => {
                        &&& r matches Err(f) && f == RunError::Make(e)
                        &&& final(self)@ == old(self)@
                    },
                }
            },
            is_ascii_chars(content@) ==> patchable(preprocessed(content@)),
    {
        let ghost before = self@;
        let make = match read_makefile(content, &self.dir) {
            Some(Ok(make)) => make,
            Some(Err(e)) => {
                return Err(RunError::Make(e));
            },
            None => {
                return Err(RunError::Unpatchable);
            },
        };
        let components = make.library_components();
        self.frames.push(Frame { make, components, next: 0 });
        assert(self@.frames =~= entered(before, make@).frames);
        Ok(())
    }

    /// Looks up the executables of the makefile that is left next, if one is.
    pub fn find_executables(&self) -> (r: Vec<Lookup>)
        ensures
            is_leaving(self@) ==> lookups_fit(leaving_jobs(self@), lookup_views(r@)),
            !is_leaving(self@) ==> r@.len() == 0,
    {
        let count = self.frames.len();
        if count == 0 {
            return Vec::new();
        }
        let top = &self.frames[count - 1];
        assert(self@.frames.last() == top@);
        if top.next < top.components.len() {
            return Vec::new();
        }
        top.make.find_executables()
    }

    /// Goes one step on, from what is known of the executables of the makefile that is
    /// left, if one is.
    pub fn advance_with(&mut self, lookups: &Vec<Lookup>) -> (r: Action)
        requires
            is_leaving(old(self)@) ==> lookups@.len() == leaving_jobs(old(self)@).len(),
        ensures
            advances_with(old(self)@, final(self)@, r, lookup_views(lookups@)),
    {
        let ghost before = self@;
        let top = match self.frames.pop() {
            Some(top) => top,
            None => {
                return Action::Done;
            },
        };
        assert(before.frames.last() == top@);
        assert(self@.frames =~= before.frames.drop_last());
        if top.next < top.components.len() {
            let path = top.components[top.next].clone();
            let top = Frame { make: top.make, components: top.components, next: top.next + 1 };
            self.frames.push(top);
            assert(self@.frames =~= probed(before).frames);
            return Action::Probe(path);
        }
        let directory = match &self.dir {
            WorkingDir::Path(path) => Some(path.as_str()),
            _ => None,
        };
        match top.make.units_with(directory, lookups) {
            Some(Ok(units)) => {
                let mut units = units;
                let ghost own = unit_views(units@);
                self.units.append(&mut units);
                assert(self@.units =~= before.units + own);
                assert(self@ == left_with(before, own));
                Action::Left
            },
            Some(Err(e)) => {
                self.frames.push(top);
                assert(self@.frames =~= before.frames);
                Action::Fail(RunError::Unit(e))
            },
            None => {
                self.frames.push(top);
                assert(self@.frames =~= before.frames);
                Action::Fail(RunError::NoCommand)
            },
        }
    }

    /// Goes one step on, and looks up the executables of the makefile that is left.
    pub fn advance(&mut self) -> (r: Action)
        ensures
            advances(old(self)@, final(self)@, r),
    {
        let lookups = self.find_executables();
        self.advance_with(&lookups)
    }

    /// Hands out the units that were collected.
    pub fn into_units(self) -> (r: Vec<CompilationUnit>)
        ensures
            unit_views(r@) == self@.units,
    {
        self.units
    }
}

// ---------------------------------------------------------------------------
// Laws
// ---------------------------------------------------------------------------

/// Whether `next` is `st` with nothing but units added at the end.
pub open spec fn extends(st: RunView, next: RunView) -> bool {
    &&& next.dir == st.dir
    &&& next.frames == st.frames
    &&& st.units.is_prefix_of(next.units)
}

/// Whether `mid` works on a makefile that was entered in `st`, of which `k` words are
/// handed out.
pub open spec fn is_within(st: RunView, recipes: RecipesView, mid: RunView, k: int) -> bool {
    &&& mid.dir == st.dir
    &&& mid.frames == st.frames.push(
        FrameView { recipes, components: library_words(recipes), next: k },
    )
    &&& st.units.is_prefix_of(mid.units)
    &&& 0 <= k <= library_words(recipes).len()
}

/// A makefile that is entered is worked on from its first word.
pub proof fn law_entered(st: RunView, recipes: RecipesView)
    ensures
        is_within(st, recipes, entered(st, recipes), 0),
{
}

/// The words of a makefile are handed out one after the other, and no units come
/// with them.
pub proof fn law_words_in_order(
    st: RunView,
    recipes: RecipesView,
    mid: RunView,
    k: int,
    next: RunView,
    action: Action,
)
    requires
        is_within(st, recipes, mid, k),
        k < library_words(recipes).len(),
        advances(mid, next, action),
    ensures
        action matches Action::Probe(path) && path@ == library_words(recipes)[k],
        is_within(st, recipes, next, k + 1),
        next.units == mid.units,
{
    assert(mid.frames.drop_last() =~= st.frames);
    assert(next.frames =~= st.frames.push(
        FrameView { recipes, components: library_words(recipes), next: k + 1 },
    ));
}

/// What a makefile led to leaves the makefile where it was.
pub proof fn law_nested_returns(
    st: RunView,
    recipes: RecipesView,
    mid: RunView,
    k: int,
    next: RunView,
)
    requires
        is_within(st, recipes, mid, k),
        extends(mid, next),
    ensures
        is_within(st, recipes, next, k),
{
    assert forall|i: int| 0 <= i < st.units.len() implies next.units[i] == st.units[i] by {
        assert(mid.units[i] == st.units[i]);
        assert(next.units[i] == mid.units[i]);
    }
}

/// After its last word a makefile is left, unless its own units cannot be had: the
/// run is back where the makefile was entered, with the units of what it led to and
/// its own behind them.
pub proof fn law_left(
    st: RunView,
    recipes: RecipesView,
    mid: RunView,
    next: RunView,
    action: Action,
)
    requires
        is_within(st, recipes, mid, library_words(recipes).len() as int),
        advances(mid, next, action),
    ensures
        action is Left || action is Fail,
        action is Left ==> extends(st, next) && exists|own: Seq<UnitView>|
            next.units == #[trigger] (mid.units + own) && units_for(
                recipes,
                dir_path(st.dir),
                Some(Ok(own)),
            ),
        action is Fail ==> next == mid,
{
    let lookups = choose|lookups: Seq<LookupView>|
        (is_leaving(mid) ==> lookups_fit(leaving_jobs(mid), lookups)) && #[trigger] advances_with(
            mid,
            next,
            action,
            lookups,
        );
    if action is Left {
        let own = units_of(leaving_jobs(mid), dir_path(mid.dir), lookups)->0->Ok_0;
        assert(next.units == mid.units + own);
        assert(next.frames =~= st.frames);
        assert forall|i: int| 0 <= i < st.units.len() implies next.units[i] == st.units[i] by {
            assert(mid.units[i] == st.units[i]);
        }
    }
}

} // verus!

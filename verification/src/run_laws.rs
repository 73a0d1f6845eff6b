//! Laws of a run and of the words that lead to other makefiles, said of lists of words and
//! of names themselves.

use vstd::prelude::*;
use vstd::string::*;

use crate::command::{is_quoteless, law_quoteless_words, quoted_words};
use crate::escape::{is_special, law_plain_text_stays, preprocessed, search_known};
use crate::nested::flat_units;
use crate::recipe_laws::law_items_found;
use crate::recipes::{listed, recipes_in, RecipesView, WorkingDir};
use crate::run::{
    advances, advances_with, content_recipes, dir_path, flat_words, is_leaving, is_makefile,
    is_within, leaving_jobs, library_words, makefile_name, Action, RunError, RunView,
};
use crate::syntax::make_nodes;
use crate::text::words;
use crate::units::{lookups_fit, units_for, units_of, LookupView, UnitView};

verus! {

// ---------------------------------------------------------------------------
// The words that lead to makefiles
// ---------------------------------------------------------------------------

/// The words that a list holds; none where it is missing.
pub open spec fn words_or_none(list: Option<Seq<Seq<char>>>) -> Seq<Seq<char>> {
    match list {
        Some(list) => list,
        None => Seq::empty(),
    }
}

proof fn lemma_flat_words_append(
    a: Seq<Option<Seq<Seq<char>>>>,
    b: Seq<Option<Seq<Seq<char>>>>,
)
    ensures
        flat_words(a + b) == flat_words(a) + flat_words(b),
    decreases b.len(),
{
    if b.len() == 0 {
        assert(a + b =~= a);
        assert(flat_words(a) + Seq::<Seq<char>>::empty() =~= flat_words(a));
    } else {
        lemma_flat_words_append(a, b.drop_last());
        assert((a + b).drop_last() =~= a + b.drop_last());
        let last = words_or_none(b.last());
        assert(flat_words(a) + flat_words(b.drop_last()) + last =~= flat_words(a) + (flat_words(
            b.drop_last(),
        ) + last));
    }
}

proof fn lemma_flat_words(lists: Seq<Option<Seq<Seq<char>>>>)
    ensures
        flat_words(lists) == lists.map_values(
            |list: Option<Seq<Seq<char>>>| words_or_none(list),
        ).flatten(),
    decreases lists.len(),
{
    let f = |list: Option<Seq<Seq<char>>>| words_or_none(list);
    let all = lists.map_values(f);
    all.lemma_flatten_and_flatten_alt_are_equivalent();
    if lists.len() > 0 {
        lemma_flat_words(lists.drop_last());
        assert(all.drop_last() =~= lists.drop_last().map_values(f));
        all.drop_last().lemma_flatten_and_flatten_alt_are_equivalent();
        assert(all.last() == words_or_none(lists.last()));
    }
}

/// Lists are put together one behind the other, with all their words; a list alone gives
/// its words, and a missing one none.
pub proof fn law_lists_together(
    lists: Seq<Option<Seq<Seq<char>>>>,
    a: Seq<Option<Seq<Seq<char>>>>,
    b: Seq<Option<Seq<Seq<char>>>>,
    list: Seq<Seq<char>>,
)
    ensures
        flat_words(lists) == lists.map_values(
            |list: Option<Seq<Seq<char>>>| words_or_none(list),
        ).flatten(),
        flat_words(a + b) == flat_words(a) + flat_words(b),
        flat_words(seq![Some(list)]) == list,
        flat_words(seq![None]) == Seq::<Seq<char>>::empty(),
{
    lemma_flat_words(lists);
    lemma_flat_words_append(a, b);
    reveal_with_fuel(flat_words, 2);
    let none = Seq::<Option<Seq<Seq<char>>>>::empty();
    assert(seq![Some(list)].drop_last() =~= none);
    assert(seq![None::<Seq<Seq<char>>>].drop_last() =~= none);
    assert(flat_words(seq![Some(list)]) =~= list);
    assert(flat_words(seq![None]) =~= Seq::<Seq<char>>::empty());
}

/// The words that may lead to makefiles are those of the commands of `gen_libs`, command by
/// command; a command with a quote that is not closed gives none.
pub proof fn law_library_words(v: RecipesView, at: int, commands: Seq<Seq<char>>)
    requires
        0 <= at <= v.recipes.len(),
        forall|k: int| 0 <= k < at ==> (#[trigger] v.recipes[k]).key != "gen_libs"@,
        at < v.recipes.len() ==> v.recipes[at].key == "gen_libs"@ && v.recipes[at].items
            == commands,
        at == v.recipes.len() ==> commands.len() == 0,
    ensures
        library_words(v) == commands.map_values(
            |c: Seq<char>| words_or_none(quoted_words(c)),
        ).flatten(),
        (forall|k: int| 0 <= k < commands.len() ==> is_quoteless(#[trigger] commands[k]))
            ==> library_words(v) == commands.map_values(|c: Seq<char>| words(c)).flatten(),
{
    law_items_found(v.recipes, "gen_libs"@, at);
    assert(listed(v.recipes, "gen_libs"@) =~= commands);
    let lists = Seq::new(commands.len(), |i: int| quoted_words(commands[i]));
    lemma_flat_words(lists);
    let all = commands.map_values(|c: Seq<char>| words_or_none(quoted_words(c)));
    assert(lists.map_values(|list: Option<Seq<Seq<char>>>| words_or_none(list)) =~= all);
    if forall|k: int| 0 <= k < commands.len() ==> is_quoteless(#[trigger] commands[k]) {
        let plain = commands.map_values(|c: Seq<char>| words(c));
        assert forall|k: int| 0 <= k < commands.len() implies all[k] == plain[k] by {
            assert(is_quoteless(commands[k]));
            law_quoteless_words(commands[k]);
        }
        assert(all =~= plain);
    }
}

proof fn lemma_flat_contains(
    lists: Seq<Option<Seq<Seq<char>>>>,
    k: int,
    word: Seq<char>,
)
    requires
        0 <= k < lists.len(),
        words_or_none(lists[k]).contains(word),
    ensures
        flat_words(lists).contains(word),
{
    let a = lists.take(k);
    let list = words_or_none(lists[k]);
    let b = lists.skip(k + 1);
    let one = seq![lists[k]];
    law_lists_together(lists, a, one, list);
    law_lists_together(lists, a + one, b, list);
    assert(lists =~= a + one + b);
    assert(one =~= seq![Some(list)]);
    let at = flat_words(a).len() + list.index_of(word);
    assert(flat_words(lists)[at] == word);
}

/// Every word of every command of `gen_libs` is handed out, whichever command it stands in.
pub proof fn law_every_word_is_handed_out(
    v: RecipesView,
    k: int,
    list: Seq<Seq<char>>,
    word: Seq<char>,
)
    requires
        0 <= k < listed(v.recipes, "gen_libs"@).len(),
        quoted_words(listed(v.recipes, "gen_libs"@)[k]) == Some(list),
        list.contains(word),
    ensures
        library_words(v).contains(word),
{
    let commands = listed(v.recipes, "gen_libs"@);
    lemma_flat_contains(
        Seq::new(commands.len(), |i: int| quoted_words(commands[i])),
        k,
        word,
    );
}

/// Two names are those of makefiles, `GNUmakefile` and `Makefile`, and no others. A path is
/// that of a makefile to read where it exists and has such a name or the extension `.mak`,
/// and one that does not exist never is.
pub proof fn law_makefiles(
    name: Seq<char>,
    exists: bool,
    file_name: Option<Seq<char>>,
    extension: Option<Seq<char>>,
)
    ensures
        makefile_name(name) <==> name == seq!['M', 'a', 'k', 'e', 'f', 'i', 'l', 'e'] || name
            == seq!['G', 'N', 'U', 'm', 'a', 'k', 'e', 'f', 'i', 'l', 'e'],
        is_makefile(exists, file_name, extension) <==> exists && (extension == Some(
            seq!['.', 'm', 'a', 'k'],
        ) || file_name == Some(seq!['M', 'a', 'k', 'e', 'f', 'i', 'l', 'e']) || file_name == Some(
            seq!['G', 'N', 'U', 'm', 'a', 'k', 'e', 'f', 'i', 'l', 'e'],
        )),
{
    reveal_strlit("GNUmakefile");
    reveal_strlit("Makefile");
    reveal_strlit(".mak");
    assert("Makefile"@ =~= seq!['M', 'a', 'k', 'e', 'f', 'i', 'l', 'e']);
    assert("GNUmakefile"@ =~= seq!['G', 'N', 'U', 'm', 'a', 'k', 'e', 'f', 'i', 'l', 'e']);
    assert(".mak"@ =~= seq!['.', 'm', 'a', 'k']);
}

// ---------------------------------------------------------------------------
// The run
// ---------------------------------------------------------------------------

/// What parts give together is what each gives, one part behind the other.
pub proof fn law_parts_together(parts: Seq<Seq<UnitView>>)
    ensures
        flat_units(parts) == parts.flatten(),
    decreases parts.len(),
{
    parts.lemma_flatten_and_flatten_alt_are_equivalent();
    if parts.len() > 0 {
        law_parts_together(parts.drop_last());
        parts.drop_last().lemma_flatten_and_flatten_alt_are_equivalent();
    }
}

/// A run on no makefile is done, stays as it is, and is done again. A run that is not done
/// works on a makefile.
pub proof fn law_done(st: RunView, next: RunView, action: Action)
    requires
        advances(st, next, action),
    ensures
        action is Done <==> st.frames.len() == 0,
        action is Done ==> next == st,
        next.dir == st.dir,
{
}

/// A run fails only where a makefile is left, with the error that its own jobs give, or, where
/// a command is blank, without one; it stays as it was, and no jobs gave units.
pub proof fn law_failed(
    st: RunView,
    recipes: RecipesView,
    mid: RunView,
    next: RunView,
    action: Action,
    k: int,
)
    requires
        is_within(st, recipes, mid, k),
        advances(mid, next, action),
        action is Fail,
    ensures
        k == library_words(recipes).len(),
        next == mid,
        match action->Fail_0 {
            RunError::Unit(e) => units_for(recipes, dir_path(st.dir), Some(Err(e@))),
            RunError::NoCommand => units_for(recipes, dir_path(st.dir), None),
            _ => false,
        },
{
    let lookups = choose|lookups: Seq<LookupView>|
        (is_leaving(mid) ==> lookups_fit(leaving_jobs(mid), lookups)) && #[trigger] advances_with(
            mid,
            next,
            action,
            lookups,
        );
    assert(is_leaving(mid));
    let outcome = units_of(leaving_jobs(mid), dir_path(mid.dir), lookups);
    assert(units_for(recipes, dir_path(st.dir), outcome));
}

/// A working directory that is known as text is that text, and another one is none.
pub proof fn law_dir_path(dir: WorkingDir)
    ensures
        match dir {
            WorkingDir::Path(path) => dir_path(dir) == Some(path@),
            WorkingDir::Missing => dir_path(dir) is None,
            WorkingDir::NotUtf8 => dir_path(dir) is None,
        },
{
}

// ---------------------------------------------------------------------------
// Reading one makefile
// ---------------------------------------------------------------------------

/// A makefile is parsed with its directives commented out. Where nothing in it is escaped,
/// nothing else is changed before that.
pub proof fn law_content_read(content: Seq<char>, dir: WorkingDir)
    requires
        search_known(preprocessed(content)),
        forall|k: int|
            0 <= k < preprocessed(content).len() ==> (#[trigger] preprocessed(content)[k]) != '\\'
                && !is_special(preprocessed(content)[k]),
    ensures
        content_recipes(content, dir) == recipes_in(
            make_nodes(preprocessed(content)),
            preprocessed(content),
            dir,
        ),
{
    law_plain_text_stays(preprocessed(content));
}

} // verus!

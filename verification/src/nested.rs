//! A whole run: the units of a makefile are those of the makefiles that its words lead
//! to, in the order of the words, and behind them its own.

use vstd::prelude::*;

use crate::recipes::{RecipesView, WorkingDir};
use crate::run::{
    advances, dir_path, entered, extends, is_within, law_entered, law_left, law_nested_returns,
    law_words_in_order, library_words, Action, RunView,
};
use crate::units::{units_for, UnitView};

verus! {

/// The units of all parts, one part after the other.
pub open spec fn flat_units(parts: Seq<Seq<UnitView>>) -> Seq<UnitView>
    decreases parts.len(),
{
    if parts.len() == 0 {
        Seq::empty()
    } else {
        flat_units(parts.drop_last()) + parts.last()
    }
}

/// Whether the units are those of the parts and behind them these.
pub open spec fn made_of(
    units: Seq<UnitView>,
    parts: Seq<Seq<UnitView>>,
    own: Seq<UnitView>,
) -> bool {
    units == flat_units(parts) + own
}

/// Whether a makefile gives these units: for each of its words, in order, those of the
/// makefile that the word leads to, or none where it leads to no makefile, and behind
/// them the units of its own jobs. `world` tells what the makefile says that a word leads
/// to, and makefiles lead to each other fewer than `depth` times.
pub open spec fn gives(
    world: spec_fn(Seq<char>) -> Option<RecipesView>,
    dir: WorkingDir,
    recipes: RecipesView,
    units: Seq<UnitView>,
    depth: nat,
) -> bool
    decreases depth,
{
    depth > 0 && exists|parts: Seq<Seq<UnitView>>, own: Seq<UnitView>|
        {
            &&& #[trigger] made_of(units, parts, own)
            &&& units_for(recipes, dir_path(dir), Some(Ok(own)))
            &&& parts.len() == library_words(recipes).len()
            &&& forall|k: int|
                0 <= k < parts.len() ==> match world(library_words(recipes)[k]) {
                    Some(nested) => gives(
                        world,
                        dir,
                        nested,
                        #[trigger] parts[k],
                        (depth - 1) as nat,
                    ),
                    None => parts[k].len() == 0,
                }
        }
}

/// Whether `next` is what the caller makes of an action: a word that leads to a makefile
/// has it entered.
pub open spec fn answers(
    world: spec_fn(Seq<char>) -> Option<RecipesView>,
    mid: RunView,
    action: Action,
    next: RunView,
) -> bool {
    match action {
        Action::Probe(path) => match world(path@) {
            Some(recipes) => next == entered(mid, recipes),
            None => next == mid,
        },
        Action::Left => next == mid,
        _ => false,
    }
}

/// Whether a run goes from `st` to `next` in one step and the caller's answer to it.
pub open spec fn drives(
    world: spec_fn(Seq<char>) -> Option<RecipesView>,
    st: RunView,
    next: RunView,
) -> bool {
    exists|mid: RunView, action: Action| #[trigger]
        advances(st, mid, action) && answers(world, mid, action, next)
}

/// Whether each state of a run follows from the one before it.
pub open spec fn is_drive(
    world: spec_fn(Seq<char>) -> Option<RecipesView>,
    states: Seq<RunView>,
) -> bool {
    forall|t: int| 0 <= t < states.len() - 1 ==> drives(world, #[trigger] states[t], states[t + 1])
}

/// Whether the parts are what the first words lead to.
spec fn parts_given(
    world: spec_fn(Seq<char>) -> Option<RecipesView>,
    dir: WorkingDir,
    recipes: RecipesView,
    parts: Seq<Seq<UnitView>>,
    depth: nat,
) -> bool {
    forall|k: int|
        0 <= k < parts.len() ==> match world(library_words(recipes)[k]) {
            Some(nested) => gives(world, dir, nested, #[trigger] parts[k], depth),
            None => parts[k].len() == 0,
        }
}

/// A makefile that is worked on is left at some state, with the units that it gives.
proof fn lemma_drive(
    world: spec_fn(Seq<char>) -> Option<RecipesView>,
    st: RunView,
    recipes: RecipesView,
    states: Seq<RunView>,
    t: int,
    parts: Seq<Seq<UnitView>>,
    depth: nat,
) -> (r: (int, Seq<UnitView>))
    requires
        is_drive(world, states),
        0 <= t < states.len(),
        depth > states.len() - t,
        states.last().frames.len() <= st.frames.len(),
        is_within(st, recipes, states[t], parts.len() as int),
        states[t].units == st.units + flat_units(parts),
        parts_given(world, st.dir, recipes, parts, (depth - 1) as nat),
    ensures
        t < r.0 < states.len(),
        states[r.0].dir == st.dir,
        states[r.0].frames == st.frames,
        states[r.0].units == st.units + r.1,
        gives(world, st.dir, recipes, r.1, depth),
    decreases states.len() - t,
{
    let k = parts.len() as int;
    let all = library_words(recipes);
    assert(t < states.len() - 1);
    assert(drives(world, states[t], states[t + 1]));
    let (mid, action) = choose|mid: RunView, action: Action| #[trigger]
        advances(states[t], mid, action) && answers(world, mid, action, states[t + 1]);
    if k < all.len() {
        law_words_in_order(st, recipes, states[t], k, mid, action);
        let (e, part) = match world(all[k]) {
            Some(nested) => {
                law_entered(mid, nested);
                let none = Seq::<Seq<UnitView>>::empty();
                assert(mid.units + flat_units(none) =~= mid.units);
                lemma_drive(world, mid, nested, states, t + 1, none, (depth - 1) as nat)
            },
            None => (t + 1, Seq::empty()),
        };
        assert(states[e].units =~= mid.units + part);
        assert(extends(mid, states[e]));
        law_nested_returns(st, recipes, mid, k + 1, states[e]);
        let more = parts.push(part);
        assert(more.drop_last() =~= parts);
        assert(st.units + flat_units(parts) + part =~= st.units + flat_units(more));
        assert(parts_given(world, st.dir, recipes, more, (depth - 1) as nat)) by {
            assert forall|i: int| 0 <= i < more.len() implies match world(all[i]) {
                Some(nested) => gives(
                    world,
                    st.dir,
                    nested,
                    #[trigger] more[i],
                    (depth - 1) as nat,
                ),
                None => more[i].len() == 0,
            } by {
                if i < k {
                    assert(more[i] == parts[i]);
                }
            }
        }
        lemma_drive(world, st, recipes, states, e, more, depth)
    } else {
        law_left(st, recipes, states[t], mid, action);
        let own = choose|own: Seq<UnitView>|
            mid.units == #[trigger] (states[t].units + own) && units_for(
                recipes,
                dir_path(st.dir),
                Some(Ok(own)),
            );
        let units = flat_units(parts) + own;
        assert(made_of(units, parts, own));
        assert(states[t + 1].units =~= st.units + units);
        (t + 1, units)
    }
}

/// A run that enters a makefile, and in which every word that leads to a makefile has it
/// entered, is back where it was when the makefile is left, with the units that the
/// makefile gives, and no others, behind those that it had.
pub proof fn law_whole_run(
    world: spec_fn(Seq<char>) -> Option<RecipesView>,
    st: RunView,
    recipes: RecipesView,
    states: Seq<RunView>,
)
    requires
        states.len() > 0,
        states[0] == entered(st, recipes),
        is_drive(world, states),
        states.last().frames.len() <= st.frames.len(),
        forall|t: int|
            0 <= t < states.len() - 1 ==> (#[trigger] states[t]).frames.len() > st.frames.len(),
    ensures
        states.last().dir == st.dir,
        states.last().frames == st.frames,
        exists|units: Seq<UnitView>|
            states.last().units == #[trigger] (st.units + units) && gives(
                world,
                st.dir,
                recipes,
                units,
                states.len() + 1,
            ),
{
    let none = Seq::<Seq<UnitView>>::empty();
    law_entered(st, recipes);
    assert(st.units + flat_units(none) =~= st.units);
    let (e, units) = lemma_drive(world, st, recipes, states, 0, none, states.len() + 1);
    assert(e == states.len() - 1);
}

} // verus!

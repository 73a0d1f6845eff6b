//! Laws of the recipes of a makefile, said of keys, lists and nodes themselves.

use vstd::prelude::*;
use vstd::string::*;

use crate::error::MakeError;
use crate::recipes::{
    all_resolved, entry_from, initial, items_of, lemma_items_of, lemma_united_contains, listed,
    recipes_in, recipes_of, united, visited, with_assignment, with_depex, with_items, with_rule,
    EntryView, RecipesView, WorkingDir,
};
use crate::reference::resolved;
use crate::rule::{assign_parts, rule_parts, RuleView};
use crate::syntax::NodeView;
use crate::text::{trimmed, words};

verus! {

// ---------------------------------------------------------------------------
// Lists of texts under a key
// ---------------------------------------------------------------------------

/// Under a key the first entry with it is found; without one nothing is found or listed.
pub proof fn law_items_found(entries: Seq<EntryView>, key: Seq<char>, at: int)
    requires
        0 <= at <= entries.len(),
        forall|k: int| 0 <= k < at ==> (#[trigger] entries[k]).key != key,
        at < entries.len() ==> entries[at].key == key,
    ensures
        items_of(entries, key) == (if at < entries.len() {
            Some(entries[at].items)
        } else {
            None
        }),
        listed(entries, key) == (if at < entries.len() {
            entries[at].items
        } else {
            Seq::empty()
        }),
{
    lemma_entry_at(entries, key, 0, at);
}

proof fn lemma_entry_at(entries: Seq<EntryView>, key: Seq<char>, i: int, at: int)
    requires
        0 <= i <= at <= entries.len(),
        forall|k: int| i <= k < at ==> (#[trigger] entries[k]).key != key,
        at < entries.len() ==> entries[at].key == key,
    ensures
        entry_from(entries, key, i) == at,
    decreases at - i,
{
    if i < at {
        assert(entries[i].key != key);
        lemma_entry_at(entries, key, i + 1, at);
    }
}

/// What goes under a key takes the place of what its entry held, and without an entry comes
/// last; the other entries stay where and what they were.
pub proof fn law_items_put(
    entries: Seq<EntryView>,
    key: Seq<char>,
    items: Seq<Seq<char>>,
    at: int,
)
    requires
        0 <= at <= entries.len(),
        forall|k: int| 0 <= k < at ==> (#[trigger] entries[k]).key != key,
        at < entries.len() ==> entries[at].key == key,
    ensures
        with_items(entries, key, items) == (if at < entries.len() {
            entries.take(at) + seq![EntryView { key, items }] + entries.skip(at + 1)
        } else {
            entries + seq![EntryView { key, items }]
        }),
        items_of(with_items(entries, key, items), key) == Some(items),
{
    lemma_entry_at(entries, key, 0, at);
    let after = with_items(entries, key, items);
    if at < entries.len() {
        assert(after =~= entries.take(at) + seq![EntryView { key, items }] + entries.skip(at + 1));
    } else {
        assert(after =~= entries + seq![EntryView { key, items }]);
    }
    lemma_entry_at(after, key, 0, at);
}

/// Lists are united text by text, from the left: a text that is there already changes
/// nothing, and another one comes last.
pub proof fn law_united(
    set: Seq<Seq<char>>,
    a: Seq<Seq<char>>,
    b: Seq<Seq<char>>,
    x: Seq<char>,
)
    ensures
        united(set, a + b) == united(united(set, a), b),
        united(set, Seq::empty()) == set,
        united(set, seq![x]) == (if set.contains(x) {
            set
        } else {
            set + seq![x]
        }),
{
    lemma_united_append(set, a, b);
    reveal_with_fuel(united, 2);
    assert(seq![x].drop_last() =~= Seq::<Seq<char>>::empty());
    assert(set.push(x) =~= set + seq![x]);
}

proof fn lemma_united_append(set: Seq<Seq<char>>, a: Seq<Seq<char>>, b: Seq<Seq<char>>)
    ensures
        united(set, a + b) == united(united(set, a), b),
    decreases b.len(),
{
    if b.len() == 0 {
        assert(a + b =~= a);
    } else {
        lemma_united_append(set, a, b.drop_last());
        assert((a + b).drop_last() =~= a + b.drop_last());
    }
}

/// What a list holds already changes nothing.
proof fn lemma_united_again(set: Seq<Seq<char>>, more: Seq<Seq<char>>)
    requires
        forall|k: int| 0 <= k < more.len() ==> set.contains(#[trigger] more[k]),
    ensures
        united(set, more) == set,
    decreases more.len(),
{
    if more.len() > 0 {
        assert forall|k: int| 0 <= k < more.len() - 1 implies set.contains(
            #[trigger] more.drop_last()[k],
        ) by {
            assert(set.contains(more[k]));
        }
        lemma_united_again(set, more.drop_last());
        assert(set.contains(more[more.len() - 1]));
    }
}

// ---------------------------------------------------------------------------
// Rules
// ---------------------------------------------------------------------------

/// The commands of a rule go under the text of all its targets, each with its references
/// resolved: behind those that stand there, in the same place, and else as a new entry
/// behind all others.
pub proof fn law_rule_placed(st: RecipesView, rule: RuleView, target: Seq<char>, at: int)
    requires
        target == trimmed(resolved(rule.target, st.vars)),
        0 <= at <= st.recipes.len(),
        forall|k: int| 0 <= k < at ==> (#[trigger] st.recipes[k]).key != target,
        at < st.recipes.len() ==> st.recipes[at].key == target,
    ensures
        ({
            let commands = rule.commands.map_values(|c: Seq<char>| resolved(c, st.vars));
            with_rule(st, rule).recipes == (if at < st.recipes.len() {
                st.recipes.take(at) + seq![
                    EntryView { key: target, items: st.recipes[at].items + commands },
                ] + st.recipes.skip(at + 1)
            } else {
                st.recipes + seq![EntryView { key: target, items: commands }]
            })
        }),
        with_rule(st, rule).vars == st.vars,
{
    let commands = rule.commands.map_values(|c: Seq<char>| resolved(c, st.vars));
    let own = listed(st.recipes, target);
    law_items_found(st.recipes, target, at);
    assert(all_resolved(rule.commands, st.vars) =~= commands);
    law_items_put(st.recipes, target, own + commands, at);
    assert(Seq::<Seq<char>>::empty() + commands =~= commands);
}

proof fn lemma_depex_under(
    depex: Seq<EntryView>,
    targets: Seq<Seq<char>>,
    files: Seq<Seq<char>>,
    k: int,
    key: Seq<char>,
)
    requires
        0 <= k <= targets.len(),
    ensures
        items_of(with_depex(depex, targets, files, k), key) == (if targets.take(k).contains(key) {
            Some(united(listed(depex, key), files))
        } else {
            items_of(depex, key)
        }),
    decreases k,
{
    if k > 0 {
        let sofar = with_depex(depex, targets, files, k - 1);
        let last = targets[k - 1];
        let now = targets.take(k);
        lemma_depex_under(depex, targets, files, k - 1, key);
        lemma_items_of(sofar, last, united(listed(sofar, last), files), key);
        assert(now =~= targets.take(k - 1).push(last));
        if key == last {
            assert(now[k - 1] == key);
            if targets.take(k - 1).contains(key) {
                let own = united(listed(depex, key), files);
                assert forall|j: int| 0 <= j < files.len() implies own.contains(
                    #[trigger] files[j],
                ) by {
                    lemma_united_contains(listed(depex, key), files, files[j]);
                }
                lemma_united_again(own, files);
            }
        } else if targets.take(k - 1).contains(key) {
            assert(now[targets.take(k - 1).index_of(key)] == key);
        } else if now.contains(key) {
            assert(targets.take(k - 1)[now.index_of(key)] == key);
        }
    } else {
        assert(targets.take(0) =~= Seq::<Seq<char>>::empty());
    }
}

/// Each target of a rule that names files depends on what it depended on, and behind that on
/// the files, with their references resolved, in order and each once; all other texts depend
/// on what they depended on, and so does every text after a rule that names none.
pub proof fn law_rule_dependencies(st: RecipesView, rule: RuleView, key: Seq<char>)
    ensures
        items_of(with_rule(st, rule).depex, key) == (match rule.depex {
            Some(files) => if words(trimmed(resolved(rule.target, st.vars))).contains(key) {
                Some(united(listed(st.depex, key), words(resolved(files, st.vars))))
            } else {
                items_of(st.depex, key)
            },
            None => items_of(st.depex, key),
        }),
{
    let targets = words(trimmed(resolved(rule.target, st.vars)));
    if let Some(files) = rule.depex {
        let n = targets.len() as int;
        lemma_depex_under(st.depex, targets, words(resolved(files, st.vars)), n, key);
        assert(targets.take(n) =~= targets);
    }
}

// ---------------------------------------------------------------------------
// Nodes
// ---------------------------------------------------------------------------

/// The nodes are read in turn. One of type `ERROR` stops the reading with its place, one of
/// type `rule` or `variable_assignment` adds what it says or stops with why it says nothing,
/// and no other one changes anything. Behind an error nothing is read.
pub proof fn law_node_read(
    nodes: Seq<NodeView>,
    s: Seq<char>,
    st: RecipesView,
    n: int,
    mid: RecipesView,
    e: MakeError,
)
    requires
        0 <= n < nodes.len(),
    ensures
        visited(nodes, s, st, 0) == Ok::<RecipesView, MakeError>(st),
        visited(nodes, s, st, n) == Err::<RecipesView, MakeError>(e) ==> visited(
            nodes,
            s,
            st,
            n + 1,
        ) == Err::<RecipesView, MakeError>(e),
        visited(nodes, s, st, n) == Ok::<RecipesView, MakeError>(mid) ==> visited(
            nodes,
            s,
            st,
            n + 1,
        ) == (if nodes[n].kind == seq!['E', 'R', 'R', 'O', 'R'] {
            Err(
                MakeError::ErrorNode {
                    row: nodes[n].row as usize,
                    column: nodes[n].column as usize,
                },
            )
        } else if nodes[n].kind == seq!['r', 'u', 'l', 'e'] {
            match rule_parts(nodes, n, s) {
                Ok(rule) => Ok(with_rule(mid, rule)),
                Err(e) => Err(e),
            }
        } else if nodes[n].kind == "variable_assignment"@ {
            match assign_parts(nodes, n, s) {
                Ok(parts) => Ok(with_assignment(mid, parts.0, parts.1)),
                Err(e) => Err(e),
            }
        } else {
            Ok(mid)
        }),
{
    reveal_strlit("ERROR");
    reveal_strlit("rule");
    assert("ERROR"@ =~= seq!['E', 'R', 'R', 'O', 'R']);
    assert("rule"@ =~= seq!['r', 'u', 'l', 'e']);
}

proof fn lemma_error_stays(nodes: Seq<NodeView>, s: Seq<char>, st: RecipesView, k: int, n: int)
    requires
        0 <= k < n <= nodes.len(),
        nodes[k].kind == "ERROR"@,
    ensures
        visited(nodes, s, st, n) is Err,
    decreases n,
{
    if k < n - 1 {
        lemma_error_stays(nodes, s, st, k, n - 1);
    }
}

/// A makefile in which some node is of type `ERROR` is refused, wherever the node stands.
pub proof fn law_error_refused(
    nodes: Seq<NodeView>,
    s: Seq<char>,
    workspace: Seq<char>,
    k: int,
)
    requires
        0 <= k < nodes.len(),
        nodes[k].kind == seq!['E', 'R', 'R', 'O', 'R'],
    ensures
        recipes_of(nodes, s, workspace) is Err,
{
    reveal_strlit("ERROR");
    assert("ERROR"@ =~= seq!['E', 'R', 'R', 'O', 'R']);
    lemma_error_stays(nodes, s, initial(workspace), k, nodes.len() as int);
}

/// Reading begins with no recipes, no dependencies and one variable, `WORKSPACE`, which
/// holds the working directory, and goes over all nodes. Without a working directory that is
/// known as text a makefile is refused.
pub proof fn law_reading_begins(nodes: Seq<NodeView>, s: Seq<char>, dir: WorkingDir)
    ensures
        match dir {
            WorkingDir::Path(path) => recipes_in(nodes, s, dir) == visited(
                nodes,
                s,
                (RecipesView {
                    vars: map![
                        seq!['W', 'O', 'R', 'K', 'S', 'P', 'A', 'C', 'E'] => path@,
                    ],
                    recipes: Seq::empty(),
                    depex: Seq::empty(),
                }),
                nodes.len() as int,
            ),
            WorkingDir::Missing => recipes_in(nodes, s, dir) == Err::<RecipesView, MakeError>(
                MakeError::NoCurrentDir,
            ),
            WorkingDir::NotUtf8 => recipes_in(nodes, s, dir) == Err::<RecipesView, MakeError>(
                MakeError::CurrentDirNotUtf8,
            ),
        },
{
    reveal_strlit("WORKSPACE");
    assert("WORKSPACE"@ =~= seq!['W', 'O', 'R', 'K', 'S', 'P', 'A', 'C', 'E']);
    if let WorkingDir::Path(path) = dir {
        let name = seq!['W', 'O', 'R', 'K', 'S', 'P', 'A', 'C', 'E'];
        assert(initial(path@).vars =~= map![name => path@]);
    }
}

} // verus!

//! Laws of reading rules and assignments, said of the nodes and their texts themselves.

use vstd::prelude::*;

use crate::error::MakeError;
use crate::escape::{doubled, escaped_value, unescaped};
use crate::roundtrip::{
    comes_back, law_no_backslash_leaves, law_text_restored, law_value_restored,
};
use crate::rule::{
    assign_parts, find_kind, flat, named_below, named_child_of, rule_parts, text_of, texts_of,
    RuleView,
};
use crate::syntax::{first_at_depth, lemma_first_at_depth, subtree_end, NodeView};
use crate::text::text_between;

verus! {

// ---------------------------------------------------------------------------
// Finding nodes
// ---------------------------------------------------------------------------

/// Whether the nodes behind node `i` and before `end` are those that lie below it.
pub open spec fn is_subtree(nodes: Seq<NodeView>, i: int, end: int) -> bool {
    &&& 0 <= i < end <= nodes.len()
    &&& forall|k: int| i < k < end ==> (#[trigger] nodes[k]).depth > nodes[i].depth
    &&& end < nodes.len() ==> nodes[end].depth <= nodes[i].depth
}

/// Whether `at` lists in order all indices from `from` on and before `to` that are wanted.
pub open spec fn lists_all(
    at: Seq<int>,
    from: int,
    to: int,
    wanted: spec_fn(int) -> bool,
) -> bool {
    &&& forall|k: int| 0 <= k < at.len() ==> from <= #[trigger] at[k] < to && wanted(at[k])
    &&& forall|k: int, l: int| 0 <= k < l < at.len() ==> #[trigger] at[k] < #[trigger] at[l]
    &&& forall|j: int| from <= j < to && #[trigger] wanted(j) ==> at.contains(j)
}

/// Whether the nodes at these indices have these texts.
pub open spec fn have_texts(
    nodes: Seq<NodeView>,
    s: Seq<char>,
    at: Seq<int>,
    texts: Seq<Seq<char>>,
) -> bool {
    &&& at.len() == texts.len()
    &&& forall|k: int|
        0 <= k < at.len() ==> text_between(
            s,
            nodes[at[k]].start,
            nodes[at[k]].end,
        ) == Some(#[trigger] texts[k])
}

/// What is of a type.
pub open spec fn of_kind(nodes: Seq<NodeView>, kind: Seq<char>) -> spec_fn(int) -> bool {
    |j: int| nodes[j].kind == kind
}

/// What is a named child of a node at depth `d`, if it lies below it.
pub open spec fn named_at(nodes: Seq<NodeView>, d: int) -> spec_fn(int) -> bool {
    |j: int| nodes[j].named && nodes[j].depth == d + 1
}

/// The subtree of a node ends where the first node comes that does not lie below it.
pub proof fn law_subtree(nodes: Seq<NodeView>, i: int, end: int)
    requires
        is_subtree(nodes, i, end),
    ensures
        subtree_end(nodes, i) == end,
{
    let d = nodes[i].depth;
    lemma_first_at_depth(nodes, d, i + 1);
    let found = first_at_depth(nodes, d, i + 1);
    if found < end {
        assert(nodes[found].depth > d);
    } else if found > end {
        assert(nodes[end].depth > d);
    }
}

/// The node that is found is the first one of its type; without one it is the end.
pub proof fn law_first_of_kind(
    nodes: Seq<NodeView>,
    kind: Seq<char>,
    from: int,
    end: int,
    at: int,
)
    requires
        from <= at <= end,
        at < end ==> nodes[at].kind == kind,
        forall|k: int| from <= k < at ==> (#[trigger] nodes[k]).kind != kind,
    ensures
        find_kind(nodes, kind, from, end) == at,
    decreases at - from,
{
    if from < at {
        assert(nodes[from].kind != kind);
        law_first_of_kind(nodes, kind, from + 1, end, at);
    }
}

/// A list of all that is wanted, shortened at its end.
proof fn lemma_lists_less(at: Seq<int>, from: int, to: int, wanted: spec_fn(int) -> bool)
    requires
        lists_all(at, from, to, wanted),
        from < to,
    ensures
        wanted(to - 1) ==> at.len() > 0 && at.last() == to - 1 && lists_all(
            at.drop_last(),
            from,
            to - 1,
            wanted,
        ),
        !wanted(to - 1) ==> lists_all(at, from, to - 1, wanted),
{
    if wanted(to - 1) {
        assert(at.contains(to - 1));
        let n = at.len() as int;
        let k = at.index_of(to - 1);
        if k < n - 1 {
            assert(at[k] < at[n - 1]);
        }
        let less = at.drop_last();
        assert forall|j: int| from <= j < to - 1 && #[trigger] wanted(j) implies less.contains(
            j,
        ) by {
            assert(at.contains(j));
            assert(less[at.index_of(j)] == j);
        }
        assert forall|l: int| 0 <= l < less.len() implies from <= #[trigger] less[l] < to - 1
            && wanted(less[l]) by {
            assert(at[l] < at[n - 1]);
        }
    } else {
        assert forall|l: int| 0 <= l < at.len() implies from <= #[trigger] at[l] < to - 1
            && wanted(at[l]) by {}
    }
}

/// The texts of a type are those of all its nodes, in order.
pub proof fn law_texts(
    nodes: Seq<NodeView>,
    s: Seq<char>,
    kind: Seq<char>,
    from: int,
    to: int,
    at: Seq<int>,
    texts: Seq<Seq<char>>,
)
    requires
        from <= to,
        lists_all(at, from, to, of_kind(nodes, kind)),
        have_texts(nodes, s, at, texts),
    ensures
        texts_of(nodes, s, kind, from, to) == Some(texts),
    decreases to - from,
{
    let wanted = of_kind(nodes, kind);
    if from < to {
        lemma_lists_less(at, from, to, wanted);
        if wanted(to - 1) {
            let n = at.len() as int;
            assert(have_texts(nodes, s, at.drop_last(), texts.drop_last()));
            law_texts(nodes, s, kind, from, to - 1, at.drop_last(), texts.drop_last());
            assert(at[n - 1] == to - 1);
            assert(text_of(nodes, s, to - 1) == Some(texts[n - 1]));
            assert(texts.drop_last().push(texts[n - 1]) =~= texts);
        } else {
            law_texts(nodes, s, kind, from, to - 1, at, texts);
        }
    } else {
        if at.len() > 0 {
            assert(from <= at[0] < to);
        }
        assert(texts =~= Seq::<Seq<char>>::empty());
    }
}

/// There are no texts of a type where one of its nodes has none.
pub proof fn law_texts_missing(
    nodes: Seq<NodeView>,
    s: Seq<char>,
    kind: Seq<char>,
    from: int,
    to: int,
    at: int,
)
    requires
        from <= at < to,
        nodes[at].kind == kind,
        text_between(s, nodes[at].start, nodes[at].end) is None,
    ensures
        texts_of(nodes, s, kind, from, to) is None,
    decreases to - at,
{
    if at < to - 1 {
        law_texts_missing(nodes, s, kind, from, to - 1, at);
    }
}

/// The texts put together are the texts one after the other.
pub proof fn law_flat(texts: Seq<Seq<char>>, a: Seq<Seq<char>>, b: Seq<Seq<char>>, x: Seq<char>)
    ensures
        flat(texts) == texts.flatten(),
        flat(a + b) == flat(a) + flat(b),
        flat(seq![x]) == x,
{
    lemma_flat(texts);
    lemma_flat_append(a, b);
    reveal_with_fuel(flat, 2);
    assert(seq![x].drop_last() =~= Seq::<Seq<char>>::empty());
    assert(Seq::<char>::empty() + x =~= x);
}

proof fn lemma_flat(texts: Seq<Seq<char>>)
    ensures
        flat(texts) == texts.flatten(),
    decreases texts.len(),
{
    texts.lemma_flatten_and_flatten_alt_are_equivalent();
    if texts.len() > 0 {
        lemma_flat(texts.drop_last());
        texts.drop_last().lemma_flatten_and_flatten_alt_are_equivalent();
    }
}

proof fn lemma_flat_append(a: Seq<Seq<char>>, b: Seq<Seq<char>>)
    ensures
        flat(a + b) == flat(a) + flat(b),
    decreases b.len(),
{
    if b.len() == 0 {
        assert(a + b =~= a);
        assert(flat(a) + Seq::<char>::empty() =~= flat(a));
    } else {
        lemma_flat_append(a, b.drop_last());
        assert((a + b).drop_last() =~= a + b.drop_last());
        assert(flat(a) + flat(b.drop_last()) + b.last() =~= flat(a) + (flat(b.drop_last())
            + b.last()));
    }
}

// ---------------------------------------------------------------------------
// Rules
// ---------------------------------------------------------------------------

/// Whether the rule at node `i`, whose subtree ends at `end`, has its first targets at
/// `targets` and behind them its first recipe at `recipe`, or none where that is the end.
pub open spec fn is_rule_at(
    nodes: Seq<NodeView>,
    i: int,
    end: int,
    targets: int,
    recipe: int,
) -> bool {
    &&& is_subtree(nodes, i, end)
    &&& i <= targets < recipe <= end
    &&& nodes[targets].kind == "targets"@
    &&& forall|k: int| i <= k < targets ==> (#[trigger] nodes[k]).kind != "targets"@
    &&& recipe < end ==> nodes[recipe].kind == "recipe"@
    &&& forall|k: int| targets < k < recipe ==> (#[trigger] nodes[k]).kind != "recipe"@
}

proof fn lemma_rule_at(nodes: Seq<NodeView>, i: int, end: int, targets: int, recipe: int)
    requires
        is_rule_at(nodes, i, end, targets, recipe),
    ensures
        subtree_end(nodes, i) == end,
        find_kind(nodes, "targets"@, i, end) == targets,
        find_kind(nodes, "recipe"@, targets + 1, end) == recipe,
{
    law_subtree(nodes, i, end);
    law_first_of_kind(nodes, "targets"@, i, end, targets);
    law_first_of_kind(nodes, "recipe"@, targets + 1, end, recipe);
}

/// What a rule says is read off its nodes: the text of its first targets as it is; the texts
/// of all prerequisites between them and the recipe, one after the other, with the escapes
/// undone, where they are not empty; and the text of each piece of shell text behind the
/// start of the recipe, with the escapes undone.
pub proof fn law_rule_read(
    nodes: Seq<NodeView>,
    i: int,
    end: int,
    s: Seq<char>,
    targets: int,
    recipe: int,
    target: Seq<char>,
    prereqs_at: Seq<int>,
    prereqs: Seq<Seq<char>>,
    shell_at: Seq<int>,
    shell: Seq<Seq<char>>,
)
    requires
        is_rule_at(nodes, i, end, targets, recipe),
        text_between(s, nodes[targets].start, nodes[targets].end) == Some(target),
        lists_all(prereqs_at, targets + 1, recipe, of_kind(nodes, "prerequisites"@)),
        have_texts(nodes, s, prereqs_at, prereqs),
        lists_all(shell_at, recipe + 1, end, of_kind(nodes, "shell_text"@)),
        have_texts(nodes, s, shell_at, shell),
    ensures
        rule_parts(nodes, i, s) == Ok::<RuleView, MakeError>(
            RuleView {
                target,
                depex: if prereqs.flatten().len() > 0 {
                    Some(unescaped(prereqs.flatten()))
                } else {
                    None
                },
                commands: shell.map_values(|c: Seq<char>| unescaped(c)),
            },
        ),
{
    lemma_rule_at(nodes, i, end, targets, recipe);
    law_texts(nodes, s, "prerequisites"@, targets + 1, recipe, prereqs_at, prereqs);
    if recipe + 1 <= end {
        law_texts(nodes, s, "shell_text"@, recipe + 1, end, shell_at, shell);
    } else {
        if shell_at.len() > 0 {
            assert(recipe + 1 <= shell_at[0] < end);
        }
        assert(shell =~= Seq::<Seq<char>>::empty());
    }
    lemma_flat(prereqs);
    let parts = rule_parts(nodes, i, s)->Ok_0;
    assert(parts.commands =~= shell.map_values(|c: Seq<char>| unescaped(c)));
}

/// The prerequisites and the commands of a rule come back as they were before their
/// backslashes were doubled: what was written is what is read.
pub proof fn law_rule_restored(
    nodes: Seq<NodeView>,
    i: int,
    end: int,
    s: Seq<char>,
    targets: int,
    recipe: int,
    target: Seq<char>,
    prereqs_at: Seq<int>,
    prereqs: Seq<Seq<char>>,
    files: Seq<char>,
    shell_at: Seq<int>,
    commands: Seq<Seq<char>>,
)
    requires
        is_rule_at(nodes, i, end, targets, recipe),
        text_between(s, nodes[targets].start, nodes[targets].end) == Some(target),
        lists_all(prereqs_at, targets + 1, recipe, of_kind(nodes, "prerequisites"@)),
        have_texts(nodes, s, prereqs_at, prereqs),
        prereqs.flatten() == doubled(files),
        files.len() > 0,
        comes_back(files, false),
        lists_all(shell_at, recipe + 1, end, of_kind(nodes, "shell_text"@)),
        have_texts(nodes, s, shell_at, commands.map_values(|c: Seq<char>| doubled(c))),
        forall|k: int| 0 <= k < commands.len() ==> comes_back(#[trigger] commands[k], false),
    ensures
        rule_parts(nodes, i, s) == Ok::<RuleView, MakeError>(
            RuleView { target, depex: Some(files), commands },
        ),
{
    let shell = commands.map_values(|c: Seq<char>| doubled(c));
    law_rule_read(
        nodes,
        i,
        end,
        s,
        targets,
        recipe,
        target,
        prereqs_at,
        prereqs,
        shell_at,
        shell,
    );
    law_text_restored(files);
    if doubled(files).len() == 0 {
        law_no_backslash_leaves(doubled(files));
    }
    let read = shell.map_values(|c: Seq<char>| unescaped(c));
    assert forall|k: int| 0 <= k < commands.len() implies read[k] == commands[k] by {
        assert(comes_back(commands[k], false));
        law_text_restored(commands[k]);
    }
    assert(read =~= commands);
}

/// A rule without targets is refused, and so is one in which the text of its targets, of
/// prerequisites or of shell text is cut within a character.
pub proof fn law_rule_refused(
    nodes: Seq<NodeView>,
    i: int,
    end: int,
    s: Seq<char>,
    targets: int,
    recipe: int,
    at: int,
)
    ensures
        is_subtree(nodes, i, end) && (forall|k: int|
            i <= k < end ==> (#[trigger] nodes[k]).kind != "targets"@) ==> rule_parts(nodes, i, s)
            == Err::<RuleView, MakeError>(MakeError::NoTarget),
        is_rule_at(nodes, i, end, targets, recipe) && text_between(
            s,
            nodes[at].start,
            nodes[at].end,
        ) is None && (at == targets || (targets < at < recipe && nodes[at].kind
            == "prerequisites"@) || (recipe < at < end && nodes[at].kind == "shell_text"@))
            ==> rule_parts(nodes, i, s) == Err::<RuleView, MakeError>(MakeError::InvalidUtf8),
{
    if is_subtree(nodes, i, end) && (forall|k: int|
        i <= k < end ==> (#[trigger] nodes[k]).kind != "targets"@) {
        law_subtree(nodes, i, end);
        law_first_of_kind(nodes, "targets"@, i, end, end);
    }
    if is_rule_at(nodes, i, end, targets, recipe) {
        lemma_rule_at(nodes, i, end, targets, recipe);
        if text_between(s, nodes[at].start, nodes[at].end) is None {
            if targets < at < recipe && nodes[at].kind == "prerequisites"@ {
                law_texts_missing(nodes, s, "prerequisites"@, targets + 1, recipe, at);
            }
            if recipe < at < end && nodes[at].kind == "shell_text"@ {
                law_texts_missing(nodes, s, "shell_text"@, recipe + 1, end, at);
            }
        }
    }
}

// ---------------------------------------------------------------------------
// Assignments
// ---------------------------------------------------------------------------

proof fn lemma_named_below(
    nodes: Seq<NodeView>,
    d: int,
    from: int,
    end: int,
    at: Seq<int>,
    k: int,
)
    requires
        from <= end,
        0 <= k,
        lists_all(at, from, end, named_at(nodes, d)),
    ensures
        named_below(nodes, d, from, end, k) == (if k < at.len() {
            at[k]
        } else {
            end
        }),
    decreases end - from,
{
    let wanted = named_at(nodes, d);
    if from < end {
        if wanted(from) {
            assert(at.contains(from));
            let f = at.index_of(from);
            if f > 0 {
                assert(at[0] < at[f]);
            }
            assert(at[0] == from);
            let rest = at.skip(1);
            assert forall|l: int| 0 <= l < rest.len() implies from + 1 <= #[trigger] rest[l] < end
                && wanted(rest[l]) by {
                assert(at[0] < at[l + 1]);
            }
            assert forall|j: int| from + 1 <= j < end && #[trigger] wanted(
                j,
            ) implies rest.contains(j) by {
                assert(at.contains(j));
                assert(rest[at.index_of(j) - 1] == j);
            }
            if k > 0 {
                lemma_named_below(nodes, d, from + 1, end, rest, k - 1);
            }
        } else {
            assert forall|l: int| 0 <= l < at.len() implies from + 1 <= #[trigger] at[l] < end
                && wanted(at[l]) by {}
            lemma_named_below(nodes, d, from + 1, end, at, k);
        }
    } else if at.len() > 0 {
        assert(from <= at[0] < end);
    }
}

/// The named children of a node are the named nodes of its subtree that lie one below it,
/// counted from zero.
pub proof fn law_named_child(nodes: Seq<NodeView>, i: int, end: int, at: Seq<int>, k: int)
    requires
        is_subtree(nodes, i, end),
        lists_all(at, i + 1, end, named_at(nodes, nodes[i].depth)),
        0 <= k,
    ensures
        named_child_of(nodes, i, k) == (if k < at.len() {
            Some(at[k])
        } else {
            None
        }),
{
    law_subtree(nodes, i, end);
    lemma_named_below(nodes, nodes[i].depth, i + 1, end, at, k);
    if k < at.len() {
        assert(at[k] < end);
    }
}

/// An assignment says the name that its first named child is, and the value that the second
/// one is, with the escapes undone; without a second one it has no value. Without a first
/// one it is refused, and so is one whose name or value is cut within a character.
pub proof fn law_assignment_read(
    nodes: Seq<NodeView>,
    i: int,
    end: int,
    s: Seq<char>,
    at: Seq<int>,
    name: Seq<char>,
    value: Seq<char>,
)
    requires
        is_subtree(nodes, i, end),
        lists_all(at, i + 1, end, named_at(nodes, nodes[i].depth)),
    ensures
        at.len() == 0 ==> assign_parts(nodes, i, s) == Err::<
            (Seq<char>, Option<Seq<char>>),
            MakeError,
        >(MakeError::NoVariableName),
        at.len() == 1 && text_between(s, nodes[at[0]].start, nodes[at[0]].end) == Some(name)
            ==> assign_parts(nodes, i, s) == Ok::<(Seq<char>, Option<Seq<char>>), MakeError>(
            (name, None),
        ),
        at.len() > 1 && text_between(s, nodes[at[0]].start, nodes[at[0]].end) == Some(name)
            && text_between(s, nodes[at[1]].start, nodes[at[1]].end) == Some(value)
            ==> assign_parts(nodes, i, s) == Ok::<(Seq<char>, Option<Seq<char>>), MakeError>(
            (name, Some(unescaped(value))),
        ),
        at.len() > 0 && text_between(s, nodes[at[0]].start, nodes[at[0]].end) is None
            ==> assign_parts(nodes, i, s) == Err::<(Seq<char>, Option<Seq<char>>), MakeError>(
            MakeError::InvalidUtf8,
        ),
        at.len() > 1 && text_between(s, nodes[at[1]].start, nodes[at[1]].end) is None
            ==> assign_parts(nodes, i, s) == Err::<(Seq<char>, Option<Seq<char>>), MakeError>(
            MakeError::InvalidUtf8,
        ),
{
    law_named_child(nodes, i, end, at, 0);
    law_named_child(nodes, i, end, at, 1);
}

/// The value of an assignment comes back as it was before its backslashes were doubled and
/// its special characters escaped: what was assigned is what is read.
pub proof fn law_assignment_restored(
    nodes: Seq<NodeView>,
    i: int,
    end: int,
    s: Seq<char>,
    at: Seq<int>,
    name: Seq<char>,
    value: Seq<char>,
)
    requires
        is_subtree(nodes, i, end),
        lists_all(at, i + 1, end, named_at(nodes, nodes[i].depth)),
        at.len() > 1,
        text_between(s, nodes[at[0]].start, nodes[at[0]].end) == Some(name),
        text_between(s, nodes[at[1]].start, nodes[at[1]].end) == Some(
            escaped_value(doubled(value)),
        ),
        comes_back(value, true),
    ensures
        assign_parts(nodes, i, s) == Ok::<(Seq<char>, Option<Seq<char>>), MakeError>(
            (name, Some(value)),
        ),
{
    law_assignment_read(nodes, i, end, s, at, name, escaped_value(doubled(value)));
    law_value_restored(value);
}

} // verus!

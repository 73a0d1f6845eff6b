//! What a rule and an assignment say, read off their nodes.

use vstd::prelude::*;
use vstd::string::*;

use crate::error::MakeError;
use crate::escape::{unescape_str, unescaped};
use crate::syntax::{
    first_at_depth, node_text, node_views, nodes_in, subtree_end, NodeView, SyntaxNode,
};
use crate::text::{same_text, text_between, views};

verus! {

// ---------------------------------------------------------------------------
// Finding nodes
// ---------------------------------------------------------------------------

/// The text of node `j`.
pub open spec fn text_of(nodes: Seq<NodeView>, s: Seq<char>, j: int) -> Option<Seq<char>> {
    text_between(s, nodes[j].start, nodes[j].end)
}

/// The first node of type `kind` from `j` on and before `end`, or `end`.
pub open spec fn find_kind(nodes: Seq<NodeView>, kind: Seq<char>, j: int, end: int) -> int
    decreases end - j,
{
    if j >= end {
        end
    } else if nodes[j].kind == kind {
        j
    } else {
        find_kind(nodes, kind, j + 1, end)
    }
}

/// The texts of the nodes of type `kind` from `from` on and before `j`, in
/// order; nothing where one of them has no text.
pub open spec fn texts_of(
    nodes: Seq<NodeView>,
    s: Seq<char>,
    kind: Seq<char>,
    from: int,
    j: int,
) -> Option<Seq<Seq<char>>>
    decreases j - from,
{
    if j <= from {
        Some(Seq::empty())
    } else {
        match texts_of(nodes, s, kind, from, j - 1) {
            None => None,
            Some(texts) => if nodes[j - 1].kind != kind {
                Some(texts)
            } else {
                match text_of(nodes, s, j - 1) {
                    None => None,
                    Some(text) => Some(texts.push(text)),
                }
            },
        }
    }
}

proof fn lemma_find_kind(nodes: Seq<NodeView>, kind: Seq<char>, j: int, end: int)
    requires
        j <= end,
    ensures
        j <= find_kind(nodes, kind, j, end) <= end,
    decreases end - j,
{
    if j < end && nodes[j].kind != kind {
        lemma_find_kind(nodes, kind, j + 1, end);
    }
}

/// Where one node has no text, there are no texts up to any later end.
proof fn lemma_texts_lost(
    nodes: Seq<NodeView>,
    s: Seq<char>,
    kind: Seq<char>,
    from: int,
    j: int,
    end: int,
)
    requires
        j <= end,
        texts_of(nodes, s, kind, from, j) is None,
    ensures
        texts_of(nodes, s, kind, from, end) is None,
    decreases end - j,
{
    if j < end {
        lemma_texts_lost(nodes, s, kind, from, j, end - 1);
    }
}

/// The end of the subtree under node `i`.
fn find_subtree_end(nodes: &Vec<SyntaxNode>, i: usize) -> (r: usize)
    requires
        i < nodes@.len(),
    ensures
        r == subtree_end(node_views(nodes@), i as int),
        i < r <= nodes@.len(),
{
    let depth = nodes[i].depth;
    let count = nodes.len();
    let mut j: usize = i + 1;
    while j < count && nodes[j].depth > depth
        invariant
            i < j <= count == nodes@.len(),
            first_at_depth(node_views(nodes@), depth as int, j as int) == first_at_depth(
                node_views(nodes@),
                depth as int,
                i + 1,
            ),
        decreases nodes@.len() - j,
    {
        j += 1;
    }
    j
}

// ---------------------------------------------------------------------------
// Rules
// ---------------------------------------------------------------------------

/// The texts one after the other.
pub open spec fn flat(texts: Seq<Seq<char>>) -> Seq<char>
    decreases texts.len(),
{
    if texts.len() == 0 {
        Seq::empty()
    } else {
        flat(texts.drop_last()) + texts.last()
    }
}

/// Each text with its lines joined and its escapes undone.
pub open spec fn all_unescaped(texts: Seq<Seq<char>>) -> Seq<Seq<char>> {
    Seq::new(texts.len(), |i: int| unescaped(texts[i]))
}

/// What a rule says: its targets as written, its prerequisites if it has any,
/// and its commands.
pub struct RuleView {
    pub target: Seq<char>,
    pub depex: Option<Seq<char>>,
    pub commands: Seq<Seq<char>>,
}

/// What the rule at node `i` says. The targets are the first node of that type,
/// the prerequisites all those between it and the recipe, and the commands all
/// shell text after the node that begins the recipe.
pub open spec fn rule_parts(nodes: Seq<NodeView>, i: int, s: Seq<char>) -> Result<
    RuleView,
    MakeError,
> {
    let end = subtree_end(nodes, i);
    let targets = find_kind(nodes, "targets"@, i, end);
    let recipe = find_kind(nodes, "recipe"@, targets + 1, end);
    let prereqs = texts_of(nodes, s, "prerequisites"@, targets + 1, recipe);
    let shell = texts_of(nodes, s, "shell_text"@, recipe + 1, end);
    if targets >= end {
        Err(MakeError::NoTarget)
    } else if text_of(nodes, s, targets) is None || prereqs is None || shell is None {
        Err(MakeError::InvalidUtf8)
    } else {
        Ok(
            RuleView {
                target: text_of(nodes, s, targets)->0,
                depex: if flat(prereqs->0).len() == 0 {
                    None
                } else {
                    Some(unescaped(flat(prereqs->0)))
                },
                commands: all_unescaped(shell->0),
            },
        )
    }
}

/// The view of a text that may be missing.
pub open spec fn text_view(t: Option<String>) -> Option<Seq<char>> {
    match t {
        Some(t) => Some(t@),
        None => None,
    }
}

/// Reads the rule at node `i`: its targets, its prerequisites and its commands.
pub fn parse_rule_node<'a>(nodes: &Vec<SyntaxNode>, i: usize, src: &'a str) -> (r: Result<
    (&'a str, Option<String>, Vec<String>),
    MakeError,
>)
    requires
        i < nodes@.len(),
        nodes_in(node_views(nodes@), src@),
    ensures
        match rule_parts(node_views(nodes@), i as int, src@) {
            Ok(parts) => r matches Ok(t) && t.0@ == parts.target && text_view(t.1) == parts.depex
                && views(t.2@) == parts.commands,
            Err(e) => r matches Err(f) && f == e,
        },
{
    let ghost all = node_views(nodes@);
    let ghost s = src@;
    let end = find_subtree_end(nodes, i);
    let mut j: usize = i;
    while j < end && !same_text(nodes[j].kind.as_str(), "targets")
        invariant
            i <= j <= end <= nodes@.len(),
            all == node_views(nodes@),
            find_kind(all, "targets"@, i as int, end as int) == find_kind(
                all,
                "targets"@,
                j as int,
                end as int,
            ),
        decreases end - j,
    {
        assert(all[j as int].kind == nodes@[j as int].kind@);
        j += 1;
    }
    if j >= end {
        return Err(MakeError::NoTarget);
    }
    assert(all[j as int] == nodes@[j as int]@);
    let target = node_text(&nodes[j], src)?;
    let ghost targets = j as int;
    let ghost recipe = find_kind(all, "recipe"@, targets + 1, end as int);
    let ghost shell = texts_of(all, s, "shell_text"@, recipe + 1, end as int);
    proof {
        lemma_find_kind(all, "recipe"@, targets + 1, end as int);
    }

    let mut prereq = String::new();
    j += 1;
    while j < end && !same_text(nodes[j].kind.as_str(), "recipe")
        invariant
            targets + 1 <= j <= recipe <= end <= nodes@.len(),
            all == node_views(nodes@),
            s == src@,
            nodes_in(all, s),
            recipe == find_kind(all, "recipe"@, targets + 1, end as int),
            recipe == find_kind(all, "recipe"@, j as int, end as int),
            rule_parts(all, i as int, s) == rule_parts(all, i as int, src@),
            targets < end,
            end == subtree_end(all, i as int),
            targets == find_kind(all, "targets"@, i as int, end as int),
            texts_of(all, s, "prerequisites"@, targets + 1, j as int) is Some,
            prereq@ == flat(texts_of(all, s, "prerequisites"@, targets + 1, j as int)->0),
        decreases end - j,
    {
        assert(all[j as int] == nodes@[j as int]@);
        proof {
            lemma_find_kind(all, "recipe"@, j + 1, end as int);
        }
        let ghost texts = texts_of(all, s, "prerequisites"@, targets + 1, j as int)->0;
        if same_text(nodes[j].kind.as_str(), "prerequisites") {
            match node_text(&nodes[j], src) {
                Ok(text) => {
                    prereq.append(text);
                    assert(texts.push(text@).drop_last() == texts);
                },
                Err(e) => {
                    proof {
                        lemma_texts_lost(all, s, "prerequisites"@, targets + 1, j + 1, recipe);
                    }
                    return Err(e);
                },
            }
        }
        j += 1;
    }
    assert(j < end ==> all[j as int] == nodes@[j as int]@);
    assert(j == recipe);

    let mut commands: Vec<String> = Vec::new();
    if j < end {
        j += 1;
    }
    let ghost first = j as int;
    while j < end
        invariant
            first <= j <= end <= nodes@.len(),
            recipe + 1 == first || recipe == first == end,
            all == node_views(nodes@),
            s == src@,
            nodes_in(all, s),
            end == subtree_end(all, i as int),
            targets == find_kind(all, "targets"@, i as int, end as int),
            targets < end,
            recipe == find_kind(all, "recipe"@, targets + 1, end as int),
            texts_of(all, s, "prerequisites"@, targets + 1, recipe) is Some,
            text_of(all, s, targets) is Some,
            texts_of(all, s, "shell_text"@, first, j as int) is Some,
            views(commands@) == all_unescaped(
                texts_of(all, s, "shell_text"@, first, j as int)->0,
            ),
        decreases end - j,
    {
        assert(all[j as int] == nodes@[j as int]@);
        let ghost texts = texts_of(all, s, "shell_text"@, first, j as int)->0;
        if same_text(nodes[j].kind.as_str(), "shell_text") {
            match node_text(&nodes[j], src) {
                Ok(text) => {
                    let ghost before = views(commands@);
                    commands.push(unescape_str(text));
                    proof {
                        assert(views(commands@) == before.push(unescaped(text@)));
                        assert(all_unescaped(texts.push(text@)) == before.push(unescaped(text@)));
                    }
                },
                Err(e) => {
                    proof {
                        lemma_texts_lost(all, s, "shell_text"@, first, j + 1, end as int);
                    }
                    return Err(e);
                },
            }
        }
        j += 1;
    }
    let depex = if prereq.as_str().is_empty() {
        None
    } else {
        Some(unescape_str(prereq.as_str()))
    };
    Ok((target, depex, commands))
}

// ---------------------------------------------------------------------------
// Assignments
// ---------------------------------------------------------------------------

/// The `k`-th named node one below depth `d`, from `j` on and before `end`, or
/// `end`.
pub open spec fn named_below(nodes: Seq<NodeView>, d: int, j: int, end: int, k: int) -> int
    decreases end - j,
{
    if j >= end {
        end
    } else if nodes[j].named && nodes[j].depth == d + 1 {
        if k == 0 {
            j
        } else {
            named_below(nodes, d, j + 1, end, k - 1)
        }
    } else {
        named_below(nodes, d, j + 1, end, k)
    }
}

/// The `k`-th named child of node `i`, counted from zero, if it has so many.
pub open spec fn named_child_of(nodes: Seq<NodeView>, i: int, k: int) -> Option<int> {
    let end = subtree_end(nodes, i);
    let child = named_below(nodes, nodes[i].depth, i + 1, end, k);
    if child < end {
        Some(child)
    } else {
        None
    }
}

/// Finds the `k`-th named child of node `i`.
pub fn named_child(nodes: &Vec<SyntaxNode>, i: usize, k: usize) -> (r: Option<usize>)
    requires
        i < nodes@.len(),
    ensures
        match r {
            Some(j) => named_child_of(node_views(nodes@), i as int, k as int) == Some(j as int) && i
                < j < nodes@.len(),
            None => named_child_of(node_views(nodes@), i as int, k as int) is None,
        },
{
    let ghost all = node_views(nodes@);
    let end = find_subtree_end(nodes, i);
    let depth = nodes[i].depth;
    let mut left: usize = k;
    let mut j: usize = i + 1;
    while j < end
        invariant
            i < j <= end <= nodes@.len(),
            all == node_views(nodes@),
            depth == all[i as int].depth,
            end == subtree_end(all, i as int),
            named_below(all, depth as int, j as int, end as int, left as int) == named_below(
                all,
                depth as int,
                i + 1,
                end as int,
                k as int,
            ),
        decreases end - j,
    {
        assert(all[j as int] == nodes@[j as int]@);
        if nodes[j].named && nodes[j].depth > depth && nodes[j].depth - depth == 1 {
            if left == 0 {
                return Some(j);
            }
            left -= 1;
        }
        j += 1;
    }
    None
}

/// What the assignment at node `i` says: the name of the variable is its first
/// named child, and its value, with the escapes undone, the second, if any.
pub open spec fn assign_parts(nodes: Seq<NodeView>, i: int, s: Seq<char>) -> Result<
    (Seq<char>, Option<Seq<char>>),
    MakeError,
> {
    match named_child_of(nodes, i, 0) {
        None => Err(MakeError::NoVariableName),
        Some(name) => match (text_of(nodes, s, name), named_child_of(nodes, i, 1)) {
            (None, _) => Err(MakeError::InvalidUtf8),
            (Some(name), None) => Ok((name, None)),
            (Some(name), Some(value)) => match text_of(nodes, s, value) {
                None => Err(MakeError::InvalidUtf8),
                Some(value) => Ok((name, Some(unescaped(value)))),
            },
        },
    }
}

/// Reads the assignment at node `i`: the name of the variable and its value.
pub fn parse_var_assign_node<'a>(nodes: &Vec<SyntaxNode>, i: usize, src: &'a str) -> (r: Result<
    (&'a str, Option<String>),
    MakeError,
>)
    requires
        i < nodes@.len(),
        nodes_in(node_views(nodes@), src@),
    ensures
        match assign_parts(node_views(nodes@), i as int, src@) {
            Ok(parts) => r matches Ok(t) && t.0@ == parts.0 && text_view(t.1) == parts.1,
            Err(e) => r matches Err(f) && f == e,
        },
{
    let ghost all = node_views(nodes@);
    let name = match named_child(nodes, i, 0) {
        Some(j) => {
            assert(all[j as int] == nodes@[j as int]@);
            node_text(&nodes[j], src)?
        },
        None => {
            return Err(MakeError::NoVariableName);
        },
    };
    match named_child(nodes, i, 1) {
        Some(j) => {
            assert(all[j as int] == nodes@[j as int]@);
            let text = node_text(&nodes[j], src)?;
            Ok((name, Some(unescape_str(text))))
        },
        None => Ok((name, None)),
    }
}

} // verus!

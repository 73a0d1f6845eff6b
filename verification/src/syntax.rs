//! Syntax trees: the nodes as plain values in pre-order, and the walk over a
//! `tree_sitter` tree that yields them.

use vstd::prelude::*;
use vstd::slice::slice_subrange;
use vstd::string::*;
use vstd::utf8::*;

use crate::error::MakeError;
use crate::text::text_between;

verus! {

// ---------------------------------------------------------------------------
// Nodes
// ---------------------------------------------------------------------------

/// One node of a syntax tree: its type, whether the grammar names it, the bytes
/// that it spans, the place where it starts, and how many nodes lie above it.
#[derive(Debug, PartialEq, Eq)]
pub struct SyntaxNode {
    pub kind: String,
    pub named: bool,
    pub start: usize,
    pub end: usize,
    pub row: usize,
    pub column: usize,
    pub depth: usize,
}

/// What a node stands for.
pub struct NodeView {
    pub kind: Seq<char>,
    pub named: bool,
    pub start: int,
    pub end: int,
    pub row: int,
    pub column: int,
    pub depth: int,
}

impl View for SyntaxNode {
    type V = NodeView;

    open spec fn view(&self) -> NodeView {
        NodeView {
            kind: self.kind@,
            named: self.named,
            start: self.start as int,
            end: self.end as int,
            row: self.row as int,
            column: self.column as int,
            depth: self.depth as int,
        }
    }
}

/// The views of the nodes of `v`.
pub open spec fn node_views(v: Seq<SyntaxNode>) -> Seq<NodeView> {
    Seq::new(v.len(), |i: int| v[i]@)
}

/// Whether the depths are those of one tree in pre-order: the root comes first
/// and alone, and a node lies at most one below the node before it.
pub open spec fn is_preorder(nodes: Seq<NodeView>) -> bool {
    &&& nodes.len() > 0
    &&& nodes[0].depth == 0
    &&& forall|i: int|
        0 < i < nodes.len() ==> 0 < (#[trigger] nodes[i]).depth <= nodes[i - 1].depth + 1
}

/// Whether every node spans bytes of the text `s`.
pub open spec fn nodes_in(nodes: Seq<NodeView>, s: Seq<char>) -> bool {
    forall|i: int|
        0 <= i < nodes.len() ==> {
            0 <= (#[trigger] nodes[i]).start <= nodes[i].end <= encode_utf8(s).len()
        }
}

/// The first node from `j` on that does not lie below depth `d`, or the end.
pub open spec fn first_at_depth(nodes: Seq<NodeView>, d: int, j: int) -> int
    decreases nodes.len() - j,
{
    if j < 0 || j >= nodes.len() || nodes[j].depth <= d {
        j
    } else {
        first_at_depth(nodes, d, j + 1)
    }
}

/// The end of the subtree under node `i`, which begins with `i` itself.
pub open spec fn subtree_end(nodes: Seq<NodeView>, i: int) -> int {
    first_at_depth(nodes, nodes[i].depth, i + 1)
}

/// Whether node `i` has a child; the first one is the node after it.
pub open spec fn has_child(nodes: Seq<NodeView>, i: int) -> bool {
    subtree_end(nodes, i) > i + 1
}

/// Whether node `i` has a next sibling, which is the node after its subtree.
pub open spec fn has_next_sibling(nodes: Seq<NodeView>, i: int) -> bool {
    let end = subtree_end(nodes, i);
    end < nodes.len() && nodes[end].depth == nodes[i].depth
}

/// The last node before `j` that lies above depth `d`, or -1.
pub open spec fn last_above(nodes: Seq<NodeView>, d: int, j: int) -> int
    decreases j,
{
    if j <= 0 {
        -1
    } else if nodes[j - 1].depth < d {
        j - 1
    } else {
        last_above(nodes, d, j - 1)
    }
}

/// The parent of node `i`, or -1 for the root.
pub open spec fn parent_of(nodes: Seq<NodeView>, i: int) -> int {
    last_above(nodes, nodes[i].depth, i)
}

pub proof fn lemma_first_at_depth(nodes: Seq<NodeView>, d: int, j: int)
    requires
        0 <= j <= nodes.len(),
    ensures
        j <= first_at_depth(nodes, d, j) <= nodes.len(),
        forall|k: int| j <= k < first_at_depth(nodes, d, j) ==> (#[trigger] nodes[k]).depth > d,
        first_at_depth(nodes, d, j) < nodes.len() ==> nodes[first_at_depth(nodes, d, j)].depth <= d,
    decreases nodes.len() - j,
{
    if j < nodes.len() && nodes[j].depth > d {
        lemma_first_at_depth(nodes, d, j + 1);
    }
}

proof fn lemma_first_at_depth_is(nodes: Seq<NodeView>, d: int, j: int, e: int)
    requires
        0 <= j <= e <= nodes.len(),
        forall|k: int| j <= k < e ==> (#[trigger] nodes[k]).depth > d,
        e < nodes.len() ==> nodes[e].depth <= d,
    ensures
        first_at_depth(nodes, d, j) == e,
    decreases e - j,
{
    if j < e {
        assert(nodes[j].depth > d);
        lemma_first_at_depth_is(nodes, d, j + 1, e);
    }
}

proof fn lemma_last_above(nodes: Seq<NodeView>, d: int, j: int)
    requires
        0 <= j <= nodes.len(),
    ensures
        -1 <= last_above(nodes, d, j) < j || last_above(nodes, d, j) == -1,
        last_above(nodes, d, j) >= 0 ==> nodes[last_above(nodes, d, j)].depth < d,
        forall|k: int| last_above(nodes, d, j) < k < j ==> (#[trigger] nodes[k]).depth >= d,
    decreases j,
{
    if j > 0 && nodes[j - 1].depth >= d {
        lemma_last_above(nodes, d, j - 1);
    }
}

/// Where the subtree of a node ends after `i`, and with it its list of siblings,
/// the subtree of its parent ends there too.
proof fn lemma_parent_end(nodes: Seq<NodeView>, q: int, e: int)
    requires
        is_preorder(nodes),
        0 < q < e <= nodes.len(),
        subtree_end(nodes, q) == e,
        !has_next_sibling(nodes, q),
    ensures
        0 <= parent_of(nodes, q) < q,
        nodes[parent_of(nodes, q)].depth == nodes[q].depth - 1,
        subtree_end(nodes, parent_of(nodes, q)) == e,
{
    let d = nodes[q].depth;
    let p = parent_of(nodes, q);
    lemma_last_above(nodes, d, q);
    lemma_first_at_depth(nodes, d, q + 1);
    if p < 0 {
        assert(nodes[0].depth >= d);
    }
    assert(nodes[p + 1].depth <= nodes[p].depth + 1);
    assert(nodes[p + 1].depth >= d);
    assert forall|k: int| p + 1 <= k < e implies (#[trigger] nodes[k]).depth > nodes[p].depth by {
        if k < q {
            assert(nodes[k].depth >= d);
        }
    }
    lemma_first_at_depth_is(nodes, nodes[p].depth, p + 1, e);
}

proof fn lemma_root_end(nodes: Seq<NodeView>)
    requires
        is_preorder(nodes),
    ensures
        subtree_end(nodes, 0) == nodes.len(),
{
    assert forall|k: int| 1 <= k < nodes.len() implies (#[trigger] nodes[k]).depth
        > nodes[0].depth by {}
    lemma_first_at_depth_is(nodes, 0, 1, nodes.len() as int);
}

// ---------------------------------------------------------------------------
// The calls into the tree_sitter crate
// ---------------------------------------------------------------------------

#[verifier::external_type_specification]
#[verifier::external_body]
pub struct ExTree(tree_sitter::Tree);

#[verifier::external_type_specification]
#[verifier::external_body]
pub struct ExTreeCursor<'tree>(tree_sitter::TreeCursor<'tree>);

#[verifier::external_type_specification]
#[verifier::external_body]
pub struct ExLanguageError(tree_sitter::LanguageError);

/// The nodes that a tree holds, in pre-order.
pub uninterp spec fn tree_nodes(tree: tree_sitter::Tree) -> Seq<NodeView>;

/// The nodes that a cursor can reach, in pre-order: those of the subtree that it
/// was made for.
pub uninterp spec fn cursor_nodes(cursor: tree_sitter::TreeCursor) -> Seq<NodeView>;

/// Which of its nodes a cursor is at.
pub uninterp spec fn cursor_index(cursor: tree_sitter::TreeCursor) -> int;

/// The nodes of the tree that `tree_sitter::Parser::parse` makes of a text with
/// the grammar of `tree_sitter_make`.
pub uninterp spec fn make_nodes(src: Seq<char>) -> Seq<NodeView>;

/// Whether a cursor is at one of its nodes, and these are those of a tree.
pub open spec fn cursor_valid(cursor: tree_sitter::TreeCursor) -> bool {
    is_preorder(cursor_nodes(cursor)) && 0 <= cursor_index(cursor) < cursor_nodes(cursor).len()
}

/// `tree_sitter::TreeCursor::goto_first_child` moves the cursor to the first
/// child of its node, which in pre-order is the next node, and says whether
/// there was one. Without a child the cursor stays.
pub assume_specification<'tree>[ tree_sitter::TreeCursor::<'tree>::goto_first_child ](
    cursor: &mut tree_sitter::TreeCursor<'tree>,
) -> (r: bool)
    ensures
        cursor_valid(*old(cursor)) && cursor_valid(*final(cursor)),
        cursor_nodes(*final(cursor)) == cursor_nodes(*old(cursor)),
        r == has_child(cursor_nodes(*old(cursor)), cursor_index(*old(cursor))),
        cursor_index(*final(cursor)) == (if r {
            cursor_index(*old(cursor)) + 1
        } else {
            cursor_index(*old(cursor))
        }),
;

/// `tree_sitter::TreeCursor::goto_next_sibling` moves the cursor to the next
/// sibling of its node, which in pre-order is the node after its subtree, and
/// says whether there was one. Without a sibling the cursor stays.
pub assume_specification<'tree>[ tree_sitter::TreeCursor::<'tree>::goto_next_sibling ](
    cursor: &mut tree_sitter::TreeCursor<'tree>,
) -> (r: bool)
    ensures
        cursor_valid(*old(cursor)) && cursor_valid(*final(cursor)),
        cursor_nodes(*final(cursor)) == cursor_nodes(*old(cursor)),
        r == has_next_sibling(cursor_nodes(*old(cursor)), cursor_index(*old(cursor))),
        cursor_index(*final(cursor)) == (if r {
            subtree_end(cursor_nodes(*old(cursor)), cursor_index(*old(cursor)))
        } else {
            cursor_index(*old(cursor))
        }),
;

/// `tree_sitter::TreeCursor::goto_parent` moves the cursor to the parent of its
/// node, and says whether there was one: only the node that the cursor was made
/// for has none. Without a parent the cursor stays.
pub assume_specification<'tree>[ tree_sitter::TreeCursor::<'tree>::goto_parent ](
    cursor: &mut tree_sitter::TreeCursor<'tree>,
) -> (r: bool)
    ensures
        cursor_valid(*old(cursor)) && cursor_valid(*final(cursor)),
        cursor_nodes(*final(cursor)) == cursor_nodes(*old(cursor)),
        r == (cursor_index(*old(cursor)) != 0),
        cursor_index(*final(cursor)) == (if r {
            parent_of(cursor_nodes(*old(cursor)), cursor_index(*old(cursor)))
        } else {
            cursor_index(*old(cursor))
        }),
;

/// `tree_sitter::Tree::walk` makes a cursor for the root of the tree, at the
/// root.
pub assume_specification[ tree_sitter::Tree::walk ](tree: &tree_sitter::Tree) -> (r:
    tree_sitter::TreeCursor<'_>)
    ensures
        cursor_valid(r),
        cursor_nodes(r) == tree_nodes(*tree),
        cursor_index(r) == 0,
;

/// Calls `tree_sitter::TreeCursor::node`, and hands on as plain values what the
/// node tells of itself, with the cursor's depth. It claims that this is the
/// node that the cursor is at.
#[verifier::external_body]
fn current_node(cursor: &tree_sitter::TreeCursor) -> (r: SyntaxNode)
    ensures
        r@ == cursor_nodes(*cursor)[cursor_index(*cursor)],
{
    let node = cursor.node();
    let range = node.range();
    SyntaxNode {
        kind: node.kind().to_string(),
        named: node.is_named(),
        start: range.start_byte,
        end: range.end_byte,
        row: range.start_point.row,
        column: range.start_point.column,
        depth: cursor.depth() as usize,
    }
}

/// Calls `tree_sitter::Parser::parse` with the grammar of `tree_sitter_make` on
/// a new `tree_sitter::Parser`. It claims that the parser takes this grammar,
/// whose format has a version among those that `set_language` admits, that a
/// parser with a grammar gives a tree for any text, and that the nodes of the
/// tree span bytes of the text.
#[verifier::external_body]
pub(crate) fn parse_tree(src: &str) -> (r: Result<
    Option<tree_sitter::Tree>,
    tree_sitter::LanguageError,
>)
    ensures
        r matches Ok(Some(_)),
        tree_nodes(r->Ok_0->Some_0) == make_nodes(src@),
        nodes_in(tree_nodes(r->Ok_0->Some_0), src@),
{
    let mut parser = tree_sitter::Parser::new();
    parser.set_language(&tree_sitter_make::LANGUAGE.into())?;
    Ok(parser.parse(src.as_bytes(), None))
}

// ---------------------------------------------------------------------------
// Walking a tree
// ---------------------------------------------------------------------------

/// A walk over the nodes that a cursor can reach, in pre-order, from the node
/// that it is at.
pub struct TsWalker<'c> {
    cursor: tree_sitter::TreeCursor<'c>,
    end: bool,
}

impl<'c> TsWalker<'c> {
    /// The nodes that the walk goes over.
    pub closed spec fn nodes(&self) -> Seq<NodeView> {
        cursor_nodes(self.cursor)
    }

    /// The index of the node that comes next.
    pub closed spec fn position(&self) -> int {
        if self.end {
            cursor_nodes(self.cursor).len() as int
        } else {
            cursor_index(self.cursor)
        }
    }

    /// Begins a walk at the node that the cursor is at.
    pub fn from(value: tree_sitter::TreeCursor<'c>) -> (r: TsWalker<'c>)
        ensures
            r.nodes() == cursor_nodes(value),
            r.position() == cursor_index(value),
    {
        TsWalker { cursor: value, end: false }
    }

    /// The next node of the walk; nothing once the last node has come.
    pub fn next(&mut self) -> (r: Option<SyntaxNode>)
        ensures
            final(self).nodes() == old(self).nodes(),
            match r {
                Some(node) => {
                    &&& 0 <= old(self).position() < old(self).nodes().len()
                    &&& node@ == old(self).nodes()[old(self).position()]
                    &&& final(self).position() == old(self).position() + 1
                },
                None => {
                    &&& old(self).position() == old(self).nodes().len()
                    &&& final(self).position() == old(self).position()
                },
            },
    {
        if self.end {
            return None;
        }
        let ghost nodes = cursor_nodes(self.cursor);
        let ghost i = cursor_index(self.cursor);
        let node = current_node(&self.cursor);
        if self.cursor.goto_first_child() {
            return Some(node);
        }
        proof {
            lemma_first_at_depth(nodes, nodes[i].depth, i + 1);
        }
        if self.cursor.goto_next_sibling() {
            return Some(node);
        }
        if self.cursor.goto_parent() {
            proof {
                lemma_parent_end(nodes, i, i + 1);
            }
            while !self.cursor.goto_next_sibling()
                invariant_except_break
                    cursor_index(self.cursor) <= i,
                    subtree_end(nodes, cursor_index(self.cursor)) == i + 1,
                invariant
                    is_preorder(nodes),
                    0 <= i < nodes.len(),
                    nodes == old(self).nodes(),
                    i == old(self).position(),
                    node@ == nodes[i],
                    cursor_nodes(self.cursor) == nodes,
                    cursor_valid(self.cursor),
                    !self.end,
                ensures
                    cursor_index(self.cursor) == i + 1,
                decreases cursor_index(self.cursor),
            {
                let ghost q = cursor_index(self.cursor);
                if !self.cursor.goto_parent() {
                    proof {
                        lemma_root_end(nodes);
                    }
                    self.end = true;
                    return Some(node);
                }
                proof {
                    lemma_parent_end(nodes, q, i + 1);
                }
            }
            return Some(node);
        }
        proof {
            lemma_root_end(nodes);
        }
        self.end = true;
        Some(node)
    }

    /// All nodes that are still to come.
    pub fn collect_nodes(self) -> (r: Vec<SyntaxNode>)
        ensures
            0 <= self.position() <= self.nodes().len(),
            node_views(r@) == self.nodes().skip(self.position()),
    {
        let mut walker = self;
        let mut r: Vec<SyntaxNode> = Vec::new();
        let ghost start = self.position();
        loop
            invariant
                walker.nodes() == self.nodes(),
                start == self.position(),
                walker.position() == start + r@.len(),
                r@.len() > 0 ==> 0 <= start,
                forall|k: int| 0 <= k < r@.len() ==> (#[trigger] r@[k])@ == self.nodes()[start + k],
            decreases self.nodes().len() - walker.position(),
        {
            match walker.next() {
                Some(node) => {
                    r.push(node);
                },
                None => {
                    assert(node_views(r@) =~= self.nodes().skip(start));
                    return r;
                },
            }
        }
    }
}

/// The text of a node.
pub fn node_text<'a>(node: &SyntaxNode, src: &'a str) -> (r: Result<&'a str, MakeError>)
    requires
        node.start <= node.end <= encode_utf8(src@).len(),
    ensures
        match r {
            Ok(t) => text_between(src@, node@.start, node@.end) == Some(t@),
            Err(e) => text_between(src@, node@.start, node@.end) is None && e
                == MakeError::InvalidUtf8,
        },
{
    match std::str::from_utf8(slice_subrange(src.as_bytes(), node.start, node.end)) {
        Ok(t) => {
            proof {
                encode_utf8_valid_utf8(t@);
                encode_utf8_decode_utf8(t@);
            }
            Ok(t)
        },
        Err(_) => Err(MakeError::InvalidUtf8),
    }
}

#[verifier::external_type_specification]
#[verifier::external_body]
pub struct ExUtf8Error(std::str::Utf8Error);

/// `std::str::from_utf8` gives the text that the bytes spell, and fails if and
/// only if they are no UTF-8.
pub assume_specification[ std::str::from_utf8 ](v: &[u8]) -> (r: Result<
    &str,
    std::str::Utf8Error,
>)
    ensures
        r is Ok <==> valid_utf8(v@),
        r matches Ok(t) ==> t.spec_bytes() == v@,
;

} // verus!

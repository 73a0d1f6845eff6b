//! Laws of escaping, restoring and resolving, said of the characters of the texts
//! themselves.

use vstd::prelude::*;
use vstd::string::*;
use vstd::utf8::*;

use crate::escape::{
    backslashed, backslashed_from, capture_positions, doubled, escape_points, escape_positions,
    escaped, escaped_value, growing_within, is_special, joined, lemma_escape_points, preprocessed,
    stripped, unescaped,
};
use crate::pattern::{
    directive_word, expanded, filler, first_of, last_on_line, lemma_first_of, lemma_match_at,
    lemma_woven_unmatched, match_at, reference_at, rewritten, space_end, woven,
    Capture, Pattern, Span,
};
use crate::reference::{law_reference_resolved, law_resolve_leaves, resolved, with_reference};
use crate::roundtrip::{ref_state, ref_step};
use crate::text::{byte_offset, is_blank, is_white_space, lemma_text_between, text_between};

verus! {

// ---------------------------------------------------------------------------
// Matches behind a text
// ---------------------------------------------------------------------------

/// A match in a text that comes behind `n` characters.
spec fn behind(sp: Span, n: int) -> Span {
    Span {
        start: sp.start + n,
        end: sp.end + n,
        group: match sp.group {
            Some(g) => Some((g.0 + n, g.1 + n)),
            None => None,
        },
    }
}

proof fn lemma_first_of_behind(head: Seq<char>, tail: Seq<char>, i: int, a: char, b: char)
    requires
        0 <= i,
    ensures
        first_of(head + tail, head.len() + i, a, b) == head.len() + first_of(tail, i, a, b),
    decreases tail.len() - i,
{
    if i < tail.len() {
        assert((head + tail)[head.len() + i] == tail[i]);
        lemma_first_of_behind(head, tail, i + 1, a, b);
    }
}

proof fn lemma_space_end_behind(head: Seq<char>, tail: Seq<char>, i: int)
    requires
        0 <= i,
    ensures
        space_end(head + tail, head.len() + i) == head.len() + space_end(tail, i),
    decreases tail.len() - i,
{
    if i < tail.len() {
        assert((head + tail)[head.len() + i] == tail[i]);
        lemma_space_end_behind(head, tail, i + 1);
    }
}

proof fn lemma_last_on_line_behind(head: Seq<char>, tail: Seq<char>, low: int, i: int)
    requires
        0 <= low,
        i <= tail.len(),
    ensures
        last_on_line(head + tail, head.len() + low, head.len() + i) == head.len() + last_on_line(
            tail,
            low,
            i,
        ),
        last_on_line(tail, low, i) < tail.len(),
    decreases i,
{
    if i > low {
        assert((head + tail)[head.len() + i - 1] == tail[i - 1]);
        lemma_last_on_line_behind(head, tail, low, i - 1);
    }
}

/// What matches behind a text is what matches without it.
#[verifier::rlimit(40)]
proof fn lemma_match_behind(p: Pattern, head: Seq<char>, tail: Seq<char>, i: int)
    requires
        !(p is Assignment),
        0 <= i < tail.len(),
    ensures
        match_at(p, head + tail, head.len() + i) == (match match_at(p, tail, i) {
            Some(sp) => Some(behind(sp, head.len() as int)),
            None => None,
        }),
{
    let s = head + tail;
    let n = head.len() as int;
    assert forall|k: int| 0 <= k < tail.len() implies s[n + k] == #[trigger] tail[k] by {}
    assert(s[n + i] == tail[i]);
    if i + 1 < tail.len() {
        assert(s[n + i + 1] == tail[i + 1]);
    }
    if i + 2 < tail.len() {
        assert(s[n + i + 2] == tail[i + 2]);
    }
    match p {
        Pattern::Directive => {
            if i + 8 <= tail.len() {
                assert(s[n + i + 3] == tail[i + 3] && s[n + i + 4] == tail[i + 4]);
                assert(s[n + i + 5] == tail[i + 5] && s[n + i + 6] == tail[i + 6]);
                assert(s[n + i + 7] == tail[i + 7]);
            }
            lemma_space_end_behind(head, tail, i + 8);
            lemma_last_on_line_behind(head, tail, i + 9, tail.len() as int);
            let past = space_end(tail, i + 8);
            let body = if past < tail.len() {
                past
            } else {
                last_on_line(tail, i + 9, tail.len() as int)
            };
            if i + 8 < body {
                lemma_first_of_behind(head, tail, body, '\n', '\n');
                assert(s[n + body] == tail[body]);
            }
        },
        Pattern::Continuation => {
            lemma_space_end_behind(head, tail, i + 2);
            lemma_space_end_behind(head, tail, i + 3);
        },
        Pattern::Reference => {
            lemma_first_of_behind(head, tail, i + 3, ')', '\n');
            if i + 3 < tail.len() {
                lemma_first_of(tail, i + 3, ')', '\n');
                let close = first_of(tail, i + 3, ')', '\n');
                if close < tail.len() {
                    assert(s[n + close] == tail[close]);
                }
            }
        },
        _ => {},
    }
}

/// What stands in place of a match behind a text is what stands in its place without it.
proof fn lemma_expanded_behind(rep: Seq<char>, head: Seq<char>, tail: Seq<char>, sp: Span)
    requires
        0 <= sp.start <= sp.end <= tail.len(),
        sp.group matches Some(g) ==> 0 <= g.0 <= g.1 <= tail.len(),
    ensures
        expanded(rep, head + tail, behind(sp, head.len() as int)) == expanded(rep, tail, sp),
{
    let s = head + tail;
    let n = head.len() as int;
    assert(s.subrange(n + sp.start, n + sp.end) =~= tail.subrange(sp.start, sp.end));
    if let Some(g) = sp.group {
        assert(s.subrange(n + g.0, n + g.1) =~= tail.subrange(g.0, g.1));
    }
}

/// What is rewritten behind a text is what is rewritten without it.
#[verifier::rlimit(40)]
proof fn lemma_woven_behind(
    p: Pattern,
    head: Seq<char>,
    tail: Seq<char>,
    i: int,
    rep: Seq<char>,
)
    requires
        !(p is Assignment),
        0 <= i <= tail.len(),
    ensures
        woven(p, head + tail, head.len() + i, filler(rep, head + tail)) == woven(
            p,
            tail,
            i,
            filler(rep, tail),
        ),
    decreases tail.len() - i,
{
    let s = head + tail;
    let n = head.len() as int;
    if i < tail.len() {
        lemma_match_at(p, tail, i);
        lemma_match_behind(p, head, tail, i);
        assert(s[n + i] == tail[i]);
        match match_at(p, tail, i) {
            Some(sp) => {
                lemma_woven_behind(p, head, tail, sp.end, rep);
                lemma_expanded_behind(rep, head, tail, sp);
                assert(match_at(p, s, n + i) == Some(behind(sp, n)));
            },
            None => {
                lemma_woven_behind(p, head, tail, i + 1, rep);
                assert(match_at(p, s, n + i) is None);
            },
        }
    }
}

/// Up to where something matches the text stands as it is.
proof fn lemma_woven_before(
    p: Pattern,
    s: Seq<char>,
    i: int,
    m: int,
    f: spec_fn(Span) -> Seq<char>,
)
    requires
        0 <= i <= m <= s.len(),
        forall|k: int| i <= k < m ==> #[trigger] match_at(p, s, k) is None,
    ensures
        woven(p, s, i, f) == s.subrange(i, m) + woven(p, s, m, f),
    decreases m - i,
{
    let rest = woven(p, s, m, f);
    if i < m {
        assert(match_at(p, s, i) is None);
        lemma_woven_before(p, s, i + 1, m, f);
        assert(s.subrange(i, m) =~= seq![s[i]] + s.subrange(i + 1, m));
        assert(seq![s[i]] + (s.subrange(i + 1, m) + rest) =~= s.subrange(i, m) + rest);
    } else {
        assert(s.subrange(i, m) + rest =~= rest);
    }
}

/// Where nothing matches in the first part of a text, it stands as it is, and the other part
/// is rewritten by itself.
proof fn lemma_rewritten_apart(p: Pattern, a: Seq<char>, b: Seq<char>, rep: Seq<char>)
    requires
        !(p is Assignment),
        forall|k: int| 0 <= k < a.len() ==> #[trigger] match_at(p, a + b, k) is None,
    ensures
        rewritten(p, a + b, rep) == a + rewritten(p, b, rep),
{
    let n = a.len() as int;
    lemma_woven_before(p, a + b, 0, n, filler(rep, a + b));
    lemma_woven_behind(p, a, b, 0, rep);
    assert((a + b).subrange(0, n) =~= a);
}

/// The first match of a text is replaced, what precedes it stands as it is, and what follows
/// it is rewritten by itself.
proof fn lemma_rewritten_first(
    p: Pattern,
    a: Seq<char>,
    m: Seq<char>,
    b: Seq<char>,
    rep: Seq<char>,
    sp: Span,
)
    requires
        !(p is Assignment),
        m.len() > 0,
        forall|k: int| 0 <= k < a.len() ==> #[trigger] match_at(p, a + m + b, k) is None,
        match_at(p, a + m + b, a.len() as int) == Some(sp),
        sp.end == a.len() + m.len(),
    ensures
        rewritten(p, a + m + b, rep) == a + expanded(rep, a + m + b, sp) + rewritten(p, b, rep),
{
    let s = a + m + b;
    let n = a.len() as int;
    let f = filler(rep, s);
    lemma_woven_before(p, s, 0, n, f);
    lemma_woven_behind(p, a + m, b, 0, rep);
    assert(s.subrange(0, n) =~= a);
    let rest = rewritten(p, b, rep);
    assert(woven(p, s, n, f) == f(sp) + rest);
    assert(a + (f(sp) + rest) =~= a + f(sp) + rest);
}

/// Whether a text holds no backslash.
pub open spec fn holds_no_backslash(s: Seq<char>) -> bool {
    forall|k: int| 0 <= k < s.len() ==> (#[trigger] s[k]) != '\\'
}

proof fn lemma_no_backslash_no_match(p: Pattern, a: Seq<char>, b: Seq<char>)
    requires
        p is Backslash || p is Continuation || p is Escape,
        holds_no_backslash(a),
    ensures
        forall|k: int| 0 <= k < a.len() ==> #[trigger] match_at(p, a + b, k) is None,
{
    assert forall|k: int| 0 <= k < a.len() implies #[trigger] match_at(p, a + b, k) is None by {
        assert((a + b)[k] == a[k]);
        assert(a[k] != '\\');
    }
}

// ---------------------------------------------------------------------------
// Backslashes
// ---------------------------------------------------------------------------

/// A backslash and a character of the same line become two backslashes and the character,
/// and what follows is doubled by itself. A backslash at the end of a line or of the text
/// stays alone.
pub proof fn law_doubled(a: Seq<char>, c: char, b: Seq<char>)
    requires
        holds_no_backslash(a),
    ensures
        c != '\n' && c != '\r' ==> doubled(a + seq!['\\', c] + b) == a + seq!['\\', '\\', c]
            + doubled(b),
        c == '\n' || c == '\r' ==> doubled(a + seq!['\\', c] + b) == a + seq!['\\', c] + doubled(b),
        doubled(a + seq!['\\']) == a + seq!['\\'],
        doubled(a) == a,
{
    let p = Pattern::Backslash;
    reveal_strlit("\\\\$1");
    let rep = "\\\\$1"@;
    let m = seq!['\\', c];
    let s = a + m + b;
    let n = a.len() as int;
    assert(s[n] == '\\' && s[n + 1] == c);
    assert(s =~= a + (m + b));
    if c != '\n' && c != '\r' {
        let sp = Span { start: n, end: n + 2, group: Some((n + 1, n + 2)) };
        lemma_no_backslash_no_match(p, a, m + b);
        lemma_rewritten_first(p, a, m, b, rep, sp);
        assert(rep.take(2) + s.subrange(n + 1, n + 2) =~= seq!['\\', '\\', c]);
    } else {
        lemma_no_backslash_no_match(p, a, m + b);
        assert forall|k: int| 0 <= k < (a + m).len() implies #[trigger] match_at(
            p,
            a + m + b,
            k,
        ) is None by {
            if k < n {
                assert(match_at(p, a + (m + b), k) is None);
            }
        }
        lemma_rewritten_apart(p, a + m, b, rep);
    }
    let e = Seq::<char>::empty();
    let t = a + seq!['\\'];
    lemma_no_backslash_no_match(p, a, seq!['\\']);
    assert forall|k: int| 0 <= k < t.len() implies #[trigger] match_at(p, t, k) is None by {}
    lemma_woven_unmatched(p, t, 0, filler(rep, t));
    assert(t.skip(0) =~= t);
    lemma_no_backslash_no_match(p, a, e);
    assert(a + e =~= a);
    lemma_woven_unmatched(p, a, 0, filler(rep, a));
    assert(a.skip(0) =~= a);
}

/// A backslash before a parenthesis, a quotation mark or a backslash is taken away, and one
/// before any other character stays; what follows is restored by itself.
pub proof fn law_stripped(a: Seq<char>, c: char, b: Seq<char>)
    requires
        holds_no_backslash(a),
    ensures
        c == '(' || c == ')' || c == '"' || c == '\\' ==> stripped(a + seq!['\\', c] + b) == a
            + seq![c] + stripped(b),
        !(c == '(' || c == ')' || c == '"' || c == '\\') ==> stripped(a + seq!['\\', c] + b) == a
            + seq!['\\', c] + stripped(b),
        stripped(a + seq!['\\']) == a + seq!['\\'],
        stripped(a) == a,
{
    let p = Pattern::Escape;
    reveal_strlit("$1");
    let rep = "$1"@;
    let m = seq!['\\', c];
    let s = a + m + b;
    let n = a.len() as int;
    assert(s[n] == '\\' && s[n + 1] == c);
    assert(s =~= a + (m + b));
    lemma_no_backslash_no_match(p, a, m + b);
    if c == '(' || c == ')' || c == '"' || c == '\\' {
        let sp = Span { start: n, end: n + 2, group: Some((n + 1, n + 2)) };
        lemma_rewritten_first(p, a, m, b, rep, sp);
        assert(rep.take(0) + s.subrange(n + 1, n + 2) =~= seq![c]);
    } else {
        assert forall|k: int| 0 <= k < (a + m).len() implies #[trigger] match_at(
            p,
            a + m + b,
            k,
        ) is None by {
            if k < n {
                assert(match_at(p, a + (m + b), k) is None);
            }
        }
        lemma_rewritten_apart(p, a + m, b, rep);
    }
    let e = Seq::<char>::empty();
    let t = a + seq!['\\'];
    lemma_no_backslash_no_match(p, a, seq!['\\']);
    assert forall|k: int| 0 <= k < t.len() implies #[trigger] match_at(p, t, k) is None by {}
    lemma_woven_unmatched(p, t, 0, filler(rep, t));
    assert(t.skip(0) =~= t);
    lemma_no_backslash_no_match(p, a, e);
    assert(a + e =~= a);
    lemma_woven_unmatched(p, a, 0, filler(rep, a));
    assert(a.skip(0) =~= a);
}

proof fn lemma_space_end_is(s: Seq<char>, i: int, end: int)
    requires
        0 <= i <= end <= s.len(),
        forall|k: int| i <= k < end ==> is_white_space(#[trigger] s[k]),
        end < s.len() ==> !is_white_space(s[end]),
    ensures
        space_end(s, i) == end,
    decreases end - i,
{
    if i < end {
        assert(is_white_space(s[i]));
        lemma_space_end_is(s, i + 1, end);
    }
}

/// A backslash at the end of a line, the line end and all white space that follows become
/// one space, and what comes behind it is treated by itself.
pub proof fn law_joined(a: Seq<char>, crlf: bool, space: Seq<char>, b: Seq<char>)
    requires
        holds_no_backslash(a),
        is_blank(space),
        b.len() > 0 ==> !is_white_space(b[0]),
    ensures
        ({
            let end = if crlf {
                seq!['\\', '\r', '\n']
            } else {
                seq!['\\', '\n']
            };
            &&& joined(a + (end + space) + b) == a + seq![' '] + joined(b)
            &&& unescaped(a + (end + space) + b) == a + seq![' '] + unescaped(b)
        }),
{
    let p = Pattern::Continuation;
    reveal_strlit(" ");
    let rep = " "@;
    let end = if crlf {
        seq!['\\', '\r', '\n']
    } else {
        seq!['\\', '\n']
    };
    let m = end + space;
    let s = a + m + b;
    let n = a.len() as int;
    assert(s =~= a + (m + b));
    lemma_no_backslash_no_match(p, a, m + b);
    assert(s[n] == '\\');
    assert(s[n + 1] == end[1]);
    if crlf {
        assert(s[n + 2] == '\n');
    }
    let from = n + end.len();
    assert forall|k: int| from <= k < from + space.len() implies is_white_space(
        #[trigger] s[k],
    ) by {
        assert(s[k] == space[k - from]);
    }
    lemma_space_end_is(s, from, from + space.len());
    let sp = Span { start: n, end: from + space.len(), group: None };
    lemma_rewritten_first(p, a, m, b, rep, sp);
    assert(rep =~= seq![' ']);
    assert(expanded(rep, s, sp) == rep);
    let t = a + seq![' '];
    assert(holds_no_backslash(t));
    let q = Pattern::Escape;
    reveal_strlit("$1");
    lemma_no_backslash_no_match(q, t, joined(b));
    lemma_rewritten_apart(q, t, joined(b), "$1"@);
}

/// A text in which no backslash stands before a line end has no lines to join: restoring it
/// undoes its escapes alone.
pub proof fn law_nothing_to_join(s: Seq<char>)
    requires
        forall|k: int|
            0 <= k < s.len() && #[trigger] s[k] == '\\' ==> !(k + 1 < s.len() && s[k + 1] == '\n')
                && !(k + 2 < s.len() && s[k + 1] == '\r' && s[k + 2] == '\n'),
    ensures
        joined(s) == s,
        unescaped(s) == stripped(s),
{
    let p = Pattern::Continuation;
    assert forall|k: int| 0 <= k < s.len() implies #[trigger] match_at(p, s, k) is None by {
        assert(s[k] == '\\' || s[k] != '\\');
    }
    lemma_woven_unmatched(p, s, 0, filler(" "@, s));
    assert(s.skip(0) =~= s);
}

// ---------------------------------------------------------------------------
// Directives
// ---------------------------------------------------------------------------

/// The word of a directive.
pub open spec fn directive_name() -> Seq<char> {
    seq!['!', 'I', 'N', 'C', 'L', 'U', 'D', 'E']
}

/// The first directive of a text, its word, white space and the rest of its line, gets a
/// number sign before it; what precedes it stays, and what follows its line is treated by
/// itself.
pub proof fn law_directive_commented(
    a: Seq<char>,
    space: Seq<char>,
    body: Seq<char>,
    b: Seq<char>,
)
    requires
        forall|k: int| 0 <= k < a.len() ==> (#[trigger] a[k]) != '!',
        space.len() > 0,
        is_blank(space),
        body.len() > 0,
        !is_white_space(body[0]),
        forall|k: int| 0 <= k < body.len() ==> (#[trigger] body[k]) != '\n',
        b.len() > 0 ==> b[0] == '\n',
    ensures
        preprocessed(a + (directive_name() + space + body) + b) == a + seq!['#'] + (
        directive_name() + space + body) + preprocessed(b),
{
    let p = Pattern::Directive;
    reveal_strlit("#$0");
    let rep = "#$0"@;
    let m = directive_name() + space + body;
    let s = a + m + b;
    let n = a.len() as int;
    let end = n + m.len();
    assert forall|k: int| 0 <= k < a.len() implies #[trigger] match_at(p, s, k) is None by {
        assert(s[k] == a[k]);
        assert(a[k] != '!');
    }
    lemma_directive_parts(a, space, body, b);
    let sp = match_at(p, s, n)->0;
    lemma_rewritten_first(p, a, m, b, rep, sp);
    assert(rep.take(1) =~= seq!['#']);
    assert(s.subrange(n, end) =~= m);
    let rest = preprocessed(b);
    assert(a + (seq!['#'] + m) + rest =~= a + seq!['#'] + m + rest);
}

proof fn lemma_directive_parts(
    a: Seq<char>,
    space: Seq<char>,
    body: Seq<char>,
    b: Seq<char>,
)
    requires
        space.len() > 0,
        is_blank(space),
        body.len() > 0,
        !is_white_space(body[0]),
        forall|k: int| 0 <= k < body.len() ==> (#[trigger] body[k]) != '\n',
        b.len() > 0 ==> b[0] == '\n',
    ensures
        ({
            let m = directive_name() + space + body;
            match_at(Pattern::Directive, a + m + b, a.len() as int) matches Some(sp) && sp.start
                == a.len() && sp.end == a.len() + m.len()
        }),
{
    let word = directive_name();
    let m = word + space + body;
    let s = a + m + b;
    let n = a.len() as int;
    let from = n + 8;
    let at = from + space.len();
    let end = at + body.len();
    assert forall|k: int| 0 <= k < 8 implies s[n + k] == #[trigger] word[k] by {
        assert(s[n + k] == m[k]);
    }
    assert forall|k: int| from <= k < at implies is_white_space(#[trigger] s[k]) by {
        assert(s[k] == m[k - n]);
        assert(m[k - n] == space[k - from]);
    }
    assert forall|k: int| at <= k < end implies (#[trigger] s[k]) == body[k - at] by {
        assert(s[k] == m[k - n]);
    }
    assert(s[at] == body[0]);
    assert forall|k: int| at <= k < end implies (#[trigger] s[k]) != '\n' by {
        assert(body[k - at] != '\n');
    }
    if b.len() > 0 {
        assert(s[end] == b[0]);
    }
    assert(s.len() == end + b.len());
    assert(s[n] == word[0] && s[n + 1] == word[1] && s[n + 2] == word[2] && s[n + 3] == word[3]);
    assert(s[n + 4] == word[4] && s[n + 5] == word[5] && s[n + 6] == word[6] && s[n + 7]
        == word[7]);
    lemma_directive_here(s, n, at, end);
}

proof fn lemma_directive_here(s: Seq<char>, n: int, at: int, end: int)
    requires
        0 <= n,
        n + 8 < at < end <= s.len(),
        directive_word(s, n),
        forall|k: int| n + 8 <= k < at ==> is_white_space(#[trigger] s[k]),
        !is_white_space(s[at]),
        forall|k: int| at <= k < end ==> (#[trigger] s[k]) != '\n',
        end < s.len() ==> s[end] == '\n',
    ensures
        match_at(Pattern::Directive, s, n) matches Some(sp) && sp.start == n && sp.end == end,
{
    lemma_space_end_is(s, n + 8, at);
    lemma_line_end_is(s, at, end);
}

proof fn lemma_line_end_is(s: Seq<char>, i: int, end: int)
    requires
        0 <= i <= end <= s.len(),
        forall|k: int| i <= k < end ==> (#[trigger] s[k]) != '\n',
        end < s.len() ==> s[end] == '\n',
    ensures
        first_of(s, i, '\n', '\n') == end,
    decreases end - i,
{
    if i < end {
        assert(s[i] != '\n');
        lemma_line_end_is(s, i + 1, end);
    }
}

// ---------------------------------------------------------------------------
// Values
// ---------------------------------------------------------------------------

/// Whether a text holds no dollar sign.
pub open spec fn holds_no_dollar(s: Seq<char>) -> bool {
    forall|k: int| 0 <= k < s.len() ==> (#[trigger] s[k]) != '$'
}

proof fn lemma_escaped_prev(v: Seq<char>, a: char, b: char)
    requires
        a != '$',
        b != '$',
    ensures
        escaped(v, false, a) == escaped(v, false, b),
{
}

proof fn lemma_escaped_append(a: Seq<char>, b: Seq<char>, prev: char)
    requires
        holds_no_dollar(a),
        prev != '$',
    ensures
        escaped(a + b, false, prev) == escaped(a, false, prev) + escaped_value(b),
    decreases a.len(),
{
    if a.len() == 0 {
        assert(a + b =~= b);
        lemma_escaped_prev(b, prev, '\0');
        assert(Seq::<char>::empty() + escaped_value(b) =~= escaped_value(b));
    } else {
        let c = a[0];
        assert(c != '$');
        let rest = a.skip(1);
        assert((a + b)[0] == c);
        assert((a + b).skip(1) =~= rest + b);
        assert forall|k: int| 0 <= k < rest.len() implies (#[trigger] rest[k]) != '$' by {
            assert(rest[k] == a[k + 1]);
        }
        lemma_escaped_append(rest, b, c);
        let more = escaped(rest, false, c);
        assert(seq![c] + (more + escaped_value(b)) =~= seq![c] + more + escaped_value(b));
        assert(seq!['\\', c] + (more + escaped_value(b)) =~= seq!['\\', c] + more
            + escaped_value(b));
    }
}

proof fn lemma_escaped_in_reference(name: Seq<char>, b: Seq<char>, prev: char)
    requires
        forall|k: int| 0 <= k < name.len() ==> (#[trigger] name[k]) != ')',
    ensures
        escaped(name + seq![')'] + b, true, prev) == name + seq![')'] + escaped_value(b),
    decreases name.len(),
{
    let s = name + seq![')'] + b;
    if name.len() == 0 {
        assert(s[0] == ')');
        assert(s.skip(1) =~= b);
        lemma_escaped_prev(b, ')', '\0');
        assert(name + seq![')'] =~= seq![')']);
    } else {
        let rest = name.skip(1);
        assert forall|k: int| 0 <= k < rest.len() implies (#[trigger] rest[k]) != ')' by {
            assert(rest[k] == name[k + 1]);
        }
        assert(s[0] == name[0] && name[0] != ')');
        assert(s.skip(1) =~= rest + seq![')'] + b);
        lemma_escaped_in_reference(rest, b, prev);
        assert(seq![name[0]] + (rest + seq![')'] + escaped_value(b)) =~= name + seq![')']
            + escaped_value(b));
    }
}

/// In a value each parenthesis and each quotation mark gets a backslash before it, and no
/// other character does; a reference is left as it is. What follows is escaped by itself.
pub proof fn law_value_escaped(a: Seq<char>, c: char, name: Seq<char>, b: Seq<char>)
    requires
        holds_no_dollar(a),
        c != '$',
        forall|k: int| 0 <= k < name.len() ==> (#[trigger] name[k]) != ')',
    ensures
        escaped_value(a + b) == escaped_value(a) + escaped_value(b),
        escaped_value(seq![c]) == (if c == '(' || c == ')' || c == '"' {
            seq!['\\', c]
        } else {
            seq![c]
        }),
        escaped_value(Seq::empty()) == Seq::<char>::empty(),
        escaped_value(seq!['$', '('] + (name + seq![')'] + b)) == seq!['$', '('] + (name + seq![
            ')',
        ] + escaped_value(b)),
{
    lemma_escaped_append(a, b, '\0');
    reveal_with_fuel(escaped, 2);
    assert(seq![c].skip(1) =~= Seq::<char>::empty());
    assert(escaped_value(seq![c]) =~= (if c == '(' || c == ')' || c == '"' {
        seq!['\\', c]
    } else {
        seq![c]
    }));
    let tail = name + seq![')'] + b;
    let s = seq!['$', '('] + tail;
    assert(s[0] == '$');
    assert(s.skip(1)[0] == '(');
    assert(s.skip(1).skip(1) =~= tail);
    lemma_escaped_in_reference(name, b, '$');
    let done = name + seq![')'] + escaped_value(b);
    assert(escaped(s.skip(1), false, '$') == seq!['('] + escaped(tail, true, '$'));
    assert(seq!['$'] + (seq!['('] + done) =~= seq!['$', '('] + done);
}

/// The characters of a value that are escaped are the parentheses and quotation marks that
/// lie outside references, by their indices, in order.
pub proof fn law_escape_points(v: Seq<char>, i: int)
    requires
        0 <= i < v.len(),
    ensures
        escape_points(v, 0, false, '\0').contains(i) <==> (v[i] == '"' || v[i] == '(' || v[i]
            == ')') && !ref_state(v, i).in_ref && !(v[i] == '(' && ref_state(v, i).prev == '$'),
        growing_within(escape_points(v, 0, false, '\0'), 0, v.len() as int),
{
    lemma_escape_points(v, 0, false, '\0');
    lemma_points_from(v, 0, i);
}

proof fn lemma_points_from(v: Seq<char>, from: int, i: int)
    requires
        0 <= from <= i < v.len(),
    ensures
        escape_points(v, from, ref_state(v, from).in_ref, ref_state(v, from).prev).contains(i)
            <==> is_special(v[i]) && !ref_state(v, i).in_ref && !(v[i] == '(' && ref_state(
            v,
            i,
        ).prev == '$'),
    decreases i - from,
{
    let st = ref_state(v, from);
    let now = escape_points(v, from, st.in_ref, st.prev);
    let next = ref_state(v, from + 1);
    assert(next == ref_step(st, v[from]));
    let rest = escape_points(v, from + 1, next.in_ref, next.prev);
    lemma_escape_points(v, from + 1, next.in_ref, next.prev);
    let own = is_special(v[from]) && !st.in_ref && !(v[from] == '(' && st.prev == '$');
    assert(now == (if own {
        seq![from] + rest
    } else {
        rest
    }));
    if from < i {
        lemma_points_from(v, from + 1, i);
        if own {
            if rest.contains(i) {
                assert(now[rest.index_of(i) + 1] == i);
            }
            if now.contains(i) {
                assert(rest[now.index_of(i) - 1] == i);
            }
        }
    } else if own {
        assert(now[0] == i);
    } else if rest.contains(i) {
        assert(from + 1 <= rest[rest.index_of(i)]);
    }
}

/// The places of the backslashes are counted for each value from its first byte on, and
/// those of all values come one behind the other.
pub proof fn law_escape_positions(s: Seq<char>, a: Seq<Capture>, b: Seq<Capture>, c: Capture)
    ensures
        escape_positions(s, a + b) == escape_positions(s, a) + escape_positions(s, b),
        c.group matches Some(g) ==> escape_positions(s, seq![c]) == escape_points(
            text_between(s, g.0 as int, g.1 as int)->0,
            0,
            false,
            '\0',
        ).map_values(|i: int| i + g.0),
        c.group is None ==> escape_positions(s, seq![c]) == Seq::<int>::empty(),
{
    lemma_escape_positions_append(s, a, b);
    reveal_with_fuel(escape_positions, 2);
    assert(seq![c].drop_last() =~= Seq::<Capture>::empty());
    assert(escape_positions(s, seq![c]) =~= capture_positions(s, c));
}

proof fn lemma_escape_positions_append(s: Seq<char>, a: Seq<Capture>, b: Seq<Capture>)
    ensures
        escape_positions(s, a + b) == escape_positions(s, a) + escape_positions(s, b),
    decreases b.len(),
{
    if b.len() == 0 {
        assert(a + b =~= a);
        assert(escape_positions(s, a) + Seq::<int>::empty() =~= escape_positions(s, a));
    } else {
        lemma_escape_positions_append(s, a, b.drop_last());
        assert((a + b).drop_last() =~= a + b.drop_last());
        let x = escape_positions(s, a);
        let y = escape_positions(s, b.drop_last());
        let z = capture_positions(s, b.last());
        assert(x + y + z =~= x + (y + z));
    }
}

/// A backslash goes into the bytes right before the last position, and the other ones into
/// the bytes before it; without positions the bytes stay as they are.
pub proof fn law_backslashes_put(bytes: Seq<u8>, at: Seq<int>, last: int)
    requires
        0 <= last <= bytes.len(),
        forall|k: int| 0 <= k < at.len() ==> 0 <= #[trigger] at[k] <= last,
        forall|k: int, l: int| 0 <= k < l < at.len() ==> #[trigger] at[k] <= #[trigger] at[l],
    ensures
        backslashed(bytes, Seq::empty()) == bytes,
        backslashed(bytes, at.push(last)) == backslashed(bytes.take(last), at) + seq![0x5cu8]
            + bytes.skip(last),
{
    assert(bytes.skip(0) =~= bytes);
    lemma_backslashed_push(bytes, at, last, 0, 0);
}

proof fn lemma_backslashed_push(bytes: Seq<u8>, at: Seq<int>, last: int, k: int, from: int)
    requires
        0 <= k <= at.len(),
        0 <= from <= last <= bytes.len(),
        forall|l: int| k <= l < at.len() ==> from <= #[trigger] at[l] <= last,
        forall|l: int, m: int| 0 <= l < m < at.len() ==> #[trigger] at[l] <= #[trigger] at[m],
    ensures
        backslashed_from(bytes, at.push(last), k, from) == backslashed_from(
            bytes.take(last),
            at,
            k,
            from,
        ) + seq![0x5cu8] + bytes.skip(last),
    decreases at.len() - k,
{
    let all = at.push(last);
    let less = bytes.take(last);
    if k < at.len() {
        assert(all[k] == at[k]);
        assert forall|l: int| k + 1 <= l < at.len() implies at[k] <= #[trigger] at[l] <= last by {}
        lemma_backslashed_push(bytes, at, last, k + 1, at[k]);
        assert(less.subrange(from, at[k]) =~= bytes.subrange(from, at[k]));
        let x = bytes.subrange(from, at[k]) + seq![0x5cu8];
        let y = backslashed_from(less, at, k + 1, at[k]);
        assert(x + (y + seq![0x5cu8] + bytes.skip(last)) =~= x + y + seq![0x5cu8] + bytes.skip(
            last,
        ));
    } else {
        assert(all[k] == last);
        assert(backslashed_from(bytes, all, k + 1, last) == bytes.skip(last));
        assert(less.skip(from) =~= bytes.subrange(from, last));
    }
}

// ---------------------------------------------------------------------------
// References
// ---------------------------------------------------------------------------

/// A reference to a variable that is set becomes its value just as it is, and one to a
/// variable that is not set becomes nothing; what precedes it stays, and what follows it is
/// resolved by itself. A text without a dollar sign stays as it is.
pub proof fn law_references(
    before: Seq<char>,
    name: Seq<char>,
    after: Seq<char>,
    vars: Map<Seq<char>, Seq<char>>,
)
    requires
        holds_no_dollar(before),
        name.len() > 0,
        forall|k: int| 0 <= k < name.len() ==> (#[trigger] name[k]) != ')' && name[k] != '\n',
    ensures
        vars.contains_key(name) ==> resolved(
            before + (seq!['$', '('] + name + seq![')']) + after,
            vars,
        ) == before + vars[name] + resolved(after, vars),
        !vars.contains_key(name) ==> resolved(
            before + (seq!['$', '('] + name + seq![')']) + after,
            vars,
        ) == before + resolved(after, vars),
        resolved(before, vars) == before,
{
    let s = with_reference(before, name, after);
    assert forall|k: int| 0 <= k < before.len() implies #[trigger] reference_at(
        s,
        k,
    ) is None by {
        assert(s[k] == before[k]);
        assert(before[k] != '$');
    }
    assert(name[0] != '\n');
    law_reference_resolved(before, name, after, vars);
    assert(before + Seq::<char>::empty() =~= before);
    assert forall|k: int| 0 <= k < before.len() implies #[trigger] reference_at(
        before,
        k,
    ) is None by {
        assert(before[k] != '$');
    }
    law_resolve_leaves(before, vars);
}

// ---------------------------------------------------------------------------
// Parts of a text
// ---------------------------------------------------------------------------

/// The text between two byte offsets is the part that begins at the one and ends at the
/// other.
pub proof fn law_part_of_text(a: Seq<char>, b: Seq<char>, c: Seq<char>)
    ensures
        text_between(
            a + b + c,
            encode_utf8(a).len() as int,
            encode_utf8(a + b).len() as int,
        ) == Some(b),
{
    let s = a + b + c;
    let i = a.len() as int;
    let j = i + b.len();
    assert(s.take(i) =~= a);
    assert(s.take(j) =~= a + b);
    assert(s.subrange(i, j) =~= b);
    assert(byte_offset(s, i) == encode_utf8(a).len());
    assert(byte_offset(s, j) == encode_utf8(a + b).len());
    lemma_text_between(s, i, j);
}

} // verus!

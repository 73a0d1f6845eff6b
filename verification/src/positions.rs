//! Where the backslashes go, and texts of ASCII alone: in them a byte offset is an
//! index, so that the backslashes go before the special characters, and nowhere else.

use vstd::prelude::*;
use vstd::utf8::*;

use crate::escape::{
    assignment_filler, backslashed, backslashed_from, capture_positions, escape_points, escape_positions,
    escaped, escaped_value, is_special, lemma_escape_points, on_boundaries, shifted,
    value_positions, values_escaped,
};
use crate::pattern::{
    captures_at, captures_in, filler, group_text, lemma_match_at, lemma_woven_next, match_at, spans_from, whole,
    woven, Capture, Pattern, Span,
};
use crate::text::{
    byte_offset, lemma_boundary_index, lemma_byte_offset, lemma_byte_offset_order,
    lemma_encode_concat, lemma_text_between, text_between,
};

verus! {

/// The characters of `d` between two indices, with a backslash before each of the
/// positions from the `k`-th on.
spec fn inserted(d: Seq<char>, at: Seq<int>, k: int, from: int, to: int) -> Seq<char>
    decreases at.len() - k,
{
    if k < 0 || k >= at.len() {
        d.subrange(from, to)
    } else {
        d.subrange(from, at[k]) + seq!['\\'] + inserted(d, at, k + 1, at[k], to)
    }
}

/// Whether the positions come in order and lie between two indices.
spec fn ordered_within(at: Seq<int>, low: int, high: int) -> bool {
    &&& forall|k: int| 0 <= k < at.len() ==> low <= #[trigger] at[k] <= high
    &&& forall|k: int, l: int| 0 <= k < l < at.len() ==> #[trigger] at[k] <= #[trigger] at[l]
}

proof fn lemma_ascii_sub(d: Seq<char>, x: int, y: int)
    requires
        is_ascii_chars(d),
        0 <= x <= y <= d.len(),
    ensures
        is_ascii_chars(d.subrange(x, y)),
        encode_utf8(d.subrange(x, y)) == encode_utf8(d).subrange(x, y),
        encode_utf8(d).len() == d.len(),
{
    let sub = d.subrange(x, y);
    is_ascii_chars_encode_utf8(d);
    assert(is_ascii_chars(sub));
    is_ascii_chars_encode_utf8(sub);
    assert forall|k: int| 0 <= k < sub.len() implies encode_utf8(sub)[k] == encode_utf8(
        d,
    ).subrange(x, y)[k] by {
        assert(sub[k] == d[x + k]);
        assert(encode_utf8(sub)[k] == sub[k] as u8);
        assert(encode_utf8(d)[x + k] == d[x + k] as u8);
    }
    assert(encode_utf8(sub) =~= encode_utf8(d).subrange(x, y));
}

/// A byte offset into ASCII is an index.
pub proof fn lemma_ascii_offset(d: Seq<char>, i: int)
    requires
        is_ascii_chars(d),
        0 <= i <= d.len(),
    ensures
        byte_offset(d, i) == i,
        is_char_boundary(encode_utf8(d), i),
{
    lemma_ascii_sub(d, 0, i);
    assert(d.take(i) == d.subrange(0, i));
    lemma_byte_offset(d, i);
}

proof fn lemma_inserted_bytes(d: Seq<char>, at: Seq<int>, k: int, from: int)
    requires
        is_ascii_chars(d),
        0 <= k <= at.len(),
        0 <= from <= d.len(),
        ordered_within(at, 0, d.len() as int),
        k < at.len() ==> from <= at[k],
    ensures
        encode_utf8(inserted(d, at, k, from, d.len() as int)) == backslashed_from(
            encode_utf8(d),
            at,
            k,
            from,
        ),
    decreases at.len() - k,
{
    let n = d.len() as int;
    if k < at.len() {
        let p = at[k];
        lemma_inserted_bytes(d, at, k + 1, p);
        lemma_ascii_sub(d, from, p);
        let rest = inserted(d, at, k + 1, p, n);
        lemma_encode_concat(d.subrange(from, p), seq!['\\']);
        lemma_encode_concat(d.subrange(from, p) + seq!['\\'], rest);
        crate::escape::lemma_encode_backslash();
    } else {
        lemma_ascii_sub(d, from, n);
        assert(encode_utf8(d).subrange(from, n) == encode_utf8(d).skip(from));
    }
}

/// The positions before the `k`-th play no part.
proof fn lemma_inserted_tail(d: Seq<char>, a: Seq<int>, b: Seq<int>, j: int, from: int, to: int)
    requires
        0 <= j <= b.len(),
    ensures
        inserted(d, a + b, a.len() + j, from, to) == inserted(d, b, j, from, to),
    decreases b.len() - j,
{
    if j < b.len() {
        assert((a + b)[a.len() + j] == b[j]);
        lemma_inserted_tail(d, a, b, j + 1, b[j], to);
    }
}

/// Up to the first position the text stands as it is.
proof fn lemma_inserted_gap(d: Seq<char>, at: Seq<int>, from: int, m: int, to: int)
    requires
        0 <= from <= m <= to <= d.len(),
        at.len() > 0 ==> m <= at[0] <= d.len(),
    ensures
        inserted(d, at, 0, from, to) == d.subrange(from, m) + inserted(d, at, 0, m, to),
{
    if at.len() > 0 {
        let rest = inserted(d, at, 1, at[0], to);
        assert(d.subrange(from, at[0]) == d.subrange(from, m) + d.subrange(m, at[0]));
        assert(d.subrange(from, m) + (d.subrange(m, at[0]) + seq!['\\'] + rest) == d.subrange(
            from,
            at[0],
        ) + seq!['\\'] + rest);
    } else {
        assert(d.subrange(from, to) == d.subrange(from, m) + d.subrange(m, to));
    }
}

proof fn lemma_inserted_split(
    d: Seq<char>,
    a: Seq<int>,
    b: Seq<int>,
    k: int,
    from: int,
    m: int,
    to: int,
)
    requires
        0 <= k <= a.len(),
        0 <= from <= m <= to <= d.len(),
        ordered_within(a, 0, m),
        ordered_within(b, m, d.len() as int),
        k < a.len() ==> from <= a[k],
    ensures
        inserted(d, a + b, k, from, to) == inserted(d, a, k, from, m) + inserted(d, b, 0, m, to),
    decreases a.len() - k,
{
    if k < a.len() {
        assert((a + b)[k] == a[k]);
        lemma_inserted_split(d, a, b, k + 1, a[k], m, to);
        let x = inserted(d, a, k + 1, a[k], m);
        let y = inserted(d, b, 0, m, to);
        assert(d.subrange(from, a[k]) + seq!['\\'] + (x + y) == d.subrange(from, a[k]) + seq!['\\']
            + x + y);
    } else {
        lemma_inserted_tail(d, a, b, 0, from, to);
        lemma_inserted_gap(d, b, from, m, to);
    }
}

/// Backslashes at the points of a value escape it.
proof fn lemma_inserted_value(d: Seq<char>, g: int, v: Seq<char>, i: int, in_ref: bool, prev: char)
    requires
        0 <= i <= v.len(),
        0 <= g,
        g + v.len() <= d.len(),
        v == d.subrange(g, g + v.len()),
    ensures
        inserted(d, shifted(escape_points(v, i, in_ref, prev), g), 0, g + i, g + v.len())
            == escaped(v.skip(i), in_ref, prev),
        ordered_within(shifted(escape_points(v, i, in_ref, prev), g), g + i, g + v.len()),
    decreases v.len() - i,
{
    let end = g + v.len();
    lemma_escape_points(v, i, in_ref, prev);
    let points = escape_points(v, i, in_ref, prev);
    let at = shifted(points, g);
    assert(ordered_within(at, g + i, end));
    if i < v.len() {
        let c = v[i];
        let rest = v.skip(i + 1);
        assert(v.skip(i)[0] == c);
        assert(v.skip(i).skip(1) == rest);
        assert(d.subrange(g + i, g + i + 1) == seq![c]);
        let next_ref = if in_ref {
            c != ')'
        } else {
            c == '(' && prev == '$'
        };
        let next_prev = if in_ref {
            if c == ')' {
                c
            } else {
                prev
            }
        } else if c == '(' && prev == '$' {
            prev
        } else {
            c
        };
        lemma_inserted_value(d, g, v, i + 1, next_ref, next_prev);
        lemma_escape_points(v, i + 1, next_ref, next_prev);
        let tail = escape_points(v, i + 1, next_ref, next_prev);
        let after = shifted(tail, g);
        lemma_inserted_gap(d, after, g + i, g + i + 1, end);
        if !in_ref && !(c == '(' && prev == '$') && is_special(c) {
            assert(points == seq![i] + tail);
            assert(at == seq![g + i] + after);
            lemma_inserted_tail(d, seq![g + i], after, 0, g + i, end);
            assert(d.subrange(g + i, g + i) + seq!['\\'] + (seq![c] + escaped(
                rest,
                next_ref,
                next_prev,
            )) == seq!['\\', c] + escaped(rest, next_ref, next_prev));
        } else {
            assert(at == after);
        }
    } else {
        assert(v.skip(i) == Seq::<char>::empty());
        assert(d.subrange(end, end) == Seq::<char>::empty());
    }
}

proof fn lemma_positions_first(s: Seq<char>, r: Seq<Capture>)
    requires
        r.len() > 0,
    ensures
        escape_positions(s, r) == capture_positions(s, r[0]) + escape_positions(s, r.skip(1)),
    decreases r.len(),
{
    if r.len() == 1 {
        assert(r.drop_last() == Seq::<Capture>::empty());
        assert(r.skip(1) == Seq::<Capture>::empty());
        assert(escape_positions(s, r.drop_last()) == Seq::<int>::empty());
        assert(escape_positions(s, r.skip(1)) == Seq::<int>::empty());
        assert(Seq::<int>::empty() + capture_positions(s, r[0]) == capture_positions(s, r[0])
            + Seq::<int>::empty());
    } else {
        lemma_positions_first(s, r.drop_last());
        assert(r.drop_last().skip(1) == r.skip(1).drop_last());
        assert(r.skip(1).last() == r.last());
        assert(r.drop_last()[0] == r[0]);
    }
}

/// The positions for the assignments from index `i` on escape their values.
proof fn lemma_assignments_escaped(d: Seq<char>, r: Seq<Capture>, i: int)
    requires
        is_ascii_chars(d),
        0 <= i <= d.len(),
        captures_at(d, r, spans_from(Pattern::Assignment, d, i)),
    ensures
        inserted(d, escape_positions(d, r), 0, i, d.len() as int) == woven(
            Pattern::Assignment,
            d,
            i,
            assignment_filler(d),
        ),
        ordered_within(escape_positions(d, r), i, d.len() as int),
    decreases r.len(),
{
    let p = Pattern::Assignment;
    let f = assignment_filler(d);
    let n = d.len() as int;
    let spans = spans_from(p, d, i);
    lemma_woven_next(p, d, i, f);
    if r.len() == 0 {
        assert(d.subrange(i, n) == d.skip(i));
    } else {
        let sp = spans[0];
        let g = sp.group->0;
        let rest = r.skip(1);
        lemma_match_at(p, d, sp.start);
        assert(sp.group is Some && g.1 == sp.end);
        assert(captures_at(d, rest, spans_from(p, d, sp.end))) by {
            assert forall|k: int| 0 <= k < rest.len() implies {
                &&& (#[trigger] rest[k]).start == byte_offset(d, spans.skip(1)[k].start)
                &&& rest[k].end == byte_offset(d, spans.skip(1)[k].end)
                &&& match spans.skip(1)[k].group {
                    Some(g) => rest[k].group matches Some(h) && h.0 == byte_offset(d, g.0) && h.1
                        == byte_offset(d, g.1),
                    None => rest[k].group is None,
                }
            } by {
                assert(rest[k] == r[k + 1]);
                assert(spans.skip(1)[k] == spans[k + 1]);
            }
        }
        lemma_assignments_escaped(d, rest, sp.end);
        lemma_positions_first(d, r);
        lemma_ascii_offset(d, g.0);
        lemma_ascii_offset(d, g.1);
        let h = r[0].group->0;
        assert(h.0 == g.0 && h.1 == g.1);
        let value = d.subrange(g.0, g.1);
        lemma_ascii_sub(d, g.0, g.1);
        encode_utf8_valid_utf8(value);
        encode_utf8_decode_utf8(value);
        assert(text_between(d, g.0, g.1) == Some(value));
        lemma_inserted_value(d, g.0, value, 0, false, '\0');
        assert(value.skip(0) == value);
        let a = capture_positions(d, r[0]);
        let b = escape_positions(d, rest);
        assert(a == shifted(escape_points(value, 0, false, '\0'), g.0));
        lemma_inserted_split(d, a, b, 0, i, sp.end, n);
        lemma_inserted_gap(d, a, i, g.0, sp.end);
        let w = woven(p, d, sp.end, f);
        let e = escaped_value(value);
        assert(d.subrange(i, g.0) == d.subrange(i, sp.start) + d.subrange(sp.start, g.0));
        assert(d.subrange(i, g.0) + e + w == d.subrange(i, sp.start) + (d.subrange(sp.start, g.0)
            + e) + w);
    }
}

/// In ASCII the positions for all assignments lie between characters, and the
/// backslashes there escape the values.
pub proof fn lemma_ascii_patched(d: Seq<char>, r: Seq<Capture>)
    requires
        is_ascii_chars(d),
        captures_at(d, r, spans_from(Pattern::Assignment, d, 0)),
    ensures
        on_boundaries(d, escape_positions(d, r)),
        decode_utf8(backslashed(encode_utf8(d), escape_positions(d, r))) == values_escaped(d),
{
    let at = escape_positions(d, r);
    lemma_assignments_escaped(d, r, 0);
    lemma_inserted_bytes(d, at, 0, 0);
    encode_utf8_decode_utf8(values_escaped(d));
    assert forall|i: int| 0 <= i < at.len() implies is_char_boundary(
        encode_utf8(d),
        #[trigger] at[i],
    ) by {
        lemma_ascii_offset(d, at[i]);
    }
}

proof fn lemma_ascii_concat(a: Seq<char>, b: Seq<char>)
    requires
        is_ascii_chars(a),
        is_ascii_chars(b),
    ensures
        is_ascii_chars(a + b),
{
    assert forall|k: int| 0 <= k < (a + b).len() implies '\0' <= #[trigger] (a + b)[k]
        <= '\u{7f}' by {
        if k < a.len() {
            assert((a + b)[k] == a[k]);
        } else {
            assert((a + b)[k] == b[k - a.len()]);
        }
    }
}

/// Matches replaced by ASCII leave ASCII.
pub proof fn lemma_ascii_rewritten(p: Pattern, s: Seq<char>, rep: Seq<char>, i: int)
    requires
        is_ascii_chars(s),
        is_ascii_chars(rep),
        0 <= i <= s.len(),
    ensures
        is_ascii_chars(woven(p, s, i, filler(rep, s))),
    decreases s.len() - i,
{
    let f = filler(rep, s);
    if i < s.len() {
        lemma_match_at(p, s, i);
        match match_at(p, s, i) {
            Some(sp) => {
                lemma_ascii_rewritten(p, s, rep, sp.end);
                let n = rep.len() as int;
                if n >= 2 {
                    assert(is_ascii_chars(rep.take(n - 2)));
                    assert(is_ascii_chars(whole(s, sp)));
                    assert(is_ascii_chars(group_text(s, sp)));
                    lemma_ascii_concat(rep.take(n - 2), whole(s, sp));
                    lemma_ascii_concat(rep.take(n - 2), group_text(s, sp));
                }
                assert(is_ascii_chars(f(sp)));
                lemma_ascii_concat(f(sp), woven(p, s, sp.end, f));
            },
            None => {
                lemma_ascii_rewritten(p, s, rep, i + 1);
                lemma_ascii_concat(seq![s[i]], woven(p, s, i + 1, f));
            },
        }
    }
}

/// The positions for captures that are the assignments go by the assignments.
pub proof fn lemma_value_positions(d: Seq<char>, r: Seq<Capture>)
    requires
        captures_at(d, r, spans_from(Pattern::Assignment, d, 0)),
    ensures
        escape_positions(d, r) == value_positions(d, spans_from(Pattern::Assignment, d, 0)),
{
    let spans = spans_from(Pattern::Assignment, d, 0);
    lemma_spans_valid(d, 0);
    lemma_positions_by_spans(d, r, spans);
}

/// The group of an assignment is a part of the text.
proof fn lemma_spans_valid(d: Seq<char>, i: int)
    requires
        0 <= i <= d.len(),
    ensures
        forall|k: int|
            0 <= k < spans_from(Pattern::Assignment, d, i).len() ==> is_valid_span(
                d,
                #[trigger] spans_from(Pattern::Assignment, d, i)[k],
            ),
    decreases d.len() - i,
{
    let p = Pattern::Assignment;
    let spans = spans_from(p, d, i);
    if i < d.len() {
        lemma_match_at(p, d, i);
        match match_at(p, d, i) {
            Some(sp) => {
                lemma_spans_valid(d, sp.end);
                let rest = spans_from(p, d, sp.end);
                assert(spans == seq![sp] + rest);
                assert forall|k: int| 0 <= k < (seq![sp] + rest).len() implies is_valid_span(
                    d,
                    #[trigger] (seq![sp] + rest)[k],
                ) by {
                    if k > 0 {
                        assert((seq![sp] + rest)[k] == rest[k - 1]);
                    }
                }
            },
            None => {
                lemma_spans_valid(d, i + 1);
                assert(spans == spans_from(p, d, i + 1));
            },
        }
    }
}

spec fn is_valid_span(d: Seq<char>, sp: Span) -> bool {
    sp.group matches Some(g) && 0 <= g.0 <= g.1 <= d.len()
}

proof fn lemma_positions_by_spans(d: Seq<char>, r: Seq<Capture>, spans: Seq<Span>)
    requires
        captures_at(d, r, spans),
        forall|k: int| 0 <= k < spans.len() ==> is_valid_span(d, #[trigger] spans[k]),
    ensures
        escape_positions(d, r) == value_positions(d, spans),
    decreases r.len(),
{
    if r.len() > 0 {
        let sp = spans.last();
        let g = sp.group->0;
        let c = r.last();
        assert(is_valid_span(d, spans[spans.len() - 1]));
        assert(r[r.len() - 1] == c);
        let h = c.group->0;
        let value = d.subrange(g.0, g.1);
        lemma_text_between(d, g.0, g.1);
        assert(text_between(d, h.0 as int, h.1 as int) == Some(value));
        assert forall|k: int| 0 <= k < r.len() - 1 implies is_valid_span(
            d,
            #[trigger] spans.drop_last()[k],
        ) by {
            assert(is_valid_span(d, spans[k]));
        }
        assert(captures_at(d, r.drop_last(), spans.drop_last())) by {
            assert forall|k: int| 0 <= k < r.len() - 1 implies r.drop_last()[k] == r[k]
                && spans.drop_last()[k] == spans[k] by {}
        }
        lemma_positions_by_spans(d, r.drop_last(), spans.drop_last());
    }
}

proof fn lemma_no_points(v: Seq<char>, i: int, in_ref: bool, prev: char)
    requires
        0 <= i <= v.len(),
        forall|k: int| 0 <= k < v.len() ==> !is_special(#[trigger] v[k]),
    ensures
        escape_points(v, i, in_ref, prev).len() == 0,
    decreases v.len() - i,
{
    if i < v.len() {
        if in_ref {
            lemma_no_points(v, i + 1, true, prev);
        } else {
            lemma_no_points(v, i + 1, false, v[i]);
        }
    }
}

/// In a text without special characters captures give no positions.
pub proof fn lemma_no_positions(d: Seq<char>, r: Seq<Capture>)
    requires
        captures_in(d, r),
        forall|k: int| 0 <= k < d.len() ==> !is_special(#[trigger] d[k]),
    ensures
        escape_positions(d, r).len() == 0,
    decreases r.len(),
{
    if r.len() > 0 {
        assert(captures_in(d, r.drop_last())) by {
            assert forall|k: int| 0 <= k < r.len() - 1 implies r.drop_last()[k] == r[k] by {}
        }
        lemma_no_positions(d, r.drop_last());
        let c = r[r.len() - 1];
        if let Some(g) = c.group {
            let i = lemma_boundary_index(d, g.0 as int);
            let j = lemma_boundary_index(d, g.1 as int);
            if j < i {
                lemma_byte_offset_order(d, j, i);
            }
            lemma_text_between(d, i, j);
            let v = d.subrange(i, j);
            assert forall|k: int| 0 <= k < v.len() implies !is_special(#[trigger] v[k]) by {
                assert(v[k] == d[i + k]);
            }
            lemma_no_points(v, 0, false, '\0');
        }
    }
}

} // verus!

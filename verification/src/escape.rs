//! The makefile text before and after parsing: what the grammar cannot take is
//! escaped or commented out, and what was escaped is restored.

use vstd::prelude::*;
use vstd::string::*;
use vstd::utf8::*;

use crate::error::MakeError;
use crate::pattern::{
    backslash_at, captures_in, captures_iter, captures_of, filler, lemma_ascii_names,
    lemma_match_at, match_at, names_plain, pattern_text, regex_captures, replace_all, rewritten,
    spans_from, woven, Capture, Pattern, Span, ASSIGNMENT_PATTERN, BACKSLASH_PATTERN, CONTINUATION_PATTERN, DIRECTIVE_PATTERN, ESCAPE_PATTERN,
};
use crate::positions::{
    lemma_ascii_patched, lemma_ascii_rewritten, lemma_no_positions, lemma_value_positions,
};
use crate::roundtrip::law_no_backslash_leaves;
use crate::text::{byte_offset, lemma_encode_concat, slice_bytes, text_between};

verus! {

// ---------------------------------------------------------------------------
// Directives
// ---------------------------------------------------------------------------

/// The text with a number sign in front of each directive.
pub open spec fn preprocessed(s: Seq<char>) -> Seq<char> {
    rewritten(Pattern::Directive, s, "#$0"@)
}

/// Comments the `!INCLUDE` directives out.
pub fn nmake_preprocess(src: &str) -> (r: Result<String, MakeError>)
    ensures
        r matches Ok(t) && t@ == preprocessed(src@),
{
    proof {
        reveal_strlit("#$0");
        assert(DIRECTIVE_PATTERN@ == pattern_text(Pattern::Directive));
    }
    Ok(replace_all(DIRECTIVE_PATTERN, src, "#$0"))
}

// ---------------------------------------------------------------------------
// Restoring escaped text
// ---------------------------------------------------------------------------

/// The text with each continued line joined to the next one by a space.
pub open spec fn joined(s: Seq<char>) -> Seq<char> {
    rewritten(Pattern::Continuation, s, " "@)
}

/// The text without the backslash of each escape.
pub open spec fn stripped(s: Seq<char>) -> Seq<char> {
    rewritten(Pattern::Escape, s, "$1"@)
}

/// The text with its lines joined and its escapes undone.
pub open spec fn unescaped(s: Seq<char>) -> Seq<char> {
    stripped(joined(s))
}

/// Joins continued lines, and undoes the escapes in what comes of it.
pub fn unescape_str(src: &str) -> (r: String)
    ensures
        r@ == unescaped(src@),
{
    proof {
        reveal_strlit(" ");
        reveal_strlit("$1");
        assert(CONTINUATION_PATTERN@ == pattern_text(Pattern::Continuation));
        assert(ESCAPE_PATTERN@ == pattern_text(Pattern::Escape));
    }
    let lines = replace_all(CONTINUATION_PATTERN, src, " ");
    replace_all(ESCAPE_PATTERN, lines.as_str(), "$1")
}

// ---------------------------------------------------------------------------
// Escaping the values of assignments
// ---------------------------------------------------------------------------

/// The text with a second backslash at each one that a character on its line
/// follows.
pub open spec fn doubled(s: Seq<char>) -> Seq<char> {
    rewritten(Pattern::Backslash, s, "\\\\$1"@)
}

/// The text from index `i` on with its backslashes doubled.
pub open spec fn doubled_from(s: Seq<char>, i: int) -> Seq<char> {
    woven(Pattern::Backslash, s, i, filler("\\\\$1"@, s))
}

/// Doubling goes by the backslash and the character after it.
pub proof fn lemma_doubled_from(s: Seq<char>, i: int)
    requires
        0 <= i < s.len(),
    ensures
        backslash_at(s, i) is Some ==> i + 1 < s.len() && doubled_from(s, i) == seq![
            '\\',
            '\\',
            s[i + 1],
        ] + doubled_from(s, i + 2),
        backslash_at(s, i) is None ==> doubled_from(s, i) == seq![s[i]] + doubled_from(s, i + 1),
{
    reveal_strlit("\\\\$1");
    let f = filler("\\\\$1"@, s);
    lemma_match_at(Pattern::Backslash, s, i);
    match match_at(Pattern::Backslash, s, i) {
        Some(sp) => {
            assert("\\\\$1"@.take(2) + s.subrange(i + 1, i + 2) == seq!['\\', '\\', s[i + 1]]);
            assert(f(sp) == seq!['\\', '\\', s[i + 1]]);
        },
        None => {},
    }
}

/// The characters of a value that are escaped.
pub open spec fn is_special(c: char) -> bool {
    c == '"' || c == '(' || c == ')'
}

/// The indices from `i` on of the characters of a value that are escaped: the
/// special ones outside references. `in_ref` says whether `i` lies inside a
/// reference, and `prev` is the last character before `i` that lies outside one.
pub open spec fn escape_points(v: Seq<char>, i: int, in_ref: bool, prev: char) -> Seq<int>
    decreases v.len() - i,
{
    if i < 0 || i >= v.len() {
        Seq::empty()
    } else if in_ref {
        if v[i] == ')' {
            escape_points(v, i + 1, false, ')')
        } else {
            escape_points(v, i + 1, true, prev)
        }
    } else if v[i] == '(' && prev == '$' {
        escape_points(v, i + 1, true, prev)
    } else if is_special(v[i]) {
        seq![i] + escape_points(v, i + 1, false, v[i])
    } else {
        escape_points(v, i + 1, false, v[i])
    }
}

/// A value with a backslash before each special character outside references, read
/// from a point that lies inside a reference or not and that `prev` precedes.
pub open spec fn escaped(v: Seq<char>, in_ref: bool, prev: char) -> Seq<char>
    decreases v.len(),
{
    if v.len() == 0 {
        Seq::empty()
    } else {
        let c = v[0];
        let rest = v.skip(1);
        if in_ref {
            if c == ')' {
                seq![c] + escaped(rest, false, c)
            } else {
                seq![c] + escaped(rest, true, prev)
            }
        } else if c == '(' && prev == '$' {
            seq![c] + escaped(rest, true, prev)
        } else if is_special(c) {
            seq!['\\', c] + escaped(rest, false, c)
        } else {
            seq![c] + escaped(rest, false, c)
        }
    }
}

/// A value with a backslash before each special character outside references.
pub open spec fn escaped_value(v: Seq<char>) -> Seq<char> {
    escaped(v, false, '\0')
}

/// What stands in place of each assignment: its name and sign as they are, and its
/// value escaped.
pub open spec fn assignment_filler(d: Seq<char>) -> spec_fn(Span) -> Seq<char> {
    |sp: Span|
        {
            let value = sp.group->0;
            d.subrange(sp.start, value.0) + escaped_value(d.subrange(value.0, value.1))
        }
}

/// The text with the value of each assignment escaped.
pub open spec fn values_escaped(d: Seq<char>) -> Seq<char> {
    woven(Pattern::Assignment, d, 0, assignment_filler(d))
}

/// The text with its backslashes doubled and the values of its assignments escaped.
pub open spec fn patched_lines(s: Seq<char>) -> Seq<char> {
    values_escaped(doubled(s))
}

/// The numbers of `v`, as integers.
pub open spec fn ints(v: Seq<usize>) -> Seq<int> {
    Seq::new(v.len(), |i: int| v[i] as int)
}

/// Whether the numbers of `at` lie between `low` and `high` and grow.
pub open spec fn growing_within(at: Seq<int>, low: int, high: int) -> bool {
    &&& forall|k: int| 0 <= k < at.len() ==> low <= #[trigger] at[k] < high
    &&& forall|k: int, l: int| 0 <= k < l < at.len() ==> #[trigger] at[k] < #[trigger] at[l]
}

pub proof fn lemma_escape_points(v: Seq<char>, i: int, in_ref: bool, prev: char)
    requires
        0 <= i <= v.len(),
    ensures
        growing_within(escape_points(v, i, in_ref, prev), i, v.len() as int),
    decreases v.len() - i,
{
    if i < v.len() {
        if in_ref {
            if v[i] == ')' {
                lemma_escape_points(v, i + 1, false, ')');
            } else {
                lemma_escape_points(v, i + 1, true, prev);
            }
        } else if v[i] == '(' && prev == '$' {
            lemma_escape_points(v, i + 1, true, prev);
        } else {
            lemma_escape_points(v, i + 1, false, v[i]);
            let rest = escape_points(v, i + 1, false, v[i]);
            let all = seq![i] + rest;
            assert forall|k: int, l: int| 0 <= k < l < all.len() implies #[trigger] all[k]
                < #[trigger] all[l] by {
                assert(all[l] == rest[l - 1]);
                if k > 0 {
                    assert(all[k] == rest[k - 1]);
                }
            }
            assert forall|k: int| 0 <= k < all.len() implies i <= #[trigger] all[k] < v.len() by {
                if k > 0 {
                    assert(all[k] == rest[k - 1]);
                }
            }
        }
    }
}

/// Finds the characters of a value that are to be escaped, by their index.
pub fn value_escapes(value: &str) -> (r: Vec<usize>)
    ensures
        ints(r@) == escape_points(value@, 0, false, '\0'),
{
    let v = crate::text::chars_of(value);
    let mut r: Vec<usize> = Vec::new();
    let mut in_ref = false;
    let mut prev = '\0';
    let mut i: usize = 0;
    assert(ints(r@) + escape_points(v@, 0, false, '\0') == escape_points(v@, 0, false, '\0'));
    while i < v.len()
        invariant
            i <= v@.len(),
            ints(r@) + escape_points(v@, i as int, in_ref, prev) == escape_points(
                v@,
                0,
                false,
                '\0',
            ),
        decreases v@.len() - i,
    {
        let c = v[i];
        let ghost before = ints(r@);
        if in_ref {
            if c == ')' {
                in_ref = false;
                prev = c;
            }
        } else if c == '(' && prev == '$' {
            in_ref = true;
        } else {
            if c == '"' || c == '(' || c == ')' {
                r.push(i);
                proof {
                    assert(ints(r@) == before.push(i as int));
                    let rest = escape_points(v@, i + 1, false, c);
                    assert(before + (seq![i as int] + rest) == ints(r@) + rest);
                }
            }
            prev = c;
        }
        i += 1;
    }
    assert(ints(r@) + Seq::empty() == ints(r@));
    r
}

/// `v` with `d` added to each number.
pub open spec fn shifted(v: Seq<int>, d: int) -> Seq<int> {
    Seq::new(v.len(), |i: int| v[i] + d)
}

/// Where backslashes go into the value of a capture: at the value's first byte
/// plus the index of each character that is escaped.
pub open spec fn capture_positions(s: Seq<char>, c: Capture) -> Seq<int> {
    match c.group {
        Some(g) => shifted(
            escape_points(text_between(s, g.0 as int, g.1 as int)->0, 0, false, '\0'),
            g.0 as int,
        ),
        None => Seq::empty(),
    }
}

/// Where backslashes go into the values of all captures.
pub open spec fn escape_positions(s: Seq<char>, r: Seq<Capture>) -> Seq<int>
    decreases r.len(),
{
    if r.len() == 0 {
        Seq::empty()
    } else {
        escape_positions(s, r.drop_last()) + capture_positions(s, r.last())
    }
}

/// The bytes from `from` on, with a backslash before each of the positions from
/// the `k`-th on.
pub open spec fn backslashed_from(bytes: Seq<u8>, at: Seq<int>, k: int, from: int) -> Seq<u8>
    decreases at.len() - k,
{
    if k < 0 || k >= at.len() {
        bytes.skip(from)
    } else {
        bytes.subrange(from, at[k]) + seq![0x5cu8] + backslashed_from(bytes, at, k + 1, at[k])
    }
}

/// The bytes with a backslash before each of the positions.
pub open spec fn backslashed(bytes: Seq<u8>, at: Seq<int>) -> Seq<u8> {
    backslashed_from(bytes, at, 0, 0)
}

/// Whether all positions are character boundaries of `s`.
pub open spec fn on_boundaries(s: Seq<char>, at: Seq<int>) -> bool {
    forall|i: int| 0 <= i < at.len() ==> is_char_boundary(encode_utf8(s), #[trigger] at[i])
}

/// Whether the positions come in order.
pub open spec fn ascending(at: Seq<int>) -> bool {
    forall|i: int, j: int| 0 <= i < j < at.len() ==> #[trigger] at[i] <= #[trigger] at[j]
}

proof fn lemma_chars_within_bytes(s: Seq<char>)
    ensures
        s.len() <= encode_utf8(s).len(),
    decreases s.len(),
{
    if s.len() > 0 {
        lemma_chars_within_bytes(s.drop_first());
    }
}

proof fn lemma_boundary_range(s: Seq<char>, i: int)
    requires
        is_char_boundary(encode_utf8(s), i),
    ensures
        0 <= i <= encode_utf8(s).len(),
{
    encode_utf8_valid_utf8(s);
}

/// Finds where backslashes go into the values that `captures` report.
pub fn find_escape_positions(src: &str, captures: &Vec<Capture>) -> (r: Vec<usize>)
    requires
        captures_in(src@, captures@),
    ensures
        ints(r@) == escape_positions(src@, captures@),
        ascending(ints(r@)),
        forall|i: int| 0 <= i < r@.len() ==> #[trigger] r@[i] <= encode_utf8(src@).len(),
{
    let mut r: Vec<usize> = Vec::new();
    let mut n: usize = 0;
    while n < captures.len()
        invariant
            n <= captures@.len(),
            captures_in(src@, captures@),
            ints(r@) == escape_positions(src@, captures@.take(n as int)),
            ascending(ints(r@)),
            forall|i: int|
                0 <= i < r@.len() ==> n > 0 && (#[trigger] r@[i]) <= captures@[n - 1].end,
        decreases captures@.len() - n,
    {
        let ghost before = ints(r@);
        let capture = captures[n];
        assert(captures@.take(n + 1).drop_last() == captures@.take(n as int));
        assert(captures@[n as int].end <= encode_utf8(src@).len());
        if let Some(group) = capture.group {
            let value = slice_bytes(src, group.0, group.1);
            let points = value_escapes(value);
            proof {
                encode_utf8_valid_utf8(value@);
                encode_utf8_decode_utf8(value@);
                lemma_chars_within_bytes(value@);
                lemma_escape_points(value@, 0, false, '\0');
                assert(text_between(src@, group.0 as int, group.1 as int) == Some(value@));
            }
            let ghost all = escape_points(value@, 0, false, '\0');
            let mut k: usize = 0;
            while k < points.len()
                invariant
                    k <= points@.len(),
                    n < captures@.len(),
                    captures_in(src@, captures@),
                    capture == captures@[n as int],
                    capture.group == Some(group),
                    all == escape_points(value@, 0, false, '\0'),
                    ints(points@) == all,
                    group.1 - group.0 == encode_utf8(value@).len(),
                    value@.len() <= encode_utf8(value@).len(),
                    growing_within(all, 0, value@.len() as int),
                    ascending(before),
                    forall|i: int|
                        0 <= i < before.len() ==> n > 0 && (#[trigger] before[i]) <= captures@[n
                            - 1].end,
                    ints(r@) == before + shifted(all, group.0 as int).take(k as int),
                decreases points@.len() - k,
            {
                assert(ints(points@)[k as int] == all[k as int]);
                let ghost so_far = ints(r@);
                r.push(points[k] + group.0);
                assert(ints(r@) == so_far.push(all[k as int] + group.0));
                k += 1;
            }
            proof {
                let more = shifted(all, group.0 as int);
                assert(more.take(k as int) == more);
                assert(capture_positions(src@, capture) == more);
                assert(ints(r@) == before + more);
                if n > 0 {
                    assert(captures@[n - 1].end <= captures@[n as int].start);
                }
                assert forall|i: int, j: int| 0 <= i < j < ints(r@).len() implies #[trigger] ints(
                    r@,
                )[i] <= #[trigger] ints(r@)[j] by {
                    if j < before.len() {
                        assert(ints(r@)[i] == before[i] && ints(r@)[j] == before[j]);
                    } else if i < before.len() {
                        assert(ints(r@)[i] == before[i]);
                        assert(ints(r@)[j] == all[j - before.len()] + group.0);
                    } else {
                        assert(ints(r@)[i] == all[i - before.len()] + group.0);
                        assert(ints(r@)[j] == all[j - before.len()] + group.0);
                    }
                }
                assert forall|i: int| 0 <= i < r@.len() implies #[trigger] r@[i]
                    <= captures@[n as int].end by {
                    assert(ints(r@)[i] == r@[i]);
                    if i < before.len() {
                        assert(ints(r@)[i] == before[i]);
                    } else {
                        assert(ints(r@)[i] == all[i - before.len()] + group.0);
                    }
                }
            }
        } else {
            proof {
                if n > 0 {
                    assert(captures@[n - 1].end <= captures@[n as int].start);
                }
                assert(before + capture_positions(src@, capture) == before);
            }
        }
        n += 1;
    }
    proof {
        assert(captures@.take(n as int) == captures@);
        if n > 0 {
            assert(captures@[n - 1].end <= encode_utf8(src@).len());
        }
    }
    r
}

/// Puts a backslash before each of the byte positions of `src`.
pub fn insert_backslashes(src: &str, at: &Vec<usize>) -> (r: String)
    requires
        on_boundaries(src@, ints(at@)),
        ascending(ints(at@)),
    ensures
        encode_utf8(r@) == backslashed(encode_utf8(src@), ints(at@)),
{
    let ghost bytes = encode_utf8(src@);
    let ghost ps = ints(at@);
    let len = src.as_bytes().len();
    let mut r = String::new();
    let mut start: usize = 0;
    let mut k: usize = 0;
    proof {
        encode_utf8_valid_utf8(src@);
        is_char_boundary_start_end_of_seq(bytes);
        assert(encode_utf8(Seq::<char>::empty()) == Seq::<u8>::empty());
    }
    while k < at.len()
        invariant
            k <= at@.len(),
            bytes == encode_utf8(src@),
            ps == ints(at@),
            on_boundaries(src@, ps),
            ascending(ps),
            start == (if k == 0 { 0 } else { ps[k - 1] }),
            is_char_boundary(bytes, start as int),
            encode_utf8(r@) + backslashed_from(bytes, ps, k as int, start as int) == backslashed(
                bytes,
                ps,
            ),
        decreases at@.len() - k,
    {
        proof {
            lemma_boundary_range(src@, ps[k as int]);
            assert(ps[k as int] == at@[k as int]);
            if k > 0 {
                assert(ps[k - 1] <= ps[k as int]);
            }
        }
        let piece = slice_bytes(src, start, at[k]);
        let ghost before = r@;
        r.append(piece);
        r.push('\\');
        proof {
            let rest = backslashed_from(bytes, ps, k + 1, ps[k as int]);
            let head = bytes.subrange(start as int, ps[k as int]);
            assert(r@ == before + piece@ + seq!['\\']);
            lemma_encode_concat(before, piece@);
            lemma_encode_concat(before + piece@, seq!['\\']);
            lemma_encode_backslash();
            assert(encode_utf8(r@) == encode_utf8(before) + head + seq![0x5cu8]);
            assert(encode_utf8(before) + (head + seq![0x5cu8] + rest) == encode_utf8(r@) + rest);
        }
        start = at[k];
        k += 1;
    }
    let tail = slice_bytes(src, start, len);
    let ghost before = r@;
    r.append(tail);
    proof {
        lemma_encode_concat(before, tail@);
        assert(bytes.subrange(start as int, len as int) == bytes.skip(start as int));
    }
    r
}

pub proof fn lemma_encode_backslash()
    ensures
        encode_utf8(seq!['\\']) == seq![0x5cu8],
{
    assert(is_ascii_chars(seq!['\\']));
    is_ascii_chars_encode_utf8(seq!['\\']);
    assert(encode_utf8(seq!['\\'])[0] == seq!['\\'][0] as u8);
    assert(encode_utf8(seq!['\\']) =~= seq![0x5cu8]);
}

/// Where backslashes go into the values of assignments: at the first byte of each
/// value plus the index of each of its characters that is escaped.
pub open spec fn value_positions(d: Seq<char>, spans: Seq<Span>) -> Seq<int>
    decreases spans.len(),
{
    if spans.len() == 0 {
        Seq::empty()
    } else {
        let value = spans.last().group->0;
        value_positions(d, spans.drop_last()) + shifted(
            escape_points(d.subrange(value.0, value.1), 0, false, '\0'),
            byte_offset(d, value.0),
        )
    }
}

/// Where backslashes go into a text whose own backslashes are doubled already.
pub open spec fn patch_positions(d: Seq<char>) -> Seq<int> {
    escape_positions(d, regex_captures(ASSIGNMENT_PATTERN@, d))
}

/// In a text with plain names the positions are those of its assignments' values.
pub open spec fn positions_known(s: Seq<char>) -> bool {
    let d = doubled(s);
    names_plain(d) ==> patch_positions(d) == value_positions(
        d,
        spans_from(Pattern::Assignment, d, 0),
    )
}

/// Whether each backslash that an assignment of the text needs goes between two
/// characters. A position is a count of characters added to a byte offset, so it
/// can miss where a character before it takes more than one byte.
pub open spec fn patchable(s: Seq<char>) -> bool {
    on_boundaries(doubled(s), patch_positions(doubled(s)))
}

/// The bytes of the text that the parser gets: backslashes doubled, and the
/// special characters of the values escaped.
pub open spec fn patched_bytes(s: Seq<char>) -> Seq<u8> {
    backslashed(encode_utf8(doubled(s)), patch_positions(doubled(s)))
}

/// The text that the parser gets.
pub open spec fn patched(s: Seq<char>) -> Seq<char> {
    decode_utf8(patched_bytes(s))
}

/// What is known of the search for assignments in a text: the captures lie in it, and
/// in a text with plain names the positions are those of the values.
pub open spec fn search_known(s: Seq<char>) -> bool {
    &&& captures_in(doubled(s), regex_captures(ASSIGNMENT_PATTERN@, doubled(s)))
    &&& positions_known(s)
}

/// Doubles the backslashes of a text, and finds where backslashes go into its values.
fn plan_escapes(src: &str) -> (r: (String, Vec<usize>))
    ensures
        r.0@ == doubled(src@),
        ints(r.1@) == patch_positions(doubled(src@)),
        ascending(ints(r.1@)),
        search_known(src@),
        is_ascii_chars(src@) ==> patchable(src@) && patched(src@) == patched_lines(src@),
{
    proof {
        reveal_strlit("\\\\$1");
        assert(BACKSLASH_PATTERN@ == pattern_text(Pattern::Backslash));
        assert(ASSIGNMENT_PATTERN@ == pattern_text(Pattern::Assignment));
    }
    let text = replace_all(BACKSLASH_PATTERN, src, "\\\\$1");
    let captures = captures_iter(ASSIGNMENT_PATTERN, text.as_str());
    let at = find_escape_positions(text.as_str(), &captures);
    proof {
        assert(captures_of(Pattern::Assignment, text@, captures@));
        if names_plain(text@) {
            lemma_value_positions(text@, captures@);
        }
        if is_ascii_chars(src@) {
            lemma_ascii_rewritten(Pattern::Backslash, src@, "\\\\$1"@, 0);
            lemma_ascii_names(text@);
            lemma_ascii_patched(text@, captures@);
        }
    }
    (text, at)
}

/// Escapes what the grammar does not take in the values of assignments. In a text
/// of ASCII alone that can always be done.
pub fn patch_error_syntax(src: &str) -> (r: String)
    requires
        patchable(src@) || is_ascii_chars(src@),
    ensures
        encode_utf8(r@) == patched_bytes(src@),
        r@ == patched(src@),
        is_ascii_chars(src@) ==> r@ == patched_lines(src@),
        search_known(src@),
{
    let (text, at) = plan_escapes(src);
    let r = insert_backslashes(text.as_str(), &at);
    proof {
        encode_utf8_decode_utf8(r@);
    }
    r
}

/// Escapes the text as `patch_error_syntax` does, or gives nothing where a
/// backslash would fall inside a character, which ASCII rules out.
pub fn try_patch_error_syntax(src: &str) -> (r: Option<String>)
    ensures
        match r {
            Some(t) => patchable(src@) && encode_utf8(t@) == patched_bytes(src@) && t@ == patched(
                src@,
            ),
            None => !patchable(src@),
        },
        is_ascii_chars(src@) ==> r is Some && r->0@ == patched_lines(src@),
        search_known(src@),
{
    let (text, at) = plan_escapes(src);
    let mut k: usize = 0;
    while k < at.len()
        invariant
            k <= at@.len(),
            text@ == doubled(src@),
            ints(at@) == patch_positions(text@),
            is_ascii_chars(src@) ==> patchable(src@),
            search_known(src@),
            forall|i: int|
                0 <= i < k ==> is_char_boundary(encode_utf8(text@), #[trigger] ints(at@)[i]),
        decreases at@.len() - k,
    {
        assert(ints(at@)[k as int] == at@[k as int]);
        if !text.as_str().is_char_boundary(at[k]) {
            return None;
        }
        k += 1;
    }
    Some(patch_error_syntax(src))
}

/// Where no value holds anything to escape, the text is changed by the doubling of its
/// backslashes alone.
pub proof fn law_nothing_to_escape(s: Seq<char>)
    requires
        patch_positions(doubled(s)).len() == 0,
    ensures
        patchable(s),
        patched(s) == doubled(s),
{
    let bytes = encode_utf8(doubled(s));
    assert(bytes.skip(0) == bytes);
    encode_utf8_decode_utf8(doubled(s));
}

/// A text without backslashes, quotation marks and parentheses is not changed, if its
/// assignments were found in it.
pub proof fn law_plain_text_stays(s: Seq<char>)
    requires
        search_known(s),
        forall|k: int| 0 <= k < s.len() ==> (#[trigger] s[k]) != '\\' && !is_special(s[k]),
    ensures
        patchable(s),
        patched(s) == s,
{
    law_no_backslash_leaves(s);
    lemma_no_positions(s, regex_captures(ASSIGNMENT_PATTERN@, s));
    law_nothing_to_escape(s);
}

} // verus!

//! What escaping and restoring do to each other: which texts come back as they
//! were, and which texts are left alone.

use vstd::prelude::*;

use crate::escape::{
    doubled, doubled_from, escaped, escaped_value, is_special, lemma_doubled_from, preprocessed,
    unescaped,
};
use crate::pattern::{
    backslash_at, continuation_at, directive_word, filler, is_escapable, lemma_match_at,
    lemma_woven_unmatched, match_at, woven, Pattern,
};

verus! {

// ---------------------------------------------------------------------------
// Texts that are left alone
// ---------------------------------------------------------------------------

/// A text in which `!INCLUDE` does not occur is not changed by preprocessing.
pub proof fn law_preprocess_leaves(s: Seq<char>)
    requires
        forall|i: int| 0 <= i < s.len() ==> !#[trigger] directive_word(s, i),
    ensures
        preprocessed(s) == s,
{
    assert forall|k: int| 0 <= k < s.len() implies #[trigger] match_at(
        Pattern::Directive,
        s,
        k,
    ) is None by {
        assert(!directive_word(s, k));
    }
    lemma_woven_unmatched(Pattern::Directive, s, 0, filler("#$0"@, s));
    assert(s.skip(0) == s);
}

/// The text without its number signs.
pub open spec fn unsigned(s: Seq<char>) -> Seq<char> {
    s.filter(|c: char| c != '#')
}

/// Preprocessing adds number signs to a text, and changes nothing else in it.
pub proof fn law_preprocess_adds_signs(s: Seq<char>)
    ensures
        unsigned(preprocessed(s)) == unsigned(s),
        s.len() <= preprocessed(s).len(),
{
    lemma_signs_from(s, 0);
    assert(s.skip(0) == s);
}

proof fn lemma_signs_from(s: Seq<char>, i: int)
    requires
        0 <= i <= s.len(),
    ensures
        unsigned(woven(Pattern::Directive, s, i, filler("#$0"@, s))) == unsigned(s.skip(i)),
        s.len() - i <= woven(Pattern::Directive, s, i, filler("#$0"@, s)).len(),
    decreases s.len() - i,
{
    reveal_strlit("#$0");
    let p = Pattern::Directive;
    let f = filler("#$0"@, s);
    let keep = |c: char| c != '#';
    if i < s.len() {
        lemma_match_at(p, s, i);
        match match_at(p, s, i) {
            Some(sp) => {
                lemma_signs_from(s, sp.end);
                let body = s.subrange(i, sp.end);
                assert("#$0"@.take(1) == seq!['#']);
                assert(f(sp) == seq!['#'] + body);
                Seq::filter_distributes_over_add(seq!['#'], body, keep);
                Seq::filter_distributes_over_add(f(sp), woven(p, s, sp.end, f), keep);
                Seq::filter_distributes_over_add(body, s.skip(sp.end), keep);
                assert(s.skip(i) == body + s.skip(sp.end));
                assert(seq!['#'].filter(keep) == Seq::<char>::empty()) by {
                    reveal_with_fuel(Seq::filter, 2);
                    assert(seq!['#'].drop_last() == Seq::<char>::empty());
                }
                assert(Seq::<char>::empty() + body.filter(keep) == body.filter(keep));
            },
            None => {
                lemma_signs_from(s, i + 1);
                Seq::filter_distributes_over_add(seq![s[i]], woven(p, s, i + 1, f), keep);
                Seq::filter_distributes_over_add(seq![s[i]], s.skip(i + 1), keep);
                assert(s.skip(i) == seq![s[i]] + s.skip(i + 1));
            },
        }
    } else {
        assert(s.skip(i) == Seq::<char>::empty());
    }
}

/// A text without backslashes is not changed by doubling them, and not by
/// restoring.
pub proof fn law_no_backslash_leaves(s: Seq<char>)
    requires
        forall|i: int| 0 <= i < s.len() ==> (#[trigger] s[i]) != '\\',
    ensures
        doubled(s) == s,
        unescaped(s) == s,
{
    assert(s.skip(0) == s);
    assert forall|k: int| 0 <= k < s.len() implies #[trigger] match_at(
        Pattern::Backslash,
        s,
        k,
    ) is None by {
        assert(s[k] != '\\');
    }
    lemma_woven_unmatched(Pattern::Backslash, s, 0, filler("\\\\$1"@, s));
    assert forall|k: int| 0 <= k < s.len() implies #[trigger] match_at(
        Pattern::Continuation,
        s,
        k,
    ) is None by {
        assert(s[k] != '\\');
    }
    lemma_woven_unmatched(Pattern::Continuation, s, 0, filler(" "@, s));
    assert forall|k: int| 0 <= k < s.len() implies #[trigger] match_at(
        Pattern::Escape,
        s,
        k,
    ) is None by {
        assert(s[k] != '\\');
    }
    lemma_woven_unmatched(Pattern::Escape, s, 0, filler("$1"@, s));
}

// ---------------------------------------------------------------------------
// Texts that are restored
// ---------------------------------------------------------------------------

/// Where a point of a value lies: inside a reference or not, and after which
/// character.
pub struct RefState {
    pub in_ref: bool,
    pub prev: char,
}

/// The state behind one more character.
pub open spec fn ref_step(st: RefState, c: char) -> RefState {
    if st.in_ref {
        if c == ')' {
            RefState { in_ref: false, prev: c }
        } else {
            st
        }
    } else if c == '(' && st.prev == '$' {
        RefState { in_ref: true, prev: st.prev }
    } else {
        RefState { in_ref: false, prev: c }
    }
}

/// The state at index `i` of a value.
pub open spec fn ref_state(v: Seq<char>, i: int) -> RefState
    decreases i,
{
    if i <= 0 {
        RefState { in_ref: false, prev: '\0' }
    } else {
        ref_step(ref_state(v, i - 1), v[i - 1])
    }
}

/// Whether the character at index `i` is one that restoring takes a backslash
/// away from, though escaping put none before it. In a value that happens inside
/// references alone, and elsewhere everywhere.
pub open spec fn is_bare(v: Seq<char>, i: int, is_value: bool) -> bool {
    0 <= i < v.len() && is_special(v[i]) && (is_value ==> ref_state(v, i).in_ref)
}

/// Whether the two backslashes at index `i` lose one on the way: before a bare
/// character, and before a third one that ends the text, or that a fourth one, a
/// carriage return or a bare character follows.
pub open spec fn loses_at(v: Seq<char>, i: int, is_value: bool) -> bool {
    &&& i + 1 < v.len()
    &&& v[i] == '\\'
    &&& v[i + 1] == '\\'
    &&& {
        ||| is_bare(v, i + 2, is_value)
        ||| {
            &&& i + 2 < v.len()
            &&& v[i + 2] == '\\'
            &&& {
                ||| i + 3 == v.len()
                ||| v[i + 3] == '\\'
                ||| v[i + 3] == '\r'
                ||| is_bare(v, i + 3, is_value)
            }
        }
    }
}

/// Whether a text comes back: no line of it is continued, and it nowhere loses a
/// backslash.
pub open spec fn comes_back(v: Seq<char>, is_value: bool) -> bool {
    &&& forall|i: int| 0 <= i < v.len() ==> #[trigger] continuation_at(v, i) is None
    &&& forall|i: int| 0 <= i < v.len() ==> !#[trigger] loses_at(v, i, is_value)
}

/// A text escaped as a value, or left as it is.
spec fn encoded(w: Seq<char>, st: RefState, is_value: bool) -> Seq<char> {
    if is_value {
        escaped(w, st.in_ref, st.prev)
    } else {
        w
    }
}

/// What stands for one character of an encoded text.
spec fn emitted(c: char, st: RefState, is_value: bool) -> Seq<char> {
    if is_value && !st.in_ref && !(c == '(' && st.prev == '$') && is_special(c) {
        seq!['\\', c]
    } else {
        seq![c]
    }
}

/// A text without the backslashes of its escapes.
spec fn strip(x: Seq<char>) -> Seq<char>
    decreases x.len(),
{
    if x.len() == 0 {
        Seq::empty()
    } else if x[0] == '\\' && x.len() >= 2 && is_escapable(x[1]) {
        seq![x[1]] + strip(x.skip(2))
    } else {
        seq![x[0]] + strip(x.skip(1))
    }
}

proof fn lemma_strip(x: Seq<char>, i: int)
    requires
        0 <= i <= x.len(),
    ensures
        woven(Pattern::Escape, x, i, filler("$1"@, x)) == strip(x.skip(i)),
    decreases x.len() - i,
{
    reveal_strlit("$1");
    let p = Pattern::Escape;
    let f = filler("$1"@, x);
    if i < x.len() {
        lemma_match_at(p, x, i);
        assert(x.skip(i)[0] == x[i]);
        match match_at(p, x, i) {
            Some(sp) => {
                lemma_strip(x, i + 2);
                assert(x.skip(i)[1] == x[i + 1]);
                assert(x.skip(i).skip(2) == x.skip(i + 2));
                assert("$1"@.take(0) + x.subrange(i + 1, i + 2) == seq![x[i + 1]]);
                assert(f(sp) == seq![x[i + 1]]);
            },
            None => {
                lemma_strip(x, i + 1);
                assert(x.skip(i).skip(1) == x.skip(i + 1));
                if i + 1 < x.len() {
                    assert(x.skip(i)[1] == x[i + 1]);
                }
            },
        }
    } else {
        assert(x.skip(i) == Seq::<char>::empty());
    }
}

proof fn lemma_strip_plain(c: char, x: Seq<char>)
    requires
        c != '\\' || x.len() == 0 || !is_escapable(x[0]),
    ensures
        strip(seq![c] + x) == seq![c] + strip(x),
{
    assert((seq![c] + x).skip(1) == x);
    if x.len() > 0 {
        assert((seq![c] + x)[1] == x[0]);
    }
}

proof fn lemma_strip_escape(d: char, x: Seq<char>)
    requires
        is_escapable(d),
    ensures
        strip(seq!['\\', d] + x) == seq![d] + strip(x),
{
    assert((seq!['\\', d] + x).skip(2) == x);
}

proof fn lemma_encoded_cons(c: char, w: Seq<char>, st: RefState, is_value: bool)
    ensures
        encoded(seq![c] + w, st, is_value) == emitted(c, st, is_value) + encoded(
            w,
            ref_step(st, c),
            is_value,
        ),
{
    assert((seq![c] + w).skip(1) == w);
}

/// The part of an encoded text that one character gives is restored to it.
proof fn lemma_strip_emitted(c: char, x: Seq<char>, st: RefState, is_value: bool)
    requires
        c != '\\',
    ensures
        strip(emitted(c, st, is_value) + x) == seq![c] + strip(x),
{
    if emitted(c, st, is_value).len() == 2 {
        lemma_strip_escape(c, x);
    } else {
        lemma_strip_plain(c, x);
    }
}

/// A backslash before what one character gives is kept, unless the character is
/// bare.
proof fn lemma_strip_before(c: char, x: Seq<char>, st: RefState, is_value: bool)
    requires
        c != '\\',
        !is_special(c) || emitted(c, st, is_value).len() == 2,
    ensures
        strip(seq!['\\'] + (emitted(c, st, is_value) + x)) == seq!['\\', c] + strip(x),
{
    if emitted(c, st, is_value).len() == 2 {
        let tail = seq![c] + x;
        assert(seq!['\\'] + (seq!['\\', c] + x) == seq!['\\', '\\'] + tail);
        lemma_strip_escape('\\', tail);
        lemma_strip_plain(c, x);
        assert(seq!['\\'] + (seq![c] + strip(x)) == seq!['\\', c] + strip(x));
    } else {
        lemma_strip_plain('\\', seq![c] + x);
        lemma_strip_plain(c, x);
        assert(seq!['\\'] + (seq![c] + strip(x)) == seq!['\\', c] + strip(x));
    }
}

/// What comes of index `i` on is restored. Behind a backslash that is still open it
/// is restored with that backslash.
proof fn lemma_restored(v: Seq<char>, i: int, is_value: bool, open: bool)
    requires
        0 <= i <= v.len(),
        comes_back(v, is_value),
        open ==> 2 <= i && v[i - 1] == '\\' && v[i - 2] == '\\',
    ensures
        !open ==> strip(encoded(doubled_from(v, i), ref_state(v, i), is_value)) == v.skip(i),
        open ==> strip(seq!['\\'] + encoded(doubled_from(v, i), ref_state(v, i), is_value))
            == seq!['\\'] + v.skip(i),
    decreases v.len() - i,
{
    let st = ref_state(v, i);
    let x = encoded(doubled_from(v, i), st, is_value);
    if open {
        assert(!loses_at(v, i - 2, is_value));
        assert(ref_state(v, i) == ref_step(ref_state(v, i - 1), '\\'));
        assert(!st.in_ref ==> st.prev == '\\');
    }
    if i == v.len() {
        assert(v.skip(i) == Seq::<char>::empty());
        assert(x == Seq::<char>::empty());
        lemma_strip_plain('\\', x);
    } else {
        let c = v[i];
        let st1 = ref_state(v, i + 1);
        lemma_doubled_from(v, i);
        assert(continuation_at(v, i) is None);
        assert(st1 == ref_step(st, c));
        assert(v.skip(i) == seq![c] + v.skip(i + 1));
        if backslash_at(v, i) is None {
            let x1 = encoded(doubled_from(v, i + 1), st1, is_value);
            lemma_encoded_cons(c, doubled_from(v, i + 1), st, is_value);
            lemma_restored(v, i + 1, is_value, false);
            if c != '\\' {
                if open {
                    assert(!is_bare(v, i, is_value));
                    lemma_strip_before(c, x1, st, is_value);
                    assert(seq!['\\', c] + v.skip(i + 1) == seq!['\\'] + v.skip(i));
                } else {
                    lemma_strip_emitted(c, x1, st, is_value);
                }
            } else {
                assert(!open);
                if i + 1 < v.len() {
                    assert(v[i + 1] == '\r');
                    lemma_doubled_from(v, i + 1);
                    lemma_encoded_cons('\r', doubled_from(v, i + 2), st1, is_value);
                    assert(x1[0] == '\r');
                } else {
                    assert(x1 == Seq::<char>::empty());
                }
                lemma_strip_plain('\\', x1);
            }
        } else {
            let d = v[i + 1];
            let st2 = ref_state(v, i + 2);
            let w = doubled_from(v, i + 2);
            let x2 = encoded(w, st2, is_value);
            let y = emitted(d, st1, is_value) + x2;
            assert(st2 == ref_step(st1, d));
            assert(ref_step(st1, '\\') == st1);
            assert(doubled_from(v, i) == seq!['\\'] + (seq!['\\'] + (seq![d] + w)));
            lemma_encoded_cons('\\', seq!['\\'] + (seq![d] + w), st, is_value);
            lemma_encoded_cons('\\', seq![d] + w, st1, is_value);
            lemma_encoded_cons(d, w, st1, is_value);
            assert(x == seq!['\\', '\\'] + y);
            assert(v.skip(i + 1) == seq![d] + v.skip(i + 2));
            lemma_strip_escape('\\', y);
            if d == '\\' {
                assert(!open);
                lemma_restored(v, i + 2, is_value, true);
            } else {
                lemma_restored(v, i + 2, is_value, false);
                lemma_strip_emitted(d, x2, st1, is_value);
                if open {
                    assert(!is_bare(v, i + 1, is_value));
                    assert(seq!['\\'] + x == seq!['\\', '\\'] + (seq!['\\'] + y));
                    lemma_strip_escape('\\', seq!['\\'] + y);
                    lemma_strip_before(d, x2, st1, is_value);
                    assert(seq!['\\', d] + v.skip(i + 2) == v.skip(i));
                }
            }
        }
    }
}

/// Whether no line of the text is continued.
spec fn is_uncontinued(x: Seq<char>) -> bool {
    forall|k: int| 0 <= k < x.len() ==> #[trigger] continuation_at(x, k) is None
}

/// Whether the text begins with a line end.
spec fn starts_line_end(x: Seq<char>) -> bool {
    (x.len() > 0 && x[0] == '\n') || (x.len() > 1 && x[0] == '\r' && x[1] == '\n')
}

proof fn lemma_uncontinued_cons(c: char, x: Seq<char>)
    requires
        is_uncontinued(x),
        c == '\\' ==> !starts_line_end(x),
    ensures
        is_uncontinued(seq![c] + x),
{
    let y = seq![c] + x;
    assert forall|k: int| 0 <= k < y.len() implies #[trigger] continuation_at(y, k) is None by {
        if k > 0 {
            assert(continuation_at(x, k - 1) is None);
        }
    }
}

/// An encoded text continues no line where the text itself does not.
proof fn lemma_encoded_lines(v: Seq<char>, i: int, is_value: bool)
    requires
        0 <= i <= v.len(),
        is_uncontinued(v),
    ensures
        is_uncontinued(encoded(doubled_from(v, i), ref_state(v, i), is_value)),
        starts_line_end(encoded(doubled_from(v, i), ref_state(v, i), is_value))
            ==> starts_line_end(v.skip(i)),
        ({
            let x = encoded(doubled_from(v, i), ref_state(v, i), is_value);
            x.len() > 0 && x[0] == '\n' ==> i < v.len() && v[i] == '\n'
        }),
    decreases v.len() - i,
{
    let st = ref_state(v, i);
    let x = encoded(doubled_from(v, i), st, is_value);
    if i == v.len() {
        assert(x == Seq::<char>::empty());
    } else {
        let c = v[i];
        let st1 = ref_state(v, i + 1);
        lemma_doubled_from(v, i);
        assert(st1 == ref_step(st, c));
        assert(continuation_at(v, i) is None);
        if backslash_at(v, i) is None {
            let x1 = encoded(doubled_from(v, i + 1), st1, is_value);
            lemma_encoded_cons(c, doubled_from(v, i + 1), st, is_value);
            lemma_encoded_lines(v, i + 1, is_value);
            if starts_line_end(x1) {
                assert(starts_line_end(v.skip(i + 1)));
                assert(v.skip(i + 1)[0] == v[i + 1]);
                if v[i + 1] == '\r' {
                    assert(v.skip(i + 1)[1] == v[i + 2]);
                }
            }
            lemma_uncontinued_cons(c, x1);
            if emitted(c, st, is_value).len() == 2 {
                lemma_uncontinued_cons('\\', seq![c] + x1);
                assert(x == seq!['\\'] + (seq![c] + x1));
            }
            if starts_line_end(x) {
                assert(v.skip(i)[0] == c);
                if c == '\r' {
                    assert(x1[0] == '\n');
                    assert(v.skip(i)[1] == v[i + 1]);
                }
            }
        } else {
            let d = v[i + 1];
            let st2 = ref_state(v, i + 2);
            let w = doubled_from(v, i + 2);
            let x2 = encoded(w, st2, is_value);
            assert(st2 == ref_step(st1, d));
            assert(ref_step(st1, '\\') == st1);
            assert(doubled_from(v, i) == seq!['\\'] + (seq!['\\'] + (seq![d] + w)));
            lemma_encoded_cons('\\', seq!['\\'] + (seq![d] + w), st, is_value);
            lemma_encoded_cons('\\', seq![d] + w, st1, is_value);
            lemma_encoded_cons(d, w, st1, is_value);
            lemma_encoded_lines(v, i + 2, is_value);
            assert(continuation_at(v, i + 1) is None);
            if starts_line_end(x2) {
                assert(v.skip(i + 2)[0] == v[i + 2]);
                if v[i + 2] == '\r' {
                    assert(v.skip(i + 2)[1] == v[i + 3]);
                }
            }
            let y = emitted(d, st1, is_value) + x2;
            lemma_uncontinued_cons(d, x2);
            if emitted(d, st1, is_value).len() == 2 {
                lemma_uncontinued_cons('\\', seq![d] + x2);
                assert(y == seq!['\\'] + (seq![d] + x2));
            }
            lemma_uncontinued_cons('\\', y);
            lemma_uncontinued_cons('\\', seq!['\\'] + y);
            assert(x == seq!['\\'] + (seq!['\\'] + y));
        }
    }
}

proof fn lemma_comes_back(v: Seq<char>, is_value: bool)
    requires
        comes_back(v, is_value),
    ensures
        unescaped(encoded(doubled(v), ref_state(v, 0), is_value)) == v,
{
    let x = encoded(doubled(v), ref_state(v, 0), is_value);
    lemma_restored(v, 0, is_value, false);
    lemma_encoded_lines(v, 0, is_value);
    assert(v.skip(0) == v);
    assert(x.skip(0) == x);
    assert forall|k: int| 0 <= k < x.len() implies #[trigger] match_at(
        Pattern::Continuation,
        x,
        k,
    ) is None by {
        assert(continuation_at(x, k) is None);
    }
    lemma_woven_unmatched(Pattern::Continuation, x, 0, filler(" "@, x));
    lemma_strip(x, 0);
}

/// A value that is escaped for the parser, its backslashes doubled and its special
/// characters escaped, is restored to what it was, if it comes back at all.
pub proof fn law_value_restored(v: Seq<char>)
    requires
        comes_back(v, true),
    ensures
        unescaped(escaped_value(doubled(v))) == v,
{
    lemma_comes_back(v, true);
}

/// A text outside values, such as a command, in which backslashes are doubled for
/// the parser, is restored to what it was, if it comes back at all.
pub proof fn law_text_restored(v: Seq<char>)
    requires
        comes_back(v, false),
    ensures
        unescaped(doubled(v)) == v,
{
    lemma_comes_back(v, false);
}

} // verus!

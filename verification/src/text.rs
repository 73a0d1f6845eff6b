//! Text at two levels: a string as a sequence of characters, which is what the
//! contracts speak of, and as UTF-8 bytes, which is what offsets count.

use vstd::prelude::*;
use vstd::string::*;
use vstd::utf8::*;

verus! {

// ---------------------------------------------------------------------------
// Building strings
// ---------------------------------------------------------------------------

/// `String::push` appends one character to the end of the string.
pub assume_specification[ String::push ](s: &mut String, c: char)
    ensures
        final(s)@ == old(s)@.push(c),
;

/// The characters of `s`, in order.
pub fn chars_of(s: &str) -> (v: Vec<char>)
    ensures
        v@ == s@,
{
    let mut v: Vec<char> = Vec::new();
    for c in it: s.chars()
        invariant
            it.seq() == s@,
            v@ == s@.take(it.index()),
    {
        v.push(c);
    }
    assert(s@.take(s@.len() as int) == s@);
    v
}

/// The string made of `v[from..to]`.
pub fn string_of(v: &Vec<char>, from: usize, to: usize) -> (r: String)
    requires
        from <= to <= v@.len(),
    ensures
        r@ == v@.subrange(from as int, to as int),
{
    let mut r = String::new();
    let mut i: usize = from;
    while i < to
        invariant
            from <= i <= to <= v@.len(),
            r@ == v@.subrange(from as int, i as int),
        decreases to - i,
    {
        r.push(v[i]);
        i += 1;
    }
    r
}

// ---------------------------------------------------------------------------
// White space and words
// ---------------------------------------------------------------------------

/// The characters with the Unicode property `White_Space`.
pub open spec fn is_white_space(c: char) -> bool {
    ||| '\u{9}' <= c <= '\u{d}'
    ||| c == ' '
    ||| c == '\u{85}'
    ||| c == '\u{a0}'
    ||| c == '\u{1680}'
    ||| '\u{2000}' <= c <= '\u{200a}'
    ||| c == '\u{2028}'
    ||| c == '\u{2029}'
    ||| c == '\u{202f}'
    ||| c == '\u{205f}'
    ||| c == '\u{3000}'
}

/// Whether `c` is white space.
pub fn white_space(c: char) -> (r: bool)
    ensures
        r == is_white_space(c),
{
    ('\u{9}' <= c && c <= '\u{d}') || c == ' ' || c == '\u{85}' || c == '\u{a0}' || c == '\u{1680}'
        || ('\u{2000}' <= c && c <= '\u{200a}') || c == '\u{2028}' || c == '\u{2029}' || c
        == '\u{202f}' || c == '\u{205f}' || c == '\u{3000}'
}

/// Whether `s` holds nothing but white space.
pub open spec fn is_blank(s: Seq<char>) -> bool {
    forall|i: int| 0 <= i < s.len() ==> is_white_space(#[trigger] s[i])
}

/// The end of the word that begins at `i`: the first white space from `i` on,
/// or the end of `s`.
pub open spec fn word_end(s: Seq<char>, i: int) -> int
    decreases s.len() - i,
{
    if i < 0 || i >= s.len() || is_white_space(s[i]) {
        i
    } else {
        word_end(s, i + 1)
    }
}

/// The words of `s` from `i` on.
pub open spec fn words_from(s: Seq<char>, i: int) -> Seq<Seq<char>>
    decreases s.len() - i,
{
    if i < 0 || i >= s.len() {
        Seq::empty()
    } else if is_white_space(s[i]) {
        words_from(s, i + 1)
    } else {
        proof {
            lemma_word_end(s, i);
        }
        seq![s.subrange(i, word_end(s, i))] + words_from(s, word_end(s, i))
    }
}

/// The maximal runs of characters of `s` that are no white space, in order.
pub open spec fn words(s: Seq<char>) -> Seq<Seq<char>> {
    words_from(s, 0)
}

pub proof fn lemma_word_end(s: Seq<char>, i: int)
    requires
        0 <= i <= s.len(),
    ensures
        i <= word_end(s, i) <= s.len(),
        forall|k: int| i <= k < word_end(s, i) ==> !is_white_space(#[trigger] s[k]),
        word_end(s, i) < s.len() ==> is_white_space(s[word_end(s, i)]),
    decreases s.len() - i,
{
    if i < s.len() && !is_white_space(s[i]) {
        lemma_word_end(s, i + 1);
    }
}

/// Whether a text is a word: it is not empty and holds no white space.
pub open spec fn is_word(s: Seq<char>) -> bool {
    s.len() > 0 && forall|i: int| 0 <= i < s.len() ==> !is_white_space(#[trigger] s[i])
}

proof fn lemma_words_from(s: Seq<char>, i: int)
    requires
        0 <= i <= s.len(),
    ensures
        forall|k: int| 0 <= k < words_from(s, i).len() ==> is_word(#[trigger] words_from(s, i)[k]),
    decreases s.len() - i,
{
    if i < s.len() {
        if is_white_space(s[i]) {
            lemma_words_from(s, i + 1);
            assert(words_from(s, i) == words_from(s, i + 1));
        } else {
            lemma_word_end(s, i);
            let end = word_end(s, i);
            let word = s.subrange(i, end);
            let rest = words_from(s, end);
            lemma_word_end(s, i + 1);
            assert(i < end);
            lemma_words_from(s, end);
            assert forall|k: int| 0 <= k < word.len() implies !is_white_space(
                #[trigger] word[k],
            ) by {
                assert(word[k] == s[i + k]);
            }
            assert forall|k: int| 0 <= k < (seq![word] + rest).len() implies is_word(
                #[trigger] (seq![word] + rest)[k],
            ) by {
                if k > 0 {
                    assert((seq![word] + rest)[k] == rest[k - 1]);
                }
            }
            assert(words_from(s, i) == seq![word] + rest);
        }
    }
}

/// What comes out of splitting a text are words.
pub proof fn law_words_are_words(s: Seq<char>)
    ensures
        forall|k: int| 0 <= k < words(s).len() ==> is_word(#[trigger] words(s)[k]),
{
    lemma_words_from(s, 0);
}

/// The views of the strings of `v`.
pub open spec fn views(v: Seq<String>) -> Seq<Seq<char>> {
    Seq::new(v.len(), |i: int| v[i]@)
}

/// Splits `s` at white space; nothing empty comes out.
pub fn split_whitespace(s: &str) -> (r: Vec<String>)
    ensures
        views(r@) == words(s@),
{
    let v = chars_of(s);
    let mut r: Vec<String> = Vec::new();
    let mut i: usize = 0;
    assert(views(r@) + words_from(v@, 0) == words(v@));
    while i < v.len()
        invariant
            i <= v@.len(),
            views(r@) + words_from(v@, i as int) == words(v@),
        decreases v@.len() - i,
    {
        proof {
            lemma_word_end(v@, i as int);
        }
        if white_space(v[i]) {
            i += 1;
        } else {
            let start: usize = i;
            while i < v.len() && !white_space(v[i])
                invariant
                    start <= i <= v@.len(),
                    word_end(v@, start as int) == word_end(v@, i as int),
                decreases v@.len() - i,
            {
                i += 1;
            }
            let ghost before = views(r@);
            r.push(string_of(&v, start, i));
            proof {
                lemma_word_end(v@, start as int);
                assert(views(r@) == before.push(v@.subrange(start as int, i as int)));
                assert(before + (seq![v@.subrange(start as int, i as int)] + words_from(
                    v@,
                    i as int,
                )) == views(r@) + words_from(v@, i as int));
            }
        }
    }
    assert(views(r@) + Seq::empty() == views(r@));
    r
}

/// `s` without the white space at both of its ends.
pub open spec fn trimmed(s: Seq<char>) -> Seq<char>
    decreases s.len(),
{
    if s.len() > 0 && is_white_space(s[0]) {
        trimmed(s.skip(1))
    } else if s.len() > 0 && is_white_space(s.last()) {
        trimmed(s.drop_last())
    } else {
        s
    }
}

/// Trimming twice is trimming once.
pub proof fn law_trimmed_twice(s: Seq<char>)
    ensures
        trimmed(trimmed(s)) == trimmed(s),
    decreases s.len(),
{
    if s.len() > 0 && is_white_space(s[0]) {
        law_trimmed_twice(s.skip(1));
    } else if s.len() > 0 && is_white_space(s.last()) {
        law_trimmed_twice(s.drop_last());
    }
}

/// Cuts the white space off both ends of `s`.
pub fn trim(s: &str) -> (r: String)
    ensures
        r@ == trimmed(s@),
{
    let v = chars_of(s);
    let mut i: usize = 0;
    let mut j: usize = v.len();
    assert(v@.subrange(0, j as int) == v@);
    while i < j && white_space(v[i])
        invariant
            i <= j <= v@.len(),
            trimmed(v@.subrange(i as int, j as int)) == trimmed(s@),
        decreases j - i,
    {
        assert(v@.subrange(i as int, j as int).skip(1) == v@.subrange(i + 1, j as int));
        i += 1;
    }
    while i < j && white_space(v[j - 1])
        invariant
            i <= j <= v@.len(),
            i < j ==> !is_white_space(v@[i as int]),
            trimmed(v@.subrange(i as int, j as int)) == trimmed(s@),
        decreases j - i,
    {
        assert(v@.subrange(i as int, j as int).drop_last() == v@.subrange(i as int, j - 1));
        j -= 1;
    }
    string_of(&v, i, j)
}

// ---------------------------------------------------------------------------
// Comparing and rewriting
// ---------------------------------------------------------------------------

/// Two texts with the same UTF-8 bytes are the same text.
pub proof fn lemma_bytes_decide(a: Seq<char>, b: Seq<char>)
    requires
        encode_utf8(a) == encode_utf8(b),
    ensures
        a == b,
{
    encode_utf8_decode_utf8(a);
    encode_utf8_decode_utf8(b);
}

/// Whether `a` and `b` are the same text.
pub fn same_text(a: &str, b: &str) -> (r: bool)
    ensures
        r == (a@ == b@),
{
    let x = a.as_bytes();
    let y = b.as_bytes();
    if x.len() != y.len() {
        return false;
    }
    let mut i: usize = 0;
    while i < x.len()
        invariant
            i <= x@.len(),
            x@.len() == y@.len(),
            x@ == encode_utf8(a@),
            y@ == encode_utf8(b@),
            forall|k: int| 0 <= k < i ==> x@[k] == y@[k],
        decreases x@.len() - i,
    {
        if x[i] != y[i] {
            return false;
        }
        i += 1;
    }
    proof {
        assert(x@ == y@);
        lemma_bytes_decide(a@, b@);
    }
    true
}

/// Whether `s` ends in `suffix`.
pub open spec fn has_suffix(s: Seq<char>, suffix: Seq<char>) -> bool {
    s.len() >= suffix.len() && s.skip(s.len() - suffix.len()) == suffix
}

/// Whether `s` ends in `suffix`.
pub fn ends_with(s: &str, suffix: &str) -> (r: bool)
    ensures
        r == has_suffix(s@, suffix@),
{
    let v = chars_of(s);
    let w = chars_of(suffix);
    if v.len() < w.len() {
        return false;
    }
    let d: usize = v.len() - w.len();
    let mut i: usize = 0;
    while i < w.len()
        invariant
            i <= w@.len(),
            d + w@.len() == v.len(),
            v@ == s@,
            w@ == suffix@,
            forall|k: int| 0 <= k < i ==> v@[d + k] == w@[k],
        decreases w@.len() - i,
    {
        if v[d + i] != w[i] {
            assert(s@.skip(d as int)[i as int] != suffix@[i as int]);
            return false;
        }
        i += 1;
    }
    assert(s@.skip(d as int) == suffix@);
    true
}

/// `s` with every occurrence of `from` replaced by the characters of `to`.
pub open spec fn substituted(s: Seq<char>, from: char, to: Seq<char>) -> Seq<char>
    decreases s.len(),
{
    if s.len() == 0 {
        Seq::empty()
    } else {
        substituted(s.drop_last(), from, to) + (if s.last() == from {
            to
        } else {
            seq![s.last()]
        })
    }
}

/// Replaces every occurrence of `from` in `s` by `to`.
pub fn substitute(s: &str, from: char, to: &str) -> (r: String)
    ensures
        r@ == substituted(s@, from, to@),
{
    let v = chars_of(s);
    let mut r = String::new();
    let mut i: usize = 0;
    assert(v@.take(0) == Seq::<char>::empty());
    while i < v.len()
        invariant
            i <= v@.len(),
            r@ == substituted(v@.take(i as int), from, to@),
        decreases v@.len() - i,
    {
        assert(v@.take(i + 1).drop_last() == v@.take(i as int));
        if v[i] == from {
            r.append(to);
        } else {
            let ghost before = r@;
            r.push(v[i]);
            assert(r@ == before + seq![v@[i as int]]);
        }
        i += 1;
    }
    assert(v@.take(v@.len() as int) == v@);
    r
}

// ---------------------------------------------------------------------------
// Byte offsets
// ---------------------------------------------------------------------------

/// Where in the bytes of `s` its `i`-th character begins.
pub open spec fn byte_offset(s: Seq<char>, i: int) -> int {
    encode_utf8(s.take(i)).len() as int
}

pub proof fn lemma_encode_concat(a: Seq<char>, b: Seq<char>)
    ensures
        encode_utf8(a + b) == encode_utf8(a) + encode_utf8(b),
    decreases a.len(),
{
    if a.len() == 0 {
        assert(a + b == b);
    } else {
        assert((a + b).drop_first() == a.drop_first() + b);
        lemma_encode_concat(a.drop_first(), b);
    }
}

/// The bytes of the first `i` characters are the bytes before the `i`-th one.
pub proof fn lemma_byte_offset(s: Seq<char>, i: int)
    requires
        0 <= i <= s.len(),
    ensures
        0 <= byte_offset(s, i) <= encode_utf8(s).len(),
        encode_utf8(s).subrange(0, byte_offset(s, i)) == encode_utf8(s.take(i)),
        encode_utf8(s).skip(byte_offset(s, i)) == encode_utf8(s.skip(i)),
        is_char_boundary(encode_utf8(s), byte_offset(s, i)),
    decreases i,
{
    assert(s == s.take(i) + s.skip(i));
    lemma_encode_concat(s.take(i), s.skip(i));
    encode_utf8_valid_utf8(s);
    if i > 0 {
        let rest = s.drop_first();
        lemma_byte_offset(rest, i - 1);
        encode_utf8_first_scalar(s);
        let head = encode_scalar(s[0] as u32);
        assert(pop_first_scalar(encode_utf8(s)) == encode_utf8(rest));
        assert(s.take(i).drop_first() == rest.take(i - 1));
        assert(byte_offset(s, i) == head.len() + byte_offset(rest, i - 1));
    }
}

pub proof fn lemma_byte_offset_order(s: Seq<char>, i: int, j: int)
    requires
        0 <= i <= j <= s.len(),
    ensures
        byte_offset(s, i) <= byte_offset(s, j),
        byte_offset(s, j) - byte_offset(s, i) == encode_utf8(s.subrange(i, j)).len(),
        i == j <==> byte_offset(s, i) == byte_offset(s, j),
        byte_offset(s, s.len() as int) == encode_utf8(s).len(),
{
    assert(s.take(j) == s.take(i) + s.subrange(i, j));
    lemma_encode_concat(s.take(i), s.subrange(i, j));
    if i < j {
        encode_utf8_first_scalar(s.subrange(i, j));
    } else {
        assert(s.subrange(i, j) == Seq::<char>::empty());
    }
    assert(s.take(s.len() as int) == s);
}

/// A boundary stays one when the bytes before another boundary are cut off.
proof fn lemma_boundary_in_tail(bytes: Seq<u8>, a: int, b: int)
    requires
        valid_utf8(bytes),
        is_char_boundary(bytes, a),
        is_char_boundary(bytes, b),
        0 <= a <= b <= bytes.len(),
    ensures
        valid_utf8(bytes.subrange(a, bytes.len() as int)),
        is_char_boundary(bytes.subrange(a, bytes.len() as int), b - a),
{
    let tail = bytes.subrange(a, bytes.len() as int);
    valid_utf8_split(bytes, a);
    if b < bytes.len() {
        is_char_boundary_iff_not_is_continuation_byte(bytes, b);
        is_char_boundary_iff_not_is_continuation_byte(tail, b - a);
    } else {
        is_char_boundary_start_end_of_seq(tail);
    }
}

/// The text between two byte offsets.
pub fn slice_bytes<'a>(s: &'a str, a: usize, b: usize) -> (r: &'a str)
    requires
        a <= b <= s.spec_bytes().len(),
        is_char_boundary(s.spec_bytes(), a as int),
        is_char_boundary(s.spec_bytes(), b as int),
    ensures
        r.spec_bytes() == s.spec_bytes().subrange(a as int, b as int),
{
    proof {
        encode_utf8_valid_utf8(s@);
        lemma_boundary_in_tail(s.spec_bytes(), a as int, b as int);
    }
    let tail = s.split_at(a).1;
    let r = tail.split_at(b - a).0;
    assert(tail.spec_bytes().subrange(0, b - a) == s.spec_bytes().subrange(a as int, b as int));
    r
}

/// The text between two byte offsets at which the characters `i` and `j` begin.
pub(crate) fn slice_text<'a>(
    s: &'a str,
    a: usize,
    b: usize,
    Ghost(i): Ghost<int>,
    Ghost(j): Ghost<int>,
) -> (r: &'a str)
    requires
        0 <= i <= j <= s@.len(),
        a == byte_offset(s@, i),
        b == byte_offset(s@, j),
    ensures
        r@ == s@.subrange(i, j),
{
    proof {
        lemma_byte_offset(s@, i);
        lemma_byte_offset(s@, j);
        lemma_byte_offset_order(s@, i, j);
    }
    let r = slice_bytes(s, a, b);
    proof {
        lemma_byte_offset(s@.take(j), i);
        assert(s@.take(j).take(i) == s@.take(i));
        assert(s@.take(j).skip(i) == s@.subrange(i, j));
        assert(s.spec_bytes().subrange(a as int, b as int) == s.spec_bytes().subrange(
            0,
            b as int,
        ).skip(a as int));
        lemma_bytes_decide(r@, s@.subrange(i, j));
    }
    r
}

/// The text that the bytes of `s` from `a` to `b` spell, if they spell any.
pub open spec fn text_between(s: Seq<char>, a: int, b: int) -> Option<Seq<char>> {
    let bytes = encode_utf8(s).subrange(a, b);
    if valid_utf8(bytes) {
        Some(decode_utf8(bytes))
    } else {
        None
    }
}

/// The text between the bytes at which the characters `i` and `j` begin.
pub proof fn lemma_text_between(s: Seq<char>, i: int, j: int)
    requires
        0 <= i <= j <= s.len(),
    ensures
        text_between(s, byte_offset(s, i), byte_offset(s, j)) == Some(s.subrange(i, j)),
{
    let a = byte_offset(s, i);
    let b = byte_offset(s, j);
    let part = s.subrange(i, j);
    lemma_byte_offset(s, i);
    lemma_byte_offset(s, j);
    lemma_byte_offset_order(s, i, j);
    lemma_byte_offset(s.take(j), i);
    assert(s.take(j).take(i) == s.take(i));
    assert(s.take(j).skip(i) == part);
    assert(encode_utf8(s).subrange(a, b) == encode_utf8(s).subrange(0, b).skip(a));
    encode_utf8_valid_utf8(part);
    encode_utf8_decode_utf8(part);
}

/// At every character boundary a character begins, or the text ends.
pub proof fn lemma_boundary_index(s: Seq<char>, a: int) -> (i: int)
    requires
        is_char_boundary(encode_utf8(s), a),
    ensures
        0 <= i <= s.len(),
        byte_offset(s, i) == a,
    decreases s.len(),
{
    encode_utf8_valid_utf8(s);
    if a == 0 {
        assert(s.take(0) == Seq::<char>::empty());
        0
    } else {
        let rest = s.drop_first();
        let head = encode_scalar(s[0] as u32);
        encode_utf8_first_scalar(s);
        assert(pop_first_scalar(encode_utf8(s)) == encode_utf8(rest));
        let j = lemma_boundary_index(rest, a - length_of_first_scalar(encode_utf8(s)));
        assert(s.take(j + 1).drop_first() == rest.take(j));
        assert(byte_offset(s, j + 1) == head.len() + byte_offset(rest, j));
        j + 1
    }
}

} // verus!

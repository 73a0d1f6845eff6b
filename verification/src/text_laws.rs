//! Laws of texts: what splitting, trimming and replacing do, said of the texts themselves.

use vstd::prelude::*;

use crate::text::{
    has_suffix, is_blank, is_white_space, is_word, lemma_word_end, substituted, trimmed, word_end,
    words, words_from,
};

verus! {

/// White space is what Unicode gives that property: these characters and no others.
pub proof fn law_white_space(c: char)
    ensures
        is_white_space(c) <==> {
            let n = c as u32;
            ||| 9 <= n <= 13
            ||| n == 32
            ||| n == 133
            ||| n == 160
            ||| n == 5760
            ||| 8192 <= n <= 8202
            ||| n == 8232
            ||| n == 8233
            ||| n == 8239
            ||| n == 8287
            ||| n == 12288
        },
{
}

/// A text is blank if and only if every character of it is white space.
pub proof fn law_blank(a: Seq<char>, b: Seq<char>, c: char)
    ensures
        is_blank(Seq::empty()),
        is_blank(seq![c]) == is_white_space(c),
        is_blank(a + b) == (is_blank(a) && is_blank(b)),
{
    assert(seq![c][0] == c);
    if is_blank(a + b) {
        assert forall|i: int| 0 <= i < a.len() implies is_white_space(#[trigger] a[i]) by {
            assert((a + b)[i] == a[i]);
        }
        assert forall|i: int| 0 <= i < b.len() implies is_white_space(#[trigger] b[i]) by {
            assert((a + b)[a.len() + i] == b[i]);
        }
    }
    if is_blank(a) && is_blank(b) {
        assert forall|i: int| 0 <= i < (a + b).len() implies is_white_space(
            #[trigger] (a + b)[i],
        ) by {
            if i < a.len() {
                assert(is_white_space(a[i]));
            } else {
                assert(is_white_space(b[i - a.len()]));
            }
        }
    }
}

proof fn lemma_word_end_shift(x: Seq<char>, y: Seq<char>, i: int)
    requires
        0 <= i,
    ensures
        word_end(x + y, x.len() + i) == x.len() + word_end(y, i),
    decreases y.len() - i,
{
    if i < y.len() {
        assert((x + y)[x.len() + i] == y[i]);
        if !is_white_space(y[i]) {
            lemma_word_end_shift(x, y, i + 1);
        }
    }
}

proof fn lemma_words_shift(x: Seq<char>, y: Seq<char>, i: int)
    requires
        0 <= i <= y.len(),
    ensures
        words_from(x + y, x.len() + i) == words_from(y, i),
    decreases y.len() - i,
{
    if i < y.len() {
        assert((x + y)[x.len() + i] == y[i]);
        if is_white_space(y[i]) {
            lemma_words_shift(x, y, i + 1);
        } else {
            lemma_word_end_shift(x, y, i);
            lemma_word_end(y, i);
            let end = word_end(y, i);
            lemma_word_end(y, i + 1);
            assert(i < end);
            lemma_words_shift(x, y, end);
            assert((x + y).subrange(x.len() + i, x.len() + end) == y.subrange(i, end));
        }
    }
}

proof fn lemma_word_end_agree(a: Seq<char>, c: char, b: Seq<char>, i: int)
    requires
        is_white_space(c),
        0 <= i <= a.len(),
    ensures
        word_end(a + seq![c] + b, i) == word_end(a, i),
    decreases a.len() - i,
{
    let s = a + seq![c] + b;
    if i < a.len() {
        assert(s[i] == a[i]);
        if !is_white_space(a[i]) {
            lemma_word_end_agree(a, c, b, i + 1);
        }
    } else {
        assert(s[i] == c);
    }
}

proof fn lemma_words_split(a: Seq<char>, c: char, b: Seq<char>, i: int)
    requires
        is_white_space(c),
        0 <= i <= a.len(),
    ensures
        words_from(a + seq![c] + b, i) == words_from(a, i) + words(b),
    decreases a.len() - i,
{
    let s = a + seq![c] + b;
    if i < a.len() {
        assert(s[i] == a[i]);
        if is_white_space(a[i]) {
            lemma_words_split(a, c, b, i + 1);
        } else {
            lemma_word_end_agree(a, c, b, i);
            lemma_word_end(a, i);
            let end = word_end(a, i);
            lemma_word_end(a, i + 1);
            assert(i < end);
            lemma_words_split(a, c, b, end);
            assert(s.subrange(i, end) == a.subrange(i, end));
            let word = a.subrange(i, end);
            assert(seq![word] + (words_from(a, end) + words(b)) == seq![word] + words_from(a, end)
                + words(b));
        }
    } else {
        assert(s[i] == c);
        lemma_words_shift(a + seq![c], b, 0);
        assert(words_from(s, i) == words_from(s, i + 1));
        assert(words_from(a, i) + words(b) == words(b));
    }
}

/// White space parts words: the words of two texts with white space between them are those
/// of the first and behind them those of the second. A word alone is its only word, and
/// nothing has none.
pub proof fn law_words(a: Seq<char>, c: char, b: Seq<char>, w: Seq<char>)
    requires
        is_white_space(c),
        is_word(w),
    ensures
        words(a + seq![c] + b) == words(a) + words(b),
        words(w) == seq![w],
        words(Seq::empty()) == Seq::<Seq<char>>::empty(),
{
    lemma_words_split(a, c, b, 0);
    lemma_word_end(w, 0);
    let end = word_end(w, 0);
    if end < w.len() {
        assert(!is_white_space(w[end]));
    }
    assert(!is_white_space(w[0]));
    assert(w.subrange(0, end) == w);
    assert(words_from(w, end) == Seq::<Seq<char>>::empty());
    assert(words(w) =~= seq![w]);
}

/// A text is a word if and only if it is not empty and none of its characters is white
/// space.
pub proof fn law_word(a: Seq<char>, c: char)
    ensures
        is_word(a.push(c)) == ((a.len() == 0 || is_word(a)) && !is_white_space(c)),
        !is_word(Seq::empty()),
{
    let s = a.push(c);
    if is_word(s) {
        assert(!is_white_space(s[a.len() as int]));
        assert forall|i: int| 0 <= i < a.len() implies !is_white_space(#[trigger] a[i]) by {
            assert(!is_white_space(s[i]));
        }
    }
}

/// Trimming takes white space off both ends, and nothing else.
pub proof fn law_trimmed(s: Seq<char>) -> (r: (Seq<char>, Seq<char>))
    ensures
        s == r.0 + trimmed(s) + r.1,
        is_blank(r.0),
        is_blank(r.1),
        trimmed(s).len() > 0 ==> !is_white_space(trimmed(s)[0]) && !is_white_space(
            trimmed(s).last(),
        ),
    decreases s.len(),
{
    if s.len() > 0 && is_white_space(s[0]) {
        let (a, b) = law_trimmed(s.skip(1));
        assert(s == seq![s[0]] + s.skip(1));
        assert(s =~= (seq![s[0]] + a) + trimmed(s) + b);
        law_blank(seq![s[0]], a, s[0]);
        (seq![s[0]] + a, b)
    } else if s.len() > 0 && is_white_space(s.last()) {
        let (a, b) = law_trimmed(s.drop_last());
        assert(s == s.drop_last() + seq![s.last()]);
        assert(s =~= a + trimmed(s) + (b + seq![s.last()]));
        law_blank(b, seq![s.last()], s.last());
        (a, b + seq![s.last()])
    } else {
        assert(s =~= Seq::<char>::empty() + s + Seq::<char>::empty());
        (Seq::empty(), Seq::empty())
    }
}

/// A text ends in another if and only if it is something and the other behind it.
pub proof fn law_suffix(p: Seq<char>, s: Seq<char>, x: Seq<char>)
    ensures
        has_suffix(p + x, x),
        has_suffix(s, x) ==> s == s.take(s.len() - x.len()) + x,
{
    assert((p + x).skip(p.len() as int) == x);
    assert((p + x).len() - x.len() == p.len());
    if has_suffix(s, x) {
        assert(s == s.take(s.len() - x.len()) + s.skip(s.len() - x.len()));
    }
}

/// Replacing goes character by character.
pub proof fn law_substituted(a: Seq<char>, b: Seq<char>, c: char, from: char, to: Seq<char>)
    ensures
        substituted(a + b, from, to) == substituted(a, from, to) + substituted(b, from, to),
        substituted(seq![from], from, to) == to,
        c != from ==> substituted(seq![c], from, to) == seq![c],
        substituted(Seq::empty(), from, to) == Seq::<char>::empty(),
    decreases b.len(),
{
    reveal_with_fuel(substituted, 2);
    assert(seq![from].drop_last() =~= Seq::<char>::empty());
    assert(seq![c].drop_last() =~= Seq::<char>::empty());
    assert(Seq::<char>::empty() + to =~= to);
    assert(Seq::<char>::empty() + seq![c] =~= seq![c]);
    if b.len() == 0 {
        assert(a + b =~= a);
        assert(substituted(a, from, to) + Seq::<char>::empty() =~= substituted(a, from, to));
    } else {
        law_substituted(a, b.drop_last(), c, from, to);
        assert((a + b).drop_last() =~= a + b.drop_last());
        let last = if b.last() == from {
            to
        } else {
            seq![b.last()]
        };
        assert(substituted(a, from, to) + substituted(b.drop_last(), from, to) + last
            =~= substituted(a, from, to) + (substituted(b.drop_last(), from, to) + last));
    }
}

} // verus!

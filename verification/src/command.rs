//! Command lines and the words that they are made of.

use vstd::prelude::*;
use vstd::string::*;

use crate::text::{
    is_blank, is_white_space, lemma_word_end, substituted, views, word_end, words, words_from,
};

verus! {

/// The word that is open, as a list.
pub open spec fn finished(word: Option<Seq<char>>) -> Seq<Seq<char>> {
    match word {
        Some(word) => seq![word],
        None => Seq::empty(),
    }
}

/// The words of a command line from `i` on, behind what is open there: a quote, and a
/// word. White space parts words, except inside quotes, which are taken away; nothing
/// comes of a line whose last quote is not closed.
pub open spec fn quoted_from(
    s: Seq<char>,
    i: int,
    quote: Option<char>,
    word: Option<Seq<char>>,
) -> Option<Seq<Seq<char>>>
    decreases s.len() - i,
{
    if i < 0 || i >= s.len() {
        if quote is Some {
            None
        } else {
            Some(finished(word))
        }
    } else {
        let c = s[i];
        let sofar = match word {
            Some(word) => word,
            None => Seq::empty(),
        };
        match quote {
            Some(mark) => if c == mark {
                quoted_from(s, i + 1, None, Some(sofar))
            } else {
                quoted_from(s, i + 1, quote, Some(sofar.push(c)))
            },
            None => if is_white_space(c) {
                match quoted_from(s, i + 1, None, None) {
                    Some(rest) => Some(finished(word) + rest),
                    None => None,
                }
            } else if c == '"' || c == '\'' {
                quoted_from(s, i + 1, Some(c), Some(sofar))
            } else {
                quoted_from(s, i + 1, None, Some(sofar.push(c)))
            },
        }
    }
}

/// The words of a command line; nothing where a quote is not closed.
pub open spec fn quoted_words(s: Seq<char>) -> Option<Seq<Seq<char>>> {
    quoted_from(s, 0, None, None)
}

/// The text with every backslash written twice.
pub open spec fn twice(t: Seq<char>) -> Seq<char> {
    substituted(t, '\\', "\\\\"@)
}

/// The views of the words of a command line.
pub open spec fn words_view(v: Option<Vec<String>>) -> Option<Seq<Seq<char>>> {
    match v {
        Some(v) => Some(views(v@)),
        None => None,
    }
}

/// Calls `comma::parse_command` on a command line in which every backslash stands
/// twice, and so stands for itself. It claims that the words are those that white space
/// and quotes make.
#[verifier::external_body]
pub(crate) fn parse_command(input: &str) -> (r: Option<Vec<String>>)
    requires
        exists|t: Seq<char>| input@ == #[trigger] twice(t),
    ensures
        forall|t: Seq<char>| input@ == #[trigger] twice(t) ==> words_view(r) == quoted_words(t),
{
    comma::parse_command(input)
}

/// Whether a command line holds no quotes.
pub open spec fn is_quoteless(s: Seq<char>) -> bool {
    forall|i: int| 0 <= i < s.len() ==> (#[trigger] s[i]) != '"' && s[i] != '\''
}

/// A text without backslashes is what it is with every backslash twice.
pub proof fn lemma_twice_none(s: Seq<char>)
    requires
        forall|i: int| 0 <= i < s.len() ==> (#[trigger] s[i]) != '\\',
    ensures
        twice(s) == s,
    decreases s.len(),
{
    if s.len() > 0 {
        let t = s.drop_last();
        assert forall|i: int| 0 <= i < t.len() implies (#[trigger] t[i]) != '\\' by {
            assert(t[i] == s[i]);
        }
        lemma_twice_none(t);
        assert(s.last() == s[s.len() - 1]);
        assert(t + seq![s.last()] =~= s);
    }
}

proof fn lemma_open_word(s: Seq<char>, i: int, quote: Option<char>, word: Option<Seq<char>>)
    requires
        0 <= i <= s.len(),
        quote is Some || word is Some,
    ensures
        quoted_from(s, i, quote, word) matches Some(words) ==> words.len() > 0,
    decreases s.len() - i,
{
    if i < s.len() {
        let c = s[i];
        let sofar = match word {
            Some(word) => word,
            None => Seq::empty(),
        };
        match quote {
            Some(mark) => if c == mark {
                lemma_open_word(s, i + 1, None, Some(sofar));
            } else {
                lemma_open_word(s, i + 1, quote, Some(sofar.push(c)));
            },
            None => if is_white_space(c) {
            } else if c == '"' || c == '\'' {
                lemma_open_word(s, i + 1, Some(c), Some(sofar));
            } else {
                lemma_open_word(s, i + 1, None, Some(sofar.push(c)));
            },
        }
    }
}

proof fn lemma_blank_from(s: Seq<char>, i: int)
    requires
        0 <= i <= s.len(),
    ensures
        quoted_from(s, i, None, None) == Some(Seq::<Seq<char>>::empty()) <==> forall|k: int|
            i <= k < s.len() ==> is_white_space(#[trigger] s[k]),
    decreases s.len() - i,
{
    if i < s.len() {
        let c = s[i];
        if is_white_space(c) {
            lemma_blank_from(s, i + 1);
            if let Some(rest) = quoted_from(s, i + 1, None, None) {
                assert(finished(None) + rest == rest);
            }
        } else if c == '"' || c == '\'' {
            lemma_open_word(s, i + 1, Some(c), Some(Seq::empty()));
        } else {
            lemma_open_word(s, i + 1, None, Some(Seq::<char>::empty().push(c)));
        }
    }
}

/// The command lines without words are the blank ones.
pub proof fn law_blank_lines(s: Seq<char>)
    ensures
        quoted_words(s) == Some(Seq::<Seq<char>>::empty()) <==> is_blank(s),
{
    lemma_blank_from(s, 0);
}

proof fn lemma_quoteless_from(s: Seq<char>, start: int, i: int)
    requires
        is_quoteless(s),
        0 <= start <= i <= s.len(),
        forall|k: int| start <= k < i ==> !is_white_space(#[trigger] s[k]),
    ensures
        start == i ==> quoted_from(s, i, None, None) == Some(words_from(s, i)),
        start < i ==> quoted_from(s, i, None, Some(s.subrange(start, i))) == Some(
            seq![s.subrange(start, word_end(s, i))] + words_from(s, word_end(s, i)),
        ),
    decreases s.len() - i,
{
    let word = if start < i {
        Some(s.subrange(start, i))
    } else {
        None
    };
    if i < s.len() {
        let c = s[i];
        if is_white_space(c) {
            lemma_quoteless_from(s, i + 1, i + 1);
            assert(finished(word) + words_from(s, i + 1) == (if start < i {
                seq![s.subrange(start, i)] + words_from(s, i)
            } else {
                words_from(s, i)
            }));
        } else {
            lemma_quoteless_from(s, start, i + 1);
            lemma_word_end(s, i);
            let sofar = match word {
                Some(word) => word,
                None => Seq::empty(),
            };
            assert(sofar.push(c) == s.subrange(start, i + 1));
        }
    } else {
        assert(finished(word) == (if start < i {
            seq![s.subrange(start, i)] + words_from(s, i)
        } else {
            words_from(s, i)
        }));
    }
}

/// The words of a command line without quotes are what white space parts it into.
pub proof fn law_quoteless_words(s: Seq<char>)
    requires
        is_quoteless(s),
    ensures
        quoted_words(s) == Some(words(s)),
{
    lemma_quoteless_from(s, 0, 0);
}

} // verus!

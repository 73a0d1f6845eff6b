//! The regular expressions that the makefile text is searched with, what each
//! of them matches, and the calls into the `regex` crate.

use vstd::prelude::*;
use vstd::string::*;
use vstd::utf8::*;

use crate::text::{byte_offset, is_white_space};

verus! {

/// An `!INCLUDE` directive, up to the end of its line.
pub const DIRECTIVE_PATTERN: &'static str = r"(?m)!INCLUDE\s+<?(.+)>?";

/// A variable assignment at the start of a line; the group is the value, which
/// runs on over line ends that a backslash precedes.
pub const ASSIGNMENT_PATTERN: &'static str = r"(?m)^\w+ *= *((\\\n|.)*)";

/// A backslash and the character after it, unless that ends the line.
pub const BACKSLASH_PATTERN: &'static str = r"\\([^\n\r])";

/// A backslash at the end of a line, the line end and the white space after it.
pub const CONTINUATION_PATTERN: &'static str = r"\\\r\n\s*|\\\n\s*";

/// A backslash and a parenthesis, a quotation mark or a backslash.
pub const ESCAPE_PATTERN: &'static str = r#"\\([\(\)"\\])"#;

/// A reference to a variable; the group is the variable's name.
pub const REFERENCE_PATTERN: &'static str = r"\$\((.+?)\)";

/// The patterns by name.
pub enum Pattern {
    Directive,
    Assignment,
    Backslash,
    Continuation,
    Escape,
    Reference,
}

/// The regular expression of a pattern.
pub open spec fn pattern_text(p: Pattern) -> Seq<char> {
    match p {
        Pattern::Directive => DIRECTIVE_PATTERN@,
        Pattern::Assignment => ASSIGNMENT_PATTERN@,
        Pattern::Backslash => BACKSLASH_PATTERN@,
        Pattern::Continuation => CONTINUATION_PATTERN@,
        Pattern::Escape => ESCAPE_PATTERN@,
        Pattern::Reference => REFERENCE_PATTERN@,
    }
}

// ---------------------------------------------------------------------------
// What the patterns match
// ---------------------------------------------------------------------------

/// One match: the characters from `start` to `end`, and those that the first
/// group took.
pub struct Span {
    pub start: int,
    pub end: int,
    pub group: Option<(int, int)>,
}

/// The first index from `i` on at which `s` holds `a` or `b`, or the end of `s`.
pub open spec fn first_of(s: Seq<char>, i: int, a: char, b: char) -> int
    decreases s.len() - i,
{
    if i < 0 || i >= s.len() || s[i] == a || s[i] == b {
        i
    } else {
        first_of(s, i + 1, a, b)
    }
}

/// The end of the line that index `i` lies on.
pub open spec fn line_end(s: Seq<char>, i: int) -> int {
    first_of(s, i, '\n', '\n')
}

/// The first index from `i` on at which `s` holds no white space, or its end.
pub open spec fn space_end(s: Seq<char>, i: int) -> int
    decreases s.len() - i,
{
    if i < 0 || i >= s.len() || !is_white_space(s[i]) {
        i
    } else {
        space_end(s, i + 1)
    }
}

/// The last index before `i` and not before `low` at which `s` holds something
/// other than a line feed, or `low - 1`.
pub open spec fn last_on_line(s: Seq<char>, low: int, i: int) -> int
    decreases i,
{
    if i <= low || i <= 0 || s[i - 1] != '\n' {
        i - 1
    } else {
        last_on_line(s, low, i - 1)
    }
}

/// The first index from `i` on at which `s` holds something other than `c`.
pub open spec fn run_end(s: Seq<char>, i: int, c: char) -> int
    decreases s.len() - i,
{
    if i < 0 || i >= s.len() || s[i] != c {
        i
    } else {
        run_end(s, i + 1, c)
    }
}

/// The word characters of ASCII.
pub open spec fn is_ascii_word(c: char) -> bool {
    ||| 'a' <= c <= 'z'
    ||| 'A' <= c <= 'Z'
    ||| '0' <= c <= '9'
    ||| c == '_'
}

/// The end of the run of word characters that begins at `i`.
pub open spec fn name_end(s: Seq<char>, i: int) -> int
    decreases s.len() - i,
{
    if i < 0 || i >= s.len() || !is_ascii_word(s[i]) {
        i
    } else {
        name_end(s, i + 1)
    }
}

/// The end of the value that begins at `i`: the first line feed that no
/// backslash precedes, or the end of `s`.
pub open spec fn value_end(s: Seq<char>, i: int) -> int
    decreases s.len() - i,
{
    if i < 0 || i >= s.len() || s[i] == '\n' {
        i
    } else if s[i] == '\\' && i + 1 < s.len() && s[i + 1] == '\n' {
        value_end(s, i + 2)
    } else {
        value_end(s, i + 1)
    }
}

/// Whether the text from `i` on begins with `!INCLUDE`.
pub open spec fn directive_word(s: Seq<char>, i: int) -> bool {
    &&& i + 8 <= s.len()
    &&& s[i] == '!'
    &&& s[i + 1] == 'I'
    &&& s[i + 2] == 'N'
    &&& s[i + 3] == 'C'
    &&& s[i + 4] == 'L'
    &&& s[i + 5] == 'U'
    &&& s[i + 6] == 'D'
    &&& s[i + 7] == 'E'
}

/// A directive is its word, white space, and at least one more character, from
/// which it runs to the end of the line. Where nothing but white space follows
/// the word, the last character of it that is no line feed counts as that one.
pub open spec fn directive_at(s: Seq<char>, i: int) -> Option<Span> {
    let word = i + 8;
    let past = space_end(s, word);
    let body = if past < s.len() {
        past
    } else {
        last_on_line(s, word + 1, s.len() as int)
    };
    if directive_word(s, i) && word < body {
        let end = line_end(s, body);
        let group = if s[body] == '<' && body + 1 < end {
            body + 1
        } else {
            body
        };
        Some(Span { start: i, end, group: Some((group, end)) })
    } else {
        None
    }
}

/// An assignment is a name of word characters at the start of a line, an equals
/// sign with spaces around it, and the value.
pub open spec fn assignment_at(s: Seq<char>, i: int) -> Option<Span> {
    let name = name_end(s, i);
    let sign = run_end(s, name, ' ');
    if (i == 0 || s[i - 1] == '\n') && i < name && sign < s.len() && s[sign] == '=' {
        let value = run_end(s, sign + 1, ' ');
        let end = value_end(s, value);
        Some(Span { start: i, end, group: Some((value, end)) })
    } else {
        None
    }
}

pub open spec fn backslash_at(s: Seq<char>, i: int) -> Option<Span> {
    if s[i] == '\\' && i + 1 < s.len() && s[i + 1] != '\n' && s[i + 1] != '\r' {
        Some(Span { start: i, end: i + 2, group: Some((i + 1, i + 2)) })
    } else {
        None
    }
}

pub open spec fn continuation_at(s: Seq<char>, i: int) -> Option<Span> {
    if s[i] != '\\' {
        None
    } else if i + 2 < s.len() && s[i + 1] == '\r' && s[i + 2] == '\n' {
        Some(Span { start: i, end: space_end(s, i + 3), group: None })
    } else if i + 1 < s.len() && s[i + 1] == '\n' {
        Some(Span { start: i, end: space_end(s, i + 2), group: None })
    } else {
        None
    }
}

/// The characters that an escaping backslash can precede.
pub open spec fn is_escapable(c: char) -> bool {
    c == '(' || c == ')' || c == '"' || c == '\\'
}

pub open spec fn escape_at(s: Seq<char>, i: int) -> Option<Span> {
    if s[i] == '\\' && i + 1 < s.len() && is_escapable(s[i + 1]) {
        Some(Span { start: i, end: i + 2, group: Some((i + 1, i + 2)) })
    } else {
        None
    }
}

/// A reference is `$(`, a name of one character or more on one line, and the
/// first `)` after the name's first character.
pub open spec fn reference_at(s: Seq<char>, i: int) -> Option<Span> {
    let close = first_of(s, i + 3, ')', '\n');
    if s[i] == '$' && i + 3 < s.len() && s[i + 1] == '(' && s[i + 2] != '\n' && close < s.len()
        && s[close] == ')' {
        Some(Span { start: i, end: close + 1, group: Some((i + 2, close)) })
    } else {
        None
    }
}

/// The match of pattern `p` that begins at index `i` of `s`, if there is one.
pub open spec fn match_at(p: Pattern, s: Seq<char>, i: int) -> Option<Span> {
    match p {
        Pattern::Directive => directive_at(s, i),
        Pattern::Assignment => assignment_at(s, i),
        Pattern::Backslash => backslash_at(s, i),
        Pattern::Continuation => continuation_at(s, i),
        Pattern::Escape => escape_at(s, i),
        Pattern::Reference => reference_at(s, i),
    }
}

pub proof fn lemma_first_of(s: Seq<char>, i: int, a: char, b: char)
    requires
        0 <= i <= s.len(),
    ensures
        i <= first_of(s, i, a, b) <= s.len(),
    decreases s.len() - i,
{
    if i < s.len() && s[i] != a && s[i] != b {
        lemma_first_of(s, i + 1, a, b);
    }
}

pub proof fn lemma_space_end(s: Seq<char>, i: int)
    requires
        0 <= i <= s.len(),
    ensures
        i <= space_end(s, i) <= s.len(),
    decreases s.len() - i,
{
    if i < s.len() && is_white_space(s[i]) {
        lemma_space_end(s, i + 1);
    }
}

proof fn lemma_last_on_line(s: Seq<char>, low: int, i: int)
    requires
        0 <= i <= s.len(),
        0 < low,
    ensures
        last_on_line(s, low, i) < i,
        low <= last_on_line(s, low, i) ==> s[last_on_line(s, low, i)] != '\n',
    decreases i,
{
    if i > low && i > 0 && s[i - 1] == '\n' {
        lemma_last_on_line(s, low, i - 1);
    }
}

pub proof fn lemma_run_end(s: Seq<char>, i: int, c: char)
    requires
        0 <= i <= s.len(),
    ensures
        i <= run_end(s, i, c) <= s.len(),
    decreases s.len() - i,
{
    if i < s.len() && s[i] == c {
        lemma_run_end(s, i + 1, c);
    }
}

/// Every text of ASCII has plain names.
pub proof fn lemma_ascii_names(s: Seq<char>)
    requires
        is_ascii_chars(s),
    ensures
        names_plain(s),
{
    assert forall|i: int| 0 <= i < s.len() && (i == 0 || s[i - 1] == '\n') implies (
    #[trigger] name_end(s, i) >= s.len() || s[name_end(s, i)] <= '\u{7f}') by {
        lemma_name_end(s, i);
    }
}

pub proof fn lemma_name_end(s: Seq<char>, i: int)
    requires
        0 <= i <= s.len(),
    ensures
        i <= name_end(s, i) <= s.len(),
    decreases s.len() - i,
{
    if i < s.len() && is_ascii_word(s[i]) {
        lemma_name_end(s, i + 1);
    }
}

pub proof fn lemma_value_end(s: Seq<char>, i: int)
    requires
        0 <= i <= s.len(),
    ensures
        i <= value_end(s, i) <= s.len(),
    decreases s.len() - i,
{
    if i < s.len() && s[i] != '\n' {
        if s[i] == '\\' && i + 1 < s.len() && s[i + 1] == '\n' {
            lemma_value_end(s, i + 2);
        } else {
            lemma_value_end(s, i + 1);
        }
    }
}

/// A match begins where it is looked for, is not empty and lies in the text, and
/// its group lies in it.
pub proof fn lemma_match_at(p: Pattern, s: Seq<char>, i: int)
    requires
        0 <= i < s.len(),
    ensures
        match_at(p, s, i) matches Some(sp) ==> {
            &&& sp.start == i
            &&& i < sp.end <= s.len()
            &&& sp.group matches Some(g) ==> i <= g.0 <= g.1 <= sp.end
        },
{
    match p {
        Pattern::Directive => {
            if directive_word(s, i) {
                lemma_space_end(s, i + 8);
                lemma_last_on_line(s, i + 9, s.len() as int);
                let past = space_end(s, i + 8);
                let body = if past < s.len() {
                    past
                } else {
                    last_on_line(s, i + 9, s.len() as int)
                };
                if i + 8 < body {
                    lemma_first_of(s, body, '\n', '\n');
                }
            }
        },
        Pattern::Assignment => {
            lemma_name_end(s, i);
            let name = name_end(s, i);
            lemma_run_end(s, name, ' ');
            let sign = run_end(s, name, ' ');
            if sign < s.len() {
                lemma_run_end(s, sign + 1, ' ');
                lemma_value_end(s, run_end(s, sign + 1, ' '));
            }
        },
        Pattern::Continuation => {
            if i + 2 < s.len() {
                lemma_space_end(s, i + 3);
            }
            if i + 1 < s.len() {
                lemma_space_end(s, i + 2);
            }
        },
        Pattern::Reference => {
            if i + 3 < s.len() {
                lemma_first_of(s, i + 3, ')', '\n');
            }
        },
        _ => {},
    }
}

// ---------------------------------------------------------------------------
// Searching a text from the left
// ---------------------------------------------------------------------------

/// The successive matches of `p` from index `i` on: the leftmost one, and those
/// after its end.
pub open spec fn spans_from(p: Pattern, s: Seq<char>, i: int) -> Seq<Span>
    decreases s.len() - i,
{
    if i < 0 || i >= s.len() {
        Seq::empty()
    } else {
        proof {
            lemma_match_at(p, s, i);
        }
        match match_at(p, s, i) {
            Some(sp) => seq![sp] + spans_from(p, s, sp.end),
            None => spans_from(p, s, i + 1),
        }
    }
}

/// The text from index `i` on, with each successive match of `p` replaced by
/// what `f` gives for it.
pub open spec fn woven(p: Pattern, s: Seq<char>, i: int, f: spec_fn(Span) -> Seq<char>) -> Seq<char>
    decreases s.len() - i,
{
    if i < 0 || i >= s.len() {
        Seq::empty()
    } else {
        proof {
            lemma_match_at(p, s, i);
        }
        match match_at(p, s, i) {
            Some(sp) => f(sp) + woven(p, s, sp.end, f),
            None => seq![s[i]] + woven(p, s, i + 1, f),
        }
    }
}

/// The text of a match.
pub open spec fn whole(s: Seq<char>, sp: Span) -> Seq<char> {
    s.subrange(sp.start, sp.end)
}

/// The text of a match's group; nothing where the group took no part.
pub open spec fn group_text(s: Seq<char>, sp: Span) -> Seq<char> {
    match sp.group {
        Some(g) => s.subrange(g.0, g.1),
        None => Seq::empty(),
    }
}

/// Whether `rep` holds a dollar sign only as the first character of a `$0` or a
/// `$1` at its end.
pub open spec fn is_template(rep: Seq<char>) -> bool {
    forall|i: int|
        0 <= i < rep.len() && #[trigger] rep[i] == '$' ==> i == rep.len() - 2 && (rep[i + 1] == '0'
            || rep[i + 1] == '1')
}

/// A template filled in for a match: `$0` stands for the match, `$1` for its
/// group, and everything else for itself.
pub open spec fn expanded(rep: Seq<char>, s: Seq<char>, sp: Span) -> Seq<char> {
    let n = rep.len() as int;
    if n >= 2 && rep[n - 2] == '$' && rep[n - 1] == '0' {
        rep.take(n - 2) + whole(s, sp)
    } else if n >= 2 && rep[n - 2] == '$' && rep[n - 1] == '1' {
        rep.take(n - 2) + group_text(s, sp)
    } else {
        rep
    }
}

/// The replacement for each match in `s` that a template stands for.
pub open spec fn filler(rep: Seq<char>, s: Seq<char>) -> spec_fn(Span) -> Seq<char> {
    |sp: Span| expanded(rep, s, sp)
}

/// `s` with each successive match of `p` replaced by the template `rep`.
pub open spec fn rewritten(p: Pattern, s: Seq<char>, rep: Seq<char>) -> Seq<char> {
    woven(p, s, 0, filler(rep, s))
}

/// Up to the next match the text stands as it is.
pub proof fn lemma_woven_next(p: Pattern, s: Seq<char>, i: int, f: spec_fn(Span) -> Seq<char>)
    requires
        0 <= i <= s.len(),
    ensures
        spans_from(p, s, i).len() == 0 ==> woven(p, s, i, f) == s.skip(i),
        spans_from(p, s, i).len() > 0 ==> {
            let sp = spans_from(p, s, i)[0];
            &&& i <= sp.start < sp.end <= s.len()
            &&& match_at(p, s, sp.start) == Some(sp)
            &&& spans_from(p, s, i).skip(1) == spans_from(p, s, sp.end)
            &&& woven(p, s, i, f) == s.subrange(i, sp.start) + f(sp) + woven(p, s, sp.end, f)
        },
    decreases s.len() - i,
{
    if i < s.len() {
        lemma_match_at(p, s, i);
        match match_at(p, s, i) {
            Some(sp) => {
                assert((seq![sp] + spans_from(p, s, sp.end)).skip(1) == spans_from(p, s, sp.end));
                assert(s.subrange(i, i) + f(sp) == f(sp));
            },
            None => {
                lemma_woven_next(p, s, i + 1, f);
                if spans_from(p, s, i + 1).len() == 0 {
                    assert(s.skip(i) == seq![s[i]] + s.skip(i + 1));
                } else {
                    let sp = spans_from(p, s, i + 1)[0];
                    assert(s.subrange(i, sp.start) == seq![s[i]] + s.subrange(i + 1, sp.start));
                    assert(seq![s[i]] + (s.subrange(i + 1, sp.start) + f(sp) + woven(
                        p,
                        s,
                        sp.end,
                        f,
                    )) == s.subrange(i, sp.start) + f(sp) + woven(p, s, sp.end, f));
                }
            },
        }
    } else {
        assert(s.skip(i) == Seq::<char>::empty());
    }
}

/// A text in which `p` matches nowhere stays as it is.
pub proof fn lemma_woven_unmatched(p: Pattern, s: Seq<char>, i: int, f: spec_fn(Span) -> Seq<char>)
    requires
        0 <= i <= s.len(),
        forall|k: int| i <= k < s.len() ==> #[trigger] match_at(p, s, k) is None,
    ensures
        woven(p, s, i, f) == s.skip(i),
        spans_from(p, s, i).len() == 0,
    decreases s.len() - i,
{
    if i < s.len() {
        assert(match_at(p, s, i) is None);
        lemma_woven_unmatched(p, s, i + 1, f);
        assert(s.skip(i) == seq![s[i]] + s.skip(i + 1));
    } else {
        assert(s.skip(i) == Seq::<char>::empty());
    }
}

// ---------------------------------------------------------------------------
// The calls into the regex crate
// ---------------------------------------------------------------------------

/// What a search reports of one match: byte offsets into the text that was
/// searched.
#[derive(Clone, Copy, Debug, PartialEq, Eq)]
pub struct Capture {
    pub start: usize,
    pub end: usize,
    pub group: Option<(usize, usize)>,
}

/// What `regex::Regex::captures_iter` yields for a regular expression and a
/// text: of each capture the byte offsets of groups 0 and 1.
pub uninterp spec fn regex_captures(pattern: Seq<char>, haystack: Seq<char>) -> Seq<Capture>;

/// Whether each capture lies in `s`, with its ends and those of its group on
/// character boundaries, and after the one before it.
pub open spec fn captures_in(s: Seq<char>, r: Seq<Capture>) -> bool {
    &&& forall|i: int|
        0 <= i < r.len() ==> {
            let c = #[trigger] r[i];
            &&& c.start <= c.end <= encode_utf8(s).len()
            &&& is_char_boundary(encode_utf8(s), c.start as int)
            &&& is_char_boundary(encode_utf8(s), c.end as int)
            &&& c.group matches Some(g) ==> {
                &&& c.start <= g.0 <= g.1 <= c.end
                &&& is_char_boundary(encode_utf8(s), g.0 as int)
                &&& is_char_boundary(encode_utf8(s), g.1 as int)
            }
        }
    &&& forall|i: int, j: int|
        0 <= i < j < r.len() ==> (#[trigger] r[i]).end <= (#[trigger] r[j]).start
}

/// Whether the captures `r` are the matches `spans`, offset for offset.
pub open spec fn captures_at(s: Seq<char>, r: Seq<Capture>, spans: Seq<Span>) -> bool {
    &&& r.len() == spans.len()
    &&& forall|i: int|
        0 <= i < r.len() ==> {
            &&& (#[trigger] r[i]).start == byte_offset(s, spans[i].start)
            &&& r[i].end == byte_offset(s, spans[i].end)
            &&& match spans[i].group {
                Some(g) => r[i].group matches Some(h) && h.0 == byte_offset(s, g.0) && h.1
                    == byte_offset(s, g.1),
                None => r[i].group is None,
            }
        }
}

/// Whether the run of ASCII word characters that begins each line, which can be
/// empty, is followed by another character of ASCII or by the end of the text. Then
/// no word character beyond ASCII can belong to a name.
pub open spec fn names_plain(s: Seq<char>) -> bool {
    forall|i: int|
        0 <= i < s.len() && (i == 0 || s[i - 1] == '\n') ==> (#[trigger] name_end(s, i) >= s.len()
            || s[name_end(s, i)] <= '\u{7f}')
}

/// What is known of the captures of a pattern. Those of the assignments all have
/// their group, the value, which ends with the match. All others, and those of
/// the assignments in a text with plain names, are the pattern's successive
/// matches.
pub open spec fn captures_of(p: Pattern, s: Seq<char>, r: Seq<Capture>) -> bool {
    &&& p is Assignment ==> forall|i: int|
        0 <= i < r.len() ==> {
            (#[trigger] r[i]).group matches Some(g) && g.1 == r[i].end
        }
    &&& p !is Assignment || names_plain(s) ==> captures_at(s, r, spans_from(p, s, 0))
}

/// Calls `regex::Regex::captures_iter` for one of the patterns above, and hands
/// on the byte offsets of groups 0 and 1 of each capture. The offsets lie in the
/// text, on character boundaries and in order; of the patterns' own matches it
/// claims what `captures_of` says. Of the assignments in a text whose names may go
/// beyond ASCII it does not say where they are, because the word characters of
/// Unicode are too many to list.
#[verifier::external_body]
pub(crate) fn captures_iter(pattern: &str, haystack: &str) -> (r: Vec<Capture>)
    requires
        exists|p: Pattern| pattern@ == #[trigger] pattern_text(p),
    ensures
        r@ == regex_captures(pattern@, haystack@),
        captures_in(haystack@, r@),
        forall|p: Pattern| pattern@ == #[trigger] pattern_text(p) ==> captures_of(p, haystack@, r@),
{
    let regex = regex::Regex::new(pattern).unwrap();
    let offsets = |c: regex::Captures| {
        let m = c.get(0).unwrap();
        Capture { start: m.start(), end: m.end(), group: c.get(1).map(|g| (g.start(), g.end())) }
    };
    regex.captures_iter(haystack).map(offsets).collect()
}

/// Calls `regex::Regex::replace_all` for one of the patterns above other than
/// the assignment. It claims that each successive match of the pattern is
/// replaced by the template with the match or its group filled in, and that the
/// rest stays.
#[verifier::external_body]
pub(crate) fn replace_all(pattern: &str, haystack: &str, rep: &str) -> (r: String)
    requires
        exists|p: Pattern| p !is Assignment && pattern@ == #[trigger] pattern_text(p),
        is_template(rep@),
    ensures
        forall|p: Pattern|
            p !is Assignment && pattern@ == #[trigger] pattern_text(p) ==> r@ == rewritten(
                p,
                haystack@,
                rep@,
            ),
{
    let regex = regex::Regex::new(pattern).unwrap();
    regex.replace_all(haystack, rep).into_owned()
}

} // verus!

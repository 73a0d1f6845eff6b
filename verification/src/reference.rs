//! Variables and the references to them.

use vstd::hash_map::StringHashMap;
use vstd::prelude::*;
use vstd::string::*;

use crate::error::MakeError;
use crate::pattern::{
    captures_at, captures_iter, captures_of, first_of, group_text, lemma_first_of, lemma_match_at,
    lemma_woven_next, lemma_woven_unmatched, match_at, pattern_text, reference_at, spans_from, woven, Pattern,
    Span, REFERENCE_PATTERN,
};
use crate::text::{byte_offset, lemma_byte_offset_order, slice_text};

verus! {

/// The values of the variables that are set.
pub struct VarDict {
    map: StringHashMap<String>,
}

impl View for VarDict {
    type V = Map<Seq<char>, Seq<char>>;

    closed spec fn view(&self) -> Map<Seq<char>, Seq<char>> {
        self.map@.map_values(|s: String| s@)
    }
}

impl VarDict {
    /// No variable is set.
    pub fn new() -> (r: VarDict)
        ensures
            r@ == Map::<Seq<char>, Seq<char>>::empty(),
    {
        let r = VarDict { map: StringHashMap::new() };
        assert(r@ =~= Map::<Seq<char>, Seq<char>>::empty());
        r
    }

    /// Sets a variable, whether it was set or not.
    pub fn insert(&mut self, name: String, value: String)
        ensures
            final(self)@ == old(self)@.insert(name@, value@),
    {
        self.map.insert(name, value);
        assert(self@ =~= old(self)@.insert(name@, value@));
    }

    /// Unsets a variable, whether it was set or not.
    pub fn remove(&mut self, name: &str)
        ensures
            final(self)@ == old(self)@.remove(name@),
    {
        self.map.remove(name);
        assert(self@ =~= old(self)@.remove(name@));
    }

    /// The value of a variable, if it is set.
    pub fn get(&self, name: &str) -> (r: Option<&String>)
        ensures
            match r {
                Some(v) => self@.contains_key(name@) && v@ == self@[name@],
                None => !self@.contains_key(name@),
            },
    {
        self.map.get(name)
    }
}

/// The value of a variable; nothing where it is not set.
pub open spec fn value_of(vars: Map<Seq<char>, Seq<char>>, name: Seq<char>) -> Seq<char> {
    if vars.contains_key(name) {
        vars[name]
    } else {
        Seq::empty()
    }
}

/// What stands in place of each reference in `s`.
pub open spec fn referent(s: Seq<char>, vars: Map<Seq<char>, Seq<char>>) -> spec_fn(
    Span,
) -> Seq<char> {
    |sp: Span| value_of(vars, group_text(s, sp))
}

/// The text with each reference replaced by the value of its variable. The
/// values themselves are taken as they are.
pub open spec fn resolved(s: Seq<char>, vars: Map<Seq<char>, Seq<char>>) -> Seq<char> {
    woven(Pattern::Reference, s, 0, referent(s, vars))
}

/// Replaces each reference in `src` by the value of its variable.
pub fn solve_reference(src: &str, var_dict: &VarDict) -> (r: Result<String, MakeError>)
    ensures
        r matches Ok(t) && t@ == resolved(src@, var_dict@),
{
    proof {
        assert(REFERENCE_PATTERN@ == pattern_text(Pattern::Reference));
    }
    let captures = captures_iter(REFERENCE_PATTERN, src);
    let ghost s = src@;
    let ghost f = referent(s, var_dict@);
    let ghost spans = spans_from(Pattern::Reference, s, 0);
    let ghost mut at: int = 0;
    let mut r = String::new();
    let mut last_end: usize = 0;
    let mut k: usize = 0;
    assert(captures_at(s, captures@, spans)) by {
        assert(captures_of(Pattern::Reference, s, captures@));
    }
    assert(spans.skip(0) == spans);
    assert(s.take(0) == Seq::<char>::empty());
    while k < captures.len()
        invariant
            k <= captures@.len(),
            s == src@,
            f == referent(s, var_dict@),
            0 <= at <= s.len(),
            last_end == byte_offset(s, at),
            captures_at(s, captures@, spans),
            spans.skip(k as int) == spans_from(Pattern::Reference, s, at),
            r@ + woven(Pattern::Reference, s, at, f) == resolved(s, var_dict@),
        decreases captures@.len() - k,
    {
        let capture = captures[k];
        let ghost sp = spans[k as int];
        let ghost group = sp.group->0;
        proof {
            lemma_woven_next(Pattern::Reference, s, at, f);
            assert(spans.skip(k as int)[0] == sp);
            lemma_match_at(Pattern::Reference, s, sp.start);
            assert(spans.skip(k as int).skip(1) == spans.skip(k + 1));
        }
        let name = match capture.group {
            Some(g) => slice_text(src, g.0, g.1, Ghost(group.0), Ghost(group.1)),
            None => {
                return Err(MakeError::NoCaptureGroup);
            },
        };
        let ghost before = r@;
        let gap = slice_text(src, last_end, capture.start, Ghost(at), Ghost(sp.start));
        r.append(gap);
        if let Some(value) = var_dict.get(name) {
            r.append(value.as_str());
        }
        proof {
            assert(name@ == group_text(s, sp));
            assert(r@ == before + s.subrange(at, sp.start) + f(sp));
            let rest = woven(Pattern::Reference, s, sp.end, f);
            assert(before + (s.subrange(at, sp.start) + f(sp) + rest) == r@ + rest);
            at = sp.end;
        }
        last_end = capture.end;
        k += 1;
    }
    let len = src.as_bytes().len();
    proof {
        lemma_woven_next(Pattern::Reference, s, at, f);
        lemma_byte_offset_order(s, at, s.len() as int);
        assert(s.skip(at) == s.subrange(at, s.len() as int));
    }
    let tail = slice_text(src, last_end, len, Ghost(at), Ghost(s.len() as int));
    r.append(tail);
    Ok(r)
}

// ---------------------------------------------------------------------------
// Laws
// ---------------------------------------------------------------------------

/// A text without references is not changed by resolving, whatever the variables
/// are.
pub proof fn law_resolve_leaves(s: Seq<char>, vars: Map<Seq<char>, Seq<char>>)
    requires
        forall|i: int| 0 <= i < s.len() ==> #[trigger] reference_at(s, i) is None,
    ensures
        resolved(s, vars) == s,
{
    assert forall|k: int| 0 <= k < s.len() implies #[trigger] match_at(
        Pattern::Reference,
        s,
        k,
    ) is None by {
        assert(reference_at(s, k) is None);
    }
    lemma_woven_unmatched(Pattern::Reference, s, 0, referent(s, vars));
    assert(s.skip(0) == s);
}

/// A text with a reference in it.
pub open spec fn with_reference(before: Seq<char>, name: Seq<char>, after: Seq<char>) -> Seq<char> {
    before + (seq!['$', '('] + name + seq![')']) + after
}

/// The first reference of a text is replaced by the value of its variable, which is
/// not resolved once more, or by nothing where the variable is not set; what
/// precedes it stays, and what follows it is resolved by itself.
pub proof fn law_reference_resolved(
    before: Seq<char>,
    name: Seq<char>,
    after: Seq<char>,
    vars: Map<Seq<char>, Seq<char>>,
)
    requires
        forall|i: int|
            0 <= i < before.len() ==> #[trigger] reference_at(
                with_reference(before, name, after),
                i,
            ) is None,
        name.len() > 0,
        name[0] != '\n',
        forall|i: int| 1 <= i < name.len() ==> (#[trigger] name[i]) != ')' && name[i] != '\n',
    ensures
        resolved(with_reference(before, name, after), vars) == before + value_of(vars, name)
            + resolved(after, vars),
{
    let s = with_reference(before, name, after);
    let f = referent(s, vars);
    let n = before.len() as int;
    let close = n + 2 + name.len();
    let head = before + (seq!['$', '('] + name + seq![')']);
    lemma_reference_at(before, name, after);
    assert forall|k: int| 0 <= k < n implies #[trigger] match_at(
        Pattern::Reference,
        s,
        k,
    ) is None by {
        assert(reference_at(s, k) is None);
    }
    lemma_woven_prefix(s, 0, n, f);
    assert(s.subrange(0, n) == before);
    let sp = Span { start: n, end: close + 1, group: Some((n + 2, close)) };
    assert(match_at(Pattern::Reference, s, n) == Some(sp));
    let rest = woven(Pattern::Reference, s, close + 1, f);
    assert(woven(Pattern::Reference, s, n, f) == f(sp) + rest);
    lemma_resolved_shift(head, after, 0, vars);
    assert(before + (value_of(vars, name) + rest) == before + value_of(vars, name) + rest);
}

proof fn lemma_reference_at(before: Seq<char>, name: Seq<char>, after: Seq<char>)
    requires
        name.len() > 0,
        name[0] != '\n',
        forall|i: int| 1 <= i < name.len() ==> (#[trigger] name[i]) != ')' && name[i] != '\n',
    ensures
        ({
            let s = with_reference(before, name, after);
            let n = before.len() as int;
            let close = n + 2 + name.len();
            &&& close < s.len()
            &&& reference_at(s, n) == Some(
                Span { start: n, end: close + 1, group: Some((n + 2, close)) },
            )
            &&& s.subrange(n + 2, close) == name
        }),
{
    let s = with_reference(before, name, after);
    let n = before.len() as int;
    let close = n + 2 + name.len();
    let body = seq!['$', '('] + name + seq![')'];
    assert forall|k: int| 0 <= k < body.len() implies s[n + k] == #[trigger] body[k] by {}
    assert(s[n] == body[0] && s[n + 1] == body[1] && s[n + 2] == body[2]);
    assert forall|k: int| n + 2 <= k < close implies (#[trigger] s[k]) == name[k - n - 2] by {
        assert(s[k] == body[k - n]);
    }
    assert(s[close] == body[close - n]);
    lemma_first_of_at(s, n + 3, close);
    assert(s.subrange(n + 2, close) =~= name);
}

/// Where nothing matches the text stands as it is.
proof fn lemma_woven_prefix(s: Seq<char>, i: int, m: int, f: spec_fn(Span) -> Seq<char>)
    requires
        0 <= i <= m <= s.len(),
        forall|k: int| i <= k < m ==> #[trigger] match_at(Pattern::Reference, s, k) is None,
    ensures
        woven(Pattern::Reference, s, i, f) == s.subrange(i, m) + woven(
            Pattern::Reference,
            s,
            m,
            f,
        ),
    decreases m - i,
{
    let rest = woven(Pattern::Reference, s, m, f);
    if i < m {
        assert(match_at(Pattern::Reference, s, i) is None);
        lemma_woven_prefix(s, i + 1, m, f);
        assert(s.subrange(i, m) == seq![s[i]] + s.subrange(i + 1, m));
        assert(seq![s[i]] + (s.subrange(i + 1, m) + rest) == s.subrange(i, m) + rest);
    } else {
        assert(s.subrange(i, m) + rest == rest);
    }
}

proof fn lemma_first_of_at(s: Seq<char>, i: int, close: int)
    requires
        0 <= i <= close < s.len(),
        s[close] == ')',
        forall|k: int| i <= k < close ==> (#[trigger] s[k]) != ')' && s[k] != '\n',
    ensures
        first_of(s, i, ')', '\n') == close,
    decreases close - i,
{
    if i < close {
        lemma_first_of_at(s, i + 1, close);
    }
}

proof fn lemma_first_of_shift(head: Seq<char>, tail: Seq<char>, i: int)
    requires
        0 <= i,
    ensures
        first_of(head + tail, head.len() + i, ')', '\n') == head.len() + first_of(
            tail,
            i,
            ')',
            '\n',
        ),
    decreases tail.len() - i,
{
    if i < tail.len() {
        assert((head + tail)[head.len() + i] == tail[i]);
        lemma_first_of_shift(head, tail, i + 1);
    }
}

/// What is resolved behind a text is what is resolved without it.
proof fn lemma_resolved_shift(
    head: Seq<char>,
    tail: Seq<char>,
    i: int,
    vars: Map<Seq<char>, Seq<char>>,
)
    requires
        0 <= i <= tail.len(),
    ensures
        woven(Pattern::Reference, head + tail, head.len() + i, referent(head + tail, vars))
            == woven(Pattern::Reference, tail, i, referent(tail, vars)),
    decreases tail.len() - i,
{
    let s = head + tail;
    let n = head.len() as int;
    if i < tail.len() {
        lemma_match_at(Pattern::Reference, tail, i);
        lemma_first_of_shift(head, tail, i + 3);
        assert(s[n + i] == tail[i]);
        if i + 3 < tail.len() {
            lemma_first_of(tail, i + 3, ')', '\n');
            assert(s[n + i + 1] == tail[i + 1] && s[n + i + 2] == tail[i + 2]);
            let close = first_of(tail, i + 3, ')', '\n');
            if close < tail.len() {
                assert(s[n + close] == tail[close]);
                assert(s.subrange(n + i + 2, n + close) == tail.subrange(i + 2, close));
            }
        }
        match match_at(Pattern::Reference, tail, i) {
            Some(sp) => {
                lemma_resolved_shift(head, tail, sp.end, vars);
            },
            None => {
                lemma_resolved_shift(head, tail, i + 1, vars);
            },
        }
    }
}

} // verus!

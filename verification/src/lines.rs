//! Escaping line by line: what is done to a makefile is what is done to each of its
//! parts, and of an assignment it is the value that is escaped.

use vstd::prelude::*;

use crate::escape::{
    assignment_filler, doubled, doubled_from, escaped_value, lemma_doubled_from, patched_lines,
    values_escaped,
};
use crate::pattern::{
    assignment_at, backslash_at, is_ascii_word, lemma_match_at, lemma_name_end, lemma_run_end,
    match_at, name_end, run_end, value_end, woven, Pattern,
};

verus! {

/// Whether a text ends with a line end that does not continue a line.
pub open spec fn ends_line(s: Seq<char>) -> bool {
    &&& s.len() > 0
    &&& s.last() == '\n'
    &&& s.len() > 1 ==> s[s.len() - 2] != '\\'
}

// ---------------------------------------------------------------------------
// Doubling
// ---------------------------------------------------------------------------

/// What is doubled behind a text is what is doubled without it.
proof fn lemma_doubled_shift(a: Seq<char>, b: Seq<char>, i: int)
    requires
        0 <= i <= b.len(),
    ensures
        doubled_from(a + b, a.len() + i) == doubled_from(b, i),
    decreases b.len() - i,
{
    let s = a + b;
    let n = a.len() as int;
    if i < b.len() {
        lemma_doubled_from(s, n + i);
        lemma_doubled_from(b, i);
        assert(s[n + i] == b[i]);
        if i + 1 < b.len() {
            assert(s[n + i + 1] == b[i + 1]);
        }
        if backslash_at(b, i) is Some {
            lemma_doubled_shift(a, b, i + 2);
        } else {
            lemma_doubled_shift(a, b, i + 1);
        }
    }
}

/// A text whose last character no backslash pair takes can be doubled by itself.
proof fn lemma_doubled_split(a: Seq<char>, b: Seq<char>, i: int)
    requires
        0 <= i <= a.len(),
        a.len() > 0 ==> a.last() != '\\',
    ensures
        doubled_from(a + b, i) == doubled_from(a, i) + doubled(b),
    decreases a.len() - i,
{
    let s = a + b;
    if i < a.len() {
        lemma_doubled_from(s, i);
        lemma_doubled_from(a, i);
        assert(s[i] == a[i]);
        if i + 1 < a.len() {
            assert(s[i + 1] == a[i + 1]);
        }
        if backslash_at(a, i) is Some {
            lemma_doubled_split(a, b, i + 2);
            let rest = doubled_from(a, i + 2);
            assert(seq!['\\', '\\', a[i + 1]] + (rest + doubled(b)) == seq!['\\', '\\', a[i + 1]]
                + rest + doubled(b));
        } else {
            lemma_doubled_split(a, b, i + 1);
            let rest = doubled_from(a, i + 1);
            assert(seq![a[i]] + (rest + doubled(b)) == seq![a[i]] + rest + doubled(b));
        }
    } else {
        lemma_doubled_shift(a, b, 0);
        assert(doubled_from(a, i) + doubled(b) == doubled(b));
    }
}

/// Doubling keeps the end of a line, and what precedes it.
proof fn lemma_doubled_end(a: Seq<char>, i: int)
    requires
        0 <= i < a.len(),
        a.last() == '\n',
    ensures
        doubled_from(a, i).len() >= a.len() - i,
        doubled_from(a, i).last() == '\n',
        i + 1 < a.len() ==> doubled_from(a, i)[doubled_from(a, i).len() - 2] == a[a.len() - 2],
        i + 1 == a.len() ==> doubled_from(a, i) == seq!['\n'],
    decreases a.len() - i,
{
    let n = a.len() as int;
    let w = doubled_from(a, i);
    lemma_doubled_from(a, i);
    if i + 1 == n {
        assert(doubled_from(a, n) == Seq::<char>::empty());
        assert(w == seq!['\n']);
    } else if backslash_at(a, i) is Some {
        assert(a[i + 1] != '\n');
        assert(i + 2 < n);
        lemma_doubled_end(a, i + 2);
        let rest = doubled_from(a, i + 2);
        assert(w == seq!['\\', '\\', a[i + 1]] + rest);
        assert(w.last() == rest.last());
        if i + 3 < n {
            assert(w[w.len() - 2] == rest[rest.len() - 2]);
        } else {
            assert(rest == seq!['\n']);
            assert(w[w.len() - 2] == a[i + 1]);
        }
    } else {
        lemma_doubled_end(a, i + 1);
        let rest = doubled_from(a, i + 1);
        assert(w == seq![a[i]] + rest);
        assert(w.last() == rest.last());
        if i + 2 < n {
            assert(w[w.len() - 2] == rest[rest.len() - 2]);
        } else {
            assert(w[w.len() - 2] == a[i]);
        }
    }
}

// ---------------------------------------------------------------------------
// Assignments
// ---------------------------------------------------------------------------

proof fn lemma_name_end_agree(x: Seq<char>, y: Seq<char>, i: int)
    requires
        0 <= i < x.len(),
        x.last() == '\n',
    ensures
        name_end(x + y, i) == name_end(x, i) < x.len(),
    decreases x.len() - i,
{
    assert((x + y)[i] == x[i]);
    if is_ascii_word(x[i]) {
        lemma_name_end_agree(x, y, i + 1);
    }
}

proof fn lemma_run_end_agree(x: Seq<char>, y: Seq<char>, i: int)
    requires
        0 <= i < x.len(),
        x.last() == '\n',
    ensures
        run_end(x + y, i, ' ') == run_end(x, i, ' ') < x.len(),
    decreases x.len() - i,
{
    assert((x + y)[i] == x[i]);
    if x[i] == ' ' {
        lemma_run_end_agree(x, y, i + 1);
    }
}

proof fn lemma_value_end_agree(x: Seq<char>, y: Seq<char>, i: int)
    requires
        0 <= i < x.len(),
        ends_line(x),
    ensures
        value_end(x + y, i) == value_end(x, i) < x.len(),
    decreases x.len() - i,
{
    assert((x + y)[i] == x[i]);
    if x[i] != '\n' {
        assert((x + y)[i + 1] == x[i + 1]);
        if x[i] == '\\' && x[i + 1] == '\n' {
            assert(i + 2 < x.len());
            lemma_value_end_agree(x, y, i + 2);
        } else {
            lemma_value_end_agree(x, y, i + 1);
        }
    }
}

proof fn lemma_name_end_shift(x: Seq<char>, y: Seq<char>, i: int)
    requires
        0 <= i,
    ensures
        name_end(x + y, x.len() + i) == x.len() + name_end(y, i),
    decreases y.len() - i,
{
    if i < y.len() {
        assert((x + y)[x.len() + i] == y[i]);
        if is_ascii_word(y[i]) {
            lemma_name_end_shift(x, y, i + 1);
        }
    }
}

proof fn lemma_run_end_shift(x: Seq<char>, y: Seq<char>, i: int)
    requires
        0 <= i,
    ensures
        run_end(x + y, x.len() + i, ' ') == x.len() + run_end(y, i, ' '),
    decreases y.len() - i,
{
    if i < y.len() {
        assert((x + y)[x.len() + i] == y[i]);
        if y[i] == ' ' {
            lemma_run_end_shift(x, y, i + 1);
        }
    }
}

proof fn lemma_value_end_shift(x: Seq<char>, y: Seq<char>, i: int)
    requires
        0 <= i,
    ensures
        value_end(x + y, x.len() + i) == x.len() + value_end(y, i),
    decreases y.len() - i,
{
    if i < y.len() {
        assert((x + y)[x.len() + i] == y[i]);
        if i + 1 < y.len() {
            assert((x + y)[x.len() + i + 1] == y[i + 1]);
        }
        if y[i] == '\n' {
        } else if y[i] == '\\' && i + 1 < y.len() && y[i + 1] == '\n' {
            lemma_value_end_shift(x, y, i + 2);
        } else {
            lemma_value_end_shift(x, y, i + 1);
        }
    }
}

/// The assignments of a part are those of the whole.
proof fn lemma_assignment_agree(x: Seq<char>, y: Seq<char>, i: int)
    requires
        0 <= i < x.len(),
        ends_line(x),
    ensures
        assignment_at(x + y, i) == assignment_at(x, i),
{
    let s = x + y;
    let name = name_end(x, i);
    lemma_name_end(x, i);
    lemma_name_end_agree(x, y, i);
    lemma_run_end(x, name, ' ');
    lemma_run_end_agree(x, y, name);
    let sign = run_end(x, name, ' ');
    assert(s[sign] == x[sign]);
    if i > 0 {
        assert(s[i - 1] == x[i - 1]);
    }
    if x[sign] == '=' {
        lemma_run_end(x, sign + 1, ' ');
        lemma_run_end_agree(x, y, sign + 1);
        lemma_value_end_agree(x, y, run_end(x, sign + 1, ' '));
    }
}

proof fn lemma_escaped_shift(x: Seq<char>, y: Seq<char>, i: int)
    requires
        0 <= i <= y.len(),
        x.len() > 0 ==> x.last() == '\n',
    ensures
        woven(Pattern::Assignment, x + y, x.len() + i, assignment_filler(x + y)) == woven(
            Pattern::Assignment,
            y,
            i,
            assignment_filler(y),
        ),
    decreases y.len() - i,
{
    let s = x + y;
    let n = x.len() as int;
    let p = Pattern::Assignment;
    if i < y.len() {
        lemma_match_at(p, y, i);
        lemma_name_end(y, i);
        lemma_name_end_shift(x, y, i);
        let name = name_end(y, i);
        lemma_run_end(y, name, ' ');
        lemma_run_end_shift(x, y, name);
        let sign = run_end(y, name, ' ');
        assert(s[n + i] == y[i]);
        if i > 0 {
            assert(s[n + i - 1] == y[i - 1]);
        } else if n > 0 {
            assert(s[n - 1] == x.last());
        }
        if sign < y.len() {
            assert(s[n + sign] == y[sign]);
            lemma_run_end(y, sign + 1, ' ');
            lemma_run_end_shift(x, y, sign + 1);
            lemma_value_end_shift(x, y, run_end(y, sign + 1, ' '));
        }
        match match_at(p, y, i) {
            Some(sp) => {
                let g = sp.group->0;
                lemma_escaped_shift(x, y, sp.end);
                assert(s.subrange(n + sp.start, n + g.0) == y.subrange(sp.start, g.0));
                assert(s.subrange(n + g.0, n + g.1) == y.subrange(g.0, g.1));
            },
            None => {
                lemma_escaped_shift(x, y, i + 1);
            },
        }
    }
}

proof fn lemma_escaped_split(x: Seq<char>, y: Seq<char>, i: int)
    requires
        0 <= i <= x.len(),
        ends_line(x),
    ensures
        woven(Pattern::Assignment, x + y, i, assignment_filler(x + y)) == woven(
            Pattern::Assignment,
            x,
            i,
            assignment_filler(x),
        ) + values_escaped(y),
    decreases x.len() - i,
{
    let s = x + y;
    let p = Pattern::Assignment;
    let rest = values_escaped(y);
    if i < x.len() {
        lemma_match_at(p, x, i);
        lemma_assignment_agree(x, y, i);
        match match_at(p, x, i) {
            Some(sp) => {
                let g = sp.group->0;
                let f = assignment_filler(x);
                lemma_escaped_split(x, y, sp.end);
                assert(s.subrange(sp.start, g.0) == x.subrange(sp.start, g.0));
                assert(s.subrange(g.0, g.1) == x.subrange(g.0, g.1));
                assert(assignment_filler(s)(sp) == f(sp));
                assert(f(sp) + (woven(p, x, sp.end, f) + rest) == f(sp) + woven(p, x, sp.end, f)
                    + rest);
            },
            None => {
                let f = assignment_filler(x);
                lemma_escaped_split(x, y, i + 1);
                assert(s[i] == x[i]);
                assert(seq![x[i]] + (woven(p, x, i + 1, f) + rest) == seq![x[i]] + woven(
                    p,
                    x,
                    i + 1,
                    f,
                ) + rest);
            },
        }
    } else {
        lemma_escaped_shift(x, y, 0);
        assert(Seq::<char>::empty() + rest == rest);
    }
}

/// Where one part of a makefile ends with a line, both parts are patched by
/// themselves.
pub proof fn law_lines_apart(a: Seq<char>, b: Seq<char>)
    requires
        ends_line(a),
    ensures
        patched_lines(a + b) == patched_lines(a) + patched_lines(b),
{
    lemma_doubled_split(a, b, 0);
    lemma_doubled_end(a, 0);
    if a.len() == 1 {
        assert(doubled(a) == seq!['\n']);
    }
    lemma_escaped_split(doubled(a), doubled(b), 0);
}

/// Whether a text is what stands before the value of an assignment: a name, an
/// equals sign and spaces around it.
pub open spec fn is_assignment_head(head: Seq<char>) -> bool {
    let name = name_end(head, 0);
    let sign = run_end(head, name, ' ');
    0 < name && sign < head.len() && head[sign] == '=' && run_end(head, sign + 1, ' ')
        == head.len()
}

/// Whether a text can be the value of an assignment: it does not begin with a space,
/// and goes on over line ends behind backslashes alone.
pub open spec fn is_value(v: Seq<char>) -> bool {
    &&& v.len() > 0 ==> v[0] != ' '
    &&& forall|k: int| 0 <= k < v.len() && #[trigger] v[k] == '\n' ==> k > 0 && v[k - 1] == '\\'
}

proof fn lemma_name_end_word(s: Seq<char>, i: int)
    requires
        0 <= i <= s.len(),
    ensures
        i <= name_end(s, i) <= s.len(),
        forall|k: int| i <= k < name_end(s, i) ==> is_ascii_word(#[trigger] s[k]),
    decreases s.len() - i,
{
    if i < s.len() && is_ascii_word(s[i]) {
        lemma_name_end_word(s, i + 1);
    }
}

proof fn lemma_run_end_spaces(s: Seq<char>, i: int)
    requires
        0 <= i <= s.len(),
    ensures
        i <= run_end(s, i, ' ') <= s.len(),
        forall|k: int| i <= k < run_end(s, i, ' ') ==> (#[trigger] s[k]) == ' ',
    decreases s.len() - i,
{
    if i < s.len() && s[i] == ' ' {
        lemma_run_end_spaces(s, i + 1);
    }
}

/// A head holds word characters, spaces and the sign.
proof fn lemma_head_chars(head: Seq<char>)
    requires
        is_assignment_head(head),
    ensures
        forall|k: int|
            0 <= k < head.len() ==> (#[trigger] head[k]) != '\\' && head[k] != '\n',
{
    let name = name_end(head, 0);
    lemma_name_end_word(head, 0);
    lemma_run_end_spaces(head, name);
    let sign = run_end(head, name, ' ');
    lemma_run_end_spaces(head, sign + 1);
    assert forall|k: int| 0 <= k < head.len() implies (#[trigger] head[k]) != '\\' && head[k]
        != '\n' by {
        if k < name {
            assert(is_ascii_word(head[k]));
        } else if k < sign {
            assert(head[k] == ' ');
        } else if k > sign {
            assert(head[k] == ' ');
        }
    }
}

proof fn lemma_doubled_head(head: Seq<char>, v: Seq<char>, i: int)
    requires
        0 <= i <= head.len(),
        forall|k: int| 0 <= k < head.len() ==> (#[trigger] head[k]) != '\\',
    ensures
        doubled_from(head + v, i) == head.skip(i) + doubled(v),
    decreases head.len() - i,
{
    if i < head.len() {
        lemma_doubled_from(head + v, i);
        assert((head + v)[i] == head[i]);
        lemma_doubled_head(head, v, i + 1);
        assert(seq![head[i]] + (head.skip(i + 1) + doubled(v)) == head.skip(i) + doubled(v));
    } else {
        lemma_doubled_shift(head, v, 0);
        assert(head.skip(i) + doubled(v) == doubled(v));
    }
}

proof fn lemma_name_end_in_head(head: Seq<char>, w: Seq<char>, i: int)
    requires
        0 <= i <= head.len(),
        name_end(head, i) < head.len(),
    ensures
        name_end(head + w, i) == name_end(head, i),
    decreases head.len() - i,
{
    if i < head.len() {
        assert((head + w)[i] == head[i]);
        if is_ascii_word(head[i]) {
            lemma_name_end_in_head(head, w, i + 1);
        }
    }
}

/// A run of spaces in a head ends where it did, also where it reaches the end of the
/// head and no space follows.
proof fn lemma_run_end_in_head(head: Seq<char>, w: Seq<char>, i: int)
    requires
        0 <= i <= head.len(),
        run_end(head, i, ' ') < head.len() || (w.len() > 0 ==> w[0] != ' '),
    ensures
        run_end(head + w, i, ' ') == run_end(head, i, ' '),
    decreases head.len() - i,
{
    if i < head.len() {
        assert((head + w)[i] == head[i]);
        if head[i] == ' ' {
            lemma_run_end_in_head(head, w, i + 1);
        }
    } else if w.len() > 0 {
        assert((head + w)[i] == w[0]);
    }
}

/// Doubling leaves line ends behind backslashes alone, and does not begin a text
/// with a space.
proof fn lemma_doubled_value(v: Seq<char>, i: int)
    requires
        0 <= i <= v.len(),
        forall|k: int| 0 <= k < v.len() && #[trigger] v[k] == '\n' ==> k > 0 && v[k - 1] == '\\',
    ensures
        ({
            let w = doubled_from(v, i);
            &&& forall|k: int| 0 < k < w.len() && #[trigger] w[k] == '\n' ==> w[k - 1] == '\\'
            &&& w.len() > 0 && w[0] == '\n' ==> i < v.len() && v[i] == '\n'
            &&& w.len() > 0 && w[0] == ' ' ==> i < v.len() && v[i] == ' '
        }),
    decreases v.len() - i,
{
    let w = doubled_from(v, i);
    if i < v.len() {
        lemma_doubled_from(v, i);
        if backslash_at(v, i) is Some {
            let c = v[i + 1];
            let rest = doubled_from(v, i + 2);
            lemma_doubled_value(v, i + 2);
            assert(w == seq!['\\', '\\', c] + rest);
            assert forall|k: int| 0 < k < w.len() && #[trigger] w[k] == '\n' implies w[k - 1]
                == '\\' by {
                if k > 3 {
                    assert(rest[k - 3] == '\n');
                    assert(rest[k - 4] == '\\');
                } else if k == 3 {
                    assert(rest[0] == '\n');
                    assert(v[i + 2] == '\n');
                    assert(v[i + 1] == '\\');
                }
            }
        } else {
            let rest = doubled_from(v, i + 1);
            lemma_doubled_value(v, i + 1);
            assert(w == seq![v[i]] + rest);
            assert forall|k: int| 0 < k < w.len() && #[trigger] w[k] == '\n' implies w[k - 1]
                == '\\' by {
                if k > 1 {
                    assert(rest[k - 1] == '\n');
                    assert(rest[k - 2] == '\\');
                } else {
                    assert(rest[0] == '\n');
                    assert(v[i + 1] == '\n');
                    assert(v[i] == '\\');
                }
            }
        }
    }
}

/// A value whose line ends all stand behind backslashes runs to the end.
proof fn lemma_value_runs(w: Seq<char>, i: int)
    requires
        0 <= i <= w.len(),
        i < w.len() ==> w[i] != '\n',
        forall|k: int| 0 < k < w.len() && #[trigger] w[k] == '\n' ==> w[k - 1] == '\\',
    ensures
        value_end(w, i) == w.len(),
    decreases w.len() - i,
{
    if i < w.len() {
        if w[i] == '\\' && i + 1 < w.len() && w[i + 1] == '\n' {
            if i + 2 < w.len() && w[i + 2] == '\n' {
                assert(w[i + 1] == '\\');
            }
            lemma_value_runs(w, i + 2);
        } else {
            if i + 1 < w.len() && w[i + 1] == '\n' {
                assert(w[i] == '\\');
            }
            lemma_value_runs(w, i + 1);
        }
    }
}

/// Of an assignment the name, the sign and the spaces stay as they are, and the value
/// is escaped, with its backslashes doubled.
pub proof fn law_assignment_patched(head: Seq<char>, v: Seq<char>)
    requires
        is_assignment_head(head),
        is_value(v),
    ensures
        patched_lines(head + v) == head + escaped_value(doubled(v)),
{
    let w = doubled(v);
    let d = head + w;
    let n = head.len() as int;
    let p = Pattern::Assignment;
    lemma_head_chars(head);
    lemma_doubled_head(head, v, 0);
    assert(head.skip(0) == head);
    assert(doubled(head + v) == d);
    lemma_doubled_value(v, 0);
    let name = name_end(head, 0);
    lemma_name_end(head, 0);
    lemma_run_end(head, name, ' ');
    let sign = run_end(head, name, ' ');
    lemma_name_end_in_head(head, w, 0);
    lemma_run_end_in_head(head, w, name);
    lemma_run_end_in_head(head, w, sign + 1);
    assert(d[sign] == head[sign]);
    lemma_value_runs(w, 0);
    lemma_value_end_shift(head, w, 0);
    lemma_match_at(p, d, 0);
    let sp = match_at(p, d, 0)->0;
    assert(match_at(p, d, 0) is Some);
    assert(sp.group == Some((n, d.len() as int)) && sp.end == d.len());
    assert(d.subrange(0, n) == head);
    assert(d.subrange(n, d.len() as int) == w);
    let f = assignment_filler(d);
    assert(woven(p, d, d.len() as int, f) == Seq::<char>::empty());
    assert(f(sp) + Seq::<char>::empty() == f(sp));
}

} // verus!

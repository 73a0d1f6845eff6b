//! Merging units into a compilation database, which has one unit for each file.

use vstd::prelude::*;
use vstd::string::*;

use crate::escape::ints;
use crate::path::{ask_same, is_portable, loose_parts, path_answer, paths_equal};
use crate::text::{same_text, views};
use crate::units::{unit_views, CompilationUnit, UnitView};

verus! {

// ---------------------------------------------------------------------------
// Units under keys
// ---------------------------------------------------------------------------

/// A unit and the key of its file.
pub struct KeyedView {
    pub key: int,
    pub unit: UnitView,
}

/// The index of the first entry from `i` on with this key, or the end.
pub open spec fn key_from(entries: Seq<KeyedView>, key: int, i: int) -> int
    decreases entries.len() - i,
{
    if i < 0 || i >= entries.len() || entries[i].key == key {
        i
    } else {
        key_from(entries, key, i + 1)
    }
}

/// Whether there is an entry with this key.
pub open spec fn has_key(entries: Seq<KeyedView>, key: int) -> bool {
    exists|i: int| 0 <= i < entries.len() && (#[trigger] entries[i]).key == key
}

/// The entries after a unit went under a key: in place of the unit that the key
/// had, or else as the last one.
pub open spec fn with_unit(entries: Seq<KeyedView>, key: int, unit: UnitView) -> Seq<KeyedView> {
    let i = key_from(entries, key, 0);
    if i < entries.len() {
        entries.update(i, KeyedView { key, unit })
    } else {
        entries.push(KeyedView { key, unit })
    }
}

/// The entries after the first `n` of the units went under their keys.
pub open spec fn with_units(
    entries: Seq<KeyedView>,
    keys: Seq<int>,
    units: Seq<UnitView>,
    n: int,
) -> Seq<KeyedView>
    decreases n,
{
    if n <= 0 {
        entries
    } else {
        with_unit(with_units(entries, keys, units, n - 1), keys[n - 1], units[n - 1])
    }
}

/// The files of those of the first `n` units that find another unit under their
/// key.
pub open spec fn replaced(
    entries: Seq<KeyedView>,
    keys: Seq<int>,
    units: Seq<UnitView>,
    n: int,
) -> Seq<Seq<char>>
    decreases n,
{
    if n <= 0 {
        Seq::empty()
    } else {
        let sofar = replaced(entries, keys, units, n - 1);
        if has_key(with_units(entries, keys, units, n - 1), keys[n - 1]) {
            sofar.push(units[n - 1].file)
        } else {
            sofar
        }
    }
}

/// Whether no two entries have one key.
pub open spec fn keys_differ(entries: Seq<KeyedView>) -> bool {
    forall|i: int, j: int|
        0 <= i < j < entries.len() ==> (#[trigger] entries[i]).key != (#[trigger] entries[j]).key
}

pub proof fn lemma_key_from(entries: Seq<KeyedView>, key: int, i: int)
    requires
        0 <= i <= entries.len(),
    ensures
        i <= key_from(entries, key, i) <= entries.len(),
        key_from(entries, key, i) < entries.len() ==> entries[key_from(entries, key, i)].key
            == key,
        forall|k: int| i <= k < key_from(entries, key, i) ==> (#[trigger] entries[k]).key != key,
    decreases entries.len() - i,
{
    if i < entries.len() && entries[i].key != key {
        lemma_key_from(entries, key, i + 1);
    }
}

/// A table of units with at most one for each key, in the order in which the keys
/// came.
pub struct UnitTable {
    keys: Vec<usize>,
    units: Vec<CompilationUnit>,
}

impl View for UnitTable {
    type V = Seq<KeyedView>;

    closed spec fn view(&self) -> Seq<KeyedView> {
        Seq::new(
            self.keys@.len(),
            |i: int| KeyedView { key: self.keys@[i] as int, unit: self.units@[i]@ },
        )
    }
}

/// The units of the entries.
pub open spec fn units_in(entries: Seq<KeyedView>) -> Seq<UnitView> {
    Seq::new(entries.len(), |i: int| entries[i].unit)
}

impl UnitTable {
    /// Whether each unit has a key and no key comes twice.
    pub closed spec fn wf(&self) -> bool {
        &&& self.keys@.len() == self.units@.len()
        &&& keys_differ(self@)
    }

    /// What every table is like.
    pub proof fn lemma_wf(&self)
        requires
            self.wf(),
        ensures
            keys_differ(self@),
    {
    }

    /// No units.
    pub fn new() -> (r: UnitTable)
        ensures
            r.wf(),
            r@ == Seq::<KeyedView>::empty(),
    {
        let r = UnitTable { keys: Vec::new(), units: Vec::new() };
        assert(r@ == Seq::<KeyedView>::empty());
        r
    }

    /// How many units there are.
    pub fn len(&self) -> (r: usize)
        requires
            self.wf(),
        ensures
            r == self@.len(),
    {
        self.keys.len()
    }

    /// Puts a unit under a key, and says whether the key had one.
    pub fn insert(&mut self, key: usize, unit: CompilationUnit) -> (r: bool)
        requires
            old(self).wf(),
        ensures
            final(self).wf(),
            final(self)@ == with_unit(old(self)@, key as int, unit@),
            r == has_key(old(self)@, key as int),
    {
        let ghost before = self@;
        let mut i: usize = 0;
        while i < self.keys.len() && self.keys[i] != key
            invariant
                i <= self.keys@.len(),
                self.wf(),
                self@ == before,
                key_from(before, key as int, 0) == key_from(before, key as int, i as int),
            decreases self.keys@.len() - i,
        {
            i += 1;
        }
        proof {
            lemma_key_from(before, key as int, 0);
        }
        if i < self.keys.len() {
            assert(before[i as int].key == key);
            self.units.set(i, unit);
            assert(self@ == before.update(i as int, KeyedView { key: key as int, unit: unit@ }));
            true
        } else {
            self.keys.push(key);
            self.units.push(unit);
            assert(self@ == before.push(KeyedView { key: key as int, unit: unit@ }));
            false
        }
    }

    /// Hands the units out.
    pub fn into_units(self) -> (r: Vec<CompilationUnit>)
        requires
            self.wf(),
        ensures
            unit_views(r@) == units_in(self@),
    {
        let ghost all = self@;
        let units = self.units;
        assert(unit_views(units@) == units_in(all));
        units
    }
}

// ---------------------------------------------------------------------------
// Merging
// ---------------------------------------------------------------------------

/// What a merge gives: how many units the database had, the files of the new units
/// that took the place of another, and the units of the new database.
#[derive(Debug, PartialEq, Eq)]
pub struct Merged {
    pub known: usize,
    pub duplicates: Vec<String>,
    pub units: Vec<CompilationUnit>,
}

/// What a merge stands for.
pub struct MergedView {
    pub known: int,
    pub duplicates: Seq<Seq<char>>,
    pub units: Seq<UnitView>,
}

impl View for Merged {
    type V = MergedView;

    open spec fn view(&self) -> MergedView {
        MergedView {
            known: self.known as int,
            duplicates: views(self.duplicates@),
            units: unit_views(self.units@),
        }
    }
}

/// The database that the current units make: a later unit replaces an earlier one
/// with the same key.
pub open spec fn database(current: Seq<UnitView>, keys: Seq<int>) -> Seq<KeyedView> {
    with_units(Seq::empty(), keys, current, current.len() as int)
}

/// The current units with the new ones merged in. The keys are those of the
/// current units and after them those of the new ones.
pub open spec fn merged(
    current: Seq<UnitView>,
    units: Seq<UnitView>,
    keys: Seq<int>,
) -> MergedView {
    let known = database(current, keys);
    let rest = keys.skip(current.len() as int);
    MergedView {
        known: known.len() as int,
        duplicates: replaced(known, rest, units, units.len() as int),
        units: units_in(with_units(known, rest, units, units.len() as int)),
    }
}

/// Whether all files are portable paths.
pub open spec fn files_portable(units: Seq<UnitView>) -> bool {
    forall|i: int| 0 <= i < units.len() ==> is_portable((#[trigger] units[i]).file)
}

/// Whether the keys fit the units: one for each, the same one wherever the same text
/// is written, and for files alone that are made of the same parts, up to the case of
/// ASCII letters; where all files are portable, the same one for the same path alone.
pub open spec fn keys_fit(units: Seq<UnitView>, keys: Seq<int>) -> bool {
    &&& keys.len() == units.len()
    &&& forall|i: int, j: int|
        0 <= i < units.len() && 0 <= j < units.len() && #[trigger] keys[i] == #[trigger] keys[j]
            ==> loose_parts(units[i].file) == loose_parts(units[j].file)
    &&& files_portable(units) ==> forall|i: int, j: int|
        0 <= i < units.len() && 0 <= j < units.len() ==> (keys[i] == keys[j] <==> paths_equal(
            (#[trigger] units[i]).file,
            (#[trigger] units[j]).file,
        ))
    &&& forall|i: int, j: int|
        0 <= i < units.len() && 0 <= j < units.len() && (#[trigger] units[i]).file == (
        #[trigger] units[j]).file ==> keys[i] == keys[j]
}

/// Merges new units into the current ones, by the keys of their files.
pub fn merge_keyed(
    current: Vec<CompilationUnit>,
    units: Vec<CompilationUnit>,
    keys: &Vec<usize>,
) -> (r: Merged)
    requires
        keys@.len() == current@.len() + units@.len(),
    ensures
        r@ == merged(unit_views(current@), unit_views(units@), ints(keys@)),
{
    let ghost old_units = unit_views(current@);
    let ghost new_units = unit_views(units@);
    let ghost all = ints(keys@);
    let ghost rest = all.skip(old_units.len() as int);
    let mut table = UnitTable::new();
    let count = current.len();
    let total = keys.len();
    let mut n: usize = 0;
    for unit in it: current
        invariant
            it.seq() == current@,
            n == it.index(),
            count == current@.len(),
            old_units == unit_views(current@),
            all == ints(keys@),
            count <= keys@.len(),
            table.wf(),
            table@ == with_units(Seq::empty(), all, old_units, n as int),
    {
        table.insert(keys[n], unit);
        n += 1;
    }
    let ghost known = table@;
    let known_count = table.len();
    let mut duplicates: Vec<String> = Vec::new();
    assert(views(duplicates@) == Seq::<Seq<char>>::empty());
    for unit in it: units
        invariant
            it.seq() == units@,
            n == count + it.index(),
            new_units == unit_views(units@),
            all == ints(keys@),
            rest == all.skip(count as int),
            total == keys@.len(),
            total == count + units@.len(),
            table.wf(),
            table@ == with_units(known, rest, new_units, n - count),
            views(duplicates@) == replaced(known, rest, new_units, n - count),
    {
        let ghost sofar = views(duplicates@);
        let file = unit.file.clone();
        if table.insert(keys[n], unit) {
            duplicates.push(file);
            assert(views(duplicates@) == sofar.push(file@));
        }
        n += 1;
    }
    Merged { known: known_count, duplicates, units: table.into_units() }
}

/// The file of unit `i`, counted over the current units and after them the new
/// ones.
fn file_at<'a>(
    current: &'a Vec<CompilationUnit>,
    units: &'a Vec<CompilationUnit>,
    i: usize,
) -> (r: &'a str)
    requires
        i < current@.len() + units@.len(),
    ensures
        r@ == (unit_views(current@) + unit_views(units@))[i as int].file,
{
    if i < current.len() {
        current[i].file.as_str()
    } else {
        units[i - current.len()].file.as_str()
    }
}

/// The index of the first yes from `j` on, if there is one.
pub open spec fn yes_from(answers: Seq<bool>, j: int) -> Option<int>
    decreases answers.len() - j,
{
    if j < 0 || j >= answers.len() {
        None
    } else if answers[j] {
        Some(j)
    } else {
        yes_from(answers, j + 1)
    }
}

/// The index of the first yes, if there is one.
pub open spec fn first_yes(answers: Seq<bool>) -> Option<int> {
    yes_from(answers, 0)
}

/// The key of a unit behind those with these keys, from the answers to whether its file is
/// that of each of them: the key of the first one for which it is, or else a new one.
pub open spec fn key_by(keys: Seq<int>, answers: Seq<bool>) -> int {
    match first_yes(answers) {
        Some(j) => keys[j],
        None => keys.len() as int,
    }
}

/// The keys of units, from the answers for each of them.
pub open spec fn keys_by(same: Seq<Seq<bool>>) -> Seq<int>
    decreases same.len(),
{
    if same.len() == 0 {
        Seq::empty()
    } else {
        let sofar = keys_by(same.drop_last());
        sofar.push(key_by(sofar, same.last()))
    }
}

/// Whether answers can be those to whether the file of unit `i` is that of the units
/// before it, asked one after the other, at least until the first yes: each is what can be
/// answered for these very two files, unless they are the same text, which is the same
/// file; only files that are made of the same parts can be the same, and of two portable
/// ones it is known.
pub open spec fn row_fits(units: Seq<UnitView>, i: int, answers: Seq<bool>) -> bool {
    &&& answers.len() <= i
    &&& answers.len() < i ==> first_yes(answers) is Some
    &&& forall|j: int|
        0 <= j < answers.len() ==> {
            let a = units[i].file;
            let b = units[j].file;
            &&& a == b ==> #[trigger] answers[j]
            &&& a == b || path_answer(b, a, answers[j])
            &&& answers[j] ==> loose_parts(a) == loose_parts(b)
            &&& is_portable(a) && is_portable(b) ==> answers[j] == paths_equal(b, a)
        }
}

/// Whether answers fit all units, and are the same for the same text.
pub open spec fn answers_fit(units: Seq<UnitView>, same: Seq<Seq<bool>>) -> bool {
    &&& same.len() == units.len()
    &&& forall|i: int| 0 <= i < units.len() ==> row_fits(units, i, #[trigger] same[i])
    &&& forall|i: int, k: int|
        0 <= k < i < units.len() && (#[trigger] units[i]).file == (#[trigger] units[k]).file
            ==> first_yes(same[i]) == Some(
            match first_yes(same[k]) {
                Some(j) => j,
                None => k,
            },
        )
}

proof fn lemma_yes_from(answers: Seq<bool>, j: int)
    requires
        0 <= j <= answers.len(),
    ensures
        match yes_from(answers, j) {
            Some(k) => j <= k < answers.len() && answers[k] && forall|l: int|
                j <= l < k ==> !#[trigger] answers[l],
            None => forall|l: int| j <= l < answers.len() ==> !#[trigger] answers[l],
        },
    decreases answers.len() - j,
{
    if j < answers.len() && !answers[j] {
        lemma_yes_from(answers, j + 1);
    }
}

proof fn lemma_yes_is(answers: Seq<bool>, j: int, at: int)
    requires
        0 <= j <= at < answers.len(),
        answers[at],
        forall|l: int| j <= l < at ==> !#[trigger] answers[l],
    ensures
        yes_from(answers, j) == Some(at),
    decreases at - j,
{
    if j < at {
        assert(!answers[j]);
        lemma_yes_is(answers, j + 1, at);
    }
}

/// A key goes by the keys before it and the answers for its unit.
proof fn lemma_key_at(same: Seq<Seq<bool>>, k: int)
    requires
        0 <= k < same.len(),
    ensures
        keys_by(same).len() == same.len(),
        keys_by(same).take(k) == keys_by(same.take(k)),
        keys_by(same)[k] == key_by(keys_by(same.take(k)), same[k]),
    decreases same.len(),
{
    let less = same.drop_last();
    let sofar = keys_by(less);
    if less.len() > 0 {
        lemma_key_at(less, 0);
    }
    if k < less.len() {
        lemma_key_at(less, k);
        assert(less.take(k) == same.take(k));
        assert(keys_by(same).take(k) =~= sofar.take(k));
    } else {
        assert(same.take(k) == less);
        assert(keys_by(same).take(k) =~= sofar);
    }
}

/// The key of a unit, from the answers to whether its file is that of each unit before it.
pub fn next_key(keys: &Vec<usize>, answers: &Vec<bool>) -> (r: usize)
    requires
        answers@.len() <= keys@.len(),
    ensures
        r == key_by(ints(keys@), answers@),
{
    let mut j: usize = 0;
    while j < answers.len()
        invariant
            j <= answers@.len() <= keys@.len(),
            first_yes(answers@) == yes_from(answers@, j as int),
        decreases answers@.len() - j,
    {
        if answers[j] {
            assert(ints(keys@)[j as int] == keys@[j as int]);
            return keys[j];
        }
        j += 1;
    }
    keys.len()
}

/// The keys of units, from the answers for each of them.
pub fn keys_from(same: &Vec<Vec<bool>>) -> (r: Vec<usize>)
    requires
        forall|i: int| 0 <= i < same@.len() ==> (#[trigger] same@[i])@.len() <= i,
    ensures
        ints(r@) == keys_by(rows(same@)),
{
    let ghost all = rows(same@);
    let mut keys: Vec<usize> = Vec::new();
    let mut i: usize = 0;
    assert(all.take(0) =~= Seq::<Seq<bool>>::empty());
    assert(ints(keys@) =~= Seq::<int>::empty());
    while i < same.len()
        invariant
            i <= same@.len(),
            all == rows(same@),
            keys@.len() == i,
            forall|k: int| 0 <= k < same@.len() ==> (#[trigger] same@[k])@.len() <= k,
            ints(keys@) == keys_by(all.take(i as int)),
        decreases same@.len() - i,
    {
        let ghost sofar = ints(keys@);
        assert(all.take(i + 1).drop_last() =~= all.take(i as int));
        assert(all.take(i + 1).last() == same@[i as int]@);
        let key = next_key(&keys, &same[i]);
        keys.push(key);
        assert(ints(keys@) =~= sofar.push(key as int));
        i += 1;
    }
    assert(all.take(i as int) =~= all);
    keys
}

/// The answers of each row.
pub open spec fn rows(same: Seq<Vec<bool>>) -> Seq<Seq<bool>> {
    Seq::new(same.len(), |i: int| same[i]@)
}

/// Asks whether the file of unit `i` is that of each unit before it, until the first yes.
fn ask(current: &Vec<CompilationUnit>, units: &Vec<CompilationUnit>, i: usize) -> (r: Vec<bool>)
    requires
        i < current@.len() + units@.len(),
    ensures
        row_fits(unit_views(current@) + unit_views(units@), i as int, r@),
{
    let ghost all = unit_views(current@) + unit_views(units@);
    let file = file_at(current, units, i);
    let mut answers: Vec<bool> = Vec::new();
    let mut j: usize = 0;
    while j < i
        invariant
            j <= i < current@.len() + units@.len(),
            answers@.len() == j,
            all == unit_views(current@) + unit_views(units@),
            file@ == all[i as int].file,
            forall|l: int| 0 <= l < j ==> !#[trigger] answers@[l],
            forall|l: int|
                0 <= l < j ==> {
                    let b = (#[trigger] all[l]).file;
                    &&& file@ != b
                    &&& path_answer(b, file@, false)
                    &&& is_portable(file@) && is_portable(b) ==> !paths_equal(b, file@)
                },
        decreases i - j,
    {
        let other = file_at(current, units, j);
        let same = ask_same(other, file);
        answers.push(same);
        if same {
            proof {
                lemma_yes_is(answers@, 0, j as int);
                assert forall|l: int| 0 <= l < answers@.len() implies {
                    let a = all[i as int].file;
                    let b = all[l].file;
                    &&& a == b ==> #[trigger] answers@[l]
                    &&& a == b || path_answer(b, a, answers@[l])
                    &&& answers@[l] ==> loose_parts(a) == loose_parts(b)
                    &&& is_portable(a) && is_portable(b) ==> answers@[l] == paths_equal(b, a)
                } by {
                    assert(all[l].file == all[l].file);
                }
            }
            return answers;
        }
        j += 1;
    }
    answers
}

/// Gives each unit, first the current ones and then the new ones, the key of its
/// file: the key of an earlier unit with the same file, or else a new one.
pub fn file_keys(current: &Vec<CompilationUnit>, units: &Vec<CompilationUnit>) -> (r: Vec<usize>)
    requires
        current@.len() + units@.len() <= usize::MAX,
    ensures
        exists|same: Seq<Seq<bool>>|
            answers_fit(unit_views(current@) + unit_views(units@), same) && ints(r@)
                == #[trigger] keys_by(same),
        keys_fit(unit_views(current@) + unit_views(units@), ints(r@)),
{
    let ghost all = unit_views(current@) + unit_views(units@);
    let ghost mut same = Seq::<Seq<bool>>::empty();
    let count = current.len() + units.len();
    let mut keys: Vec<usize> = Vec::new();
    let mut i: usize = 0;
    assert(ints(keys@) =~= Seq::<int>::empty());
    while i < count
        invariant
            i <= count,
            count == current@.len() + units@.len(),
            all == unit_views(current@) + unit_views(units@),
            keys@.len() == i,
            answers_fit(all.take(i as int), same),
            ints(keys@) == keys_by(same),
        decreases count - i,
    {
        let file = file_at(current, units, i);
        let ghost before = same;
        let ghost sofar = ints(keys@);
        let mut k: usize = 0;
        while k < i && !same_text(file_at(current, units, k), file)
            invariant
                k <= i < count,
                count == current@.len() + units@.len(),
                all == unit_views(current@) + unit_views(units@),
                file@ == all[i as int].file,
                forall|l: int| 0 <= l < k ==> (#[trigger] all[l]).file != file@,
            decreases i - k,
        {
            k += 1;
        }
        // What was answered for a text holds for the same text again.
        let key = if k < i {
            proof {
                lemma_same_text(all, before, i as int, k as int);
                same = before.push(row_again(before[k as int], k as int));
            }
            keys[k]
        } else {
            let answers = ask(current, units, i);
            proof {
                lemma_new_text(all, before, i as int, answers@);
                same = before.push(answers@);
            }
            next_key(&keys, &answers)
        };
        assert(same.drop_last() =~= before);
        keys.push(key);
        assert(ints(keys@) =~= sofar.push(key as int));
        i += 1;
    }
    proof {
        assert(all.take(i as int) =~= all);
        law_answers_give_keys(all, same);
    }
    keys
}

/// The answers for the text of unit `k` when it comes again: those that there were, and a
/// yes for `k` itself where there was none.
spec fn row_again(answers: Seq<bool>, k: int) -> Seq<bool> {
    if first_yes(answers) is Some {
        answers
    } else {
        answers.push(true)
    }
}

/// A row that fits among the first units fits among all.
proof fn lemma_row_fits(units: Seq<UnitView>, n: int, i: int, answers: Seq<bool>)
    requires
        0 <= i < n <= units.len(),
    ensures
        row_fits(units.take(n), i, answers) == row_fits(units, i, answers),
{
    let some = units.take(n);
    assert(some[i] == units[i]);
    assert(forall|j: int| 0 <= j < i ==> some[j] == #[trigger] units[j]);
    if row_fits(some, i, answers) {
        assert forall|j: int| 0 <= j < answers.len() implies {
            let a = units[i].file;
            let b = units[j].file;
            &&& a == b ==> #[trigger] answers[j]
            &&& a == b || path_answer(b, a, answers[j])
            &&& answers[j] ==> loose_parts(a) == loose_parts(b)
            &&& is_portable(a) && is_portable(b) ==> answers[j] == paths_equal(b, a)
        } by {
            assert(some[j] == units[j]);
        }
    }
    if row_fits(units, i, answers) {
        assert forall|j: int| 0 <= j < answers.len() implies {
            let a = some[i].file;
            let b = some[j].file;
            &&& a == b ==> #[trigger] answers[j]
            &&& a == b || path_answer(b, a, answers[j])
            &&& answers[j] ==> loose_parts(a) == loose_parts(b)
            &&& is_portable(a) && is_portable(b) ==> answers[j] == paths_equal(b, a)
        } by {
            assert(some[j] == units[j]);
        }
    }
}

/// Answers with one more row still fit.
proof fn lemma_answers_push(units: Seq<UnitView>, same: Seq<Seq<bool>>, i: int, row: Seq<bool>)
    requires
        0 <= i < units.len(),
        answers_fit(units.take(i), same),
        row_fits(units, i, row),
        forall|k: int|
            0 <= k < i && units[i].file == (#[trigger] units[k]).file ==> first_yes(row) == Some(
                match first_yes(same[k]) {
                    Some(j) => j,
                    None => k,
                },
            ),
    ensures
        answers_fit(units.take(i + 1), same.push(row)),
{
    let now = units.take(i + 1);
    let then = units.take(i);
    let after = same.push(row);
    assert forall|l: int| 0 <= l < now.len() implies row_fits(now, l, #[trigger] after[l]) by {
        if l < i {
            assert(after[l] == same[l]);
            lemma_row_fits(units, i, l, same[l]);
        }
        lemma_row_fits(units, i + 1, l, after[l]);
    }
    assert forall|l: int, k: int|
        0 <= k < l < now.len() && (#[trigger] now[l]).file == (
        #[trigger] now[k]).file implies first_yes(after[l]) == Some(
        match first_yes(after[k]) {
            Some(j) => j,
            None => k,
        },
    ) by {
        assert(now[l] == units[l] && now[k] == units[k]);
        assert(after[k] == same[k]);
        if l < i {
            assert(then[l] == units[l] && then[k] == units[k]);
            assert(after[l] == same[l]);
        }
    }
}

proof fn lemma_new_text(units: Seq<UnitView>, same: Seq<Seq<bool>>, i: int, row: Seq<bool>)
    requires
        0 <= i < units.len(),
        answers_fit(units.take(i), same),
        row_fits(units, i, row),
        forall|k: int| 0 <= k < i ==> (#[trigger] units[k]).file != units[i].file,
    ensures
        answers_fit(units.take(i + 1), same.push(row)),
        row.len() <= same.len(),
{
    lemma_answers_push(units, same, i, row);
}

proof fn lemma_same_text(units: Seq<UnitView>, same: Seq<Seq<bool>>, i: int, k: int)
    requires
        0 <= k < i < units.len(),
        answers_fit(units.take(i), same),
        units[k].file == units[i].file,
        forall|l: int| 0 <= l < k ==> (#[trigger] units[l]).file != units[i].file,
    ensures
        answers_fit(units.take(i + 1), same.push(row_again(same[k], k))),
        key_by(keys_by(same), row_again(same[k], k)) == keys_by(same)[k],
{
    let old_row = same[k];
    let row = row_again(old_row, k);
    let then = units.take(i);
    assert(row_fits(then, k, old_row));
    lemma_row_fits(units, i, k, old_row);
    lemma_yes_from(old_row, 0);
    let hit = match first_yes(old_row) {
        Some(j) => j,
        None => k,
    };
    if first_yes(old_row) is None {
        assert(row[k]);
        assert forall|l: int| 0 <= l < k implies !#[trigger] row[l] by {
            assert(row[l] == old_row[l]);
        }
        lemma_yes_is(row, 0, k);
    }
    assert(first_yes(row) == Some(hit));
    assert(row_fits(units, i, row)) by {
        assert forall|j: int| 0 <= j < row.len() implies {
            let a = units[i].file;
            let b = units[j].file;
            &&& a == b ==> #[trigger] row[j]
            &&& a == b || path_answer(b, a, row[j])
            &&& row[j] ==> loose_parts(a) == loose_parts(b)
            &&& is_portable(a) && is_portable(b) ==> row[j] == paths_equal(b, a)
        } by {
            if j < old_row.len() {
                assert(row[j] == old_row[j]);
            }
        }
    }
    assert forall|l: int|
        0 <= l < i && units[i].file == (#[trigger] units[l]).file implies first_yes(row) == Some(
        match first_yes(same[l]) {
            Some(j) => j,
            None => l,
        },
    ) by {
        if l != k {
            assert(k < l);
            assert(then[l].file == then[k].file);
        }
    }
    lemma_answers_push(units, same, i, row);
    lemma_key_at(same, k);
    let keys = keys_by(same);
    if first_yes(old_row) is Some {
        assert(keys.take(k)[hit] == keys[hit]);
    }
}

/// Merges new units into the current ones: one unit for each file, the last one
/// that came, at the place where the file came first.
pub fn merge_units(current: Vec<CompilationUnit>, units: Vec<CompilationUnit>) -> (r: Merged)
    requires
        current@.len() + units@.len() <= usize::MAX,
    ensures
        exists|same: Seq<Seq<bool>>|
            answers_fit(unit_views(current@) + unit_views(units@), same) && r@ == merged(
                unit_views(current@),
                unit_views(units@),
                #[trigger] keys_by(same),
            ),
{
    let keys = file_keys(&current, &units);
    merge_keyed(current, units, &keys)
}

// ---------------------------------------------------------------------------
// Laws
// ---------------------------------------------------------------------------

/// The unit under a key, if it has one.
pub open spec fn unit_under(entries: Seq<KeyedView>, key: int) -> Option<UnitView> {
    let i = key_from(entries, key, 0);
    if i < entries.len() {
        Some(entries[i].unit)
    } else {
        None
    }
}

/// The last of the first `n` units with this key, or what the key had before them.
pub open spec fn last_unit(
    keys: Seq<int>,
    units: Seq<UnitView>,
    n: int,
    key: int,
    before: Option<UnitView>,
) -> Option<UnitView>
    decreases n,
{
    if n <= 0 {
        before
    } else if keys[n - 1] == key {
        Some(units[n - 1])
    } else {
        last_unit(keys, units, n - 1, key, before)
    }
}

proof fn lemma_key_is(entries: Seq<KeyedView>, key: int, i: int, at: int)
    requires
        0 <= i <= at <= entries.len(),
        at < entries.len() ==> entries[at].key == key,
        forall|k: int| i <= k < at ==> (#[trigger] entries[k]).key != key,
    ensures
        key_from(entries, key, i) == at,
    decreases at - i,
{
    if i < at {
        assert(entries[i].key != key);
        lemma_key_is(entries, key, i + 1, at);
    }
}

proof fn lemma_unit_under(entries: Seq<KeyedView>, key: int, unit: UnitView, k: int)
    ensures
        unit_under(with_unit(entries, key, unit), k) == (if k == key {
            Some(unit)
        } else {
            unit_under(entries, k)
        }),
{
    let after = with_unit(entries, key, unit);
    lemma_key_from(entries, key, 0);
    lemma_key_from(entries, k, 0);
    if k == key {
        lemma_key_is(after, k, 0, key_from(entries, key, 0));
    } else {
        let own = key_from(entries, k, 0);
        if own < entries.len() {
            lemma_key_is(after, k, 0, own);
        } else {
            assert(forall|j: int| 0 <= j < after.len() ==> (#[trigger] after[j]).key != k);
            lemma_key_is(after, k, 0, after.len() as int);
        }
    }
}

/// Merging keeps one unit for each key.
pub proof fn law_merge_keeps_keys_apart(
    entries: Seq<KeyedView>,
    keys: Seq<int>,
    units: Seq<UnitView>,
    n: int,
)
    requires
        keys_differ(entries),
    ensures
        keys_differ(with_units(entries, keys, units, n)),
    decreases n,
{
    if n > 0 {
        law_merge_keeps_keys_apart(entries, keys, units, n - 1);
        lemma_key_from(with_units(entries, keys, units, n - 1), keys[n - 1], 0);
    }
}

/// After a merge a key has the last unit that came with it, and one that none came
/// with has the unit that it had.
pub proof fn law_last_unit_wins(
    entries: Seq<KeyedView>,
    keys: Seq<int>,
    units: Seq<UnitView>,
    n: int,
    key: int,
)
    ensures
        unit_under(with_units(entries, keys, units, n), key) == last_unit(
            keys,
            units,
            n,
            key,
            unit_under(entries, key),
        ),
    decreases n,
{
    if n > 0 {
        law_last_unit_wins(entries, keys, units, n - 1, key);
        lemma_unit_under(
            with_units(entries, keys, units, n - 1),
            keys[n - 1],
            units[n - 1],
            key,
        );
    }
}

/// A merge leaves the keys that were there where they were, and puts new ones behind
/// them.
pub proof fn law_merge_keeps_order(
    entries: Seq<KeyedView>,
    keys: Seq<int>,
    units: Seq<UnitView>,
    n: int,
    i: int,
)
    requires
        0 <= i < entries.len(),
    ensures
        entries.len() <= with_units(entries, keys, units, n).len(),
        with_units(entries, keys, units, n)[i].key == entries[i].key,
    decreases n,
{
    if n > 0 {
        law_merge_keeps_order(entries, keys, units, n - 1, i);
        lemma_key_from(with_units(entries, keys, units, n - 1), keys[n - 1], 0);
    }
}

/// Every key that comes is in the table after it came.
proof fn lemma_key_present(
    entries: Seq<KeyedView>,
    keys: Seq<int>,
    units: Seq<UnitView>,
    n: int,
    k: int,
)
    requires
        0 <= k < n,
    ensures
        has_key(with_units(entries, keys, units, n), keys[k]),
    decreases n,
{
    let sofar = with_units(entries, keys, units, n - 1);
    let after = with_units(entries, keys, units, n);
    lemma_key_from(sofar, keys[n - 1], 0);
    if k == n - 1 {
        assert(after[key_from(sofar, keys[k], 0)].key == keys[k]);
    } else {
        lemma_key_present(entries, keys, units, n - 1, k);
        let i = choose|i: int| 0 <= i < sofar.len() && (#[trigger] sofar[i]).key == keys[k];
        assert(after[i].key == keys[k]);
    }
}

/// Where all keys are in the table already, a merge adds none.
proof fn lemma_same_keys(
    entries: Seq<KeyedView>,
    keys: Seq<int>,
    units: Seq<UnitView>,
    n: int,
)
    requires
        forall|k: int| 0 <= k < n ==> has_key(entries, #[trigger] keys[k]),
    ensures
        with_units(entries, keys, units, n).len() == entries.len(),
        forall|i: int|
            0 <= i < entries.len() ==> (#[trigger] with_units(entries, keys, units, n)[i]).key
                == entries[i].key,
    decreases n,
{
    if n > 0 {
        lemma_same_keys(entries, keys, units, n - 1);
        let sofar = with_units(entries, keys, units, n - 1);
        assert(has_key(entries, keys[n - 1]));
        let i = choose|i: int|
            0 <= i < entries.len() && (#[trigger] entries[i]).key == keys[n - 1];
        assert(sofar[i].key == keys[n - 1]);
        lemma_key_from(sofar, keys[n - 1], 0);
    }
}

/// What comes last does not depend on what was there, for a key that comes at all.
proof fn lemma_last_unit(
    keys: Seq<int>,
    units: Seq<UnitView>,
    n: int,
    key: int,
    a: Option<UnitView>,
)
    ensures
        last_unit(keys, units, n, key, last_unit(keys, units, n, key, a)) == last_unit(
            keys,
            units,
            n,
            key,
            a,
        ),
{
    lemma_last_unit_choice(keys, units, n, key, a, last_unit(keys, units, n, key, a));
}

proof fn lemma_last_unit_choice(
    keys: Seq<int>,
    units: Seq<UnitView>,
    n: int,
    key: int,
    a: Option<UnitView>,
    b: Option<UnitView>,
)
    ensures
        last_unit(keys, units, n, key, a) == last_unit(keys, units, n, key, b) || (last_unit(
            keys,
            units,
            n,
            key,
            a,
        ) == a && last_unit(keys, units, n, key, b) == b),
    decreases n,
{
    if n > 0 && keys[n - 1] != key {
        lemma_last_unit_choice(keys, units, n - 1, key, a, b);
    }
}

/// Merging the same units a second time changes nothing.
pub proof fn law_merge_twice(
    entries: Seq<KeyedView>,
    keys: Seq<int>,
    units: Seq<UnitView>,
    n: int,
)
    requires
        keys_differ(entries),
    ensures
        with_units(with_units(entries, keys, units, n), keys, units, n) == with_units(
            entries,
            keys,
            units,
            n,
        ),
{
    let once = with_units(entries, keys, units, n);
    let twice = with_units(once, keys, units, n);
    assert forall|k: int| 0 <= k < n implies has_key(once, #[trigger] keys[k]) by {
        lemma_key_present(entries, keys, units, n, k);
    }
    lemma_same_keys(once, keys, units, n);
    law_merge_keeps_keys_apart(entries, keys, units, n);
    assert forall|i: int| 0 <= i < once.len() implies #[trigger] twice[i] == once[i] by {
        let key = once[i].key;
        assert(twice[i].key == key);
        law_last_unit_wins(entries, keys, units, n, key);
        law_last_unit_wins(once, keys, units, n, key);
        lemma_last_unit(keys, units, n, key, unit_under(entries, key));
        lemma_key_is(once, key, 0, i);
        assert forall|k: int| 0 <= k < i implies (#[trigger] twice[k]).key != key by {
            assert(once[k].key != once[i].key);
            assert(twice[k].key == once[k].key);
        }
        lemma_key_is(twice, key, 0, i);
    }
    assert(twice =~= once);
}

/// Units that all have keys of their own make a database as they are.
pub proof fn law_distinct_units_stay(units: Seq<UnitView>, keys: Seq<int>, n: int)
    requires
        0 <= n <= units.len(),
        n <= keys.len(),
        forall|i: int, j: int| 0 <= i < j < n ==> #[trigger] keys[i] != #[trigger] keys[j],
    ensures
        with_units(Seq::empty(), keys, units, n) == Seq::new(
            n as nat,
            |i: int| KeyedView { key: keys[i], unit: units[i] },
        ),
    decreases n,
{
    let all = Seq::new(n as nat, |i: int| KeyedView { key: keys[i], unit: units[i] });
    if n > 0 {
        law_distinct_units_stay(units, keys, n - 1);
        let sofar = with_units(Seq::empty(), keys, units, n - 1);
        lemma_key_from(sofar, keys[n - 1], 0);
        let at = key_from(sofar, keys[n - 1], 0);
        if at < sofar.len() {
            assert(sofar[at].key == keys[at]);
            assert(keys[at] != keys[n - 1]);
        }
        assert(with_units(Seq::empty(), keys, units, n) =~= all);
    } else {
        assert(with_units(Seq::empty(), keys, units, n) =~= all);
    }
}

/// The keys of the entries.
pub open spec fn keys_in(entries: Seq<KeyedView>) -> Seq<int> {
    Seq::new(entries.len(), |i: int| entries[i].key)
}

/// Merging the same units into the database that a merge gave gives that database
/// again, and every one of the units then finds its file in it.
pub proof fn law_merge_again(current: Seq<UnitView>, units: Seq<UnitView>, keys: Seq<int>)
    requires
        keys.len() == current.len() + units.len(),
    ensures
        ({
            let rest = keys.skip(current.len() as int);
            let entries = with_units(database(current, keys), rest, units, units.len() as int);
            let again = merged(units_in(entries), units, keys_in(entries) + rest);
            &&& units_in(entries) == merged(current, units, keys).units
            &&& again.units == merged(current, units, keys).units
            &&& again.known == again.units.len()
            &&& again.duplicates == Seq::new(units.len(), |i: int| units[i].file)
        }),
{
    let n = units.len() as int;
    let rest = keys.skip(current.len() as int);
    let known = database(current, keys);
    let entries = with_units(known, rest, units, n);
    let all = keys_in(entries) + rest;
    law_merge_keeps_keys_apart(Seq::empty(), keys, current, current.len() as int);
    law_merge_keeps_keys_apart(known, rest, units, n);
    assert forall|i: int, j: int| 0 <= i < j < entries.len() implies #[trigger] all[i]
        != #[trigger] all[j] by {
        assert(entries[i].key != entries[j].key);
    }
    law_distinct_units_stay(units_in(entries), all, entries.len() as int);
    assert(database(units_in(entries), all) =~= entries);
    assert(all.skip(entries.len() as int) =~= rest);
    law_merge_twice(known, rest, units, n);
    assert forall|k: int| 0 <= k < n implies has_key(entries, #[trigger] rest[k]) by {
        lemma_key_present(known, rest, units, n, k);
    }
    lemma_all_replaced(entries, rest, units, n);
    assert(replaced(entries, rest, units, n) =~= Seq::new(units.len(), |i: int| units[i].file));
}

/// Where all keys are in the table, every unit replaces one.
proof fn lemma_all_replaced(
    entries: Seq<KeyedView>,
    keys: Seq<int>,
    units: Seq<UnitView>,
    n: int,
)
    requires
        0 <= n <= units.len(),
        forall|k: int| 0 <= k < n ==> has_key(entries, #[trigger] keys[k]),
    ensures
        replaced(entries, keys, units, n) == Seq::new(n as nat, |i: int| units[i].file),
    decreases n,
{
    let files = Seq::new(n as nat, |i: int| units[i].file);
    if n > 0 {
        lemma_all_replaced(entries, keys, units, n - 1);
        lemma_same_keys(entries, keys, units, n - 1);
        let sofar = with_units(entries, keys, units, n - 1);
        assert(has_key(entries, keys[n - 1]));
        let i = choose|i: int|
            0 <= i < entries.len() && (#[trigger] entries[i]).key == keys[n - 1];
        assert(sofar[i].key == keys[n - 1]);
        assert(has_key(sofar, keys[n - 1]));
    }
    assert(replaced(entries, keys, units, n) =~= files);
}

/// Whether one of the units has this key and is this one.
spec fn is_source(keys: Seq<int>, units: Seq<UnitView>, entry: KeyedView) -> bool {
    exists|l: int|
        0 <= l < units.len() && keys[l] == entry.key && #[trigger] units[l] == entry.unit
}

/// Whether every entry is one of the units, under its key.
spec fn is_sourced(keys: Seq<int>, units: Seq<UnitView>, entries: Seq<KeyedView>) -> bool {
    forall|i: int| 0 <= i < entries.len() ==> is_source(keys, units, #[trigger] entries[i])
}

proof fn lemma_sourced(
    all_keys: Seq<int>,
    all: Seq<UnitView>,
    entries: Seq<KeyedView>,
    keys: Seq<int>,
    units: Seq<UnitView>,
    n: int,
    at: int,
)
    requires
        is_sourced(all_keys, all, entries),
        0 <= at,
        at + n <= all.len(),
        forall|k: int| 0 <= k < n ==> all[at + k] == #[trigger] units[k],
        forall|k: int| 0 <= k < n ==> all_keys[at + k] == #[trigger] keys[k],
    ensures
        is_sourced(all_keys, all, with_units(entries, keys, units, n)),
    decreases n,
{
    if n > 0 {
        lemma_sourced(all_keys, all, entries, keys, units, n - 1, at);
        let sofar = with_units(entries, keys, units, n - 1);
        let after = with_units(entries, keys, units, n);
        lemma_key_from(sofar, keys[n - 1], 0);
        assert(all[at + (n - 1)] == units[n - 1]);
        assert forall|i: int| 0 <= i < after.len() implies is_source(
            all_keys,
            all,
            #[trigger] after[i],
        ) by {
            if i < sofar.len() {
                assert(is_source(all_keys, all, sofar[i]));
            }
        }
    }
}

/// Answers that fit give keys that fit.
pub proof fn law_answers_give_keys(units: Seq<UnitView>, same: Seq<Seq<bool>>)
    requires
        answers_fit(units, same),
    ensures
        keys_fit(units, keys_by(same)),
        forall|k: int| 0 <= k < units.len() ==> #[trigger] keys_by(same)[k] <= k,
    decreases units.len(),
{
    let keys = keys_by(same);
    if units.len() > 0 {
        let i = units.len() - 1;
        let then = units.take(i);
        let before = same.drop_last();
        let sofar = keys_by(before);
        let row = same[i];
        assert(row_fits(units, i, row));
        assert(answers_fit(then, before)) by {
            assert forall|l: int| 0 <= l < i implies row_fits(then, l, #[trigger] before[l]) by {
                assert(before[l] == same[l]);
                assert(row_fits(units, l, same[l]));
                lemma_row_fits(units, i, l, same[l]);
            }
            assert forall|l: int, k: int|
                0 <= k < l < i && (#[trigger] then[l]).file == (
                #[trigger] then[k]).file implies first_yes(before[l]) == Some(
                match first_yes(before[k]) {
                    Some(j) => j,
                    None => k,
                },
            ) by {
                assert(units[l].file == units[k].file);
            }
        }
        law_answers_give_keys(then, before);
        lemma_yes_from(row, 0);
        let key = key_by(sofar, row);
        let hit = first_yes(row);
        assert(keys == sofar.push(key));
        if let Some(j) = hit {
            assert(row[j]);
            assert(sofar[j] <= j);
        }
        assert forall|k: int| 0 <= k < i && sofar[k] == key implies loose_parts(
            (#[trigger] units[k]).file,
        ) == loose_parts(units[i].file) by {
            assert(sofar[k] <= k);
            if let Some(j) = hit {
                assert(sofar[k] == sofar[j]);
                assert(then[k] == units[k] && then[j] == units[j]);
            }
        }
        assert forall|k: int, l: int|
            0 <= k < units.len() && 0 <= l < units.len() && #[trigger] keys[k]
                == #[trigger] keys[l] implies loose_parts(units[k].file) == loose_parts(
            units[l].file,
        ) by {
            if k < i && l < i {
                assert(sofar[k] == sofar[l]);
                assert(then[k] == units[k] && then[l] == units[l]);
            } else if k < i {
                assert(units[k] == units[k] && sofar[k] == key);
            } else if l < i {
                assert(units[l] == units[l] && sofar[l] == key);
            }
        }
        if files_portable(units) {
            assert(files_portable(then)) by {
                assert forall|k: int| 0 <= k < i implies is_portable((#[trigger] then[k]).file) by {
                    assert(then[k] == units[k]);
                }
            }
            assert(is_portable(units[i].file));
            assert forall|k: int| 0 <= k < i implies (sofar[k] == key <==> paths_equal(
                (#[trigger] units[k]).file,
                units[i].file,
            )) by {
                assert(is_portable(units[k].file));
                assert(then[k] == units[k]);
                match hit {
                    Some(j) => {
                        assert(is_portable(units[j].file));
                        assert(then[j] == units[j]);
                        assert(row[j] == paths_equal(units[j].file, units[i].file));
                        assert(sofar[k] == sofar[j] <==> paths_equal(then[k].file, then[j].file));
                    },
                    None => {
                        assert(sofar[k] <= k);
                        assert(row[k] == paths_equal(units[k].file, units[i].file));
                    },
                }
            }
            assert forall|k: int, l: int|
                0 <= k < units.len() && 0 <= l < units.len() implies (keys[k] == keys[l]
                <==> paths_equal((#[trigger] units[k]).file, (#[trigger] units[l]).file)) by {
                if k < i && l < i {
                    assert(then[k] == units[k] && then[l] == units[l]);
                    assert(sofar[k] == sofar[l] <==> paths_equal(then[k].file, then[l].file));
                }
            }
        }
        assert forall|k: int| 0 <= k < i && (#[trigger] units[k]).file
            == units[i].file implies sofar[k] == key by {
            let at = first_yes(same[k]);
            assert(units[i].file == units[k].file);
            lemma_key_at(before, k);
            assert(before[k] == same[k]);
            assert(row_fits(units, k, same[k]));
            lemma_yes_from(same[k], 0);
            if let Some(j) = at {
                assert(sofar.take(k)[j] == sofar[j]);
            }
        }
        assert forall|k: int, l: int|
            0 <= k < units.len() && 0 <= l < units.len() && (#[trigger] units[k]).file == (
            #[trigger] units[l]).file implies keys[k] == keys[l] by {
            if k < i && l < i {
                assert(then[k].file == then[l].file);
                assert(sofar[k] == sofar[l]);
            }
        }
    }
}

/// No file is lost in a merge: for every unit, current or new, the database has one
/// whose file is made of the same parts, up to the case of ASCII letters, and where all
/// files are portable one with the same path.
pub proof fn law_no_file_lost(
    current: Seq<UnitView>,
    units: Seq<UnitView>,
    keys: Seq<int>,
    k: int,
)
    requires
        keys_fit(current + units, keys),
        0 <= k < (current + units).len(),
    ensures
        exists|i: int|
            0 <= i < merged(current, units, keys).units.len() && loose_parts(
                (#[trigger] merged(current, units, keys).units[i]).file,
            ) == loose_parts((current + units)[k].file) && (files_portable(current + units)
                ==> paths_equal(
                merged(current, units, keys).units[i].file,
                (current + units)[k].file,
            )),
{
    let all = current + units;
    let m = current.len() as int;
    let n = units.len() as int;
    let rest = keys.skip(m);
    let known = database(current, keys);
    let entries = with_units(known, rest, units, n);
    lemma_sourced(keys, all, Seq::empty(), keys, current, m, 0);
    lemma_sourced(keys, all, known, rest, units, n, m);
    if k < m {
        lemma_key_present(Seq::empty(), keys, current, m, k);
        let i = choose|i: int| 0 <= i < known.len() && (#[trigger] known[i]).key == keys[k];
        law_merge_keeps_order(known, rest, units, n, i);
        assert(entries[i].key == keys[k]);
    } else {
        lemma_key_present(known, rest, units, n, k - m);
        assert(rest[k - m] == keys[k]);
    }
    let i = choose|i: int| 0 <= i < entries.len() && (#[trigger] entries[i]).key == keys[k];
    assert(is_source(keys, all, entries[i]));
    let l = choose|l: int|
        0 <= l < all.len() && keys[l] == entries[i].key && #[trigger] all[l] == entries[i].unit;
    assert(keys[l] == keys[k]);
    assert(all[k] == (current + units)[k]);
    assert(merged(current, units, keys).units[i] == entries[i].unit);
}

// ---------------------------------------------------------------------------
// Laws for whatever counts as the same path
// ---------------------------------------------------------------------------

/// Whether a relation is an equality: of every path to itself, in both directions, and
/// from one to the next.
pub open spec fn is_equality(eq: spec_fn(Seq<char>, Seq<char>) -> bool) -> bool {
    &&& forall|a: Seq<char>| #[trigger] eq(a, a)
    &&& forall|a: Seq<char>, b: Seq<char>| #[trigger] eq(a, b) ==> eq(b, a)
    &&& forall|a: Seq<char>, b: Seq<char>, c: Seq<char>| #[trigger]
        eq(a, b) && #[trigger] eq(b, c) ==> eq(a, c)
}

/// Whether the answers are those that an equality of paths gives, asked one after the
/// other, at least until the first yes.
pub open spec fn answers_by(
    units: Seq<UnitView>,
    same: Seq<Seq<bool>>,
    eq: spec_fn(Seq<char>, Seq<char>) -> bool,
) -> bool {
    &&& same.len() == units.len()
    &&& forall|i: int|
        0 <= i < units.len() ==> {
            &&& (#[trigger] same[i]).len() <= i
            &&& same[i].len() < i ==> first_yes(same[i]) is Some
            &&& forall|j: int|
                0 <= j < same[i].len() ==> #[trigger] same[i][j] == eq(
                    units[j].file,
                    units[i].file,
                )
        }
}

/// Whatever counts as the same path on a platform: units have one key exactly where their
/// files are the same path.
pub proof fn law_keys_by_equality(
    units: Seq<UnitView>,
    same: Seq<Seq<bool>>,
    eq: spec_fn(Seq<char>, Seq<char>) -> bool,
)
    requires
        is_equality(eq),
        answers_by(units, same, eq),
    ensures
        keys_by(same).len() == units.len(),
        forall|k: int| 0 <= k < units.len() ==> #[trigger] keys_by(same)[k] <= k,
        forall|k: int, l: int|
            0 <= k < units.len() && 0 <= l < units.len() ==> (keys_by(same)[k] == keys_by(same)[l]
                <==> eq((#[trigger] units[k]).file, (#[trigger] units[l]).file)),
    decreases units.len(),
{
    let keys = keys_by(same);
    if units.len() > 0 {
        let i = units.len() - 1;
        let then = units.take(i);
        let before = same.drop_last();
        let sofar = keys_by(before);
        let row = same[i];
        assert(answers_by(then, before, eq)) by {
            assert forall|l: int| 0 <= l < i implies {
                &&& (#[trigger] before[l]).len() <= l
                &&& before[l].len() < l ==> first_yes(before[l]) is Some
                &&& forall|j: int|
                    0 <= j < before[l].len() ==> #[trigger] before[l][j] == eq(
                        then[j].file,
                        then[l].file,
                    )
            } by {
                assert(before[l] == same[l]);
                assert forall|j: int| 0 <= j < before[l].len() implies #[trigger] before[l][j]
                    == eq(then[j].file, then[l].file) by {
                    assert(same[l][j] == eq(units[j].file, units[l].file));
                }
            }
        }
        law_keys_by_equality(then, before, eq);
        lemma_yes_from(row, 0);
        let key = key_by(sofar, row);
        assert(keys == sofar.push(key));
        if let Some(j) = first_yes(row) {
            assert(sofar[j] <= j);
        }
        assert forall|k: int| 0 <= k < i implies (sofar[k] == key <==> eq(
            (#[trigger] units[k]).file,
            units[i].file,
        )) by {
            assert(then[k] == units[k]);
            match first_yes(row) {
                Some(j) => {
                    assert(then[j] == units[j]);
                    assert(row[j] == eq(units[j].file, units[i].file));
                    assert(sofar[k] == sofar[j] <==> eq(then[k].file, then[j].file));
                    if eq(units[k].file, units[i].file) {
                        assert(eq(units[i].file, units[j].file));
                    }
                },
                None => {
                    assert(sofar[k] <= k);
                    assert(row[k] == eq(units[k].file, units[i].file));
                },
            }
        }
        assert forall|k: int, l: int|
            0 <= k < units.len() && 0 <= l < units.len() implies (keys[k] == keys[l] <==> eq(
            (#[trigger] units[k]).file,
            (#[trigger] units[l]).file,
        )) by {
            assert(eq(units[i].file, units[i].file));
            if k < i && l < i {
                assert(then[k] == units[k] && then[l] == units[l]);
                assert(sofar[k] == sofar[l] <==> eq(then[k].file, then[l].file));
            }
        }
    }
}

/// The last unit with a key is what the key has in the end.
proof fn lemma_last_unit_at(
    keys: Seq<int>,
    units: Seq<UnitView>,
    n: int,
    key: int,
    before: Option<UnitView>,
    at: int,
)
    requires
        -1 <= at < n,
        at >= 0 ==> keys[at] == key,
        forall|l: int| at < l < n ==> #[trigger] keys[l] != key,
    ensures
        last_unit(keys, units, n, key, before) == (if at >= 0 {
            Some(units[at])
        } else {
            before
        }),
    decreases n,
{
    if n > 0 && at < n - 1 {
        assert(keys[n - 1] != key);
        lemma_last_unit_at(keys, units, n - 1, key, before, at);
    }
}

/// Whatever counts as the same path on a platform: a merge keeps of the units of each
/// file, current or new, the last one.
pub proof fn law_merge_keeps_last(
    current: Seq<UnitView>,
    units: Seq<UnitView>,
    same: Seq<Seq<bool>>,
    eq: spec_fn(Seq<char>, Seq<char>) -> bool,
    k: int,
)
    requires
        is_equality(eq),
        answers_by(current + units, same, eq),
        0 <= k < (current + units).len(),
        forall|l: int|
            k < l < (current + units).len() ==> !eq(
                (#[trigger] (current + units)[l]).file,
                (current + units)[k].file,
            ),
    ensures
        merged(current, units, keys_by(same)).units.contains((current + units)[k]),
{
    let all = current + units;
    let keys = keys_by(same);
    let m = current.len() as int;
    let n = units.len() as int;
    let rest = keys.skip(m);
    let known = database(current, keys);
    let entries = with_units(known, rest, units, n);
    let key = keys[k];
    law_keys_by_equality(all, same, eq);
    assert forall|l: int| k < l < all.len() implies #[trigger] keys[l] != key by {
        assert(!eq(all[l].file, all[k].file));
    }
    law_last_unit_wins(Seq::empty(), keys, current, m, key);
    law_last_unit_wins(known, rest, units, n, key);
    if k < m {
        lemma_last_unit_at(keys, current, m, key, unit_under(Seq::empty(), key), k);
        assert forall|l: int| -1 < l < n implies #[trigger] rest[l] != key by {
            assert(rest[l] == keys[m + l]);
        }
        if n > 0 {
            lemma_last_unit_at(rest, units, n, key, unit_under(known, key), -1);
        }
    } else {
        assert forall|l: int| k - m < l < n implies #[trigger] rest[l] != key by {
            assert(rest[l] == keys[m + l]);
        }
        lemma_last_unit_at(rest, units, n, key, unit_under(known, key), k - m);
    }
    assert(unit_under(entries, key) == Some(all[k]));
    let i = key_from(entries, key, 0);
    lemma_key_from(entries, key, 0);
    assert(merged(current, units, keys).units[i] == all[k]);
}

/// Whatever counts as the same path on a platform: after a merge no two units have the
/// same file, and every unit was there before or is new.
pub proof fn law_merge_one_for_each(
    current: Seq<UnitView>,
    units: Seq<UnitView>,
    same: Seq<Seq<bool>>,
    eq: spec_fn(Seq<char>, Seq<char>) -> bool,
)
    requires
        is_equality(eq),
        answers_by(current + units, same, eq),
    ensures
        ({
            let r = merged(current, units, keys_by(same)).units;
            &&& forall|i: int, j: int|
                0 <= i < j < r.len() ==> !eq((#[trigger] r[i]).file, (#[trigger] r[j]).file)
            &&& forall|i: int| 0 <= i < r.len() ==> (current + units).contains(#[trigger] r[i])
        }),
{
    let all = current + units;
    let keys = keys_by(same);
    let m = current.len() as int;
    let n = units.len() as int;
    let rest = keys.skip(m);
    let known = database(current, keys);
    let entries = with_units(known, rest, units, n);
    let r = merged(current, units, keys).units;
    law_keys_by_equality(all, same, eq);
    lemma_sourced(keys, all, Seq::empty(), keys, current, m, 0);
    lemma_sourced(keys, all, known, rest, units, n, m);
    law_merge_keeps_keys_apart(Seq::empty(), keys, current, m);
    law_merge_keeps_keys_apart(known, rest, units, n);
    assert forall|i: int| 0 <= i < r.len() implies all.contains(#[trigger] r[i]) by {
        assert(is_source(keys, all, entries[i]));
    }
    assert forall|i: int, j: int| 0 <= i < j < r.len() implies !eq(
        (#[trigger] r[i]).file,
        (#[trigger] r[j]).file,
    ) by {
        assert(is_source(keys, all, entries[i]) && is_source(keys, all, entries[j]));
        let a = choose|a: int|
            0 <= a < all.len() && keys[a] == entries[i].key && #[trigger] all[a]
                == entries[i].unit;
        let b = choose|b: int|
            0 <= b < all.len() && keys[b] == entries[j].key && #[trigger] all[b]
                == entries[j].unit;
        assert(entries[i].key != entries[j].key);
        assert(keys[a] == keys[b] <==> eq(all[a].file, all[b].file));
    }
}

/// Whether one of the first `n` units has this file.
pub open spec fn is_known(
    units: Seq<UnitView>,
    n: int,
    file: Seq<char>,
    eq: spec_fn(Seq<char>, Seq<char>) -> bool,
) -> bool {
    exists|l: int| 0 <= l < n && eq((#[trigger] units[l]).file, file)
}

/// The files of those of the first `n` new units that a current one has, or a new one
/// before them.
pub open spec fn known_files(
    current: Seq<UnitView>,
    units: Seq<UnitView>,
    n: int,
    eq: spec_fn(Seq<char>, Seq<char>) -> bool,
) -> Seq<Seq<char>>
    decreases n,
{
    if n <= 0 {
        Seq::empty()
    } else {
        let sofar = known_files(current, units, n - 1, eq);
        let file = units[n - 1].file;
        if is_known(current + units, current.len() + n - 1, file, eq) {
            sofar.push(file)
        } else {
            sofar
        }
    }
}

proof fn lemma_duplicates(
    current: Seq<UnitView>,
    units: Seq<UnitView>,
    same: Seq<Seq<bool>>,
    eq: spec_fn(Seq<char>, Seq<char>) -> bool,
    n: int,
)
    requires
        is_equality(eq),
        answers_by(current + units, same, eq),
        0 <= n <= units.len(),
    ensures
        replaced(
            database(current, keys_by(same)),
            keys_by(same).skip(current.len() as int),
            units,
            n,
        ) == known_files(current, units, n, eq),
    decreases n,
{
    if n > 0 {
        let all = current + units;
        let keys = keys_by(same);
        let m = current.len() as int;
        let rest = keys.skip(m);
        let known = database(current, keys);
        let entries = with_units(known, rest, units, n - 1);
        let at = m + n - 1;
        let some = all.take(at);
        lemma_duplicates(current, units, same, eq, n - 1);
        law_keys_by_equality(all, same, eq);
        lemma_sourced(keys, some, Seq::empty(), keys, current, m, 0);
        lemma_sourced(keys, some, known, rest, units, n - 1, m);
        assert(all[at] == units[n - 1]);
        assert(rest[n - 1] == keys[at]);
        if has_key(entries, keys[at]) {
            let i = choose|i: int| 0 <= i < entries.len() && (#[trigger] entries[i]).key == keys[at];
            assert(is_source(keys, some, entries[i]));
            let l = choose|l: int|
                0 <= l < some.len() && keys[l] == entries[i].key && #[trigger] some[l]
                    == entries[i].unit;
            assert(eq(all[l].file, all[at].file));
        }
        if is_known(all, at, units[n - 1].file, eq) {
            let l = choose|l: int| 0 <= l < at && eq((#[trigger] all[l]).file, units[n - 1].file);
            assert(eq(all[l].file, all[at].file));
            assert(keys[l] == keys[at]);
            if l < m {
                lemma_key_present(Seq::empty(), keys, current, m, l);
                let i = choose|i: int|
                    0 <= i < known.len() && (#[trigger] known[i]).key == keys[l];
                law_merge_keeps_order(known, rest, units, n - 1, i);
                assert(entries[i].key == keys[at]);
            } else {
                lemma_key_present(known, rest, units, n - 1, l - m);
                assert(rest[l - m] == keys[l]);
            }
        }
    }
}

/// Whatever counts as the same path on a platform: the duplicates of a merge are the
/// files of the new units that came before, in order.
pub proof fn law_duplicates_are_known(
    current: Seq<UnitView>,
    units: Seq<UnitView>,
    same: Seq<Seq<bool>>,
    eq: spec_fn(Seq<char>, Seq<char>) -> bool,
)
    requires
        is_equality(eq),
        answers_by(current + units, same, eq),
    ensures
        merged(current, units, keys_by(same)).duplicates == known_files(
            current,
            units,
            units.len() as int,
            eq,
        ),
{
    lemma_duplicates(current, units, same, eq, units.len() as int);
}

/// Units with the same beginning are merged the same way up to its end.
proof fn lemma_units_agree(
    entries: Seq<KeyedView>,
    keys: Seq<int>,
    a: Seq<UnitView>,
    b: Seq<UnitView>,
    n: int,
)
    requires
        n <= a.len(),
        n <= b.len(),
        forall|k: int| 0 <= k < n ==> #[trigger] a[k] == b[k],
    ensures
        with_units(entries, keys, a, n) == with_units(entries, keys, b, n),
    decreases n,
{
    if n > 0 {
        lemma_units_agree(entries, keys, a, b, n - 1);
        assert(a[n - 1] == b[n - 1]);
    }
}

/// Units that come behind others are merged into what these made.
proof fn lemma_units_behind(
    entries: Seq<KeyedView>,
    keys: Seq<int>,
    a: Seq<UnitView>,
    b: Seq<UnitView>,
    n: int,
)
    requires
        0 <= n <= b.len(),
        a.len() + b.len() <= keys.len(),
    ensures
        with_units(entries, keys, a + b, a.len() + n) == with_units(
            with_units(entries, keys, a, a.len() as int),
            keys.skip(a.len() as int),
            b,
            n,
        ),
    decreases n,
{
    if n > 0 {
        lemma_units_behind(entries, keys, a, b, n - 1);
        assert((a + b)[a.len() + n - 1] == b[n - 1]);
        assert(keys.skip(a.len() as int)[n - 1] == keys[a.len() + n - 1]);
    } else {
        lemma_units_agree(entries, keys, a + b, a, a.len() as int);
    }
}

/// Whatever counts as the same path on a platform: the files stand in the order in which
/// they first came.
pub proof fn law_merge_in_order(
    current: Seq<UnitView>,
    units: Seq<UnitView>,
    same: Seq<Seq<bool>>,
    eq: spec_fn(Seq<char>, Seq<char>) -> bool,
    a: int,
    b: int,
)
    requires
        is_equality(eq),
        answers_by(current + units, same, eq),
        0 <= a < b < (current + units).len(),
        !is_known(current + units, b, (current + units)[b].file, eq),
    ensures
        exists|i: int, j: int|
            0 <= i < j < merged(current, units, keys_by(same)).units.len() && eq(
                (#[trigger] merged(current, units, keys_by(same)).units[i]).file,
                (current + units)[a].file,
            ) && eq(
                (#[trigger] merged(current, units, keys_by(same)).units[j]).file,
                (current + units)[b].file,
            ),
{
    let all = current + units;
    let keys = keys_by(same);
    let none = Seq::<KeyedView>::empty();
    let n = all.len() as int;
    let r = merged(current, units, keys).units;
    law_keys_by_equality(all, same, eq);
    lemma_units_behind(none, keys, current, units, units.len() as int);
    let entries = with_units(none, keys, all, n);
    assert(r == units_in(entries));
    let sofar = with_units(none, keys, all, b);
    let after = with_units(none, keys, all, b + 1);
    lemma_key_present(none, keys, all, b, a);
    let i = choose|i: int| 0 <= i < sofar.len() && (#[trigger] sofar[i]).key == keys[a];
    let some = all.take(b);
    lemma_sourced(keys, some, none, keys, all, b, 0);
    lemma_key_from(sofar, keys[b], 0);
    let at = key_from(sofar, keys[b], 0);
    if at < sofar.len() {
        assert(is_source(keys, some, sofar[at]));
        let l = choose|l: int|
            0 <= l < some.len() && keys[l] == sofar[at].key && #[trigger] some[l]
                == sofar[at].unit;
        assert(eq(all[l].file, all[b].file));
    }
    let j = sofar.len() as int;
    assert(after[i].key == keys[a] && after[j].key == keys[b]);
    let head = all.take(b + 1);
    let tail = all.skip(b + 1);
    assert(head + tail =~= all);
    lemma_units_behind(none, keys, head, tail, tail.len() as int);
    lemma_units_agree(none, keys, all, head, b + 1);
    law_merge_keeps_order(after, keys.skip(b + 1), tail, tail.len() as int, i);
    law_merge_keeps_order(after, keys.skip(b + 1), tail, tail.len() as int, j);
    assert(entries[i].key == keys[a] && entries[j].key == keys[b]);
    lemma_sourced(keys, all, none, keys, all, n, 0);
    assert(is_source(keys, all, entries[i]) && is_source(keys, all, entries[j]));
    let x = choose|x: int|
        0 <= x < all.len() && keys[x] == entries[i].key && #[trigger] all[x] == entries[i].unit;
    let y = choose|y: int|
        0 <= y < all.len() && keys[y] == entries[j].key && #[trigger] all[y] == entries[j].unit;
    assert(eq(all[x].file, all[a].file));
    assert(eq(all[y].file, all[b].file));
    assert(r[i] == all[x] && r[j] == all[y]);
}

/// How many units the database had is how many it has when nothing is merged into it; and
/// where no two units, current or new, have one key, all of them are kept in order, the
/// current ones are those that were known, and there are no duplicates.
pub proof fn law_merge_counts(current: Seq<UnitView>, units: Seq<UnitView>, keys: Seq<int>)
    requires
        keys.len() == current.len() + units.len(),
    ensures
        merged(current, units, keys).known == merged(
            current,
            Seq::empty(),
            keys,
        ).units.len(),
        (forall|i: int, j: int|
            0 <= i < j < keys.len() ==> #[trigger] keys[i] != #[trigger] keys[j]) ==> {
            &&& merged(current, units, keys).units == current + units
            &&& merged(current, units, keys).known == current.len()
            &&& merged(current, units, keys).duplicates == Seq::<Seq<char>>::empty()
        },
{
    if forall|i: int, j: int|
        0 <= i < j < keys.len() ==> #[trigger] keys[i] != #[trigger] keys[j] {
        let all = current + units;
        let none = Seq::<KeyedView>::empty();
        lemma_units_behind(none, keys, current, units, units.len() as int);
        law_distinct_units_stay(all, keys, all.len() as int);
        law_distinct_units_stay(current, keys, current.len() as int);
        assert(merged(current, units, keys).units =~= all);
        lemma_none_replaced(current, units, keys, units.len() as int);
    }
}

proof fn lemma_none_replaced(
    current: Seq<UnitView>,
    units: Seq<UnitView>,
    keys: Seq<int>,
    n: int,
)
    requires
        keys.len() == current.len() + units.len(),
        0 <= n <= units.len(),
        forall|i: int, j: int| 0 <= i < j < keys.len() ==> #[trigger] keys[i] != #[trigger] keys[j],
    ensures
        replaced(database(current, keys), keys.skip(current.len() as int), units, n) == Seq::<
            Seq<char>,
        >::empty(),
    decreases n,
{
    if n > 0 {
        let m = current.len() as int;
        let all = current + units;
        let rest = keys.skip(m);
        lemma_none_replaced(current, units, keys, n - 1);
        lemma_units_behind(Seq::empty(), keys, current, units, n - 1);
        law_distinct_units_stay(all, keys, m + n - 1);
        let sofar = with_units(database(current, keys), rest, units, n - 1);
        assert(rest[n - 1] == keys[m + n - 1]);
        assert forall|i: int| 0 <= i < sofar.len() implies (#[trigger] sofar[i]).key
            != rest[n - 1] by {
            assert(sofar[i].key == keys[i]);
            assert(keys[i] != keys[m + n - 1]);
        }
    }
}

} // verus!

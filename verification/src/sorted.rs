//! Sorted lists without duplicates, and lists grouped under sorted keys.

use vstd::prelude::*;
use vstd::slice::slice_to_vec;

verus! {

/// Each number is larger than the one before it.
pub open spec fn increasing(values: Seq<u64>) -> bool {
    forall|i: int, j: int| 0 <= i < j < values.len() ==> #[trigger] values[i] < #[trigger] values[j]
}

/// Where a number stands in a sorted list.
pub(crate) fn find(values: &[u64], value: u64) -> (place: Option<usize>)
    requires
        increasing(values@),
    ensures
        place is Some <==> values@.contains(value),
        place matches Some(place) ==> place < values@.len() && values@[place as int] == value,
{
    let (place, found) = search(values, value);
    proof {
        if values@.contains(value) {
            let i = choose|i: int| 0 <= i < values@.len() && values@[i] == value;
            assert(found);
        }
    }
    if found {
        Some(place)
    } else {
        None
    }
}

/// Where a number stands in a sorted list, or would stand.
fn search(values: &[u64], value: u64) -> (result: (usize, bool))
    requires
        increasing(values@),
    ensures
        result.0 <= values@.len(),
        forall|i: int| 0 <= i < result.0 ==> #[trigger] values@[i] < value,
        result.1 ==> result.0 < values@.len() && values@[result.0 as int] == value,
        !result.1 ==> forall|i: int| result.0 <= i < values@.len() ==> #[trigger] values@[i] > value,
{
    let mut low: usize = 0;
    let mut high: usize = values.len();
    while low < high
        invariant
            low <= high <= values@.len(),
            increasing(values@),
            forall|i: int| 0 <= i < low ==> #[trigger] values@[i] < value,
            forall|i: int| high <= i < values@.len() ==> #[trigger] values@[i] > value,
        decreases high - low,
    {
        let mid: usize = low + (high - low) / 2;
        let other: u64 = values[mid];
        if other == value {
            assert forall|i: int| 0 <= i < mid implies #[trigger] values@[i] < value by {
                assert(values@[i] < values@[mid as int]);
            }
            return (mid, true);
        }
        if other < value {
            assert forall|i: int| 0 <= i < mid + 1 implies #[trigger] values@[i] < value by {
                if i < mid {
                    assert(values@[i] < values@[mid as int]);
                }
            }
            low = mid + 1;
        } else {
            assert forall|i: int| mid <= i < values@.len() implies #[trigger] values@[i] > value by {
                if i > mid {
                    assert(values@[mid as int] < values@[i]);
                }
            }
            high = mid;
        }
    }
    (low, false)
}

/// Put a number into a sorted list, unless it is there.
pub(crate) fn insert_unique(values: &mut Vec<u64>, value: u64) -> (result: (usize, bool))
    requires
        increasing(old(values)@),
    ensures
        increasing(final(values)@),
        result.0 < final(values)@.len(),
        final(values)@[result.0 as int] == value,
        result.1 <==> !old(values)@.contains(value),
        result.1 ==> final(values)@ == old(values)@.insert(result.0 as int, value)
            && final(values)@.len() == old(values)@.len() + 1,
        !result.1 ==> final(values)@ == old(values)@,
        forall|v: u64| #[trigger] final(values)@.contains(v) <==> old(values)@.contains(v) || v == value,
{
    let ghost before = values@;
    let (place, found) = search(values.as_slice(), value);
    if found {
        assert(before.contains(value));
        return (place, false);
    }
    proof {
        if before.contains(value) {
            let i = choose|i: int| 0 <= i < before.len() && before[i] == value;
            assert(before[i] == value);
        }
    }
    values.insert(place, value);
    proof {
        let after = values@;
        let k = place as int;
        assert forall|i: int, j: int| 0 <= i < j < after.len() implies #[trigger] after[i]
            < #[trigger] after[j] by {
            let fi = if i < k {
                i
            } else {
                i - 1
            };
            let fj = if j < k {
                j
            } else {
                j - 1
            };
            if i != k && j != k {
                assert(before[fi] < before[fj]);
            } else if i == k {
                assert(before[fj] > value);
            } else {
                assert(before[fi] < value);
            }
        }
        assert forall|v: u64| #[trigger] after.contains(v) <==> before.contains(v) || v
            == value by {
            if after.contains(v) {
                let i = choose|i: int| 0 <= i < after.len() && after[i] == v;
                if i < k {
                    assert(before[i] == v);
                } else if i > k {
                    assert(before[i - 1] == v);
                }
            }
            if before.contains(v) {
                let i = choose|i: int| 0 <= i < before.len() && before[i] == v;
                if i < k {
                    assert(after[i] == v);
                } else {
                    assert(after[i + 1] == v);
                }
            }
            if v == value {
                assert(after[k] == v);
            }
        }
    }
    (place, true)
}

/// A key stands before another: at the first place where they differ it has the smaller
/// number, or it is the beginning of the other.
pub open spec fn lex_below(left: Seq<u64>, right: Seq<u64>) -> bool {
    exists|k: int|
        0 <= k <= left.len() && k <= right.len() && #[trigger] left.take(k) == right.take(k) && (if k
            < left.len() && k < right.len() {
            left[k] < right[k]
        } else {
            k == left.len() && k < right.len()
        })
}

/// How one key stands to another.
pub enum Side {
    Before,
    Same,
    After,
}

pub(crate) fn compare_keys(left: &[u64], right: &[u64]) -> (side: Side)
    ensures
        match side {
            Side::Before => lex_below(left@, right@),
            Side::Same => left@ == right@,
            Side::After => lex_below(right@, left@),
        },
{
    let mut k: usize = 0;
    while k < left.len() && k < right.len()
        invariant
            k <= left.len(),
            k <= right.len(),
            left@.take(k as int) == right@.take(k as int),
        decreases left.len() - k,
    {
        if left[k] < right[k] {
            assert(left@.take(k as int) == right@.take(k as int));
            return Side::Before;
        }
        if left[k] > right[k] {
            assert(right@.take(k as int) == left@.take(k as int));
            return Side::After;
        }
        proof {
            assert(left@.take(k + 1) =~= left@.take(k as int).push(left@[k as int]));
            assert(right@.take(k + 1) =~= right@.take(k as int).push(right@[k as int]));
        }
        k += 1;
    }
    if k < right.len() {
        assert(left@.take(k as int) == right@.take(k as int));
        Side::Before
    } else if k < left.len() {
        assert(right@.take(k as int) == left@.take(k as int));
        Side::After
    } else {
        assert(left@.take(k as int) =~= left@);
        assert(right@.take(k as int) =~= right@);
        Side::Same
    }
}

proof fn lemma_take_take(s: Seq<u64>, a: int, b: int)
    requires
        0 <= a <= b <= s.len(),
    ensures
        s.take(b).take(a) == s.take(a),
{
    assert(s.take(b).take(a) =~= s.take(a));
}

pub proof fn lemma_lex_transitive(a: Seq<u64>, b: Seq<u64>, c: Seq<u64>)
    requires
        lex_below(a, b),
        lex_below(b, c),
    ensures
        lex_below(a, c),
{
    let i = choose|k: int|
        0 <= k <= a.len() && k <= b.len() && #[trigger] a.take(k) == b.take(k) && (if k < a.len() && k
            < b.len() {
            a[k] < b[k]
        } else {
            k == a.len() && k < b.len()
        });
    let j = choose|k: int|
        0 <= k <= b.len() && k <= c.len() && #[trigger] b.take(k) == c.take(k) && (if k < b.len() && k
            < c.len() {
            b[k] < c[k]
        } else {
            k == b.len() && k < c.len()
        });
    let k = if i <= j {
        i
    } else {
        j
    };
    lemma_take_take(a, k, i);
    lemma_take_take(b, k, i);
    lemma_take_take(b, k, j);
    lemma_take_take(c, k, j);
    assert(a.take(k) == c.take(k));
    if i < j {
        assert(b.take(j)[i] == c.take(j)[i]);
    } else if j < i {
        assert(a.take(i)[j] == b.take(i)[j]);
    }
}

pub proof fn lemma_lex_irreflexive(a: Seq<u64>)
    ensures
        !lex_below(a, a),
{
}

/// Values listed under keys, in the order of the keys.
#[derive(Debug)]
pub struct Groups<V> {
    pub entries: Vec<(Vec<u64>, Vec<V>)>,
}

/// The keys stand in order, and none stands twice.
pub open spec fn entries_ordered<V>(entries: Seq<(Vec<u64>, Vec<V>)>) -> bool {
    forall|i: int, j: int|
        0 <= i < j < entries.len() ==> lex_below(
            (#[trigger] entries[i]).0@,
            (#[trigger] entries[j]).0@,
        )
}

impl<V> Groups<V> {
    pub open spec fn wf(&self) -> bool {
        &&& entries_ordered(self.entries@)
        &&& forall|i: int| 0 <= i < self.entries@.len() ==> (#[trigger] self.entries@[i]).1@.len() > 0
    }

    /// What is listed under a key.
    pub open spec fn listed(&self, key: Seq<u64>) -> Seq<V> {
        if exists|i: int| 0 <= i < self.entries@.len() && (#[trigger] self.entries@[i]).0@ == key {
            self.entries@[choose|i: int|
                0 <= i < self.entries@.len() && (#[trigger] self.entries@[i]).0@ == key].1@
        } else {
            Seq::empty()
        }
    }

    pub proof fn lemma_listed(&self, i: int)
        requires
            self.wf(),
            0 <= i < self.entries@.len(),
        ensures
            self.listed(self.entries@[i].0@) == self.entries@[i].1@,
    {
        let key = self.entries@[i].0@;
        let j = choose|j: int| 0 <= j < self.entries@.len() && (#[trigger] self.entries@[j]).0@ == key;
        lemma_lex_irreflexive(key);
        if i < j {
            assert(lex_below(self.entries@[i].0@, self.entries@[j].0@));
        } else if j < i {
            assert(lex_below(self.entries@[j].0@, self.entries@[i].0@));
        }
    }

    pub fn new() -> (groups: Self)
        ensures
            groups.wf(),
            groups.entries@.len() == 0,
    {
        Groups { entries: Vec::new() }
    }

    pub fn len(&self) -> (len: usize)
        ensures
            len == self.entries@.len(),
    {
        self.entries.len()
    }

    fn locate(&self, key: &[u64]) -> (result: (usize, bool))
        requires
            self.wf(),
        ensures
            result.0 <= self.entries@.len(),
            forall|i: int| 0 <= i < result.0 ==> lex_below((#[trigger] self.entries@[i]).0@, key@),
            result.1 ==> result.0 < self.entries@.len() && self.entries@[result.0 as int].0@ == key@,
            !result.1 ==> forall|i: int|
                result.0 <= i < self.entries@.len() ==> lex_below(
                    key@,
                    (#[trigger] self.entries@[i]).0@,
                ),
    {
        let mut low: usize = 0;
        let mut high: usize = self.entries.len();
        while low < high
            invariant
                low <= high <= self.entries@.len(),
                self.wf(),
                forall|i: int| 0 <= i < low ==> lex_below((#[trigger] self.entries@[i]).0@, key@),
                forall|i: int|
                    high <= i < self.entries@.len() ==> lex_below(
                        key@,
                        (#[trigger] self.entries@[i]).0@,
                    ),
            decreases high - low,
        {
            let mid: usize = low + (high - low) / 2;
            let ghost middle = self.entries@[mid as int].0@;
            match compare_keys(self.entries[mid].0.as_slice(), key) {
                Side::Same => {
                    assert forall|i: int| 0 <= i < mid implies lex_below(
                        (#[trigger] self.entries@[i]).0@,
                        key@,
                    ) by {
                        assert(lex_below(self.entries@[i].0@, self.entries@[mid as int].0@));
                    }
                    return (mid, true);
                },
                Side::Before => {
                    assert forall|i: int| 0 <= i < mid + 1 implies lex_below(
                        (#[trigger] self.entries@[i]).0@,
                        key@,
                    ) by {
                        if i < mid {
                            assert(lex_below(self.entries@[i].0@, self.entries@[mid as int].0@));
                            lemma_lex_transitive(self.entries@[i].0@, middle, key@);
                        }
                    }
                    low = mid + 1;
                },
                Side::After => {
                    assert forall|i: int| mid <= i < self.entries@.len() implies lex_below(
                        key@,
                        (#[trigger] self.entries@[i]).0@,
                    ) by {
                        if i > mid {
                            assert(lex_below(self.entries@[mid as int].0@, self.entries@[i].0@));
                            lemma_lex_transitive(key@, middle, self.entries@[i].0@);
                        }
                    }
                    high = mid;
                },
            }
        }
        (low, false)
    }

    /// Which entry is that of a key.
    pub fn find_key(&self, key: &[u64]) -> (place: Option<usize>)
        requires
            self.wf(),
        ensures
            place is Some <==> self.listed(key@).len() > 0,
            place matches Some(place) ==> place < self.entries@.len()
                && self.entries@[place as int].0@ == key@,
    {
        let (place, found) = self.locate(key);
        proof {
            if found {
                self.lemma_listed(place as int);
            } else {
                assert forall|i: int| 0 <= i < self.entries@.len() implies (
                #[trigger] self.entries@[i]).0@ != key@ by {
                    lemma_lex_irreflexive(key@);
                    if i < place {
                        assert(lex_below(self.entries@[i].0@, key@));
                    } else {
                        assert(lex_below(key@, self.entries@[i].0@));
                    }
                }
            }
        }
        if found {
            Some(place)
        } else {
            None
        }
    }

    /// List one more value under a key. Gives the entry, and whether it is new.
    pub fn push(&mut self, key: Vec<u64>, value: V) -> (result: (usize, bool))
        requires
            old(self).wf(),
        ensures
            final(self).wf(),
            pushed(old(self).entries@, final(self).entries@, key@, value, result.0 as int, result.1),
            final(self).listed(key@) == old(self).listed(key@).push(value),
            forall|other: Seq<u64>|
                other != key@ ==> #[trigger] final(self).listed(other) == old(self).listed(other),
            final(self).entries@.len() <= old(self).entries@.len() + 1,
            forall|i: int|
                0 <= i < final(self).entries@.len() ==> (#[trigger] final(self).entries@[i]).0@ == key@
                    || old(self).listed(final(self).entries@[i].0@).len() > 0,
            entry_total(final(self).entries@) == entry_total(old(self).entries@) + 1,
    {
        let ghost before = *self;
        let ghost name = key@;
        let (at, found) = self.locate(key.as_slice());
        if found {
            let mut entry = self.entries.remove(at);
            entry.1.push(value);
            self.entries.insert(at, entry);
        } else {
            let mut values: Vec<V> = Vec::new();
            values.push(value);
            self.entries.insert(at, (key, values));
        }
        proof {
            let k = at as int;
            let old_entries = before.entries@;
            let entries = self.entries@;
            assert(entries[k].0@ == name);
            assert(entries[k].1@ == (if found {
                old_entries[k].1@
            } else {
                Seq::empty()
            }).push(value));
            assert forall|g: int| 0 <= g < entries.len() && g != k implies ({
                let from = if found || g < k {
                    g
                } else {
                    g - 1
                };
                0 <= from < old_entries.len() && #[trigger] entries[g] == old_entries[from]
            }) by {}
            assert forall|i: int, j: int| 0 <= i < j < entries.len() implies lex_below(
                (#[trigger] entries[i]).0@,
                (#[trigger] entries[j]).0@,
            ) by {
                let fi = if found || i < k {
                    i
                } else {
                    i - 1
                };
                let fj = if found || j < k {
                    j
                } else {
                    j - 1
                };
                if i == k {
                    assert(entries[j] == old_entries[fj]);
                    if found {
                        assert(lex_below(old_entries[k].0@, old_entries[j].0@));
                    }
                } else if j == k {
                    assert(entries[i] == old_entries[fi]);
                } else {
                    assert(entries[i] == old_entries[fi]);
                    assert(entries[j] == old_entries[fj]);
                    assert(lex_below(old_entries[fi].0@, old_entries[fj].0@));
                }
            }
            assert forall|i: int| 0 <= i < entries.len() implies (#[trigger] entries[i]).1@.len()
                > 0 by {
                if i != k {
                    let from = if found || i < k {
                        i
                    } else {
                        i - 1
                    };
                    assert(entries[i] == old_entries[from]);
                }
            }
            assert(self.wf());
            self.lemma_listed(k);
            if found {
                before.lemma_listed(k);
            } else {
                assert forall|i: int| 0 <= i < old_entries.len() implies (
                #[trigger] old_entries[i]).0@ != name by {
                    lemma_lex_irreflexive(name);
                    if i < k {
                        assert(lex_below(old_entries[i].0@, name));
                    } else {
                        assert(lex_below(name, old_entries[i].0@));
                    }
                }
            }
            assert forall|other: Seq<u64>| other != name implies #[trigger] self.listed(other)
                == before.listed(other) by {
                if exists|i: int|
                    0 <= i < old_entries.len() && (#[trigger] old_entries[i]).0@ == other {
                    let i = choose|i: int|
                        0 <= i < old_entries.len() && (#[trigger] old_entries[i]).0@ == other;
                    let to = if found || i < k {
                        i
                    } else {
                        i + 1
                    };
                    assert(to != k) by {
                        if to == k {
                            assert(old_entries[i].0@ == name);
                        }
                    }
                    assert(entries[to] == old_entries[i]);
                    self.lemma_listed(to);
                    before.lemma_listed(i);
                } else {
                    assert forall|g: int| 0 <= g < entries.len() implies (
                    #[trigger] entries[g]).0@ != other by {
                        if g != k {
                            let from = if found || g < k {
                                g
                            } else {
                                g - 1
                            };
                            assert(entries[g] == old_entries[from]);
                        }
                    }
                }
            }
            assert forall|i: int| 0 <= i < entries.len() implies (#[trigger] entries[i]).0@ == name
                || before.listed(entries[i].0@).len() > 0 by {
                if i != k {
                    let from = if found || i < k {
                        i
                    } else {
                        i - 1
                    };
                    assert(entries[i] == old_entries[from]);
                    before.lemma_listed(from);
                }
            }
            assert(Seq::<V>::empty().push(value) =~= seq![value]);
            if found {
                assert(entries =~= old_entries.update(k, entries[k]));
                lemma_total_update(old_entries, k, entries[k]);
            } else {
                assert(entries =~= old_entries.insert(k, entries[k]));
                lemma_total_insert(old_entries, k, entries[k]);
            }
        }
        (at, !found)
    }
}

/// How a list of entries changes when a value is listed under a key.
pub open spec fn pushed<V>(
    before: Seq<(Vec<u64>, Vec<V>)>,
    after: Seq<(Vec<u64>, Vec<V>)>,
    key: Seq<u64>,
    value: V,
    at: int,
    fresh: bool,
) -> bool {
    &&& 0 <= at < after.len()
    &&& after[at].0@ == key
    &&& if fresh {
        &&& after == before.insert(at, after[at])
        &&& at <= before.len()
        &&& after[at].1@ == seq![value]
    } else {
        &&& after == before.update(at, after[at])
        &&& at < before.len()
        &&& before[at].0@ == key
        &&& after[at].1@ == before[at].1@.push(value)
    }
}

/// How many values are listed altogether.
pub open spec fn entry_total<V>(entries: Seq<(Vec<u64>, Vec<V>)>) -> int
    decreases entries.len(),
{
    if entries.len() == 0 {
        0
    } else {
        entry_total(entries.drop_last()) + entries.last().1@.len()
    }
}

proof fn lemma_total_update<V>(
    entries: Seq<(Vec<u64>, Vec<V>)>,
    at: int,
    entry: (Vec<u64>, Vec<V>),
)
    requires
        0 <= at < entries.len(),
    ensures
        entry_total(entries.update(at, entry)) == entry_total(entries) - entries[at].1@.len()
            + entry.1@.len(),
    decreases entries.len(),
{
    let changed = entries.update(at, entry);
    if at == entries.len() - 1 {
        assert(changed.drop_last() =~= entries.drop_last());
    } else {
        assert(changed.drop_last() =~= entries.drop_last().update(at, entry));
        lemma_total_update(entries.drop_last(), at, entry);
    }
}

proof fn lemma_total_insert<V>(
    entries: Seq<(Vec<u64>, Vec<V>)>,
    at: int,
    entry: (Vec<u64>, Vec<V>),
)
    requires
        0 <= at <= entries.len(),
    ensures
        entry_total(entries.insert(at, entry)) == entry_total(entries) + entry.1@.len(),
    decreases entries.len(),
{
    let longer = entries.insert(at, entry);
    if at == entries.len() {
        assert(longer.drop_last() =~= entries);
    } else {
        assert(longer.drop_last() =~= entries.drop_last().insert(at, entry));
        lemma_total_insert(entries.drop_last(), at, entry);
    }
}

impl<V: Copy> Groups<V> {
    /// List more values under a key.
    pub fn extend(&mut self, key: &[u64], values: &[V])
        requires
            old(self).wf(),
        ensures
            final(self).wf(),
            final(self).listed(key@) == old(self).listed(key@) + values@,
            forall|other: Seq<u64>|
                other != key@ ==> #[trigger] final(self).listed(other) == old(self).listed(other),
    {
        let ghost before = *self;
        let mut i: usize = 0;
        proof {
            assert(before.listed(key@) + values@.take(0) =~= before.listed(key@));
        }
        while i < values.len()
            invariant
                i <= values.len(),
                self.wf(),
                self.listed(key@) == before.listed(key@) + values@.take(i as int),
                forall|other: Seq<u64>|
                    other != key@ ==> #[trigger] self.listed(other) == before.listed(other),
            decreases values.len() - i,
        {
            self.push(slice_to_vec(key), values[i]);
            proof {
                assert((before.listed(key@) + values@.take(i as int)).push(values@[i as int])
                    =~= before.listed(key@) + values@.take(i + 1));
            }
            i += 1;
        }
        assert(values@.take(i as int) =~= values@);
    }
}

} // verus!

//! The table of statistics, one per key.

use crate::decimal::Decimal;
use crate::error::Error;
use crate::order::{lemma_lex_irreflexive, lemma_lex_total, lex_less, same_bytes};
use crate::stats::{Statistic, Summary};
use itertools::Itertools;
use vstd::prelude::*;
use vstd::seq_lib::to_multiset_contains;
use vstd::seq_lib::to_multiset_len;
use vstd::slice::slice_to_vec;

verus! {

/// A key and what was seen under it.
#[derive(Clone, Debug, PartialEq, Eq)]
pub struct Entry {
    pub key: Vec<u8>,
    pub stat: Statistic,
}

/// Some entry has the key `key`.
pub open spec fn holds_key(entries: Seq<Entry>, key: Seq<u8>) -> bool {
    exists|i: int| 0 <= i < entries.len() && (#[trigger] entries[i]).key@ == key
}

/// The index of an entry with the key `key`.
pub open spec fn position_of(entries: Seq<Entry>, key: Seq<u8>) -> int {
    choose|i: int| 0 <= i < entries.len() && (#[trigger] entries[i]).key@ == key
}

/// No key stands in two entries.
pub open spec fn distinct_keys(entries: Seq<Entry>) -> bool {
    forall|i: int, j: int|
        0 <= i < j < entries.len() ==> (#[trigger] entries[i]).key@ != (#[trigger] entries[j]).key@
}

/// Every statistic is well-formed.
pub open spec fn sound_stats(entries: Seq<Entry>) -> bool {
    forall|i: int| 0 <= i < entries.len() ==> (#[trigger] entries[i]).stat.wf()
}

/// The mapping that a list of entries stands for.
pub open spec fn table_of(entries: Seq<Entry>) -> Map<Seq<u8>, Summary> {
    Map::new(
        |key: Seq<u8>| holds_key(entries, key),
        |key: Seq<u8>| entries[position_of(entries, key)].stat@,
    )
}

/// With distinct keys, each entry is what the table holds under its key.
pub proof fn lemma_table_entry(entries: Seq<Entry>, i: int)
    requires
        distinct_keys(entries),
        0 <= i < entries.len(),
    ensures
        holds_key(entries, entries[i].key@),
        position_of(entries, entries[i].key@) == i,
        table_of(entries).contains_key(entries[i].key@),
        table_of(entries)[entries[i].key@] == entries[i].stat@,
{
    let key = entries[i].key@;
    let at = position_of(entries, key);
    assert(0 <= at < entries.len() && entries[at].key@ == key);
    if at < i {
        assert(entries[at].key@ != entries[i].key@);
    } else if i < at {
        assert(entries[i].key@ != entries[at].key@);
    }
}

/// The table after a value `v` was seen under `key`.
pub open spec fn table_with(table: Map<Seq<u8>, Summary>, key: Seq<u8>, v: int) -> Map<
    Seq<u8>,
    Summary,
> {
    if table.contains_key(key) {
        table.insert(key, table[key].absorb(v))
    } else {
        table.insert(key, Summary::single(v))
    }
}

/// The keys stand in strictly ascending order.
pub open spec fn ascending(entries: Seq<Entry>) -> bool {
    forall|i: int, j: int|
        0 <= i < j < entries.len() ==> lex_less(
            (#[trigger] entries[i]).key@,
            (#[trigger] entries[j]).key@,
        )
}

/// Keys in strictly ascending order are distinct.
pub proof fn lemma_ascending_is_distinct(entries: Seq<Entry>)
    requires
        ascending(entries),
    ensures
        distinct_keys(entries),
{
    assert forall|i: int, j: int| 0 <= i < j < entries.len() implies (#[trigger] entries[i]).key@
        != (#[trigger] entries[j]).key@ by {
        lemma_lex_irreflexive(entries[i].key@);
    }
}

/// `Itertools::sorted_by_key`, keyed by each entry's key. It collects the
/// entries, sorts them with the standard stable sort by the key's own order,
/// which for byte vectors is the lexicographic one, and hands them back: the
/// result holds the same entries, and no entry stands before one with a
/// smaller key.
#[verifier::external_body]
fn sorted_by_key(entries: Vec<Entry>) -> (sorted: Vec<Entry>)
    ensures
        sorted@.to_multiset() == entries@.to_multiset(),
        forall|i: int, j: int|
            0 <= i < j < sorted@.len() ==> !lex_less(
                (#[trigger] sorted@[j]).key@,
                (#[trigger] sorted@[i]).key@,
            ),
{
    entries.into_iter().sorted_by_key(|entry| entry.key.clone()).collect()
}

/// Sorting entries with distinct keys changes their order and nothing else:
/// the keys then ascend strictly, and the table is the same.
pub proof fn lemma_sorted_is_the_table(entries: Seq<Entry>, sorted: Seq<Entry>)
    requires
        distinct_keys(entries),
        sorted.to_multiset() == entries.to_multiset(),
        forall|i: int, j: int|
            0 <= i < j < sorted.len() ==> !lex_less(
                (#[trigger] sorted[j]).key@,
                (#[trigger] sorted[i]).key@,
            ),
    ensures
        sorted.len() == entries.len(),
        ascending(sorted),
        table_of(sorted) == table_of(entries),
        sound_stats(entries) ==> sound_stats(sorted),
{
    to_multiset_len(sorted);
    to_multiset_len(entries);
    assert forall|i: int| 0 <= i < sorted.len() implies entries.contains(#[trigger] sorted[i]) by {
        assert(sorted.contains(sorted[i]));
        to_multiset_contains(sorted, sorted[i]);
        to_multiset_contains(entries, sorted[i]);
    }
    assert forall|i: int| 0 <= i < entries.len() implies sorted.contains(#[trigger] entries[i]) by {
        assert(entries.contains(entries[i]));
        to_multiset_contains(sorted, entries[i]);
        to_multiset_contains(entries, entries[i]);
    }
    assert(entries.no_duplicates()) by {
        assert forall|i: int, j: int|
            0 <= i < entries.len() && 0 <= j < entries.len() && i != j implies entries[i]
            != entries[j] by {
            if i < j {
                assert(entries[i].key@ != entries[j].key@);
            } else {
                assert(entries[j].key@ != entries[i].key@);
            }
        }
    }
    entries.lemma_multiset_has_no_duplicates();
    sorted.lemma_multiset_has_no_duplicates_conv();
    assert forall|i: int, j: int| 0 <= i < j < sorted.len() implies lex_less(
        (#[trigger] sorted[i]).key@,
        (#[trigger] sorted[j]).key@,
    ) by {
        let a = choose|a: int| 0 <= a < entries.len() && entries[a] == sorted[i];
        let b = choose|b: int| 0 <= b < entries.len() && entries[b] == sorted[j];
        assert(sorted[i] != sorted[j]);
        if a < b {
            assert(entries[a].key@ != entries[b].key@);
        } else if b < a {
            assert(entries[b].key@ != entries[a].key@);
        }
        lemma_lex_total(sorted[i].key@, sorted[j].key@);
    }
    lemma_ascending_is_distinct(sorted);
    assert forall|k: Seq<u8>| #[trigger] holds_key(sorted, k) <==> holds_key(entries, k) by {
        if holds_key(sorted, k) {
            let i = position_of(sorted, k);
            let a = choose|a: int| 0 <= a < entries.len() && entries[a] == sorted[i];
            assert(entries[a].key@ == k);
        }
        if holds_key(entries, k) {
            let a = position_of(entries, k);
            let i = choose|i: int| 0 <= i < sorted.len() && sorted[i] == entries[a];
            assert(sorted[i].key@ == k);
        }
    }
    assert forall|k: Seq<u8>| holds_key(sorted, k) implies #[trigger] table_of(sorted)[k]
        == table_of(entries)[k] by {
        let i = position_of(sorted, k);
        let a = choose|a: int| 0 <= a < entries.len() && entries[a] == sorted[i];
        lemma_table_entry(sorted, i);
        lemma_table_entry(entries, a);
    }
    assert(table_of(sorted) =~= table_of(entries));
    if sound_stats(entries) {
        assert forall|i: int| 0 <= i < sorted.len() implies (#[trigger] sorted[i]).stat.wf() by {
            let a = choose|a: int| 0 <= a < entries.len() && entries[a] == sorted[i];
            assert(entries[a].stat.wf());
        }
    }
}

/// A new entry under a fresh key adds that key to the table.
pub proof fn lemma_table_push(entries: Seq<Entry>, entry: Entry)
    requires
        distinct_keys(entries),
        !holds_key(entries, entry.key@),
    ensures
        distinct_keys(entries.push(entry)),
        table_of(entries.push(entry)) == table_of(entries).insert(entry.key@, entry.stat@),
{
    let after = entries.push(entry);
    assert forall|i: int, j: int| 0 <= i < j < after.len() implies (#[trigger] after[i]).key@ != (
    #[trigger] after[j]).key@ by {
        if j < entries.len() {
            assert(entries[i].key@ != entries[j].key@);
        } else {
            assert(entries[i].key@ != entry.key@);
        }
    }
    assert forall|k: Seq<u8>| #[trigger]
        holds_key(after, k) <==> (holds_key(entries, k) || k == entry.key@) by {
        if holds_key(after, k) {
            let i = position_of(after, k);
            if i < entries.len() {
                assert(entries[i].key@ == k);
            }
        }
        if holds_key(entries, k) {
            let i = position_of(entries, k);
            assert(after[i].key@ == k);
        }
        if k == entry.key@ {
            assert(after[entries.len() as int].key@ == k);
        }
    }
    assert forall|k: Seq<u8>| holds_key(after, k) implies #[trigger] table_of(after)[k]
        == table_of(entries).insert(entry.key@, entry.stat@)[k] by {
        let i = position_of(after, k);
        lemma_table_entry(after, i);
        if i < entries.len() {
            assert(entries[i] == after[i]);
            lemma_table_entry(entries, i);
        }
    }
    assert(table_of(after) =~= table_of(entries).insert(entry.key@, entry.stat@));
}

/// A changed statistic changes the table under that entry's key alone.
pub proof fn lemma_table_update(entries: Seq<Entry>, at: int, entry: Entry)
    requires
        distinct_keys(entries),
        0 <= at < entries.len(),
        entry.key@ == entries[at].key@,
    ensures
        distinct_keys(entries.update(at, entry)),
        table_of(entries.update(at, entry)) == table_of(entries).insert(entry.key@, entry.stat@),
{
    let after = entries.update(at, entry);
    assert forall|i: int| 0 <= i < after.len() implies (#[trigger] after[i]).key@
        == entries[i].key@ by {}
    assert forall|i: int, j: int| 0 <= i < j < after.len() implies (#[trigger] after[i]).key@ != (
    #[trigger] after[j]).key@ by {
        assert(entries[i].key@ != entries[j].key@);
    }
    assert forall|k: Seq<u8>| #[trigger] holds_key(after, k) <==> holds_key(entries, k) by {
        if holds_key(after, k) {
            let i = position_of(after, k);
            assert(entries[i].key@ == k);
        }
        if holds_key(entries, k) {
            let i = position_of(entries, k);
            assert(after[i].key@ == k);
        }
    }
    lemma_table_entry(entries, at);
    assert forall|k: Seq<u8>| holds_key(after, k) implies #[trigger] table_of(after)[k]
        == table_of(entries).insert(entry.key@, entry.stat@)[k] by {
        let i = position_of(after, k);
        lemma_table_entry(after, i);
        lemma_table_entry(entries, i);
    }
    assert(table_of(after) =~= table_of(entries).insert(entry.key@, entry.stat@));
}

/// Two tables taken together: a key of both has the two summaries combined,
/// a key of one keeps its summary.
pub open spec fn merged(a: Map<Seq<u8>, Summary>, b: Map<Seq<u8>, Summary>) -> Map<
    Seq<u8>,
    Summary,
> {
    Map::new(
        |key: Seq<u8>| a.contains_key(key) || b.contains_key(key),
        |key: Seq<u8>|
            if a.contains_key(key) && b.contains_key(key) {
                a[key].combine(b[key])
            } else if a.contains_key(key) {
                a[key]
            } else {
                b[key]
            },
    )
}

/// No key of both tables has more sightings together than a counter can tell.
pub open spec fn mergeable(a: Map<Seq<u8>, Summary>, b: Map<Seq<u8>, Summary>) -> bool {
    forall|key: Seq<u8>|
        a.contains_key(key) && b.contains_key(key) ==> a[key].count + b[key].count <= u64::MAX
}

/// Merging in one more entry of the other table, under a key that none of
/// its earlier entries had, changes the merged table under that key alone.
pub proof fn lemma_merged_step(
    a: Map<Seq<u8>, Summary>,
    b: Map<Seq<u8>, Summary>,
    key: Seq<u8>,
    summary: Summary,
)
    requires
        !b.contains_key(key),
    ensures
        merged(a, b).contains_key(key) <==> a.contains_key(key),
        a.contains_key(key) ==> merged(a, b)[key] == a[key],
        merged(a, b.insert(key, summary)) == merged(a, b).insert(
            key,
            if a.contains_key(key) {
                a[key].combine(summary)
            } else {
                summary
            },
        ),
        mergeable(a, b.insert(key, summary)) <==> mergeable(a, b) && (a.contains_key(key)
            ==> a[key].count + summary.count <= u64::MAX),
{
    let b2 = b.insert(key, summary);
    assert(merged(a, b2) =~= merged(a, b).insert(
        key,
        if a.contains_key(key) {
            a[key].combine(summary)
        } else {
            summary
        },
    ));
    if mergeable(a, b2) {
        assert forall|k: Seq<u8>| a.contains_key(k) && b.contains_key(k) implies a[k].count
            + b[k].count <= u64::MAX by {
            assert(b2.contains_key(k) && b2[k] == b[k]);
        }
        if a.contains_key(key) {
            assert(b2.contains_key(key));
        }
    }
    if mergeable(a, b) && (a.contains_key(key) ==> a[key].count + summary.count <= u64::MAX) {
        assert forall|k: Seq<u8>| a.contains_key(k) && b2.contains_key(k) implies a[k].count
            + b2[k].count <= u64::MAX by {
            if k != key {
                assert(b.contains_key(k));
            }
        }
    }
}

/// Running statistics per key, in the order in which the keys were first seen.
#[derive(Debug)]
pub struct Aggregator {
    entries: Vec<Entry>,
}

impl View for Aggregator {
    type V = Map<Seq<u8>, Summary>;

    closed spec fn view(&self) -> Map<Seq<u8>, Summary> {
        table_of(self.entries@)
    }
}

impl Aggregator {
    /// No key stands twice, and every statistic is well-formed.
    pub closed spec fn wf(&self) -> bool {
        distinct_keys(self.entries@) && sound_stats(self.entries@)
    }

    /// An aggregator that has seen nothing.
    pub fn new() -> (agg: Aggregator)
        ensures
            agg.wf(),
            agg@ == Map::<Seq<u8>, Summary>::empty(),
    {
        let agg = Aggregator { entries: Vec::new() };
        assert(agg@ =~= Map::<Seq<u8>, Summary>::empty());
        agg
    }

    /// The index of the entry for `key`; the number of entries where there is
    /// none.
    fn find(&self, key: &[u8]) -> (at: usize)
        ensures
            at <= self.entries@.len(),
            at < self.entries@.len() ==> self.entries@[at as int].key@ == key@,
            at == self.entries@.len() ==> !holds_key(self.entries@, key@),
    {
        let mut at: usize = 0;
        while at < self.entries.len()
            invariant
                at <= self.entries@.len(),
                forall|i: int| 0 <= i < at ==> (#[trigger] self.entries@[i]).key@ != key@,
            decreases self.entries@.len() - at,
        {
            if same_bytes(self.entries[at].key.as_slice(), key) {
                return at;
            }
            at += 1;
        }
        at
    }

    /// The statistic under `key`, if the key was seen.
    pub fn get(&self, key: &[u8]) -> (found: Option<Statistic>)
        requires
            self.wf(),
        ensures
            self@.contains_key(key@) ==> found is Some && found.unwrap()@ == self@[key@]
                && found.unwrap().wf(),
            !self@.contains_key(key@) ==> found is None,
    {
        let at = self.find(key);
        if at < self.entries.len() {
            proof {
                lemma_table_entry(self.entries@, at as int);
            }
            Some(self.entries[at].stat)
        } else {
            None
        }
    }

    /// Takes in one value under `key`: the first sighting makes a statistic of
    /// that value alone, each later one updates it. The one failure is a
    /// count that has run out; the table is then left as it was.
    pub fn record(&mut self, key: &[u8], value: Decimal) -> (res: Result<(), Error>)
        requires
            old(self).wf(),
        ensures
            final(self).wf(),
            old(self)@.contains_key(key@) && old(self)@[key@].count >= u64::MAX ==> res == Err::<
                (),
                Error,
            >(Error::CountOverflow) && final(self)@ == old(self)@,
            !(old(self)@.contains_key(key@) && old(self)@[key@].count >= u64::MAX) ==> res is Ok
                && final(self)@ == table_with(old(self)@, key@, value.value()),
    {
        let ghost before = self.entries@;
        let at = self.find(key);
        if at == self.entries.len() {
            let entry = Entry { key: slice_to_vec(key), stat: Statistic::first(value) };
            proof {
                lemma_table_push(before, entry);
            }
            self.entries.push(entry);
            return Ok(());
        }
        proof {
            lemma_table_entry(before, at as int);
        }
        let mut stat = self.entries[at].stat;
        match stat.update(value) {
            Ok(()) => {},
            Err(e) => {
                return Err(e);
            },
        }
        self.entries[at].stat = stat;
        proof {
            lemma_table_update(before, at as int, self.entries@[at as int]);
            assert(self.entries@ =~= before.update(at as int, self.entries@[at as int]));
        }
        Ok(())
    }

    /// Takes in another table, as a worker's partial result: a key of both
    /// gets the two statistics combined, a key of one keeps its own. Fails
    /// where a combined count would run out.
    pub fn merge(self, other: &Aggregator) -> (res: Result<Aggregator, Error>)
        requires
            self.wf(),
            other.wf(),
        ensures
            mergeable(self@, other@) ==> res is Ok && res.unwrap().wf() && res.unwrap()@ == merged(
                self@,
                other@,
            ),
            !mergeable(self@, other@) ==> res == Err::<Aggregator, Error>(Error::CountOverflow),
    {
        let ghost mine = self@;
        let ghost theirs = other.entries@;
        let mut into = self;
        let mut j: usize = 0;
        proof {
            assert(theirs.take(0) =~= Seq::<Entry>::empty());
            assert(into@ =~= merged(mine, table_of(theirs.take(0))));
        }
        while j < other.entries.len()
            invariant
                j <= theirs.len(),
                mine == self@,
                theirs == other.entries@,
                distinct_keys(theirs),
                sound_stats(theirs),
                into.wf(),
                into@ == merged(mine, table_of(theirs.take(j as int))),
                mergeable(mine, table_of(theirs.take(j as int))),
            decreases theirs.len() - j,
        {
            let ghost done = theirs.take(j as int);
            let ghost next = theirs.take(j + 1);
            let ghost before = into.entries@;
            let key = other.entries[j].key.as_slice();
            let stat = other.entries[j].stat;
            proof {
                assert(next =~= done.push(theirs[j as int]));
                assert(distinct_keys(done)) by {
                    assert forall|a: int, b: int| 0 <= a < b < done.len() implies (
                    #[trigger] done[a]).key@ != (#[trigger] done[b]).key@ by {
                        assert(theirs[a].key@ != theirs[b].key@);
                    }
                }
                assert(!holds_key(done, key@)) by {
                    if holds_key(done, key@) {
                        let a = position_of(done, key@);
                        assert(theirs[a].key@ != theirs[j as int].key@);
                    }
                }
                lemma_table_push(done, theirs[j as int]);
                lemma_table_entry(theirs, j as int);
            }
            let at = into.find(key);
            if at == into.entries.len() {
                let entry = Entry { key: slice_to_vec(key), stat };
                proof {
                    lemma_table_push(before, entry);
                    assert(before.push(entry).last().stat.wf());
                }
                into.entries.push(entry);
                proof {
                    lemma_merged_step(mine, table_of(done), key@, stat@);
                    assert(into@ =~= merged(mine, table_of(next)));
                }
            } else {
                proof {
                    lemma_table_entry(before, at as int);
                }
                let mut sum = into.entries[at].stat;
                match sum.merge(&stat) {
                    Ok(()) => {},
                    Err(e) => {
                        proof {
                            lemma_merged_step(mine, table_of(done), key@, stat@);
                            assert(table_of(before).contains_key(key@));
                            assert(mine.contains_key(key@) && other@.contains_key(key@));
                            assert(mine[key@] == before[at as int].stat@);
                            assert(other@[key@] == stat@);
                            assert(mine[key@].count + other@[key@].count > u64::MAX);
                        }
                        return Err(e);
                    },
                }
                into.entries[at].stat = sum;
                proof {
                    lemma_table_update(before, at as int, into.entries@[at as int]);
                    assert(into.entries@ =~= before.update(at as int, into.entries@[at as int]));
                    lemma_merged_step(mine, table_of(done), key@, stat@);
                    assert(into@ =~= merged(mine, table_of(next)));
                }
            }
            j += 1;
        }
        proof {
            assert(theirs.take(j as int) =~= theirs);
        }
        Ok(into)
    }

    /// Ends the run and hands out one entry per key, ordered by key.
    pub fn finalize(self) -> (sorted: Vec<Entry>)
        requires
            self.wf(),
        ensures
            ascending(sorted@),
            sound_stats(sorted@),
            table_of(sorted@) == self@,
    {
        let sorted = sorted_by_key(self.entries);
        proof {
            lemma_sorted_is_the_table(self.entries@, sorted@);
        }
        sorted
    }
}

} // verus!

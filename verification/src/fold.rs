//! What a table is, as a function of the records that went into it.
//!
//! The table of a sequence of records holds, under each key, the summary of
//! the values recorded under that key. Neither the order of the records nor
//! the way they were shared out among several tables shows in the result.

use crate::order::{lemma_lex_asymmetric, lex_less};
use crate::stats::{lemma_summary_push, summary_of, Summary};
use crate::table::{
    ascending, holds_key, lemma_ascending_is_distinct, lemma_table_entry, lemma_table_push,
    merged, position_of, table_of, table_with, Entry,
};
use vstd::prelude::*;
use vstd::seq_lib::lemma_fold_left_permutation;

verus! {

/// `table_with` as a function value, for folding.
pub open spec fn record_step() -> spec_fn(Map<Seq<u8>, Summary>, (Seq<u8>, int)) -> Map<
    Seq<u8>,
    Summary,
> {
    |table: Map<Seq<u8>, Summary>, record: (Seq<u8>, int)| table_with(table, record.0, record.1)
}

/// The table of a sequence of records, each a key and a value in units.
pub open spec fn records_table(records: Seq<(Seq<u8>, int)>) -> Map<Seq<u8>, Summary> {
    records.fold_left(Map::empty(), record_step())
}

/// The values recorded under `key`, in order.
pub open spec fn values_under(records: Seq<(Seq<u8>, int)>, key: Seq<u8>) -> Seq<int>
    decreases records.len(),
{
    if records.len() == 0 {
        Seq::empty()
    } else if records.last().0 == key {
        values_under(records.drop_last(), key).push(records.last().1)
    } else {
        values_under(records.drop_last(), key)
    }
}

/// One more record at the end is one more step.
pub proof fn lemma_records_push(records: Seq<(Seq<u8>, int)>, key: Seq<u8>, v: int)
    ensures
        records_table(records.push((key, v))) == table_with(records_table(records), key, v),
{
    assert(records.push((key, v)).drop_last() =~= records);
}

/// Two records may be taken in either order.
pub proof fn lemma_records_commute(
    table: Map<Seq<u8>, Summary>,
    k1: Seq<u8>,
    v1: int,
    k2: Seq<u8>,
    v2: int,
)
    ensures
        table_with(table_with(table, k1, v1), k2, v2) == table_with(
            table_with(table, k2, v2),
            k1,
            v1,
        ),
{
    assert(table_with(table_with(table, k1, v1), k2, v2) =~= table_with(
        table_with(table, k2, v2),
        k1,
        v1,
    ));
}

/// The table holds a key exactly when a value was recorded under it, and then
/// holds the summary of the values recorded under it.
pub proof fn lemma_table_is_summaries(records: Seq<(Seq<u8>, int)>, key: Seq<u8>)
    ensures
        records_table(records).contains_key(key) <==> values_under(records, key).len() > 0,
        records_table(records).contains_key(key) ==> summary_of(values_under(records, key))
            == Some(records_table(records)[key]),
    decreases records.len(),
{
    if records.len() > 0 {
        let front = records.drop_last();
        let last = records.last();
        lemma_table_is_summaries(front, key);
        assert(front.push(last) =~= records);
        lemma_records_push(front, last.0, last.1);
        if last.0 == key {
            lemma_summary_push(values_under(front, key), last.1);
        }
    }
}

/// The order of the records does not show in the table.
pub proof fn lemma_record_order_is_irrelevant(a: Seq<(Seq<u8>, int)>, b: Seq<(Seq<u8>, int)>)
    requires
        a.to_multiset() == b.to_multiset(),
    ensures
        records_table(a) == records_table(b),
{
    let f = record_step();
    assert forall|x: (Seq<u8>, int), y: (Seq<u8>, int), t: Map<Seq<u8>, Summary>| #[trigger]
        f(f(t, x), y) == f(f(t, y), x) by {
        lemma_records_commute(t, x.0, x.1, y.0, y.1);
    }
    lemma_fold_left_permutation(a, b, f, Map::empty());
}

/// Taking one more record into the second of two tables and merging them is
/// merging them and taking the record into the result.
pub proof fn lemma_merged_with(
    a: Map<Seq<u8>, Summary>,
    b: Map<Seq<u8>, Summary>,
    key: Seq<u8>,
    v: int,
)
    ensures
        merged(a, table_with(b, key, v)) == table_with(merged(a, b), key, v),
{
    assert(merged(a, table_with(b, key, v)) =~= table_with(merged(a, b), key, v));
}

/// Records may be shared out: the tables of two batches, merged, are the
/// table of the two batches taken as one.
pub proof fn lemma_merged_is_one_pass(a: Seq<(Seq<u8>, int)>, b: Seq<(Seq<u8>, int)>)
    ensures
        merged(records_table(a), records_table(b)) == records_table(a + b),
    decreases b.len(),
{
    if b.len() == 0 {
        assert(a + b =~= a);
        assert(merged(records_table(a), records_table(b)) =~= records_table(a));
    } else {
        let front = b.drop_last();
        let last = b.last();
        lemma_merged_is_one_pass(a, front);
        assert(front.push(last) =~= b);
        assert((a + front).push(last) =~= a + b);
        lemma_records_push(front, last.0, last.1);
        lemma_records_push(a + front, last.0, last.1);
        lemma_merged_with(records_table(a), records_table(front), last.0, last.1);
    }
}

/// A table has one sorted form only: two lists of entries in strictly
/// ascending order of keys that stand for the same table hold the same keys
/// and statistics at the same places.
pub proof fn lemma_sorted_form_is_unique(a: Seq<Entry>, b: Seq<Entry>)
    requires
        ascending(a),
        ascending(b),
        table_of(a) == table_of(b),
    ensures
        a.len() == b.len(),
        forall|i: int|
            0 <= i < a.len() ==> (#[trigger] a[i]).key@ == b[i].key@ && a[i].stat == b[i].stat,
    decreases a.len(),
{
    lemma_ascending_is_distinct(a);
    lemma_ascending_is_distinct(b);
    if a.len() == 0 {
        if b.len() > 0 {
            lemma_table_entry(b, 0);
            assert(holds_key(a, b[0].key@));
        }
    } else {
        let la = a.len() - 1;
        lemma_table_entry(a, la);
        let ka = a[la].key@;
        assert(holds_key(b, ka));
        let lb = b.len() - 1;
        lemma_table_entry(b, lb);
        let kb = b[lb].key@;
        assert(holds_key(a, kb));
        let ja = position_of(a, kb);
        let jb = position_of(b, ka);
        lemma_lex_asymmetric(ka, kb);
        if ja < la {
            assert(a[ja].key@ == kb);
        }
        if jb < lb {
            assert(b[jb].key@ == ka);
        }
        assert(ka == kb);
        assert(a[la].stat@ == b[lb].stat@);
        assert(a[la].stat.min.scaled == b[lb].stat.min.scaled);
        assert(a[la].stat.max.scaled == b[lb].stat.max.scaled);
        assert(a[la].stat == b[lb].stat);
        let fa = a.drop_last();
        let fb = b.drop_last();
        assert(!holds_key(fa, ka)) by {
            if holds_key(fa, ka) {
                let i = position_of(fa, ka);
                assert(a[i].key@ == ka);
            }
        }
        assert(!holds_key(fb, kb)) by {
            if holds_key(fb, kb) {
                let i = position_of(fb, kb);
                assert(b[i].key@ == kb);
            }
        }
        assert(ascending(fa)) by {
            assert forall|i: int, j: int| 0 <= i < j < fa.len() implies lex_less(
                (#[trigger] fa[i]).key@,
                (#[trigger] fa[j]).key@,
            ) by {
                assert(lex_less(a[i].key@, a[j].key@));
            }
        }
        assert(ascending(fb)) by {
            assert forall|i: int, j: int| 0 <= i < j < fb.len() implies lex_less(
                (#[trigger] fb[i]).key@,
                (#[trigger] fb[j]).key@,
            ) by {
                assert(lex_less(b[i].key@, b[j].key@));
            }
        }
        lemma_ascending_is_distinct(fa);
        lemma_ascending_is_distinct(fb);
        lemma_table_push(fa, a[la]);
        lemma_table_push(fb, b[lb]);
        assert(fa.push(a[la]) =~= a);
        assert(fb.push(b[lb]) =~= b);
        assert(table_of(fa) =~= table_of(a).remove(ka));
        assert(table_of(fb) =~= table_of(b).remove(kb));
        lemma_sorted_form_is_unique(fa, fb);
        assert forall|i: int| 0 <= i < a.len() implies (#[trigger] a[i]).key@ == b[i].key@
            && a[i].stat == b[i].stat by {
            if i < la {
                assert(fa[i] == a[i]);
                assert(fb[i] == b[i]);
            }
        }
    }
}

} // verus!

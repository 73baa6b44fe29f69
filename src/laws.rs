use vstd::prelude::*;
use crate::stats::{Summary, add_record, fold_records, merge, observe};

verus! {

broadcast use vstd::seq_lib::group_to_multiset_ensures;

/// Merging two tables gives the same table in either order.
pub proof fn lemma_merge_commutative(a: Map<Seq<u8>, Summary>, b: Map<Seq<u8>, Summary>)
    ensures
        merge(a, b) == merge(b, a),
{
    assert(merge(a, b) =~= merge(b, a));
}

/// Merging three tables gives the same table whichever pair is merged first.
pub proof fn lemma_merge_associative(
    a: Map<Seq<u8>, Summary>,
    b: Map<Seq<u8>, Summary>,
    c: Map<Seq<u8>, Summary>,
)
    ensures
        merge(merge(a, b), c) == merge(a, merge(b, c)),
        merge(merge(a, b), c) == merge(merge(b, a), c),
{
    lemma_merge_commutative(a, b);
    assert(merge(merge(a, b), c) =~= merge(a, merge(b, c)));
}

/// Folding one record into a table is merging the table with the table of
/// that record alone.
pub proof fn lemma_add_record_is_merge(m: Map<Seq<u8>, Summary>, name: Seq<u8>, v: int)
    ensures
        add_record(m, name, v) == merge(m, fold_records(seq![(name, v)])),
{
    let one = seq![(name, v)];
    assert(one.drop_last() =~= Seq::<(Seq<u8>, int)>::empty());
    assert(fold_records(one.drop_last()) == Map::<Seq<u8>, Summary>::empty());
    assert(fold_records(one) =~= map![name => observe(v)]);
    assert(add_record(m, name, v) =~= merge(m, fold_records(one)));
}

proof fn lemma_merge_empty(m: Map<Seq<u8>, Summary>)
    ensures
        merge(m, Map::empty()) == m,
{
    assert(merge(m, Map::empty()) =~= m);
}

/// Splitting the records anywhere into two shards, folding each shard and
/// merging the two tables gives the table of all the records.
pub proof fn lemma_fold_split(r1: Seq<(Seq<u8>, int)>, r2: Seq<(Seq<u8>, int)>)
    ensures
        fold_records(r1 + r2) == merge(fold_records(r1), fold_records(r2)),
    decreases r2.len(),
{
    if r2.len() == 0 {
        assert(r1 + r2 =~= r1);
        lemma_merge_empty(fold_records(r1));
    } else {
        let last = r2.last();
        let r2p = r2.drop_last();
        assert((r1 + r2).drop_last() =~= r1 + r2p);
        lemma_fold_split(r1, r2p);
        let single = fold_records(seq![last]);
        lemma_add_record_is_merge(fold_records(r1 + r2p), last.0, last.1);
        lemma_add_record_is_merge(fold_records(r2p), last.0, last.1);
        lemma_merge_associative(fold_records(r1), fold_records(r2p), single);
    }
}

/// The table of a sequence of records depends only on which records it holds,
/// with their multiplicities, and not on their order.
pub proof fn lemma_fold_order_independent(r1: Seq<(Seq<u8>, int)>, r2: Seq<(Seq<u8>, int)>)
    requires
        r1.to_multiset() == r2.to_multiset(),
    ensures
        fold_records(r1) == fold_records(r2),
    decreases r1.len(),
{
    if r1.len() == 0 {
        assert(r1.to_multiset().len() == 0);
        assert(r2.to_multiset().len() == r2.len());
        assert(r2.len() == 0);
        assert(r2 =~= Seq::<(Seq<u8>, int)>::empty());
    } else {
        let x = r1.last();
        let r1p = r1.drop_last();
        assert(r1p.push(x) =~= r1);
        assert(r1.to_multiset().count(x) > 0);
        assert(r2.contains(x));
        let i = choose|i: int| 0 <= i < r2.len() && r2[i] == x;
        let r2p = r2.remove(i);
        assert(r2p.to_multiset() =~= r2.to_multiset().remove(x));
        assert(r1p.to_multiset() =~= r1.to_multiset().remove(x));
        lemma_fold_order_independent(r1p, r2p);
        let pre = r2.subrange(0, i);
        let post = r2.subrange(i + 1, r2.len() as int);
        let single = fold_records(seq![x]);
        assert(r2 =~= (pre + seq![x]) + post);
        assert(r2p =~= pre + post);
        lemma_fold_split(pre + seq![x], post);
        lemma_fold_split(pre, seq![x]);
        lemma_fold_split(pre, post);
        lemma_fold_split(r1p, seq![x]);
        assert(r1p + seq![x] =~= r1);
        lemma_merge_associative(fold_records(pre), single, fold_records(post));
        lemma_merge_commutative(single, fold_records(post));
        lemma_merge_associative(fold_records(pre), fold_records(post), single);
    }
}

/// The records of one name.
pub open spec fn records_named(recs: Seq<(Seq<u8>, int)>, a: Seq<u8>) -> Seq<(Seq<u8>, int)> {
    recs.filter(|r: (Seq<u8>, int)| r.0 == a)
}

/// The statistics of a name come from the records of that name alone: the
/// records of other names, whatever their hashes, never reach them.
pub proof fn lemma_names_kept_apart(recs: Seq<(Seq<u8>, int)>, a: Seq<u8>)
    ensures
        fold_records(recs).contains_key(a) == fold_records(records_named(recs, a)).contains_key(a),
        fold_records(recs).contains_key(a) ==> fold_records(recs)[a] == fold_records(records_named(recs, a))[a],
    decreases recs.len(),
{
    reveal(Seq::filter);
    if recs.len() > 0 {
        lemma_names_kept_apart(recs.drop_last(), a);
        let f = records_named(recs, a);
        let fp = records_named(recs.drop_last(), a);
        if recs.last().0 == a {
            assert(f == fp.push(recs.last()));
            assert(f.drop_last() =~= fp);
        } else {
            assert(f == fp);
        }
    } else {
        assert(records_named(recs, a) == recs);
    }
}

/// Every name in the table of a sequence of records was observed at least once.
pub proof fn lemma_fold_counts_positive(recs: Seq<(Seq<u8>, int)>)
    ensures
        forall|k: Seq<u8>| #[trigger] fold_records(recs).contains_key(k) ==> fold_records(recs)[k].count > 0,
    decreases recs.len(),
{
    if recs.len() > 0 {
        let prev = fold_records(recs.drop_last());
        lemma_fold_counts_positive(recs.drop_last());
        assert forall|k: Seq<u8>| #[trigger] fold_records(recs).contains_key(k) implies fold_records(recs)[k].count > 0 by {
            if k != recs.last().0 {
                assert(prev.contains_key(k));
            }
        }
    } else {
        assert(fold_records(recs) == Map::<Seq<u8>, Summary>::empty());
    }
}

} // verus!

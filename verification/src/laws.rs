//! Library-wide aggregation laws: the merge is commutative and associative,
//! aggregating a concatenation of record runs equals merging their
//! aggregates, every chunk plan partitions the source exactly, and a key's
//! aggregate is the minimum, maximum, sum and count of its observed values.

use vstd::prelude::*;
use crate::chunk::{chunks_ok, Chunk};
use crate::measurement::{measure_add, measure_combine, measure_one, MeasurementModel};
use crate::table::{table_merge, table_of_records, table_update, Record};

verus! {

/// Combining two aggregates does not depend on their order.
pub proof fn lemma_combine_commutative(a: MeasurementModel, b: MeasurementModel)
    ensures
        measure_combine(a, b) == measure_combine(b, a),
{
}

/// Combining aggregates can be regrouped freely.
pub proof fn lemma_combine_associative(
    a: MeasurementModel,
    b: MeasurementModel,
    c: MeasurementModel,
)
    ensures
        measure_combine(measure_combine(a, b), c) == measure_combine(a, measure_combine(b, c)),
{
}

/// Merging two tables does not depend on their order.
pub proof fn lemma_table_merge_commutative(
    a: Map<Seq<u8>, MeasurementModel>,
    b: Map<Seq<u8>, MeasurementModel>,
)
    ensures
        table_merge(a, b) == table_merge(b, a),
{
    assert(table_merge(a, b) =~= table_merge(b, a));
}

/// Merging tables can be regrouped freely.
pub proof fn lemma_table_merge_associative(
    a: Map<Seq<u8>, MeasurementModel>,
    b: Map<Seq<u8>, MeasurementModel>,
    c: Map<Seq<u8>, MeasurementModel>,
)
    ensures
        table_merge(table_merge(a, b), c) == table_merge(a, table_merge(b, c)),
{
    assert(table_merge(table_merge(a, b), c) =~= table_merge(a, table_merge(b, c)));
}

/// Adding an observation to a combined aggregate adds it to the right part.
proof fn lemma_add_combine(a: MeasurementModel, b: MeasurementModel, v: int)
    ensures
        measure_add(measure_combine(a, b), v) == measure_combine(a, measure_add(b, v)),
{
}

/// Combining with a one-observation aggregate is adding that observation.
proof fn lemma_one_combine(a: MeasurementModel, v: int)
    ensures
        measure_combine(a, measure_one(v)) == measure_add(a, v),
{
}

/// Folding records into the merge of two tables folds them into the right
/// table.
proof fn lemma_merge_update(
    t1: Map<Seq<u8>, MeasurementModel>,
    t2: Map<Seq<u8>, MeasurementModel>,
    k: Seq<u8>,
    v: int,
)
    ensures
        table_update(table_merge(t1, t2), k, v) == table_merge(t1, table_update(t2, k, v)),
{
    if t2.contains_key(k) {
        if t1.contains_key(k) {
            lemma_add_combine(t1[k], t2[k], v);
        }
    } else {
        if t1.contains_key(k) {
            lemma_one_combine(t1[k], v);
        }
    }
    assert(table_update(table_merge(t1, t2), k, v) =~= table_merge(t1, table_update(t2, k, v)));
}

/// Aggregating two record runs one after the other gives the merge of their
/// separate aggregates: however a record set is split into contiguous worker
/// chunks, and in whatever order the per-worker tables are merged, the final
/// table is the same.
pub proof fn lemma_table_of_records_append(rs1: Seq<Record>, rs2: Seq<Record>)
    ensures
        table_of_records(rs1 + rs2) == table_merge(
            table_of_records(rs1),
            table_of_records(rs2),
        ),
    decreases rs2.len(),
{
    if rs2.len() == 0 {
        assert(rs1 + rs2 =~= rs1);
        assert(table_merge(table_of_records(rs1), table_of_records(rs2)) =~= table_of_records(
            rs1,
        ));
    } else {
        lemma_table_of_records_append(rs1, rs2.drop_last());
        assert((rs1 + rs2).drop_last() =~= rs1 + rs2.drop_last());
        lemma_merge_update(
            table_of_records(rs1),
            table_of_records(rs2.drop_last()),
            rs2.last().key,
            rs2.last().value,
        );
    }
}

/// Some chunk of the plan holds byte position `p`.
pub open spec fn chunk_covering(cs: Seq<Chunk>, p: int) -> bool {
    exists|i: int| 0 <= i < cs.len() && (#[trigger] cs[i].start) <= p < cs[i].end
}

/// The chunks of a plan are pairwise disjoint and cover every byte of the
/// source exactly once.
pub proof fn lemma_chunks_cover(cs: Seq<Chunk>, len: int)
    requires
        chunks_ok(cs, len),
    ensures
        forall|i: int, j: int| 0 <= i < j < cs.len() ==> #[trigger] cs[i].end <= #[trigger] cs[j].start,
        forall|p: int| 0 <= p < len ==> #[trigger] chunk_covering(cs, p),
    decreases cs.len(),
{
    assert forall|i: int, j: int|
        0 <= i < j < cs.len() implies #[trigger] cs[i].end <= #[trigger] cs[j].start by {
        lemma_chunks_ordered(cs, i, j);
    }
    if cs.len() > 0 {
        let head = cs.drop_last();
        let lastc = cs[cs.len() - 1];
        if cs.len() == 1 {
            assert forall|p: int| 0 <= p < len implies #[trigger] chunk_covering(cs, p) by {
                assert(cs[0].start <= p < cs[0].end);
            }
        } else {
            assert(chunks_ok(head, lastc.start as int)) by {
                assert forall|i: int|
                    0 <= i < head.len() - 1 implies (#[trigger] head[i].end) == head[i
                    + 1].start by {
                    assert(cs[i].end == cs[i + 1].start);
                }
                assert(head[0] == cs[0]);
                assert(head[head.len() - 1] == cs[cs.len() - 2]);
                assert(cs[cs.len() - 2].end == lastc.start);
            }
            lemma_chunks_cover(head, lastc.start as int);
            assert forall|p: int| 0 <= p < len implies #[trigger] chunk_covering(cs, p) by {
                if p >= lastc.start {
                    assert(cs[cs.len() - 1].start <= p < cs[cs.len() - 1].end);
                } else {
                    assert(chunk_covering(head, p));
                    let i = choose|i: int|
                        0 <= i < head.len() && (#[trigger] head[i].start) <= p < head[i].end;
                    assert(cs[i].start <= p < cs[i].end);
                }
            }
        }
    }
}

/// The fold of a nonempty value sequence through `measure_add`.
pub open spec fn agg_values(vs: Seq<int>) -> MeasurementModel
    recommends
        vs.len() >= 1,
    decreases vs.len(),
{
    if vs.len() <= 1 {
        measure_one(vs[0])
    } else {
        measure_add(agg_values(vs.drop_last()), vs.last())
    }
}

/// Sum of a value sequence.
pub open spec fn seq_sum(vs: Seq<int>) -> int
    decreases vs.len(),
{
    if vs.len() == 0 {
        0
    } else {
        seq_sum(vs.drop_last()) + vs.last()
    }
}

/// The values observed for one key, in record order.
pub open spec fn values_for(rs: Seq<Record>, k: Seq<u8>) -> Seq<int>
    decreases rs.len(),
{
    if rs.len() == 0 {
        Seq::empty()
    } else if rs.last().key == k {
        values_for(rs.drop_last(), k).push(rs.last().value)
    } else {
        values_for(rs.drop_last(), k)
    }
}

/// Folding values gives exactly their minimum, maximum, sum and count:
/// the minimum is an observed value no larger than any other, the maximum
/// an observed value no smaller than any other — characterizations that do
/// not depend on the arrival order.
pub proof fn lemma_agg_values(vs: Seq<int>)
    requires
        vs.len() >= 1,
    ensures
        agg_values(vs).count == vs.len(),
        agg_values(vs).sum == seq_sum(vs),
        vs.contains(agg_values(vs).min),
        forall|i: int| 0 <= i < vs.len() ==> agg_values(vs).min <= #[trigger] vs[i],
        vs.contains(agg_values(vs).max),
        forall|i: int| 0 <= i < vs.len() ==> agg_values(vs).max >= #[trigger] vs[i],
    decreases vs.len(),
{
    if vs.len() == 1 {
        assert(vs[0] == vs.last());
        assert(vs.drop_last().len() == 0);
        assert(seq_sum(vs.drop_last()) == 0);
        assert(seq_sum(vs) == seq_sum(vs.drop_last()) + vs.last());
    } else {
        lemma_agg_values(vs.drop_last());
        let pre = vs.drop_last();
        assert(seq_sum(vs) == seq_sum(pre) + vs.last());
        assert forall|i: int| 0 <= i < pre.len() implies pre[i] == vs[i] by {}
        if pre.contains(agg_values(pre).min) {
            let w = choose|w: int| 0 <= w < pre.len() && pre[w] == agg_values(pre).min;
            assert(vs[w] == agg_values(pre).min);
        }
        if pre.contains(agg_values(pre).max) {
            let w = choose|w: int| 0 <= w < pre.len() && pre[w] == agg_values(pre).max;
            assert(vs[w] == agg_values(pre).max);
        }
        assert(vs[vs.len() - 1] == vs.last());
    }
}

/// Removing the element at `i` removes exactly its contribution to the sum.
proof fn lemma_seq_sum_remove(vs: Seq<int>, i: int)
    requires
        0 <= i < vs.len(),
    ensures
        seq_sum(vs) == seq_sum(vs.remove(i)) + vs[i],
    decreases vs.len(),
{
    if i == vs.len() - 1 {
        assert(vs.remove(i) =~= vs.drop_last());
    } else {
        lemma_seq_sum_remove(vs.drop_last(), i);
        assert(vs.remove(i).drop_last() =~= vs.drop_last().remove(i));
        assert(vs.remove(i).last() == vs.last());
    }
}

/// Sequences holding the same values the same number of times have the
/// same sum.
pub proof fn lemma_seq_sum_permutation(vs1: Seq<int>, vs2: Seq<int>)
    requires
        vs1.to_multiset() == vs2.to_multiset(),
    ensures
        seq_sum(vs1) == seq_sum(vs2),
    decreases vs1.len(),
{
    vs1.to_multiset_ensures();
    vs2.to_multiset_ensures();
    if vs1.len() == 0 {
        assert(vs2.len() == 0);
    } else {
        let x = vs1.last();
        assert(vs1[vs1.len() - 1] == x);
        assert(vs1.contains(x));
        assert(vs1.to_multiset().count(x) > 0);
        assert(vs2.to_multiset().count(x) > 0);
        assert(vs2.contains(x));
        let i = choose|i: int| 0 <= i < vs2.len() && vs2[i] == x;
        lemma_seq_sum_remove(vs2, i);
        assert(vs1.drop_last() =~= vs1.remove(vs1.len() - 1));
        assert(vs1.remove(vs1.len() - 1).to_multiset() =~= vs1.to_multiset().remove(x));
        assert(vs2.remove(i).to_multiset() =~= vs2.to_multiset().remove(x));
        lemma_seq_sum_permutation(vs1.drop_last(), vs2.remove(i));
    }
}

/// A key's aggregate does not depend on the order in which its values
/// arrive: value sequences holding the same values the same number of
/// times fold to the same aggregate.
pub proof fn lemma_agg_values_permutation(vs1: Seq<int>, vs2: Seq<int>)
    requires
        vs1.len() >= 1,
        vs1.to_multiset() == vs2.to_multiset(),
    ensures
        agg_values(vs1) == agg_values(vs2),
{
    vs1.to_multiset_ensures();
    vs2.to_multiset_ensures();
    assert(vs2.len() == vs1.len());
    lemma_agg_values(vs1);
    lemma_agg_values(vs2);
    lemma_seq_sum_permutation(vs1, vs2);
    let a1 = agg_values(vs1);
    let a2 = agg_values(vs2);
    assert(vs1.to_multiset().count(a1.min) > 0);
    assert(vs2.contains(a1.min));
    let i1 = choose|i: int| 0 <= i < vs2.len() && vs2[i] == a1.min;
    assert(a2.min <= vs2[i1]);
    assert(vs2.to_multiset().count(a2.min) > 0);
    assert(vs1.contains(a2.min));
    let i2 = choose|i: int| 0 <= i < vs1.len() && vs1[i] == a2.min;
    assert(a1.min <= vs1[i2]);
    assert(vs1.to_multiset().count(a1.max) > 0);
    assert(vs2.contains(a1.max));
    let j1 = choose|i: int| 0 <= i < vs2.len() && vs2[i] == a1.max;
    assert(a2.max >= vs2[j1]);
    assert(vs2.to_multiset().count(a2.max) > 0);
    assert(vs1.contains(a2.max));
    let j2 = choose|i: int| 0 <= i < vs1.len() && vs1[i] == a2.max;
    assert(a1.max >= vs1[j2]);
}

/// A key's aggregate in the folded table is the fold of exactly the values
/// observed for that key, whichever other records stand around them.
pub proof fn lemma_table_tracks_values(rs: Seq<Record>, k: Seq<u8>)
    ensures
        table_of_records(rs).contains_key(k) <==> values_for(rs, k).len() >= 1,
        table_of_records(rs).contains_key(k) ==> table_of_records(rs)[k] == agg_values(
            values_for(rs, k),
        ),
    decreases rs.len(),
{
    if rs.len() > 0 {
        lemma_table_tracks_values(rs.drop_last(), k);
        let pre = rs.drop_last();
        if rs.last().key == k {
            let vs = values_for(pre, k);
            if vs.len() >= 1 {
                assert(vs.push(rs.last().value).drop_last() =~= vs);
            }
        }
    }
}

/// Chunks earlier in the plan end no later than later chunks begin.
proof fn lemma_chunks_ordered(cs: Seq<Chunk>, i: int, j: int)
    requires
        forall|a: int| 0 <= a < cs.len() ==> (#[trigger] cs[a].start) < cs[a].end,
        forall|a: int| 0 <= a < cs.len() - 1 ==> (#[trigger] cs[a].end) == cs[a + 1].start,
        0 <= i < j < cs.len(),
    ensures
        cs[i].end <= cs[j].start,
    decreases j - i,
{
    if j == i + 1 {
        assert(cs[i].end == cs[i + 1].start);
    } else {
        lemma_chunks_ordered(cs, i, j - 1);
        assert(cs[j - 1].end == cs[j].start);
    }
}

} // verus!

//! The aggregate table: a mapping from keys (byte sequences) to running
//! measurements, with insert-or-update and an order-independent merge.

use vstd::prelude::*;
use crate::measurement::{
    measure_add, measure_combine, measure_one, measure_wf, Measurement, MeasurementModel,
    VALUE_BOUND,
};
use crate::bytes::bytes_eq;

verus! {

/// One parsed record: a key and its fixed-point value in thousandths.
pub struct Record {
    pub key: Seq<u8>,
    pub value: int,
}

/// Insert-or-update of one observation in a table model.
pub open spec fn table_update(
    t: Map<Seq<u8>, MeasurementModel>,
    k: Seq<u8>,
    v: int,
) -> Map<Seq<u8>, MeasurementModel> {
    if t.contains_key(k) {
        t.insert(k, measure_add(t[k], v))
    } else {
        t.insert(k, measure_one(v))
    }
}

/// The table obtained by folding a sequence of records, in order, into an
/// empty table.
pub open spec fn table_of_records(rs: Seq<Record>) -> Map<Seq<u8>, MeasurementModel>
    decreases rs.len(),
{
    if rs.len() == 0 {
        Map::empty()
    } else {
        table_update(table_of_records(rs.drop_last()), rs.last().key, rs.last().value)
    }
}

/// Merging two table models: union of keys, combined aggregates on common keys.
pub open spec fn table_merge(
    a: Map<Seq<u8>, MeasurementModel>,
    b: Map<Seq<u8>, MeasurementModel>,
) -> Map<Seq<u8>, MeasurementModel> {
    Map::new(
        |k: Seq<u8>| a.contains_key(k) || b.contains_key(k),
        |k: Seq<u8>|
            if a.contains_key(k) && b.contains_key(k) {
                measure_combine(a[k], b[k])
            } else if b.contains_key(k) {
                b[k]
            } else {
                a[k]
            },
    )
}

/// Every aggregate in the table model is well formed.
pub open spec fn table_wf(t: Map<Seq<u8>, MeasurementModel>) -> bool {
    forall|k: Seq<u8>| t.contains_key(k) ==> measure_wf(#[trigger] t[k])
}

/// Per-key aggregate table; keys are unique.
pub struct AggregateTable {
    pub entries: Vec<(Vec<u8>, Measurement)>,
}

/// The map denoted by a sequence of key/measurement pairs (later pairs win).
pub open spec fn entries_map(s: Seq<(Vec<u8>, Measurement)>) -> Map<Seq<u8>, MeasurementModel>
    decreases s.len(),
{
    if s.len() == 0 {
        Map::empty()
    } else {
        entries_map(s.drop_last()).insert(s.last().0@, s.last().1@)
    }
}

/// Pairwise-distinct keys in an entry sequence.
pub open spec fn entries_unique(s: Seq<(Vec<u8>, Measurement)>) -> bool {
    forall|i: int, j: int| 0 <= i < j < s.len() ==> s[i].0@ != s[j].0@
}

/// A key is in the map of an entry sequence exactly when some entry holds it.
pub proof fn lemma_entries_map_contains(s: Seq<(Vec<u8>, Measurement)>, k: Seq<u8>)
    ensures
        entries_map(s).contains_key(k) <==> exists|i: int| 0 <= i < s.len() && s[i].0@ == k,
    decreases s.len(),
{
    if s.len() > 0 {
        lemma_entries_map_contains(s.drop_last(), k);
        if s.last().0@ == k {
            assert(s[s.len() - 1].0@ == k);
        } else if entries_map(s).contains_key(k) {
            let i = choose|i: int| 0 <= i < s.drop_last().len() && s.drop_last()[i].0@ == k;
            assert(s[i].0@ == k);
        } else {
            assert forall|i: int| 0 <= i < s.len() implies s[i].0@ != k by {
                if i < s.len() - 1 {
                    assert(s.drop_last()[i].0@ == s[i].0@);
                }
            }
        }
    }
}

/// With unique keys, the map of an entry sequence sends each entry's key to
/// that entry's measurement.
pub proof fn lemma_entries_map_index(s: Seq<(Vec<u8>, Measurement)>, i: int)
    requires
        entries_unique(s),
        0 <= i < s.len(),
    ensures
        entries_map(s).contains_key(s[i].0@),
        entries_map(s)[s[i].0@] == s[i].1@,
    decreases s.len(),
{
    if i == s.len() - 1 {
    } else {
        assert(entries_unique(s.drop_last())) by {
            assert forall|a: int, b: int|
                0 <= a < b < s.drop_last().len() implies s.drop_last()[a].0@
                != s.drop_last()[b].0@ by {
                assert(s[a].0@ != s[b].0@);
            }
        }
        assert(s.drop_last()[i] == s[i]);
        lemma_entries_map_index(s.drop_last(), i);
        assert(s[i].0@ != s[s.len() - 1].0@);
    }
}

/// With unique keys, replacing one entry's measurement updates the map at
/// exactly that entry's key.
pub proof fn lemma_entries_map_update(s: Seq<(Vec<u8>, Measurement)>, i: int, m: Measurement)
    requires
        entries_unique(s),
        0 <= i < s.len(),
    ensures
        entries_map(s.update(i, (s[i].0, m))) =~= entries_map(s).insert(s[i].0@, m@),
    decreases s.len(),
{
    let s2 = s.update(i, (s[i].0, m));
    if i == s.len() - 1 {
        assert(s2.drop_last() =~= s.drop_last());
        assert(entries_map(s).insert(s[i].0@, m@) =~= entries_map(s.drop_last()).insert(
            s[i].0@,
            m@,
        ));
    } else {
        assert(entries_unique(s.drop_last())) by {
            assert forall|a: int, b: int|
                0 <= a < b < s.drop_last().len() implies s.drop_last()[a].0@
                != s.drop_last()[b].0@ by {
                assert(s[a].0@ != s[b].0@);
            }
        }
        assert(s.drop_last()[i] == s[i]);
        lemma_entries_map_update(s.drop_last(), i, m);
        assert(s2.drop_last() =~= s.drop_last().update(i, (s[i].0, m)));
        assert(s2.last() == s.last());
        assert(s[i].0@ != s[s.len() - 1].0@);
    }
}

/// With unique keys, the map has exactly one key per entry.
pub proof fn lemma_entries_map_len(s: Seq<(Vec<u8>, Measurement)>)
    requires
        entries_unique(s),
    ensures
        entries_map(s).dom().finite(),
        entries_map(s).dom().len() == s.len(),
    decreases s.len(),
{
    if s.len() > 0 {
        assert(entries_unique(s.drop_last())) by {
            assert forall|a: int, b: int|
                0 <= a < b < s.drop_last().len() implies s.drop_last()[a].0@
                != s.drop_last()[b].0@ by {
                assert(s[a].0@ != s[b].0@);
            }
        }
        lemma_entries_map_len(s.drop_last());
        lemma_entries_map_contains(s.drop_last(), s.last().0@);
        assert forall|i: int|
            0 <= i < s.drop_last().len() implies s.drop_last()[i].0@ != s.last().0@ by {
            assert(s[i].0@ != s[s.len() - 1].0@);
        }
        assert(!entries_map(s.drop_last()).contains_key(s.last().0@));
        assert(entries_map(s).dom() =~= entries_map(s.drop_last()).dom().insert(s.last().0@));
    }
}

/// No key of a folded record sequence counts more observations than there
/// are records.
pub proof fn lemma_table_counts(rs: Seq<Record>)
    ensures
        forall|k: Seq<u8>|
            table_of_records(rs).contains_key(k) ==> #[trigger] table_of_records(rs)[k].count
                <= rs.len(),
    decreases rs.len(),
{
    if rs.len() > 0 {
        lemma_table_counts(rs.drop_last());
        let t = table_of_records(rs.drop_last());
        let t2 = table_of_records(rs);
        assert forall|k: Seq<u8>| t2.contains_key(k) implies #[trigger] t2[k].count
            <= rs.len() by {
            if k == rs.last().key {
                if t.contains_key(k) {
                    assert(t[k].count <= rs.len() - 1);
                }
            } else {
                assert(t2[k] == t[k]);
            }
        }
    }
}

/// Merging after adding a fresh key to the right table inserts the combined
/// aggregate into the merge.
pub proof fn lemma_merge_insert(
    a: Map<Seq<u8>, MeasurementModel>,
    b: Map<Seq<u8>, MeasurementModel>,
    k: Seq<u8>,
    m: MeasurementModel,
)
    requires
        !b.contains_key(k),
    ensures
        table_merge(a, b.insert(k, m)) =~= (if a.contains_key(k) {
            table_merge(a, b).insert(k, measure_combine(a[k], m))
        } else {
            table_merge(a, b).insert(k, m)
        }),
{
}

impl View for AggregateTable {
    type V = Map<Seq<u8>, MeasurementModel>;

    open spec fn view(&self) -> Map<Seq<u8>, MeasurementModel> {
        entries_map(self.entries@)
    }
}

impl AggregateTable {
    /// Keys are pairwise distinct and every measurement is well formed.
    pub open spec fn wf(&self) -> bool {
        &&& entries_unique(self.entries@)
        &&& forall|i: int|
            0 <= i < self.entries@.len() ==> measure_wf(#[trigger] self.entries@[i].1@)
    }

    /// A fresh, empty table.
    pub fn new() -> (r: AggregateTable)
        ensures
            r@ == Map::<Seq<u8>, MeasurementModel>::empty(),
            r.wf(),
    {
        AggregateTable { entries: Vec::new() }
    }

    /// Number of distinct keys in the table.
    pub fn len(&self) -> (r: usize)
        requires
            self.wf(),
        ensures
            r == self@.dom().len(),
    {
        proof {
            lemma_entries_map_len(self.entries@);
        }
        self.entries.len()
    }

    /// The aggregate stored for `key`, if any.
    pub fn lookup(&self, key: &[u8]) -> (r: Option<Measurement>)
        requires
            self.wf(),
        ensures
            match r {
                Some(m) => self@.contains_key(key@) && m@ == self@[key@],
                None => !self@.contains_key(key@),
            },
    {
        let mut i: usize = 0;
        while i < self.entries.len()
            invariant
                0 <= i <= self.entries@.len(),
                self.wf(),
                forall|k: int| 0 <= k < i ==> self.entries@[k].0@ != key@,
            decreases self.entries@.len() - i,
        {
            if bytes_eq(self.entries[i].0.as_slice(), key) {
                proof {
                    lemma_entries_map_index(self.entries@, i as int);
                }
                return Some(self.entries[i].1);
            }
            i = i + 1;
        }
        proof {
            lemma_entries_map_contains(self.entries@, key@);
        }
        None
    }

    /// Insert-or-update: record one observation of `v` for `key`.
    #[verifier::loop_isolation(false)]
    pub fn update(&mut self, key: Vec<u8>, v: i64)
        requires
            old(self).wf(),
            -VALUE_BOUND <= v <= VALUE_BOUND,
            old(self)@.contains_key(key@) ==> old(self)@[key@].count < u64::MAX,
        ensures
            final(self)@ == table_update(old(self)@, key@, v as int),
            final(self).wf(),
    {
        let ghost s0 = old(self).entries@;
        let mut i: usize = 0;
        while i < self.entries.len()
            invariant
                0 <= i <= s0.len(),
                self.entries@ == s0,
                self.wf(),
                entries_map(s0).contains_key(key@) ==> entries_map(s0)[key@].count < u64::MAX,
                -VALUE_BOUND <= v <= VALUE_BOUND,
                forall|k: int| 0 <= k < i ==> s0[k].0@ != key@,
            decreases s0.len() - i,
        {
            if bytes_eq(self.entries[i].0.as_slice(), key.as_slice()) {
                proof {
                    lemma_entries_map_index(s0, i as int);
                }
                let mut pair = self.entries.remove(i);
                let ghost oldm = pair.1;
                pair.1.add(v);
                let ghost newm = pair.1;
                self.entries.insert(i, pair);
                proof {
                    assert(oldm == s0[i as int].1);
                    assert(newm@ == measure_add(s0[i as int].1@, v as int));
                    assert(self.entries@ =~= s0.update(i as int, (s0[i as int].0, newm)));
                    lemma_entries_map_update(s0, i as int, newm);
                    assert(entries_map(self.entries@) == entries_map(s0).insert(key@, newm@));
                    assert(entries_map(s0)[key@] == s0[i as int].1@);
                }
                return ;
            }
            i = i + 1;
        }
        proof {
            lemma_entries_map_contains(s0, key@);
        }
        let m = Measurement::new(v);
        self.entries.push((key, m));
        proof {
            assert(self.entries@.drop_last() =~= s0);
        }
    }

    /// Fold one key/measurement pair into the table, combining if present.
    #[verifier::loop_isolation(false)]
    fn combine_entry(&mut self, key: &Vec<u8>, m: &Measurement)
        requires
            old(self).wf(),
            measure_wf(m@),
            old(self)@.contains_key(key@) ==> old(self)@[key@].count + m@.count <= u64::MAX,
        ensures
            final(self).wf(),
            final(self)@ == (if old(self)@.contains_key(key@) {
                old(self)@.insert(key@, measure_combine(old(self)@[key@], m@))
            } else {
                old(self)@.insert(key@, m@)
            }),
    {
        let ghost s0 = old(self).entries@;
        let mut i: usize = 0;
        while i < self.entries.len()
            invariant
                0 <= i <= s0.len(),
                self.entries@ == s0,
                self.wf(),
                measure_wf(m@),
                entries_map(s0).contains_key(key@) ==> entries_map(s0)[key@].count + m@.count
                    <= u64::MAX,
                forall|k: int| 0 <= k < i ==> s0[k].0@ != key@,
            decreases s0.len() - i,
        {
            if bytes_eq(self.entries[i].0.as_slice(), key.as_slice()) {
                proof {
                    lemma_entries_map_index(s0, i as int);
                }
                let mut pair = self.entries.remove(i);
                let ghost oldm = pair.1;
                pair.1.combine(m);
                let ghost newm = pair.1;
                self.entries.insert(i, pair);
                proof {
                    assert(oldm == s0[i as int].1);
                    assert(newm@ == measure_combine(s0[i as int].1@, m@));
                    assert(self.entries@ =~= s0.update(i as int, (s0[i as int].0, newm)));
                    lemma_entries_map_update(s0, i as int, newm);
                    assert(entries_map(self.entries@) == entries_map(s0).insert(key@, newm@));
                    assert(entries_map(s0)[key@] == s0[i as int].1@);
                }
                return ;
            }
            i = i + 1;
        }
        proof {
            lemma_entries_map_contains(s0, key@);
        }
        self.entries.push((key.clone(), *m));
        proof {
            assert(self.entries@.drop_last() =~= s0);
            assert(self.entries@.last().0@ == key@);
        }
    }

    /// Fold `other` into `self`, combining aggregates on common keys.
    ///
    /// Returns `false`, leaving `self` unchanged, exactly when some common
    /// key's total observation count would not fit in a `u64`.
    #[verifier::loop_isolation(false)]
    pub fn merge_from(&mut self, other: &AggregateTable) -> (r: bool)
        requires
            old(self).wf(),
            other.wf(),
        ensures
            final(self).wf(),
            r ==> final(self)@ == table_merge(old(self)@, other@),
            !r ==> final(self)@ == old(self)@,
            r != (exists|k: Seq<u8>|
                old(self)@.contains_key(k) && other@.contains_key(k)
                    && #[trigger] (old(self)@[k].count + other@[k].count) > u64::MAX),
    {
        let ghost t0 = self@;
        let ghost so = other.entries@;
        // First pass: check that every common key's counts fit in a u64.
        let mut i: usize = 0;
        while i < other.entries.len()
            invariant
                0 <= i <= so.len(),
                other.entries@ == so,
                self.wf(),
                other.wf(),
                self@ == t0,
                self.entries@ == old(self).entries@,
                forall|k: int|
                    0 <= k < i ==> (t0.contains_key(#[trigger] so[k].0@) ==> t0[so[k].0@].count
                        + so[k].1@.count <= u64::MAX),
            decreases so.len() - i,
        {
            let oc = other.entries[i].1.count;
            match self.lookup(other.entries[i].0.as_slice()) {
                Some(mm) => {
                    if mm.count > u64::MAX - oc {
                        proof {
                            let k = so[i as int].0@;
                            lemma_entries_map_index(so, i as int);
                            assert(t0.contains_key(k) && other@.contains_key(k)
                                && t0[k].count + other@[k].count > u64::MAX);
                        }
                        return false;
                    }
                },
                None => {},
            }
            i = i + 1;
        }
        proof {
            assert forall|k: Seq<u8>|
                t0.contains_key(k) && other@.contains_key(k) implies #[trigger] (t0[k].count
                + other@[k].count) <= u64::MAX by {
                lemma_entries_map_contains(so, k);
                let j = choose|j: int| 0 <= j < so.len() && so[j].0@ == k;
                lemma_entries_map_index(so, j);
            }
        }
        // Second pass: fold the entries in.
        let mut i: usize = 0;
        while i < other.entries.len()
            invariant
                0 <= i <= so.len(),
                other.entries@ == so,
                self.wf(),
                other.wf(),
                self@ == table_merge(t0, entries_map(so.take(i as int))),
                forall|k: Seq<u8>|
                    t0.contains_key(k) && other@.contains_key(k) ==> #[trigger] (t0[k].count
                        + other@[k].count) <= u64::MAX,
            decreases so.len() - i,
        {
            let ghost bi = entries_map(so.take(i as int));
            let ghost k = so[i as int].0@;
            proof {
                lemma_entries_map_index(so, i as int);
                // the current key is fresh in the prefix already folded in
                lemma_entries_map_contains(so.take(i as int), k);
                assert forall|j: int| 0 <= j < i implies so.take(i as int)[j].0@ != k by {
                    assert(so[j].0@ != so[i as int].0@);
                }
                assert(!bi.contains_key(k));
                if t0.contains_key(k) {
                    assert(self@.contains_key(k));
                    assert(self@[k] == t0[k]);
                    assert(t0[k].count + other@[k].count <= u64::MAX);
                }
                lemma_merge_insert(t0, bi, k, so[i as int].1@);
                assert(so.take(i as int + 1).drop_last() =~= so.take(i as int));
            }
            let pair_key = &other.entries[i].0;
            let pair_m = other.entries[i].1;
            self.combine_entry(pair_key, &pair_m);
            i = i + 1;
        }
        proof {
            assert(so.take(so.len() as int) =~= so);
        }
        true
    }
}

} // verus!

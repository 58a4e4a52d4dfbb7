//! The renderer: sorts the merged table's keys byte-lexicographically and
//! formats `{key=min/mean/max, ...}` with one fractional digit, rounding
//! half away from zero.

use vstd::prelude::*;
use crate::bytes::{bytes_lt, clone_bytes, lemma_lex_lt_total, lemma_lex_lt_trans, lex_lt};
use crate::measurement::{measure_wf, Measurement, MeasurementModel, VALUE_BOUND};
use crate::table::{lemma_entries_map_contains, lemma_entries_map_index, AggregateTable};
use crate::utf8::{check_utf8, is_utf8};
use crate::Error;

verus! {

/// Decimal digits of `m`, most significant first, no leading zeros.
pub open spec fn dec_str(m: nat) -> Seq<u8>
    decreases m,
{
    if m < 10 {
        seq![(48 + m) as u8]
    } else {
        dec_str(m / 10).push((48 + m % 10) as u8)
    }
}

/// Append the decimal digits of `m` to `out`.
pub fn push_dec(out: &mut Vec<u8>, m: u64)
    ensures
        final(out)@ == old(out)@ + dec_str(m as nat),
    decreases m,
{
    if m < 10 {
        out.push(48 + m as u8);
        proof {
            assert(old(out)@ + dec_str(m as nat) =~= old(out)@.push((48 + m) as u8));
        }
    } else {
        push_dec(out, m / 10);
        out.push(48 + (m % 10) as u8);
        proof {
            assert(old(out)@ + dec_str(m as nat) =~= (old(out)@ + dec_str((m / 10) as nat)).push(
                (48 + m % 10) as u8,
            ));
        }
    }
}

/// Magnitude of an integer.
pub open spec fn abs_of(t: int) -> nat {
    if t >= 0 {
        t as nat
    } else {
        (-t) as nat
    }
}

/// A fixed-point thousandths value rendered with one fractional digit,
/// rounded half away from zero; negative values keep their sign even when
/// they round to zero.
pub open spec fn fixed_str(t: int) -> Seq<u8> {
    let tenths = (abs_of(t) + 50) / 100;
    let sign: Seq<u8> = if t < 0 {
        seq![45u8]
    } else {
        Seq::empty()
    };
    sign + dec_str(tenths / 10) + seq![46u8, (48 + tenths % 10) as u8]
}

/// The mean `sum / count` (both in thousandths) rendered with one
/// fractional digit, rounded half away from zero.
pub open spec fn mean_str(sum: int, count: nat) -> Seq<u8>
    recommends
        count >= 1,
{
    let tenths = (abs_of(sum) + 50 * count) / (100 * count);
    let sign: Seq<u8> = if sum < 0 {
        seq![45u8]
    } else {
        Seq::empty()
    };
    sign + dec_str(tenths / 10) + seq![46u8, (48 + tenths % 10) as u8]
}

/// Append `fixed_str(t)` to `out`.
pub fn push_fixed(out: &mut Vec<u8>, t: i64)
    requires
        -VALUE_BOUND <= t <= VALUE_BOUND,
    ensures
        final(out)@ == old(out)@ + fixed_str(t as int),
{
    let ghost pre = out@;
    if t < 0 {
        out.push(45);
    }
    let a: u64 = if t < 0 {
        (-t) as u64
    } else {
        t as u64
    };
    let tenths: u64 = (a + 50) / 100;
    push_dec(out, tenths / 10);
    out.push(46);
    out.push(48 + (tenths % 10) as u8);
    proof {
        assert(a as nat == abs_of(t as int));
        let sign: Seq<u8> = if t < 0 {
            seq![45u8]
        } else {
            Seq::<u8>::empty()
        };
        assert(out@ =~= pre + sign + dec_str((tenths / 10) as nat) + seq![
            46u8,
            (48 + tenths % 10) as u8,
        ]);
        assert(pre + fixed_str(t as int) =~= pre + sign + dec_str((tenths / 10) as nat) + seq![
            46u8,
            (48 + tenths % 10) as u8,
        ]);
    }
}

/// Append `mean_str(sum, count)` to `out`.
pub fn push_mean(out: &mut Vec<u8>, sum: i128, count: u64)
    requires
        count >= 1,
        -(count * VALUE_BOUND) <= sum <= count * VALUE_BOUND,
    ensures
        final(out)@ == old(out)@ + mean_str(sum as int, count as nat),
{
    let ghost pre = out@;
    if sum < 0 {
        out.push(45);
    }
    let a: u128 = if sum < 0 {
        (-sum) as u128
    } else {
        sum as u128
    };
    let cc: u128 = count as u128;
    let num: u128 = a + 50 * cc;
    let den: u128 = 100 * cc;
    let t128: u128 = num / den;
    proof {
        assert(num < den * 0x4000000000000000) by {
            assert(a + 50 * cc <= cc * VALUE_BOUND + 50 * cc);
            assert(cc * VALUE_BOUND + 50 * cc == cc * (VALUE_BOUND + 50)) by (nonlinear_arith);
            assert(cc * (VALUE_BOUND + 50) < (100 * cc) * 0x4000000000000000) by (nonlinear_arith)
                requires
                    cc >= 1,
            ;
        }
        assert(t128 < 0x4000000000000000) by (nonlinear_arith)
            requires
                den > 0,
                num < den * 0x4000000000000000,
                t128 == num / den,
        ;
    }
    let tenths: u64 = t128 as u64;
    push_dec(out, tenths / 10);
    out.push(46);
    out.push(48 + (tenths % 10) as u8);
    proof {
        assert(a as nat == abs_of(sum as int));
        let sign: Seq<u8> = if sum < 0 {
            seq![45u8]
        } else {
            Seq::<u8>::empty()
        };
        assert(out@ =~= pre + sign + dec_str((tenths / 10) as nat) + seq![
            46u8,
            (48 + tenths % 10) as u8,
        ]);
        assert(pre + mean_str(sum as int, count as nat) =~= pre + sign + dec_str(
            (tenths / 10) as nat,
        ) + seq![46u8, (48 + tenths % 10) as u8]);
    }
}

/// One rendered entry: `key=min/mean/max`.
pub open spec fn entry_str(k: Seq<u8>, m: MeasurementModel) -> Seq<u8> {
    k + seq![61u8] + fixed_str(m.min) + seq![47u8] + mean_str(m.sum, m.count) + seq![47u8]
        + fixed_str(m.max)
}

/// Entries joined with `", "`.
pub open spec fn entries_str(es: Seq<(Seq<u8>, MeasurementModel)>) -> Seq<u8>
    decreases es.len(),
{
    if es.len() == 0 {
        Seq::empty()
    } else if es.len() == 1 {
        entry_str(es[0].0, es[0].1)
    } else {
        entries_str(es.drop_last()) + seq![44u8, 32u8] + entry_str(es.last().0, es.last().1)
    }
}

/// The whole summary: entries joined with `", "`, wrapped in braces.
pub open spec fn render_str(es: Seq<(Seq<u8>, MeasurementModel)>) -> Seq<u8> {
    seq![123u8] + entries_str(es) + seq![125u8]
}

/// The view of an entry sequence: each pair's views.
pub open spec fn entries_view(es: Seq<(Vec<u8>, Measurement)>) -> Seq<(Seq<u8>, MeasurementModel)> {
    es.map_values(|e: (Vec<u8>, Measurement)| (e.0@, e.1@))
}

/// Keys in strict byte-wise ascending order.
pub open spec fn entries_sorted(es: Seq<(Vec<u8>, Measurement)>) -> bool {
    forall|i: int, j: int| 0 <= i < j < es.len() ==> lex_lt(#[trigger] es[i].0@, #[trigger] es[j].0@)
}

/// The entry sequence carries exactly the table's keys, each with the
/// table's aggregate.
pub open spec fn entries_match(
    t: Map<Seq<u8>, MeasurementModel>,
    es: Seq<(Vec<u8>, Measurement)>,
) -> bool {
    &&& forall|i: int|
        0 <= i < es.len() ==> t.contains_key((#[trigger] es[i]).0@) && es[i].1@ == t[es[i].0@]
    &&& forall|k: Seq<u8>|
        t.contains_key(k) ==> exists|i: int| 0 <= i < es.len() && (#[trigger] es[i]).0@ == k
}

/// Append one rendered entry to `out`.
fn push_entry(out: &mut Vec<u8>, key: &Vec<u8>, m: &Measurement)
    requires
        measure_wf(m@),
    ensures
        final(out)@ == old(out)@ + entry_str(key@, m@),
{
    let ghost pre = out@;
    out.extend_from_slice(key.as_slice());
    out.push(61);
    push_fixed(out, m.min);
    out.push(47);
    push_mean(out, m.sum, m.count);
    out.push(47);
    push_fixed(out, m.max);
    proof {
        assert(out@ =~= pre + key@ + seq![61u8] + fixed_str(m@.min) + seq![47u8] + mean_str(
            m@.sum,
            m@.count,
        ) + seq![47u8] + fixed_str(m@.max));
        assert(pre + entry_str(key@, m@) =~= pre + key@ + seq![61u8] + fixed_str(m@.min) + seq![
            47u8,
        ] + mean_str(m@.sum, m@.count) + seq![47u8] + fixed_str(m@.max));
    }
}

/// The placed entries and the first `upto` source entries hold the same
/// keys, with the same measurements.
pub open spec fn corresponds(
    te: Seq<(Vec<u8>, Measurement)>,
    upto: int,
    s: Seq<(Vec<u8>, Measurement)>,
) -> bool {
    &&& forall|a: int|
        0 <= a < s.len() ==> exists|b: int|
            0 <= b < upto && te[b].0@ == (#[trigger] s[a]).0@ && te[b].1 == s[a].1
    &&& forall|b: int|
        0 <= b < upto ==> exists|a: int| 0 <= a < s.len() && (#[trigger] te[b]).0@ == s[a].0@
}

/// Inserting between smaller and larger keys keeps the sequence sorted.
proof fn lemma_insert_sorted(
    s_old: Seq<(Vec<u8>, Measurement)>,
    s_new: Seq<(Vec<u8>, Measurement)>,
    p: int,
    e: (Vec<u8>, Measurement),
)
    requires
        entries_sorted(s_old),
        0 <= p <= s_old.len(),
        s_new.len() == s_old.len() + 1,
        s_new[p] == e,
        forall|a: int| 0 <= a < p ==> s_new[a] == s_old[a],
        forall|a: int| p <= a < s_old.len() ==> s_new[a + 1] == s_old[a],
        forall|a: int| 0 <= a < p ==> lex_lt((#[trigger] s_old[a]).0@, e.0@),
        forall|a: int| p <= a < s_old.len() ==> lex_lt(e.0@, (#[trigger] s_old[a]).0@),
    ensures
        entries_sorted(s_new),
{
    assert forall|a: int, b: int|
        0 <= a < b < s_new.len() implies lex_lt(#[trigger] s_new[a].0@, #[trigger] s_new[b].0@) by {
        if a == p {
            assert(s_new[b] == s_old[b - 1]);
        } else if b == p {
            assert(s_new[a] == s_old[a]);
        } else if a < p && b < p {
            assert(s_new[a] == s_old[a]);
            assert(s_new[b] == s_old[b]);
        } else if a < p {
            assert(s_new[a] == s_old[a]);
            assert(s_new[b] == s_old[b - 1]);
        } else {
            assert(s_new[a] == s_old[a - 1]);
            assert(s_new[b] == s_old[b - 1]);
        }
    }
}

/// Insert one entry into a key-sorted vector, keeping it sorted.
#[verifier::loop_isolation(false)]
fn insert_entry(out: &mut Vec<(Vec<u8>, Measurement)>, key: Vec<u8>, m: Measurement) -> (p: usize)
    requires
        entries_sorted(old(out)@),
        forall|a: int| 0 <= a < old(out)@.len() ==> (#[trigger] old(out)@[a]).0@ != key@,
    ensures
        0 <= p <= old(out)@.len(),
        final(out)@.len() == old(out)@.len() + 1,
        final(out)@[p as int] == (key, m),
        forall|a: int| 0 <= a < p ==> final(out)@[a] == old(out)@[a],
        forall|a: int| p <= a < old(out)@.len() ==> final(out)@[a + 1] == old(out)@[a],
        entries_sorted(final(out)@),
{
    let mut p: usize = 0;
    while p < out.len() && bytes_lt(out[p].0.as_slice(), key.as_slice())
        invariant
            0 <= p <= out@.len(),
            forall|a: int| 0 <= a < p ==> lex_lt((#[trigger] out@[a]).0@, key@),
        decreases out@.len() - p,
    {
        p = p + 1;
    }
    proof {
        if p < out@.len() {
            lemma_lex_lt_total(out@[p as int].0@, key@);
            assert(lex_lt(key@, out@[p as int].0@));
        }
        assert forall|a: int| p <= a < out@.len() implies lex_lt(key@, (#[trigger] out@[a]).0@) by {
            if a > p {
                lemma_lex_lt_trans(key@, out@[p as int].0@, out@[a].0@);
            }
        }
    }
    let ghost pre = out@;
    let ghost e = (key, m);
    let pr = p;
    out.insert(p, (key, m));
    proof {
        assert(out@ == pre.insert(pr as int, e));
        assert(out@[pr as int] == e);
        assert forall|a: int| 0 <= a < pr implies out@[a] == pre[a] by {
            assert(out@[a] == pre.insert(pr as int, e)[a]);
        }
        assert forall|a: int| pr <= a < pre.len() implies out@[a + 1] == pre[a] by {
            assert(out@[a + 1] == pre.insert(pr as int, e)[a + 1]);
        }
        lemma_insert_sorted(pre, out@, pr as int, e);
    }
    pr
}

/// Inserting the `i`-th source entry extends the two-way correspondence
/// between the placed entries and the first `i` source entries.
proof fn lemma_correspondence_insert(
    s_old: Seq<(Vec<u8>, Measurement)>,
    s_new: Seq<(Vec<u8>, Measurement)>,
    te: Seq<(Vec<u8>, Measurement)>,
    i: int,
    p: int,
    e: (Vec<u8>, Measurement),
)
    requires
        0 <= i < te.len(),
        0 <= p <= s_old.len(),
        s_new.len() == s_old.len() + 1,
        s_new[p] == e,
        forall|a: int| 0 <= a < p ==> s_new[a] == s_old[a],
        forall|a: int| p <= a < s_old.len() ==> s_new[a + 1] == s_old[a],
        e.0@ == te[i].0@,
        e.1 == te[i].1,
        corresponds(te, i, s_old),
    ensures
        corresponds(te, i + 1, s_new),
{
    assert forall|b: int| 0 <= b < i + 1 implies exists|a: int|
        0 <= a < s_new.len() && (#[trigger] te[b]).0@ == s_new[a].0@ by {
        if b == i {
            assert(s_new[p].0@ == te[b].0@);
        } else {
            let a0 = choose|a: int| 0 <= a < s_old.len() && te[b].0@ == s_old[a].0@;
            if a0 < p {
                assert(s_new[a0] == s_old[a0]);
            } else {
                assert(s_new[a0 + 1] == s_old[a0]);
            }
        }
    }
    assert forall|a: int| 0 <= a < s_new.len() implies exists|b: int|
        0 <= b < i + 1 && te[b].0@ == (#[trigger] s_new[a]).0@ && te[b].1 == s_new[a].1 by {
        if a == p {
            assert(te[i].0@ == s_new[a].0@ && te[i].1 == s_new[a].1);
        } else if a < p {
            assert(s_new[a] == s_old[a]);
        } else {
            assert(s_new[a] == s_old[a - 1]);
        }
    }
}

/// The table's entries, cloned and sorted by key in strict byte-wise
/// ascending order.
#[verifier::loop_isolation(false)]
pub fn sorted_entries(t: &AggregateTable) -> (es: Vec<(Vec<u8>, Measurement)>)
    requires
        t.wf(),
    ensures
        entries_sorted(es@),
        entries_match(t@, es@),
        forall|i: int| 0 <= i < es@.len() ==> measure_wf((#[trigger] es@[i]).1@),
{
    let n = t.entries.len();
    let mut out: Vec<(Vec<u8>, Measurement)> = Vec::new();
    let mut i: usize = 0;
    while i < n
        invariant
            0 <= i <= n,
            n == t.entries@.len(),
            t.wf(),
            entries_sorted(out@),
            out@.len() == i,
            corresponds(t.entries@, i as int, out@),
        decreases n - i,
    {
        let kc = clone_bytes(&t.entries[i].0);
        let mc = t.entries[i].1;
        proof {
            assert(kc@ =~= t.entries@[i as int].0@);
            // the new key differs from every key already placed
            assert forall|a: int| 0 <= a < out@.len() implies (#[trigger] out@[a]).0@ != kc@ by {
                let b = choose|b: int|
                    0 <= b < i && t.entries@[b].0@ == out@[a].0@ && t.entries@[b].1 == out@[a].1;
                assert(t.entries@[b].0@ != t.entries@[i as int].0@);
            }
        }
        let ghost out0 = out@;
        let ghost e = (kc, mc);
        let p = insert_entry(&mut out, kc, mc);
        proof {
            lemma_correspondence_insert(out0, out@, t.entries@, i as int, p as int, e);
        }
        i = i + 1;
    }
    proof {
        assert forall|k: Seq<u8>| t@.contains_key(k) implies exists|a: int|
            0 <= a < out@.len() && (#[trigger] out@[a]).0@ == k by {
            lemma_entries_map_contains(t.entries@, k);
            let b = choose|b: int| 0 <= b < t.entries@.len() && t.entries@[b].0@ == k;
            let a = choose|a: int| 0 <= a < out@.len() && t.entries@[b].0@ == out@[a].0@;
            assert(out@[a].0@ == k);
        }
        assert forall|a: int|
            0 <= a < out@.len() implies t@.contains_key((#[trigger] out@[a]).0@) && out@[a].1@
            == t@[out@[a].0@] && measure_wf(out@[a].1@) by {
            let b = choose|b: int|
                0 <= b < t.entries@.len() && t.entries@[b].0@ == out@[a].0@ && t.entries@[b].1
                    == out@[a].1;
            lemma_entries_map_index(t.entries@, b);
        }
    }
    out
}

/// Render the table: keys sorted in strict byte-wise ascending order, each
/// entry `key=min/mean/max` with one fractional digit, joined by `", "` and
/// wrapped in braces. Fails exactly when some key is not valid UTF-8.
#[verifier::loop_isolation(false)]
pub fn render(t: &AggregateTable) -> (r: Result<Vec<u8>, Error>)
    requires
        t.wf(),
    ensures
        match r {
            Ok(out) => {
                &&& forall|k: Seq<u8>| t@.contains_key(k) ==> is_utf8(k)
                &&& exists|es: Seq<(Vec<u8>, Measurement)>|
                    #[trigger] entries_sorted(es) && entries_match(t@, es) && out@ == render_str(
                        entries_view(es),
                    )
            },
            Err(e) => {
                &&& e == Error::EncodingError
                &&& exists|k: Seq<u8>| #[trigger] t@.contains_key(k) && !is_utf8(k)
            },
        },
{
    let es = sorted_entries(t);
    let n = es.len();
    let mut out: Vec<u8> = Vec::new();
    out.push(123);
    let mut i: usize = 0;
    while i < n
        invariant
            0 <= i <= n,
            n == es@.len(),
            entries_sorted(es@),
            entries_match(t@, es@),
            forall|a: int| 0 <= a < es@.len() ==> measure_wf((#[trigger] es@[a]).1@),
            out@ == seq![123u8] + entries_str(entries_view(es@.take(i as int))),
            forall|a: int| 0 <= a < i ==> is_utf8((#[trigger] es@[a]).0@),
        decreases n - i,
    {
        if !check_utf8(es[i].0.as_slice()) {
            proof {
                assert(t@.contains_key(es@[i as int].0@) && !is_utf8(es@[i as int].0@));
            }
            return Err(Error::EncodingError);
        }
        let ghost pre = out@;
        let ghost evi = entries_view(es@.take(i as int));
        if i > 0 {
            out.push(44);
            out.push(32);
        }
        push_entry(&mut out, &es[i].0, &es[i].1);
        proof {
            let ev2 = entries_view(es@.take(i as int + 1));
            assert(ev2.drop_last() =~= evi);
            assert(ev2.last() == (es@[i as int].0@, es@[i as int].1@));
            if i == 0 {
                assert(ev2.len() == 1);
                assert(ev2[0] == (es@[0].0@, es@[0].1@));
                assert(out@ =~= seq![123u8] + entries_str(ev2));
            } else {
                assert(entries_str(ev2) == entries_str(evi) + seq![44u8, 32u8] + entry_str(
                    es@[i as int].0@,
                    es@[i as int].1@,
                ));
                assert(out@ =~= seq![123u8] + entries_str(ev2));
            }
        }
        i = i + 1;
    }
    out.push(125);
    proof {
        assert(es@.take(n as int) =~= es@);
        assert(out@ =~= render_str(entries_view(es@)));
        assert forall|k: Seq<u8>| t@.contains_key(k) implies is_utf8(k) by {
            let a = choose|a: int| 0 <= a < es@.len() && (#[trigger] es@[a]).0@ == k;
        }
    }
    Ok(out)
}

} // verus!

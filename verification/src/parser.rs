//! The line parser: a single forward scan over a chunk's bytes that turns
//! each `<key>;<decimal-value>\n` line into a key and a fixed-point value in
//! thousandths, and folds it into an aggregate table.

use vstd::prelude::*;
use vstd::slice::slice_subrange;
use crate::measurement::VALUE_BOUND;
use crate::table::{lemma_table_counts, table_of_records, AggregateTable, Record};
use crate::Error;

verus! {

pub const NEWLINE: u8 = 10;

pub const MINUS: u8 = 45;

pub const DOT: u8 = 46;

pub const SEMICOLON: u8 = 59;

/// Longest key, in bytes, that a record may carry.
pub const MAX_KEY_LEN: usize = 100;

/// Largest value of the concatenated digits of a record's value.
pub const RAW_LIMIT: u64 = 999_999_999_999;

pub open spec fn is_digit(b: u8) -> bool {
    48 <= b && b <= 57
}

/// Index of the first occurrence of `b` in `s`, or `s.len()` if none.
pub open spec fn first_of(s: Seq<u8>, b: u8) -> nat
    decreases s.len(),
{
    if s.len() == 0 {
        0
    } else if s[0] == b {
        0
    } else {
        1 + first_of(s.skip(1), b)
    }
}

pub proof fn lemma_first_of(s: Seq<u8>, b: u8)
    ensures
        first_of(s, b) <= s.len(),
        forall|k: int| 0 <= k < first_of(s, b) ==> s[k] != b,
        first_of(s, b) < s.len() ==> s[first_of(s, b) as int] == b,
    decreases s.len(),
{
    if s.len() == 0 {
    } else if s[0] == b {
    } else {
        lemma_first_of(s.skip(1), b);
        let f = first_of(s.skip(1), b) as int;
        assert forall|k: int| 0 <= k < 1 + f implies s[k] != b by {
            if k >= 1 {
                assert(s.skip(1)[k - 1] == s[k]);
            }
        }
        if 1 + f < s.len() {
            assert(s.skip(1)[f] == s[1 + f]);
        }
    }
}

pub proof fn lemma_first_of_is(s: Seq<u8>, b: u8, p: int)
    requires
        0 <= p < s.len(),
        s[p] == b,
        forall|k: int| 0 <= k < p ==> s[k] != b,
    ensures
        first_of(s, b) == p,
{
    lemma_first_of(s, b);
    let f = first_of(s, b) as int;
    if f < p {
        assert(s[f] == b);
    }
    if f > p {
        assert(s[p] != b);
    }
}

/// Numeric value of a digit string, most significant digit first.
pub open spec fn digits_val(ds: Seq<u8>) -> int
    decreases ds.len(),
{
    if ds.len() == 0 {
        0
    } else {
        digits_val(ds.drop_last()) * 10 + (ds.last() - 48)
    }
}

pub open spec fn all_digits(ds: Seq<u8>) -> bool {
    forall|i: int| 0 <= i < ds.len() ==> is_digit(#[trigger] ds[i])
}

pub proof fn lemma_digits_val_nonneg(ds: Seq<u8>)
    requires
        all_digits(ds),
    ensures
        digits_val(ds) >= 0,
    decreases ds.len(),
{
    if ds.len() > 0 {
        assert(all_digits(ds.drop_last())) by {
            assert forall|i: int| 0 <= i < ds.drop_last().len() implies is_digit(
                #[trigger] ds.drop_last()[i],
            ) by {
                assert(ds.drop_last()[i] == ds[i]);
            }
        }
        lemma_digits_val_nonneg(ds.drop_last());
        assert(is_digit(ds.last()));
    }
}

/// The value of a digit-string prefix never exceeds the whole string's value.
pub proof fn lemma_digits_val_prefix(ds: Seq<u8>, r: int)
    requires
        all_digits(ds),
        0 <= r <= ds.len(),
    ensures
        digits_val(ds.take(r)) <= digits_val(ds),
    decreases ds.len(),
{
    if r == ds.len() {
        assert(ds.take(r) =~= ds);
    } else {
        assert(all_digits(ds.drop_last())) by {
            assert forall|i: int| 0 <= i < ds.drop_last().len() implies is_digit(
                #[trigger] ds.drop_last()[i],
            ) by {
                assert(ds.drop_last()[i] == ds[i]);
            }
        }
        lemma_digits_val_nonneg(ds.drop_last());
        lemma_digits_val_prefix(ds.drop_last(), r);
        assert(ds.drop_last().take(r) =~= ds.take(r));
        assert(is_digit(ds.last()));
    }
}

/// A value is negative when it carries a leading minus sign.
pub open spec fn value_negative(v: Seq<u8>) -> bool {
    v.len() > 0 && v[0] == MINUS
}

/// The value with its sign stripped.
pub open spec fn value_body(v: Seq<u8>) -> Seq<u8> {
    if value_negative(v) {
        v.skip(1)
    } else {
        v
    }
}

/// Position of the decimal point in the unsigned body, or its length.
pub open spec fn body_dot(b: Seq<u8>) -> nat {
    first_of(b, DOT)
}

/// The body's digits with the decimal point elided.
pub open spec fn body_digits(b: Seq<u8>) -> Seq<u8> {
    if body_dot(b) == b.len() {
        b
    } else {
        b.take(body_dot(b) as int) + b.skip(body_dot(b) as int + 1)
    }
}

/// Number of digits after the decimal point (zero if there is none).
pub open spec fn body_frac_len(b: Seq<u8>) -> int {
    if body_dot(b) == b.len() {
        0
    } else {
        b.len() - body_dot(b) - 1
    }
}

/// Scale turning the concatenated digits into thousandths.
pub open spec fn frac_scale(fl: int) -> int {
    if fl == 0 {
        1000
    } else if fl == 1 {
        100
    } else if fl == 2 {
        10
    } else {
        1
    }
}

/// An unsigned value body: one or more integer digits, then optionally a
/// decimal point followed by one to three digits, with the concatenated
/// digits bounded.
pub open spec fn valid_body(b: Seq<u8>) -> bool {
    &&& body_dot(b) >= 1
    &&& (body_dot(b) == b.len() || 1 <= body_frac_len(b) <= 3)
    &&& all_digits(body_digits(b))
    &&& digits_val(body_digits(b)) <= RAW_LIMIT
}

/// A value: optional minus sign, then a valid unsigned body.
pub open spec fn valid_value(v: Seq<u8>) -> bool {
    valid_body(value_body(v))
}

/// The value in thousandths: concatenated digits, rescaled to three
/// fractional digits, with the sign applied.
pub open spec fn value_of(v: Seq<u8>) -> int {
    let b = value_body(v);
    let m = digits_val(body_digits(b)) * frac_scale(body_frac_len(b));
    if value_negative(v) {
        -m
    } else {
        m
    }
}

/// A line: key bytes, a semicolon, a valid value, a terminating newline,
/// with no interior newline and the key within the length bound.
pub open spec fn valid_line(l: Seq<u8>) -> bool {
    &&& l.len() >= 1
    &&& l.last() == NEWLINE
    &&& forall|i: int| 0 <= i < l.len() - 1 ==> #[trigger] l[i] != NEWLINE
    &&& first_of(l, SEMICOLON) < l.len() - 1
    &&& first_of(l, SEMICOLON) <= MAX_KEY_LEN
    &&& valid_value(l.subrange(first_of(l, SEMICOLON) as int + 1, l.len() - 1))
}

/// The key of a line: everything before the first semicolon.
pub open spec fn line_key(l: Seq<u8>) -> Seq<u8> {
    l.take(first_of(l, SEMICOLON) as int)
}

/// The value of a line, in thousandths.
pub open spec fn line_value(l: Seq<u8>) -> int {
    value_of(l.subrange(first_of(l, SEMICOLON) as int + 1, l.len() - 1))
}

/// The records of a chunk: the chunk split at newlines, every line valid and
/// newline-terminated. `None` when the chunk is malformed, in particular when
/// a trailing fragment lacks its newline.
pub open spec fn parse_records(s: Seq<u8>) -> Option<Seq<Record>>
    decreases s.len(),
{
    if s.len() == 0 {
        Some(Seq::empty())
    } else {
        let j = first_of(s, NEWLINE);
        if j >= s.len() {
            None
        } else {
            let l = s.take(j as int + 1);
            if valid_line(l) {
                match parse_records(s.skip(j as int + 1)) {
                    Some(rest) => Some(
                        seq![Record { key: line_key(l), value: line_value(l) }] + rest,
                    ),
                    None => None,
                }
            } else {
                None
            }
        }
    }
}

/// A valid body opens with a digit.
proof fn lemma_body_first_digit(b: Seq<u8>)
    requires
        valid_body(b),
        b.len() > 0,
    ensures
        is_digit(b[0]),
{
    let d = body_dot(b) as int;
    let bd = body_digits(b);
    if d == b.len() {
        assert(is_digit(bd[0]));
    } else {
        assert(bd[0] == b.take(d)[0]);
        assert(is_digit(bd[0]));
    }
}

/// In a valid body, the decimal point stands exactly where the scanner saw
/// it: after the run of integer digits.
proof fn lemma_body_dot_at(b: Seq<u8>, d0: int)
    requires
        valid_body(b),
        0 <= d0 < b.len(),
        b[d0] == DOT,
        forall|k: int| 0 <= k < d0 ==> is_digit(#[trigger] b[k]),
    ensures
        body_dot(b) == d0,
{
    lemma_first_of(b, DOT);
    let d = body_dot(b) as int;
    if d > d0 {
        assert(b[d0] != DOT);
    }
    if d < d0 {
        assert(b[d] == DOT);
        assert(is_digit(b[d]));
    }
}

/// A run of leading digits of a valid body is bounded by the raw limit.
proof fn lemma_digits_run_bound(b: Seq<u8>, r: int)
    requires
        valid_body(b),
        0 < r <= b.len(),
        forall|k: int| 0 <= k < r ==> is_digit(#[trigger] b[k]),
    ensures
        digits_val(b.take(r)) <= RAW_LIMIT,
{
    lemma_first_of(b, DOT);
    let d = body_dot(b) as int;
    if d < r {
        assert(b[d] == DOT);
        assert(is_digit(b[d]));
        assert(false);
    }
    let bd = body_digits(b);
    assert(r <= bd.len());
    assert(bd.take(r) =~= b.take(r)) by {
        if d < b.len() {
            assert forall|k: int| 0 <= k < r implies bd[k] == b[k] by {
                assert(bd[k] == b.take(d)[k]);
            }
        }
    }
    lemma_digits_val_prefix(bd, r);
}

/// Integer digits, the decimal point, then a run of fraction digits of a
/// valid body: the concatenated digits so far are bounded by the raw limit.
proof fn lemma_digits_run_bound_frac(b: Seq<u8>, d0: int, f: int)
    requires
        valid_body(b),
        0 < d0,
        f >= 0,
        d0 + 1 + f <= b.len(),
        b[d0] == DOT,
        forall|k: int| 0 <= k < d0 ==> is_digit(#[trigger] b[k]),
        forall|k: int| d0 + 1 <= k < d0 + 1 + f ==> is_digit(#[trigger] b[k]),
    ensures
        digits_val(b.take(d0) + b.subrange(d0 + 1, d0 + 1 + f)) <= RAW_LIMIT,
{
    lemma_body_dot_at(b, d0);
    let bd = body_digits(b);
    let r = d0 + f;
    assert(bd.len() == b.len() - 1);
    assert(bd.take(r) =~= b.take(d0) + b.subrange(d0 + 1, d0 + 1 + f)) by {
        assert forall|k: int| 0 <= k < r implies bd[k] == (b.take(d0) + b.subrange(
            d0 + 1,
            d0 + 1 + f,
        ))[k] by {
            if k < d0 {
                assert(bd[k] == b.take(d0)[k]);
            } else {
                assert(bd[k] == b.skip(d0 + 1)[k - d0]);
            }
        }
    }
    lemma_digits_val_prefix(bd, r);
}

/// With the sign already accounted for, the unsigned body of the value
/// region is the region past the sign.
proof fn lemma_value_body_at(s: Seq<u8>, j: int, start: int, sgn: int)
    requires
        0 <= start,
        start + sgn <= j <= s.len(),
        sgn == 0 || sgn == 1,
        sgn == 1 ==> start < j && start < s.len() && s[start] == MINUS,
        (sgn == 0 && start < j) ==> s[start] != MINUS,
    ensures
        value_body(s.subrange(start, j)) == s.subrange(start + sgn, j),
        value_negative(s.subrange(start, j)) == (sgn == 1),
{
    let v = s.subrange(start, j);
    if sgn == 1 {
        assert(v[0] == MINUS);
        assert(v.skip(1) =~= s.subrange(start + 1, j));
    } else {
        if v.len() > 0 {
            assert(v[0] == s[start]);
        }
    }
}

/// A body that does not open with a digit is invalid.
proof fn lemma_body_err_first(b: Seq<u8>)
    requires
        b.len() == 0 || !is_digit(b[0]),
    ensures
        !valid_body(b),
{
    if b.len() > 0 && valid_body(b) {
        lemma_body_first_digit(b);
    }
}

/// A digit run already beyond the raw limit makes the body invalid.
proof fn lemma_body_err_overflow(b: Seq<u8>, r: int)
    requires
        0 < r <= b.len(),
        forall|k: int| 0 <= k < r ==> is_digit(#[trigger] b[k]),
        digits_val(b.take(r)) > RAW_LIMIT,
    ensures
        !valid_body(b),
{
    if valid_body(b) {
        lemma_digits_run_bound(b, r);
    }
}

/// A fraction run already beyond the raw limit makes the body invalid.
proof fn lemma_body_err_overflow_frac(b: Seq<u8>, d0: int, f: int)
    requires
        0 < d0,
        f >= 0,
        d0 + 1 + f <= b.len(),
        b[d0] == DOT,
        forall|k: int| 0 <= k < d0 ==> is_digit(#[trigger] b[k]),
        forall|k: int| d0 + 1 <= k < d0 + 1 + f ==> is_digit(#[trigger] b[k]),
        digits_val(b.take(d0) + b.subrange(d0 + 1, d0 + 1 + f)) > RAW_LIMIT,
    ensures
        !valid_body(b),
{
    if valid_body(b) {
        lemma_digits_run_bound_frac(b, d0, f);
    }
}

/// A non-digit, non-point byte inside the integer digits makes the body
/// invalid.
proof fn lemma_body_err_int(b: Seq<u8>, p: int)
    requires
        0 < p < b.len(),
        forall|k: int| 0 <= k < p ==> is_digit(#[trigger] b[k]),
        !is_digit(b[p]),
        b[p] != DOT,
    ensures
        !valid_body(b),
{
    if valid_body(b) {
        lemma_first_of(b, DOT);
        let d = body_dot(b) as int;
        if d < p {
            assert(b[d] == DOT);
            assert(is_digit(b[d]));
        } else if d == p {
            assert(b[p] == DOT);
        } else {
            let bd = body_digits(b);
            assert(bd[p] == b[p]) by {
                if d < b.len() {
                    assert(bd[p] == b.take(d)[p]);
                }
            }
            assert(is_digit(bd[p]));
        }
    }
}

/// An empty fraction (the point right before the newline) is invalid.
proof fn lemma_body_err_empty_frac(b: Seq<u8>, d0: int)
    requires
        0 < d0,
        d0 == b.len() - 1,
        b[d0] == DOT,
        forall|k: int| 0 <= k < d0 ==> is_digit(#[trigger] b[k]),
    ensures
        !valid_body(b),
{
    if valid_body(b) {
        lemma_body_dot_at(b, d0);
    }
}

/// A non-digit byte inside the fraction makes the body invalid.
proof fn lemma_body_err_frac(b: Seq<u8>, d0: int, p: int)
    requires
        0 < d0 < p < b.len(),
        b[d0] == DOT,
        forall|k: int| 0 <= k < d0 ==> is_digit(#[trigger] b[k]),
        !is_digit(b[p]),
    ensures
        !valid_body(b),
{
    if valid_body(b) {
        lemma_body_dot_at(b, d0);
        let bd = body_digits(b);
        assert(bd[p - 1] == b.skip(d0 + 1)[p - 1 - d0]);
        assert(bd[p - 1] == b[p]);
        assert(is_digit(bd[p - 1]));
    }
}

/// A fourth fraction digit makes the body invalid.
proof fn lemma_body_err_long_frac(b: Seq<u8>, d0: int)
    requires
        0 < d0,
        d0 + 5 <= b.len(),
        b[d0] == DOT,
        forall|k: int| 0 <= k < d0 ==> is_digit(#[trigger] b[k]),
    ensures
        !valid_body(b),
{
    if valid_body(b) {
        lemma_body_dot_at(b, d0);
    }
}

/// An all-digit body within the raw limit is valid, with no fraction.
proof fn lemma_body_commit_int(b: Seq<u8>)
    requires
        b.len() >= 1,
        all_digits(b),
        digits_val(b) <= RAW_LIMIT,
    ensures
        valid_body(b),
        body_digits(b) == b,
        body_frac_len(b) == 0,
{
    lemma_first_of(b, DOT);
    let d = body_dot(b) as int;
    if d < b.len() {
        assert(b[d] == DOT);
        assert(is_digit(b[d]));
        assert(false);
    }
}

/// Integer digits, a point, and one to three fraction digits within the raw
/// limit form a valid body.
proof fn lemma_body_commit_frac(b: Seq<u8>, d0: int)
    requires
        0 < d0 < b.len(),
        b[d0] == DOT,
        forall|k: int| 0 <= k < d0 ==> is_digit(#[trigger] b[k]),
        forall|k: int| d0 + 1 <= k < b.len() ==> is_digit(#[trigger] b[k]),
        1 <= b.len() - d0 - 1 <= 3,
        digits_val(b.take(d0) + b.skip(d0 + 1)) <= RAW_LIMIT,
    ensures
        valid_body(b),
        body_digits(b) == b.take(d0) + b.skip(d0 + 1),
        body_frac_len(b) == b.len() - d0 - 1,
{
    assert forall|k: int| 0 <= k < d0 implies b[k] != DOT by {
        assert(is_digit(b[k]));
    }
    lemma_first_of_is(b, DOT, d0);
    let bd = b.take(d0) + b.skip(d0 + 1);
    assert forall|k: int| 0 <= k < bd.len() implies is_digit(#[trigger] bd[k]) by {
        if k < d0 {
            assert(bd[k] == b[k]);
        } else {
            assert(bd[k] == b[k + 1]);
        }
    }
}

/// A candidate line whose semicolon, if any, comes after the key-length
/// bound (or not at all) is invalid.
proof fn lemma_line_semi_late(s: Seq<u8>, j: int, m: int)
    requires
        j == first_of(s, NEWLINE),
        0 <= j < s.len(),
        m > MAX_KEY_LEN || m == j + 1,
        m <= j + 1,
        forall|k: int| 0 <= k < m ==> s[k] != SEMICOLON,
    ensures
        !valid_line(s.take(j + 1)),
{
    if valid_line(s.take(j + 1)) {
        let l = s.take(j + 1);
        lemma_first_of(l, SEMICOLON);
        let f = first_of(l, SEMICOLON) as int;
        assert(f < l.len() - 1);
        assert(l[f] == SEMICOLON);
        assert(l[f] == s[f]);
        assert(f < m);
        assert(false);
    }
}

/// With the first semicolon located before the newline, validity of the
/// candidate line is validity of its value region, and its key and value
/// take their expected shapes.
proof fn lemma_line_of_value(s: Seq<u8>, j: int, semi: int)
    requires
        j == first_of(s, NEWLINE),
        0 <= j < s.len(),
        0 <= semi < j,
        forall|k: int| 0 <= k < semi ==> s[k] != SEMICOLON,
        s[semi] == SEMICOLON,
    ensures
        valid_line(s.take(j + 1)) <==> (semi <= MAX_KEY_LEN && valid_value(
            s.subrange(semi + 1, j),
        )),
        line_key(s.take(j + 1)) == s.take(semi),
        line_value(s.take(j + 1)) == value_of(s.subrange(semi + 1, j)),
{
    lemma_first_of(s, NEWLINE);
    let l = s.take(j + 1);
    assert(l.last() == s[j]);
    assert forall|k: int| 0 <= k < l.len() - 1 implies #[trigger] l[k] != NEWLINE by {
        assert(l[k] == s[k]);
    }
    assert forall|k: int| 0 <= k < semi implies l[k] != SEMICOLON by {
        assert(l[k] == s[k]);
    }
    assert(l[semi] == s[semi]);
    lemma_first_of_is(l, SEMICOLON, semi);
    assert(l.subrange(semi + 1, l.len() - 1) =~= s.subrange(semi + 1, j));
    assert(line_key(l) =~= s.take(semi));
}

/// Scan the value region that starts at `start`: an optional minus sign,
/// integer digits, an optional decimal point with one to three fraction
/// digits, up to the newline that closes the record.
///
/// On success returns the value in thousandths and the index one past the
/// newline; fails exactly when the region up to the first newline is not a
/// valid value (or no newline exists).
fn parse_value(data: &[u8], start: usize) -> (r: Result<(i64, usize), Error>)
    requires
        start <= data@.len(),
        forall|k: int| 0 <= k < start ==> #[trigger] data@[k] != NEWLINE,
    ensures
        ({
            let j = first_of(data@, NEWLINE) as int;
            match r {
                Ok(p) => {
                    &&& start <= j < data@.len()
                    &&& p.1 == j + 1
                    &&& valid_value(data@.subrange(start as int, j))
                    &&& p.0 == value_of(data@.subrange(start as int, j))
                    &&& -VALUE_BOUND <= p.0 <= VALUE_BOUND
                },
                Err(e) => {
                    &&& e == Error::InputError
                    &&& (j >= data@.len() || !valid_value(data@.subrange(start as int, j)))
                },
            }
        }),
{
    let ghost s = data@;
    proof {
        lemma_first_of(s, NEWLINE);
    }
    let ghost j = first_of(s, NEWLINE) as int;
    proof {
        assert(j >= start) by {
            if j < start {
                assert(s[j] == NEWLINE);
            }
        }
    }
    let n = data.len();
    let mut i: usize = start;
    let mut neg = false;
    if i < n && data[i] == MINUS {
        neg = true;
        i = i + 1;
    }
    let ghost sgn: int = if neg {
        1
    } else {
        0
    };
    let ghost bstart = start + sgn;
    proof {
        if neg {
            assert(j > start) by {
                if j <= start {
                    assert(s[j] == NEWLINE);
                }
            }
        }
    }
    let ghost b = s.subrange(bstart, j);
    let intstart = i;
    let mut acc: u64 = 0;
    while i < n && 48 <= data[i] && data[i] <= 57
        invariant
            s == data@,
            n == s.len(),
            start <= s.len(),
            j == first_of(s, NEWLINE) as int,
            bstart == start + sgn,
            b == s.subrange(bstart, j),
            neg ==> sgn == 1,
            !neg ==> sgn == 0,
            neg ==> start < j && start < s.len() && s[start as int] == MINUS,
            (!neg && start < j) ==> s[start as int] != MINUS,
            bstart <= j,
            intstart as int == bstart,
            intstart <= i <= n,
            forall|k: int| bstart <= k < i ==> is_digit(#[trigger] s[k]),
            acc == digits_val(s.subrange(bstart, i as int)),
            acc <= RAW_LIMIT,
            forall|k: int| 0 <= k < i ==> #[trigger] s[k] != NEWLINE,
        decreases n - i,
    {
        let d = data[i] - 48;
        let acc2 = acc * 10 + d as u64;
        proof {
            lemma_first_of(s, NEWLINE);
            assert(s.subrange(bstart, i + 1) =~= s.subrange(bstart, i as int).push(s[i as int]));
            assert(s.subrange(bstart, i + 1).drop_last() =~= s.subrange(bstart, i as int));
        }
        if acc2 > RAW_LIMIT {
            proof {
                assert(j >= i + 1) by {
                    if j <= i {
                        assert(s[j] == NEWLINE);
                    }
                }
                if j < s.len() {
                    lemma_value_body_at(s, j, start as int, sgn);
                    let r = i + 1 - bstart;
                    assert(b.take(r) =~= s.subrange(bstart, i + 1));
                    assert(forall|k: int| 0 <= k < r ==> is_digit(#[trigger] b[k]));
                    lemma_body_err_overflow(b, r);
                }
            }
            return Err(Error::InputError);
        }
        acc = acc2;
        i = i + 1;
    }
    if i == intstart {
        // no integer digit at the start of the value
        proof {
            if j < s.len() {
                lemma_value_body_at(s, j, start as int, sgn);
                if j > i {
                    assert(b[0] == s[bstart]);
                    assert(!is_digit(b[0]));
                }
                lemma_body_err_first(b);
            }
        }
        return Err(Error::InputError);
    }
    let ghost dotpos: int = i as int;
    let mut frac: usize = 0;
    let fracstart;
    if i < n && data[i] == DOT {
        i = i + 1;
        fracstart = i;
        while i < n && 48 <= data[i] && data[i] <= 57
            invariant
                s == data@,
                n == s.len(),
                start <= s.len(),
                j == first_of(s, NEWLINE) as int,
                bstart == start + sgn,
                b == s.subrange(bstart, j),
                neg ==> sgn == 1,
                !neg ==> sgn == 0,
                neg ==> start < j && start < s.len() && s[start as int] == MINUS,
                (!neg && start < j) ==> s[start as int] != MINUS,
                bstart <= j,
                bstart < dotpos,
                dotpos == fracstart - 1,
                intstart as int == bstart,
                fracstart <= i <= n,
                frac == i - fracstart,
                frac <= 3,
                s[dotpos] == DOT,
                forall|k: int| bstart <= k < dotpos ==> is_digit(#[trigger] s[k]),
                forall|k: int| fracstart <= k < i ==> is_digit(#[trigger] s[k]),
                acc == digits_val(
                    s.subrange(bstart, dotpos) + s.subrange(fracstart as int, i as int),
                ),
                acc <= RAW_LIMIT,
                forall|k: int| 0 <= k < i ==> #[trigger] s[k] != NEWLINE,
            decreases n - i,
        {
            if frac == 3 {
                // a fourth fraction digit
                proof {
                    lemma_first_of(s, NEWLINE);
                    assert(j >= i + 1) by {
                        if j <= i {
                            assert(s[j] == NEWLINE);
                        }
                    }
                    if j < s.len() {
                        lemma_value_body_at(s, j, start as int, sgn);
                        let d0 = dotpos - bstart;
                        assert(b[d0] == s[dotpos]);
                        assert(forall|k: int| 0 <= k < d0 ==> is_digit(#[trigger] b[k]));
                        assert(b.len() >= d0 + 5);
                        lemma_body_err_long_frac(b, d0);
                    }
                }
                return Err(Error::InputError);
            }
            let d = data[i] - 48;
            let acc2 = acc * 10 + d as u64;
            let ghost dsofar = s.subrange(bstart, dotpos) + s.subrange(
                fracstart as int,
                i as int,
            );
            proof {
                lemma_first_of(s, NEWLINE);
                let dnext = s.subrange(bstart, dotpos) + s.subrange(fracstart as int, i + 1);
                assert(dnext =~= dsofar.push(s[i as int]));
                assert(dnext.drop_last() =~= dsofar);
            }
            if acc2 > RAW_LIMIT {
                proof {
                    assert(j >= i + 1) by {
                        if j <= i {
                            assert(s[j] == NEWLINE);
                        }
                    }
                    if j < s.len() {
                        lemma_value_body_at(s, j, start as int, sgn);
                        let d0 = dotpos - bstart;
                        let f = i + 1 - fracstart;
                        assert(b[d0] == s[dotpos]);
                        assert(forall|k: int| 0 <= k < d0 ==> is_digit(#[trigger] b[k]));
                        assert(forall|k: int|
                            d0 + 1 <= k < d0 + 1 + f ==> is_digit(#[trigger] b[k]));
                        assert(b.take(d0) =~= s.subrange(bstart, dotpos));
                        assert(b.subrange(d0 + 1, d0 + 1 + f) =~= s.subrange(
                            fracstart as int,
                            i + 1,
                        ));
                        lemma_body_err_overflow_frac(b, d0, f);
                    }
                }
                return Err(Error::InputError);
            }
            acc = acc2;
            frac = frac + 1;
            i = i + 1;
        }
        if frac == 0 {
            // nothing after the decimal point
            proof {
                if j < s.len() {
                    lemma_value_body_at(s, j, start as int, sgn);
                    let d0 = dotpos - bstart;
                    assert(b[d0] == s[dotpos]);
                    assert(forall|k: int| 0 <= k < d0 ==> is_digit(#[trigger] b[k]));
                    if j == i {
                        lemma_body_err_empty_frac(b, d0);
                    } else {
                        assert(j > i) by {
                            if j < i {
                                assert(s[j] == NEWLINE);
                            }
                        }
                        assert(b[d0 + 1] == s[i as int]);
                        assert(!is_digit(b[d0 + 1]));
                        lemma_body_err_frac(b, d0, d0 + 1);
                    }
                }
            }
            return Err(Error::InputError);
        }
    } else {
        fracstart = i;
    }
    if i >= n {
        // no newline closes the record
        return Err(Error::InputError);
    }
    let ghost had_dot = frac > 0;
    if data[i] != NEWLINE {
        // stray byte where a digit, point or newline was expected
        proof {
            assert(j > i) by {
                if j <= i {
                    assert(s[j] == NEWLINE);
                }
            }
            if j < s.len() {
                lemma_value_body_at(s, j, start as int, sgn);
                let p = i as int - bstart;
                assert(b[p] == s[i as int]);
                if !had_dot {
                    assert(forall|k: int| 0 <= k < p ==> is_digit(#[trigger] b[k]));
                    lemma_body_err_int(b, p);
                } else {
                    let d0 = dotpos - bstart;
                    assert(b[d0] == s[dotpos]);
                    assert(forall|k: int| 0 <= k < d0 ==> is_digit(#[trigger] b[k]));
                    assert(!is_digit(b[p]));
                    lemma_body_err_frac(b, d0, p);
                }
            }
        }
        return Err(Error::InputError);
    }
    // commit: the newline closes the value
    proof {
        lemma_first_of_is(s, NEWLINE, i as int);
        assert(j == i);
        lemma_value_body_at(s, j, start as int, sgn);
        if !had_dot {
            assert(b =~= s.subrange(bstart, i as int));
            assert(all_digits(b));
            lemma_body_commit_int(b);
        } else {
            let d0 = dotpos - bstart;
            assert(b[d0] == s[dotpos]);
            assert(forall|k: int| 0 <= k < d0 ==> is_digit(#[trigger] b[k]));
            assert(forall|k: int| d0 + 1 <= k < b.len() ==> is_digit(#[trigger] b[k]));
            assert(b.take(d0) + b.skip(d0 + 1) =~= s.subrange(bstart, dotpos) + s.subrange(
                fracstart as int,
                i as int,
            ));
            lemma_body_commit_frac(b, d0);
        }
        assert(digits_val(body_digits(b)) == acc);
    }
    let scale: u64 = if frac == 0 {
        1000
    } else if frac == 1 {
        100
    } else if frac == 2 {
        10
    } else {
        1
    };
    let scaled: u64 = acc * scale;
    let value: i64 = if neg {
        -(scaled as i64)
    } else {
        scaled as i64
    };
    proof {
        assert(frac_scale(body_frac_len(b)) == scale);
        assert(valid_value(s.subrange(start as int, j)));
        assert(value == value_of(s.subrange(start as int, j)));
    }
    Ok((value, i + 1))
}

/// Scan one record from the front of `data`: the key up to the first
/// semicolon, then the value up to the terminating newline.
///
/// On success returns the owned key, the value in thousandths, and the index
/// one past the newline. Fails exactly when the text up to the first newline
/// is not a valid line (or no newline exists).
pub fn parse_record(data: &[u8]) -> (r: Result<(Vec<u8>, i64, usize), Error>)
    requires
        data@.len() > 0,
    ensures
        ({
            let j = first_of(data@, NEWLINE) as int;
            match r {
                Ok(p) => {
                    &&& j < data@.len()
                    &&& p.2 == j + 1
                    &&& valid_line(data@.take(j + 1))
                    &&& p.0@ == line_key(data@.take(j + 1))
                    &&& p.1 == line_value(data@.take(j + 1))
                    &&& -VALUE_BOUND <= p.1 <= VALUE_BOUND
                },
                Err(e) => {
                    &&& e == Error::InputError
                    &&& (j >= data@.len() || !valid_line(data@.take(j + 1)))
                },
            }
        }),
{
    let ghost s = data@;
    proof {
        lemma_first_of(s, NEWLINE);
    }
    let ghost j = first_of(s, NEWLINE) as int;
    let n = data.len();
    let mut i: usize = 0;
    let mut key: Vec<u8> = Vec::new();
    while i < n && data[i] != SEMICOLON && data[i] != NEWLINE
        invariant
            s == data@,
            n == s.len(),
            j == first_of(s, NEWLINE) as int,
            0 <= i <= n,
            key@ == s.take(i as int),
            key@.len() == i,
            i <= MAX_KEY_LEN,
            forall|k: int| 0 <= k < i ==> s[k] != SEMICOLON && #[trigger] s[k] != NEWLINE,
        decreases n - i,
    {
        if i == MAX_KEY_LEN {
            // the key would exceed its bounded buffer
            proof {
                lemma_first_of(s, NEWLINE);
                assert(j > i) by {
                    if j <= i {
                        assert(s[j] == NEWLINE);
                    }
                }
                if j < s.len() {
                    lemma_line_semi_late(s, j, i + 1);
                }
            }
            return Err(Error::InputError);
        }
        key.push(data[i]);
        proof {
            assert(s.take(i + 1) =~= s.take(i as int).push(s[i as int]));
        }
        i = i + 1;
    }
    proof {
        lemma_first_of(s, NEWLINE);
    }
    if i >= n {
        // no newline anywhere in the data
        return Err(Error::InputError);
    }
    if data[i] == NEWLINE {
        // the line has no semicolon
        proof {
            lemma_first_of_is(s, NEWLINE, i as int);
            lemma_line_semi_late(s, j, j + 1);
        }
        return Err(Error::InputError);
    }
    let ghost semi = i as int;
    match parse_value(data, i + 1) {
        Ok((value, next)) => {
            proof {
                lemma_line_of_value(s, j, semi);
                assert(key@ =~= s.take(semi));
            }
            Ok((key, value, next))
        },
        Err(e) => {
            proof {
                if j < s.len() {
                    lemma_line_of_value(s, j, semi);
                }
            }
            Err(e)
        },
    }
}

/// Parse every record of `data` into a fresh aggregate table.
///
/// Succeeds exactly when `data` is a well-formed sequence of
/// newline-terminated records (the empty input included), and then returns
/// the fold of all its records.
#[verifier::loop_isolation(false)]
pub fn aggregate(data: &[u8]) -> (r: Result<AggregateTable, Error>)
    ensures
        match r {
            Ok(t) => {
                &&& parse_records(data@) matches Some(rs) && t@ == table_of_records(rs)
                &&& t.wf()
            },
            Err(e) => {
                &&& e == Error::InputError
                &&& parse_records(data@) is None
            },
        },
{
    let ghost s = data@;
    let n = data.len();
    let mut table = AggregateTable::new();
    let mut i: usize = 0;
    let ghost mut committed: Seq<Record> = Seq::empty();
    proof {
        assert(s.skip(0) =~= s);
        match parse_records(s) {
            Some(r0) => {
                assert(committed + r0 =~= r0);
            },
            None => {},
        }
    }
    while i < n
        invariant
            0 <= i <= n,
            committed.len() <= i,
            table@ == table_of_records(committed),
            table.wf(),
            parse_records(s.skip(i as int)) matches Some(rest) ==> parse_records(s) == Some(
                committed + rest,
            ),
            parse_records(s.skip(i as int)) is None ==> parse_records(s) is None,
        decreases n - i,
    {
        let sub = slice_subrange(data, i, n);
        proof {
            assert(sub@ =~= s.skip(i as int));
        }
        match parse_record(sub) {
            Ok((key, value, next)) => {
                let ghost suf = s.skip(i as int);
                let ghost j = first_of(suf, NEWLINE) as int;
                let ghost l = suf.take(j + 1);
                let ghost rec = Record { key: line_key(l), value: line_value(l) };
                proof {
                    assert(suf.skip(j + 1) =~= s.skip(i + next));
                    lemma_table_counts(committed);
                    if table@.contains_key(key@) {
                        assert(table@[key@].count <= committed.len());
                    }
                    match parse_records(s.skip(i + next)) {
                        Some(rest2) => {
                            assert(parse_records(suf) == Some(seq![rec] + rest2));
                            assert((committed + (seq![rec] + rest2)) =~= (committed + seq![rec])
                                + rest2);
                        },
                        None => {},
                    }
                    assert((committed + seq![rec]).drop_last() =~= committed);
                    assert((committed + seq![rec]).last() == rec);
                }
                table.update(key, value);
                proof {
                    committed = committed + seq![rec];
                }
                i = i + next;
            },
            Err(e) => {
                proof {
                    assert(parse_records(s.skip(i as int)) is None);
                }
                return Err(e);
            },
        }
    }
    proof {
        assert(s.skip(n as int) =~= Seq::<u8>::empty());
        assert(parse_records(s.skip(n as int)) == Some(Seq::<Record>::empty()));
        assert(committed + Seq::<Record>::empty() =~= committed);
    }
    Ok(table)
}

} // verus!

//! Parallel chunked aggregation of `<key>;<decimal-value>` records.
//!
//! The library splits a newline-delimited byte buffer into record-aligned
//! chunks, parses each line into a key and a fixed-point value (thousandths),
//! maintains per-key aggregates (min, max, sum, count), merges per-chunk
//! tables, and renders a sorted `{key=min/mean/max, ...}` summary.

use vstd::prelude::*;

pub mod bytes;
pub mod chunk;
pub mod laws;
pub mod measurement;
pub mod parser;
pub mod render;
pub mod table;
pub mod utf8;

use crate::measurement::Measurement;
use crate::parser::{aggregate, parse_records};
use crate::render::{entries_match, entries_sorted, entries_view, render, render_str};
use crate::table::table_of_records;
use crate::utf8::is_utf8;

verus! {

/// The ways a run can fail; all are fatal for the whole computation.
#[derive(Clone, Copy, Debug, PartialEq, Eq, Structural)]
pub enum Error {
    /// The input source could not be opened.
    InputNotFound,
    /// A record is malformed, or the input is not newline-terminated.
    InputError,
    /// A key's bytes are not valid UTF-8 at render time.
    EncodingError,
    /// A worker failed; no partial result is produced.
    ThreadFailure,
}

/// The whole pipeline over one buffer: parse every record, aggregate per
/// key, and render the sorted summary.
///
/// Succeeds exactly when the buffer is a well-formed sequence of
/// newline-terminated records and every key is valid UTF-8; a chunked,
/// merged run over the same buffer yields the same table, since merging is
/// a homomorphism over record concatenation (see `laws`).
pub fn summarize(data: &[u8]) -> (r: Result<Vec<u8>, Error>)
    ensures
        match r {
            Ok(out) => parse_records(data@) matches Some(rs) && ({
                let t = table_of_records(rs);
                &&& forall|k: Seq<u8>| t.contains_key(k) ==> is_utf8(k)
                &&& exists|es: Seq<(Vec<u8>, Measurement)>|
                    #[trigger] entries_sorted(es) && entries_match(t, es) && out@ == render_str(
                        entries_view(es),
                    )
            }),
            Err(e) => {
                ||| (e == Error::InputError && parse_records(data@) is None)
                ||| (e == Error::EncodingError && (parse_records(data@) matches Some(rs)
                    && exists|k: Seq<u8>|
                    #[trigger] table_of_records(rs).contains_key(k) && !is_utf8(k)))
            },
        },
{
    match aggregate(data) {
        Ok(t) => render(&t),
        Err(e) => Err(e),
    }
}

} // verus!

use measurements::chunk::{last_newline, plan_chunks};
use measurements::parser::aggregate;
use measurements::render::render;
use measurements::summarize;
use measurements::table::AggregateTable;
use measurements::Error;

fn run_with_workers(data: &[u8], workers: usize) -> Result<Vec<u8>, Error> {
    let chunks = plan_chunks(data, workers)?;
    let mut acc = AggregateTable::new();
    for c in chunks {
        let t = aggregate(&data[c.start..c.end])?;
        assert!(acc.merge_from(&t));
    }
    render(&acc)
}

#[test]
fn single_record_any_worker_count() {
    let data = b"A;1.0\n";
    for workers in [1usize, 2, 3, 7, 64] {
        let out = run_with_workers(&data[..], workers).unwrap();
        assert_eq!(out, b"{A=1.0/1.0/1.0}".to_vec());
    }
    assert_eq!(summarize(&data[..]).unwrap(), b"{A=1.0/1.0/1.0}".to_vec());
}

#[test]
fn end_to_end_two_workers() {
    let data = b"Tokyo;12.3\nTokyo;-5.6\nBerlin;20.0\n";
    // a split right after the second line, as a two-worker run may produce
    let t1 = aggregate(&data[..22]).unwrap();
    let t2 = aggregate(&data[22..]).unwrap();
    let mut acc = AggregateTable::new();
    assert!(acc.merge_from(&t1));
    assert!(acc.merge_from(&t2));
    let out = String::from_utf8(render(&acc).unwrap()).unwrap();
    assert_eq!(out, "{Berlin=20.0/20.0/20.0, Tokyo=-5.6/3.4/12.3}");
    // the planner path and the sequential path agree
    assert_eq!(
        run_with_workers(&data[..], 2).unwrap(),
        b"{Berlin=20.0/20.0/20.0, Tokyo=-5.6/3.4/12.3}".to_vec()
    );
    assert_eq!(
        summarize(&data[..]).unwrap(),
        b"{Berlin=20.0/20.0/20.0, Tokyo=-5.6/3.4/12.3}".to_vec()
    );
}

#[test]
fn round_trip_one_fraction_digit() {
    let out = summarize(&b"K;12.3\n"[..]).unwrap();
    assert_eq!(out, b"{K=12.3/12.3/12.3}".to_vec());
}

#[test]
fn round_trip_two_fraction_digits_negative() {
    // -0.04 is held as -40 thousandths and renders as -0.0 at one decimal
    let t = aggregate(&b"K;-0.04\n"[..]).unwrap();
    let m = t.lookup(b"K").unwrap();
    assert_eq!(m.min, -40);
    assert_eq!(m.max, -40);
    assert_eq!(m.sum, -40);
    assert_eq!(m.count, 1);
    let out = summarize(&b"K;-0.04\n"[..]).unwrap();
    assert_eq!(out, b"{K=-0.0/-0.0/-0.0}".to_vec());
}

#[test]
fn rounding_half_away_from_zero() {
    assert_eq!(summarize(&b"K;0.05\n"[..]).unwrap(), b"{K=0.1/0.1/0.1}".to_vec());
    assert_eq!(summarize(&b"K;-0.05\n"[..]).unwrap(), b"{K=-0.1/-0.1/-0.1}".to_vec());
    assert_eq!(summarize(&b"K;3.35\n"[..]).unwrap(), b"{K=3.4/3.4/3.4}".to_vec());
}

#[test]
fn update_min_and_max_independently() {
    // one observation must be able to lower min while an earlier one fixed max
    let mut t = AggregateTable::new();
    t.update(b"k".to_vec(), 5000);
    t.update(b"k".to_vec(), -7000);
    let m = t.lookup(b"k").unwrap();
    assert_eq!(m.min, -7000);
    assert_eq!(m.max, 5000);
    assert_eq!(m.sum, -2000);
    assert_eq!(m.count, 2);
    // the same, arriving in the opposite order
    let mut t2 = AggregateTable::new();
    t2.update(b"k".to_vec(), -7000);
    t2.update(b"k".to_vec(), 5000);
    let m2 = t2.lookup(b"k").unwrap();
    assert_eq!(m2.min, -7000);
    assert_eq!(m2.max, 5000);
    assert_eq!(m2.sum, -2000);
    assert_eq!(m2.count, 2);
}

#[test]
fn merge_order_irrelevant() {
    let t1 = aggregate(&b"a;1\nb;2\n"[..]).unwrap();
    let t2 = aggregate(&b"b;3\nc;4\n"[..]).unwrap();
    let mut left = AggregateTable::new();
    assert!(left.merge_from(&t1));
    assert!(left.merge_from(&t2));
    let mut right = AggregateTable::new();
    assert!(right.merge_from(&t2));
    assert!(right.merge_from(&t1));
    assert_eq!(render(&left).unwrap(), render(&right).unwrap());
    assert_eq!(
        render(&left).unwrap(),
        b"{a=1.0/1.0/1.0, b=2.0/2.5/3.0, c=4.0/4.0/4.0}".to_vec()
    );
}

#[test]
fn output_keys_strictly_ascending() {
    let out = summarize(&b"b;1\na;2\nc;3\na;4\n"[..]).unwrap();
    assert_eq!(out, b"{a=2.0/3.0/4.0, b=1.0/1.0/1.0, c=3.0/3.0/3.0}".to_vec());
}

#[test]
fn empty_input_renders_empty_braces() {
    assert_eq!(summarize(&b""[..]).unwrap(), b"{}".to_vec());
}

#[test]
fn missing_trailing_newline_rejected() {
    assert_eq!(summarize(&b"A;1.0"[..]), Err(Error::InputError));
    assert_eq!(plan_chunks(&b"A;1.0"[..], 2), Err(Error::InputError));
    assert_eq!(summarize(&b"A;1.0\nB;2"[..]), Err(Error::InputError));
}

#[test]
fn malformed_records_rejected() {
    assert_eq!(summarize(&b"abc\n"[..]), Err(Error::InputError));
    assert_eq!(summarize(&b"K;--1\n"[..]), Err(Error::InputError));
    assert_eq!(summarize(&b"K;1.2.3\n"[..]), Err(Error::InputError));
    assert_eq!(summarize(&b"K;1.\n"[..]), Err(Error::InputError));
    assert_eq!(summarize(&b"K;.5\n"[..]), Err(Error::InputError));
    assert_eq!(summarize(&b"K;1.2345\n"[..]), Err(Error::InputError));
    assert_eq!(summarize(&b"K;12a\n"[..]), Err(Error::InputError));
    assert_eq!(summarize(&b"K;\n"[..]), Err(Error::InputError));
    // concatenated digits beyond the raw limit
    assert_eq!(summarize(&b"K;1000000000000\n"[..]), Err(Error::InputError));
    // key longer than the bounded buffer
    let mut long = vec![b'x'; 101];
    long.extend_from_slice(b";1\n");
    assert_eq!(summarize(&long), Err(Error::InputError));
    // exactly at the bound the key is accepted
    let mut ok = vec![b'x'; 100];
    ok.extend_from_slice(b";1\n");
    assert!(summarize(&ok).is_ok());
}

#[test]
fn encoding_error_for_non_utf8_key() {
    let data = vec![0xFF, b';', b'1', b'\n'];
    let t = aggregate(&data).unwrap();
    assert_eq!(render(&t), Err(Error::EncodingError));
    assert_eq!(summarize(&data), Err(Error::EncodingError));
}

#[test]
fn chunks_partition_the_source() {
    let data = b"aa;1\nbb;2\ncc;3\n";
    for workers in [1usize, 2, 3, 4, 16] {
        let chunks = plan_chunks(&data[..], workers).unwrap();
        assert!(!chunks.is_empty());
        assert!(chunks.len() <= workers);
        assert_eq!(chunks[0].start, 0);
        assert_eq!(chunks[chunks.len() - 1].end, data.len());
        for (i, c) in chunks.iter().enumerate() {
            assert!(c.start < c.end);
            assert_eq!(data[c.end - 1], b'\n');
            if i + 1 < chunks.len() {
                assert_eq!(c.end, chunks[i + 1].start);
            }
        }
    }
}

#[test]
fn last_newline_positions() {
    assert_eq!(last_newline(&b"ab\ncd"[..]), 3);
    assert_eq!(last_newline(&b"abc"[..]), 3);
    assert_eq!(last_newline(&b"ab\n"[..]), 3);
    assert_eq!(last_newline(&b"\n"[..]), 1);
    assert_eq!(last_newline(&b""[..]), 0);
}

#[test]
fn variable_fraction_digits_canonicalized() {
    // 0 to 3 fraction digits all scale to thousandths
    let t = aggregate(&b"a;5\nb;5.1\nc;5.12\nd;5.123\n"[..]).unwrap();
    assert_eq!(t.lookup(b"a").unwrap().min, 5000);
    assert_eq!(t.lookup(b"b").unwrap().min, 5100);
    assert_eq!(t.lookup(b"c").unwrap().min, 5120);
    assert_eq!(t.lookup(b"d").unwrap().min, 5123);
}

#[test]
fn empty_key_is_a_key() {
    let out = summarize(&b";1.0\n"[..]).unwrap();
    assert_eq!(out, b"{=1.0/1.0/1.0}".to_vec());
}

//! End-to-end scenarios for the aggregation engine.

use aggstats::run::summarize;
use aggstats::agg::aggregate_range;
use aggstats::chunk::{plan_chunks, AggError, LOOKAHEAD_BYTES};
use aggstats::format::format_output;
use aggstats::stats::RunningStat;
use aggstats::table::AggMap;

const BIG: usize = 1 << 20;

#[test]
fn whole_file_example() {
    let input = b"A;10.0\nB;5.0\nA;20.0\n";
    let out = summarize(input, BIG).unwrap();
    assert_eq!(out, b"{A=10.0/15.0/20.0, B=5.0/5.0/5.0}\n".to_vec());
}

#[test]
fn whole_file_example_stats() {
    let input = b"A;10.0\nB;5.0\nA;20.0\n";
    let m = aggregate_range(input, 0, input.len());
    assert_eq!(m.entries.len(), 2);
    assert_eq!(m.entries[0].key, b"A".to_vec());
    assert_eq!(m.entries[0].stat.min, 100);
    assert_eq!(m.entries[0].stat.max, 200);
    assert_eq!(m.entries[0].stat.sum, 300);
    assert_eq!(m.entries[0].stat.count, 2);
    assert_eq!(m.entries[0].stat.mean_tenths(), 150);
    assert_eq!(m.entries[1].key, b"B".to_vec());
    assert_eq!(m.entries[1].stat.count, 1);
}

#[test]
fn bad_line_is_skipped() {
    let input = b"A;10.0\nbadline\nA;20.0\n";
    let out = summarize(input, BIG).unwrap();
    assert_eq!(out, b"{A=10.0/15.0/20.0}\n".to_vec());
}

#[test]
fn empty_input_gives_empty_braces() {
    let out = summarize(b"", BIG).unwrap();
    assert_eq!(out, b"{}\n".to_vec());
}

#[test]
fn lenient_parsing_variants() {
    // Missing delimiter, empty key, empty value, malformed numbers: all
    // skipped; well-formed neighbours still counted.
    let input = b"A;1.0\nnodelim\n;2.0\nA;\nA;1.2.3\nA;.5\nA;5.\nA;3.0\n";
    let m = aggregate_range(input, 0, input.len());
    assert_eq!(m.entries.len(), 1);
    assert_eq!(m.entries[0].stat.count, 2);
    assert_eq!(m.entries[0].stat.sum, 40);
}

#[test]
fn value_forms() {
    // Optional sign, integer-only values, one fractional digit.
    let input = b"a;5\nb;-5\nc;+5.5\nd;-0.5\n";
    let m = aggregate_range(input, 0, input.len());
    assert_eq!(m.entries.len(), 4);
    assert_eq!(m.entries[0].stat.sum, 50);
    assert_eq!(m.entries[1].stat.sum, -50);
    assert_eq!(m.entries[2].stat.sum, 55);
    assert_eq!(m.entries[3].stat.sum, -5);
}

#[test]
fn unterminated_final_line_counts() {
    let input = b"A;1.0\nA;2.0";
    let m = aggregate_range(input, 0, input.len());
    assert_eq!(m.entries[0].stat.count, 2);
    assert_eq!(m.entries[0].stat.sum, 30);
}

#[test]
fn chunked_equals_single_chunk() {
    let mut input = Vec::new();
    for i in 0..200u32 {
        input.extend_from_slice(format!("key{};{}.{}\n", i % 7, i % 50, i % 10).as_bytes());
    }
    let whole = summarize(&input, BIG).unwrap();
    for target in [1usize, 2, 8, 33, 100] {
        let split = summarize(&input, target).unwrap();
        assert_eq!(whole, split);
    }
}

#[test]
fn merge_is_commutative_and_associative() {
    let x = b"A;1.0\nB;2.0\n";
    let y = b"A;3.0\nC;4.0\n";
    let z = b"B;5.0\nA;-1.0\n";
    let ax = || aggregate_range(x, 0, x.len());
    let ay = || aggregate_range(y, 0, y.len());
    let az = || aggregate_range(z, 0, z.len());

    // (x + y) + z, x + (y + z), and a reversed order all render alike.
    let mut m1 = ax();
    m1.merge_from(&ay());
    m1.merge_from(&az());

    let mut m23 = ay();
    m23.merge_from(&az());
    let mut m2 = ax();
    m2.merge_from(&m23);

    let mut m3 = az();
    m3.merge_from(&ay());
    m3.merge_from(&ax());

    let o1 = format_output(&m1);
    assert_eq!(o1, format_output(&m2));
    assert_eq!(o1, format_output(&m3));
    assert_eq!(o1, b"{A=-1.0/1.0/3.0, B=2.0/3.5/5.0, C=4.0/4.0/4.0}\n".to_vec());
}

#[test]
fn plan_is_line_aligned_partition() {
    let mut input = Vec::new();
    for i in 0..100u32 {
        input.extend_from_slice(format!("city{};{}.5\n", i, i).as_bytes());
    }
    let chunks = plan_chunks(&input, 16).unwrap();
    assert!(!chunks.is_empty());
    assert_eq!(chunks[0].start, 0);
    assert_eq!(chunks[chunks.len() - 1].end, input.len());
    for w in 0..chunks.len() {
        let c = &chunks[w];
        assert!(c.start < c.end);
        // Every boundary is one past a newline or the end of the input.
        assert!(c.end == input.len() || input[c.end - 1] == b'\n');
        if w + 1 < chunks.len() {
            assert_eq!(c.end, chunks[w + 1].start);
        }
    }
}

#[test]
fn oversized_record_fails_plan() {
    let mut input = Vec::new();
    input.extend_from_slice(b"ok;1.0\n");
    input.extend_from_slice(vec![b'x'; LOOKAHEAD_BYTES + 60].as_slice());
    input.extend_from_slice(b";1.0\n");
    let r = summarize(&input, 8);
    assert_eq!(r.unwrap_err(), AggError::RecordTooLong);
}

#[test]
fn output_is_deterministic_and_sorted() {
    let input = b"zebra;1.0\napple;2.0\nmango;3.0\napple;4.0\n";
    let a = summarize(input, BIG).unwrap();
    let b = summarize(input, 4).unwrap();
    assert_eq!(a, b);
    assert_eq!(
        a,
        b"{apple=2.0/3.0/4.0, mango=3.0/3.0/3.0, zebra=1.0/1.0/1.0}\n".to_vec()
    );
}

#[test]
fn chunked_run_with_unterminated_final_line() {
    let input = b"A;1.0\nB;2.0\nA;3.0\nB;4.0\nA;5.0";
    let whole = summarize(input, BIG).unwrap();
    assert_eq!(whole, b"{A=1.0/3.0/5.0, B=2.0/3.0/4.0}\n".to_vec());
    for target in [1usize, 3, 7] {
        assert_eq!(summarize(input, target).unwrap(), whole);
    }
}

#[test]
fn mean_rounds_half_away_from_zero() {
    // 0.1 and 0.2 average to 0.15, shown as 0.2; negated, as -0.2.
    let input = b"p;0.1\np;0.2\nn;-0.1\nn;-0.2\n";
    let out = summarize(input, BIG).unwrap();
    assert_eq!(out, b"{n=-0.2/-0.2/-0.1, p=0.1/0.2/0.2}\n".to_vec());
}

#[test]
fn running_stat_combine_matches_updates() {
    let mut table = AggMap::new();
    table.add_stat(b"k".to_vec(), RunningStat::new(100));
    table.add_stat(b"k".to_vec(), RunningStat::new(-50));
    assert_eq!(table.entries.len(), 1);
    let st = &table.entries[0].stat;
    assert_eq!(st.min, -50);
    assert_eq!(st.max, 100);
    assert_eq!(st.sum, 50);
    assert_eq!(st.count, 2);
    let c = RunningStat::new(100).combine(&RunningStat::new(-50));
    assert_eq!((c.min, c.max, c.sum, c.count), (-50, 100, 50, 2));
}

#[test]
fn value_range_boundary() {
    // Fourteen integer digits parse; fifteen exceed the range and the
    // line is skipped.
    let input = b"big;99999999999999.9\nbig;999999999999999.9\nzero;-0.0\n";
    let out = summarize(input, BIG).unwrap();
    assert_eq!(
        out,
        b"{big=99999999999999.9/99999999999999.9/99999999999999.9, zero=0.0/0.0/0.0}\n".to_vec()
    );
}

#[test]
fn keys_are_byte_exact() {
    // Keys equal only when byte-identical.
    let input = b"Aa;1.0\naa;2.0\nAa;3.0\n";
    let out = summarize(input, BIG).unwrap();
    assert_eq!(out, b"{Aa=1.0/2.0/3.0, aa=2.0/2.0/2.0}\n".to_vec());
}

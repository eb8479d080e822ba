//! Chunk-local aggregation: fold every line of a byte range into a table,
//! and the laws that let chunk results be merged into the whole-range
//! result.

use vstd::prelude::*;
use crate::stats::{StatModel, stat_of, stat_wf, min_i, max_i, lemma_combine_wf};
use crate::parse::{
    line_end, lemma_line_end_props, lemma_line_end_unique, parse_line_at,
    lemma_parse_line_bounds, find_newline, parse_record, copy_bytes,
};
use crate::table::{
    StatMap, map_wf, add_stat_m, map_merge, lemma_merge_empty, lemma_merge_assoc,
    lemma_add_stat_as_merge, AggMap,
};

verus! {

/// Fold the record of line `s[i..j)` into the map; an unparsable line
/// changes nothing.
pub open spec fn add_line_m(m: StatMap, s: Seq<u8>, i: int, j: int) -> StatMap {
    match parse_line_at(s, i, j) {
        Some(kv) => add_stat_m(m, kv.0, stat_of(kv.1)),
        None => m,
    }
}

/// Where the line starting at `i` stops within the range bound `b`.
pub open spec fn line_stop(s: Seq<u8>, i: int, b: int) -> int {
    max_i(min_i(line_end(s, i), b), i + 1)
}

/// Aggregate every line of `s[i..b)` into the accumulator `m`.
pub open spec fn agg_range(s: Seq<u8>, i: int, b: int, m: StatMap) -> StatMap
    decreases b - i,
{
    if i < 0 || i >= b || b > s.len() {
        m
    } else {
        agg_range(s, line_stop(s, i, b), b, add_line_m(m, s, i, line_stop(s, i, b)))
    }
}

/// A boundary is line-aligned when it is an end of the byte range or sits
/// just past a newline.
pub open spec fn aligned(s: Seq<u8>, p: int) -> bool {
    p == 0 || p == s.len() || (0 < p <= s.len() && s[p - 1] == 10u8)
}

/// No line that starts before an aligned boundary runs past it.
pub proof fn lemma_line_within(s: Seq<u8>, i: int, mid: int)
    requires
        0 <= i < mid <= s.len(),
        aligned(s, mid),
    ensures
        i + 1 <= line_end(s, i) <= mid,
{
    lemma_line_end_props(s, i);
    let le = line_end(s, i);
    if le > mid {
        assert(i <= mid - 1 < le - 1);
        assert(s[mid - 1] != 10u8);
    }
}

/// Splitting at an aligned boundary: aggregating `[i, b)` is aggregating
/// `[i, mid)` and continuing over `[mid, b)`.
pub proof fn lemma_agg_split(s: Seq<u8>, i: int, mid: int, b: int, m: StatMap)
    requires
        0 <= i <= mid <= b <= s.len(),
        aligned(s, mid),
    ensures
        agg_range(s, i, b, m) == agg_range(s, mid, b, agg_range(s, i, mid, m)),
    decreases mid - i,
{
    if i < mid {
        lemma_line_within(s, i, mid);
        let j = line_stop(s, i, mid);
        assert(line_stop(s, i, b) == j);
        lemma_agg_split(s, j, mid, b, add_line_m(m, s, i, j));
    }
}

/// The accumulator factors out of an aggregation as a merge.
pub proof fn lemma_agg_acc_merge(s: Seq<u8>, i: int, b: int, m: StatMap)
    ensures
        agg_range(s, i, b, m) == map_merge(m, agg_range(s, i, b, Map::empty())),
    decreases max_i(b - i, 0),
{
    if 0 <= i && i < b && b <= s.len() {
        let j = line_stop(s, i, b);
        let u = add_line_m(Map::empty(), s, i, j);
        let rest = agg_range(s, j, b, Map::empty());
        lemma_agg_acc_merge(s, j, b, add_line_m(m, s, i, j));
        lemma_agg_acc_merge(s, j, b, u);
        if parse_line_at(s, i, j) is Some {
            let kv = parse_line_at(s, i, j)->Some_0;
            lemma_add_stat_as_merge(m, kv.0, stat_of(kv.1));
            assert(u =~= Map::empty().insert(kv.0, stat_of(kv.1)));
        } else {
            lemma_merge_empty(m);
        }
        assert(add_line_m(m, s, i, j) == map_merge(m, u));
        lemma_merge_assoc(m, u, rest);
    } else {
        lemma_merge_empty(m);
    }
}

/// Aggregating a range split at an aligned boundary equals merging the two
/// halves' own aggregates: the single-chunk result and any chunked run
/// coincide.
pub proof fn lemma_agg_chunks(s: Seq<u8>, i: int, mid: int, b: int)
    requires
        0 <= i <= mid <= b <= s.len(),
        aligned(s, mid),
    ensures
        agg_range(s, i, b, Map::empty()) == map_merge(
            agg_range(s, i, mid, Map::empty()),
            agg_range(s, mid, b, Map::empty()),
        ),
{
    lemma_agg_split(s, i, mid, b, Map::empty());
    lemma_agg_acc_merge(s, mid, b, agg_range(s, i, mid, Map::empty()));
}

/// Lenient parsing: a line that yields no record — missing delimiter,
/// empty key, or unparsable value — contributes to no key's statistics,
/// and aggregation continues with the next line.
pub proof fn lemma_bad_line_skipped(s: Seq<u8>, i: int, b: int, m: StatMap)
    requires
        0 <= i < b <= s.len(),
        parse_line_at(s, i, line_stop(s, i, b)) is None,
    ensures
        agg_range(s, i, b, m) == agg_range(s, line_stop(s, i, b), b, m),
{
}

/// The count a map holds for a key, zero if absent.
pub open spec fn count_of(m: StatMap, k: Seq<u8>) -> int {
    if m.dom().contains(k) {
        m[k].count
    } else {
        0
    }
}

/// Aggregation keeps statistics well-formed and adds at most one
/// observation per consumed byte to any key's count.
pub proof fn lemma_agg_range_props(s: Seq<u8>, i: int, b: int, m: StatMap)
    requires
        map_wf(m),
    ensures
        map_wf(agg_range(s, i, b, m)),
        forall|k: Seq<u8>| #[trigger] agg_range(s, i, b, m).dom().contains(k) ==> agg_range(
            s,
            i,
            b,
            m,
        )[k].count <= count_of(m, k) + max_i(b - i, 0),
    decreases max_i(b - i, 0),
{
    if 0 <= i && i < b && b <= s.len() {
        let j = line_stop(s, i, b);
        let m1 = add_line_m(m, s, i, j);
        if parse_line_at(s, i, j) is Some {
            let kv = parse_line_at(s, i, j)->Some_0;
            lemma_parse_line_bounds(s, i, j);
            assert(stat_wf(stat_of(kv.1)));
            if m.dom().contains(kv.0) {
                lemma_combine_wf(m[kv.0], stat_of(kv.1));
            }
        }
        lemma_agg_range_props(s, j, b, m1);
        assert forall|k: Seq<u8>| #[trigger] agg_range(s, i, b, m).dom().contains(
            k,
        ) implies agg_range(s, i, b, m)[k].count <= count_of(m, k) + max_i(b - i, 0) by {
            assert(agg_range(s, i, b, m) == agg_range(s, j, b, m1));
            assert(count_of(m1, k) <= count_of(m, k) + 1);
        }
    }
}

/// Aggregate every line of `bytes[start..end)` into a fresh table.
#[verifier::loop_isolation(false)]
pub fn aggregate_range(bytes: &[u8], start: usize, end: usize) -> (r: AggMap)
    requires
        start <= end <= bytes@.len(),
    ensures
        r.inv(),
        r@ == agg_range(bytes@, start as int, end as int, Map::empty()),
        forall|k: Seq<u8>| #[trigger] r@.dom().contains(k) ==> r@[k].count <= end - start,
{
    let ghost s = bytes@;
    let mut m = AggMap::new();
    let mut i = start;
    while i < end
        invariant
            start <= i <= end,
            m.inv(),
            agg_range(s, i as int, end as int, m@) == agg_range(
                s,
                start as int,
                end as int,
                Map::empty(),
            ),
            forall|k: Seq<u8>| #[trigger] m@.dom().contains(k) ==> m@[k].count <= i - start,
        decreases end - i,
    {
        let nl = find_newline(bytes, i, end);
        let j: usize = match nl {
            Some(p) => p + 1,
            None => end,
        };
        proof {
            lemma_line_end_props(s, i as int);
            match nl {
                Some(p) => {
                    lemma_line_end_unique(s, i as int, p as int);
                    assert(line_stop(s, i as int, end as int) == j);
                },
                None => {
                    let le = line_end(s, i as int);
                    if le < end {
                        assert(s[le - 1] == 10u8);
                        assert(i as int <= le - 1 < end);
                        assert(false);
                    }
                    assert(line_stop(s, i as int, end as int) == end);
                },
            }
        }
        let rec = parse_record(bytes, i, j);
        match rec {
            Some((sp, v)) => {
                let key = copy_bytes(bytes, i, sp);
                proof {
                    lemma_parse_line_bounds(s, i as int, j as int);
                }
                let st = crate::stats::RunningStat::new(v);
                proof {
                    if m@.dom().contains(key@) {
                        assert(m@[key@].count <= i - start);
                    }
                }
                let ghost mp = m@;
                m.add_stat(key, st);
                proof {
                    assert(m@ == add_line_m(mp, s, i as int, j as int));
                    assert(agg_range(s, j as int, end as int, m@) == agg_range(
                        s,
                        start as int,
                        end as int,
                        Map::empty(),
                    ));
                    assert forall|k: Seq<u8>| #[trigger] m@.dom().contains(k) implies m@[k].count
                        <= j - start by {
                        if k != key@ {
                            assert(mp.dom().contains(k));
                        }
                    }
                }
            },
            None => {
                proof {
                    assert(add_line_m(m@, s, i as int, j as int) == m@);
                    assert(agg_range(s, j as int, end as int, m@) == agg_range(
                        s,
                        start as int,
                        end as int,
                        Map::empty(),
                    ));
                }
            },
        }
        i = j;
    }
    m
}

} // verus!

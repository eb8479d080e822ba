//! The end-to-end computation: plan line-aligned chunks, aggregate each,
//! merge the chunk-local tables, and render the global result. The output
//! is exactly the rendering of the whole-range aggregation: the chunking
//! never affects it.

use vstd::prelude::*;
use crate::table::AggMap;
use crate::chunk::{plan_chunks, plan_from, chunks_seq, lemma_plan_partition, AggError};
use crate::agg::{agg_range, aggregate_range, aligned, lemma_agg_chunks, lemma_agg_range_props};
use crate::format::{format_output, render_map};

verus! {

/// End covered after the first `i` chunks.
pub open spec fn covered(cs: Seq<(int, int)>, i: int) -> int {
    if i <= 0 {
        0
    } else {
        cs[i - 1].1
    }
}

/// Compute the rendered per-key statistics of `bytes`, processed in
/// planned chunks of roughly `target` bytes each.
#[verifier::loop_isolation(false)]
pub fn summarize(bytes: &[u8], target: usize) -> (r: Result<Vec<u8>, AggError>)
    requires
        1 <= target,
    ensures
        match r {
            Ok(out) => plan_from(bytes@, target as int, 0) is Some && out@ == render_map(
                agg_range(bytes@, 0, bytes@.len() as int, Map::empty()),
            ),
            Err(_) => plan_from(bytes@, target as int, 0) is None,
        },
{
    let ghost s = bytes@;
    let total = bytes.len();
    let chunks = match plan_chunks(bytes, target) {
        Ok(v) => v,
        Err(e) => {
            return Err(e);
        },
    };
    let ghost cs = chunks_seq(chunks@);
    proof {
        lemma_plan_partition(s, target as int, 0, cs);
    }
    let mut global = AggMap::new();
    let n = chunks.len();
    let mut ci: usize = 0;
    while ci < n
        invariant
            0 <= ci <= n,
            n == cs.len(),
            global.inv(),
            global@ == agg_range(s, 0, covered(cs, ci as int), Map::empty()),
            forall|k: Seq<u8>| #[trigger] global@.dom().contains(k) ==> global@[k].count
                <= covered(cs, ci as int),
            0 <= covered(cs, ci as int) <= s.len(),
            aligned(s, covered(cs, ci as int)),
            ci < n ==> covered(cs, ci as int) == cs[ci as int].0,
            ci == n && n > 0 ==> covered(cs, ci as int) == s.len(),
        decreases n - ci,
    {
        let cstart = chunks[ci].start;
        let cend = chunks[ci].end;
        proof {
            assert(cs[ci as int] == (cstart as int, cend as int));
        }
        let local = aggregate_range(bytes, cstart, cend);
        proof {
            assert forall|k: Seq<u8>|
                global@.dom().contains(k) && #[trigger] local@.dom().contains(
                    k,
                ) implies global@[k].count + local@[k].count <= usize::MAX by {
                assert(global@[k].count <= cstart as int);
                assert(local@[k].count <= cend - cstart);
            }
        }
        global.merge_from(&local);
        proof {
            lemma_agg_chunks(s, 0, cstart as int, cend as int);
            lemma_agg_range_props(s, 0, cend as int, Map::empty());
        }
        ci = ci + 1;
    }
    proof {
        if n == 0 {
            assert(s.len() == 0);
        }
        assert(global@ == agg_range(s, 0, s.len() as int, Map::empty()));
    }
    let out = format_output(&global);
    Ok(out)
}

} // verus!

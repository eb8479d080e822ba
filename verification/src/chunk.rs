//! The chunk planner: partition `[0, length)` into line-aligned, contiguous
//! byte ranges of roughly a target size. A record longer than the lookahead
//! window is a data-contract violation and fails the plan.

use vstd::prelude::*;
use crate::stats::min_i;
use crate::parse::{line_end, lemma_line_end_props, lemma_line_end_unique, find_newline};
use crate::agg::aligned;

verus! {

/// How far past a proposed boundary the planner scans for a newline; long
/// enough to cover any single well-formed record.
pub const LOOKAHEAD_BYTES: usize = 48;

/// Failure of a whole run.
#[derive(Debug, Clone, Copy, PartialEq, Eq)]
pub enum AggError {
    /// A record exceeds the planner's lookahead window.
    RecordTooLong,
}

/// One planned chunk: a half-open, line-aligned byte range.
#[derive(Debug, Clone, Copy)]
pub struct Chunk {
    pub start: usize,
    pub end: usize,
}

/// The planned ranges as pairs of mathematical integers.
pub open spec fn chunks_seq(v: Seq<Chunk>) -> Seq<(int, int)> {
    v.map_values(|c: Chunk| (c.start as int, c.end as int))
}

/// The plan from position `pos` on: walk forward by at most `target` bytes,
/// extend the proposed boundary to one past the next newline found within
/// the lookahead window, and fail if none is there.
pub open spec fn plan_from(s: Seq<u8>, target: int, pos: int) -> Option<Seq<(int, int)>>
    decreases s.len() - pos,
{
    if target < 1 {
        None
    } else if pos < 0 || pos >= s.len() {
        Some(Seq::empty())
    } else {
        let cand = min_i(pos + target, s.len() as int);
        if cand == s.len() {
            Some(seq![(pos, cand)])
        } else {
            let le = line_end(s, cand);
            if cand < le && le <= min_i(cand + LOOKAHEAD_BYTES as int, s.len() as int) && s[le
                - 1] == 10u8 {
                match plan_from(s, target, le) {
                    Some(rest) => Some(seq![(pos, le)] + rest),
                    None => None,
                }
            } else if le == s.len() && s.len() <= cand + LOOKAHEAD_BYTES as int {
                // The window reaches the end of the input without a
                // terminator: the unterminated final record closes the plan.
                Some(seq![(pos, s.len() as int)])
            } else {
                None
            }
        }
    }
}

/// Partition invariant: a successful plan's chunks are non-empty,
/// contiguous from `pos`, cover `[pos, s.len())` exactly, and every chunk
/// boundary is line-aligned.
pub proof fn lemma_plan_partition(s: Seq<u8>, target: int, pos: int, chunks: Seq<(int, int)>)
    requires
        0 <= pos <= s.len(),
        plan_from(s, target, pos) == Some(chunks),
    ensures
        pos >= s.len() ==> chunks.len() == 0,
        pos < s.len() ==> chunks.len() > 0,
        pos < s.len() ==> chunks[0].0 == pos,
        pos < s.len() ==> chunks[chunks.len() - 1].1 == s.len(),
        forall|i: int| 0 <= i < chunks.len() ==> (#[trigger] chunks[i]).0 < chunks[i].1 <= s.len(),
        forall|i: int| 0 <= i < chunks.len() - 1 ==> (#[trigger] chunks[i]).1 == chunks[i + 1].0,
        forall|i: int| 0 <= i < chunks.len() ==> aligned(s, (#[trigger] chunks[i]).1),
    decreases s.len() - pos,
{
    if pos < s.len() {
        let cand = min_i(pos + target, s.len() as int);
        let le = line_end(s, cand);
        if cand == s.len() {
            assert(chunks =~= seq![(pos, cand)]);
        } else if !(cand < le && le <= min_i(cand + LOOKAHEAD_BYTES as int, s.len() as int)
            && s[le - 1] == 10u8) {
            assert(chunks =~= seq![(pos, s.len() as int)]);
        } else {
            let rest = plan_from(s, target, le)->Some_0;
            lemma_plan_partition(s, target, le, rest);
            assert(chunks =~= seq![(pos, le)] + rest);
            assert forall|i: int| 0 <= i < chunks.len() implies (#[trigger] chunks[i]).0
                < chunks[i].1 <= s.len() by {
                if i > 0 {
                    assert(chunks[i] == rest[i - 1]);
                }
            }
            assert forall|i: int| 0 <= i < chunks.len() - 1 implies (#[trigger] chunks[i]).1
                == chunks[i + 1].0 by {
                if i > 0 {
                    assert(chunks[i] == rest[i - 1]);
                    assert(chunks[i + 1] == rest[i]);
                }
            }
            assert forall|i: int| 0 <= i < chunks.len() implies aligned(
                s,
                (#[trigger] chunks[i]).1,
            ) by {
                if i > 0 {
                    assert(chunks[i] == rest[i - 1]);
                }
            }
        }
    }
}

/// Plan the line-aligned chunks of `bytes` with the given target size.
#[verifier::loop_isolation(false)]
pub fn plan_chunks(bytes: &[u8], target: usize) -> (r: Result<Vec<Chunk>, AggError>)
    requires
        1 <= target,
    ensures
        match r {
            Ok(v) => plan_from(bytes@, target as int, 0) == Some(chunks_seq(v@)),
            Err(_) => plan_from(bytes@, target as int, 0) is None,
        },
{
    let ghost s = bytes@;
    let n = bytes.len();
    let mut out: Vec<Chunk> = Vec::new();
    let mut pos: usize = 0;
    proof {
        assert(chunks_seq(out@) =~= Seq::<(int, int)>::empty());
    }
    while pos < n
        invariant
            0 <= pos <= n,
            n == s.len(),
            pos == 0 ==> out@.len() == 0,
            pos > 0 ==> out@.len() > 0 && out@[out@.len() - 1].end == pos,
            (plan_from(s, target as int, pos as int) is Some ==> plan_from(s, target as int, 0)
                == Some(chunks_seq(out@) + plan_from(s, target as int, pos as int)->Some_0)),
            (plan_from(s, target as int, pos as int) is None ==> plan_from(
                s,
                target as int,
                0,
            ) is None),
        decreases n - pos,
    {
        let cand: usize = if n - pos > target {
            pos + target
        } else {
            n
        };
        let ghost out0 = out@;
        if cand == n {
            out.push(Chunk { start: pos, end: n });
            proof {
                assert(plan_from(s, target as int, pos as int) == Some(
                    seq![(pos as int, n as int)],
                ));
                assert(chunks_seq(out@) =~= chunks_seq(out0).push((pos as int, n as int)));
                assert(chunks_seq(out@) + Seq::<(int, int)>::empty() =~= chunks_seq(out0) + seq![
                    (pos as int, n as int),
                ]);
            }
            pos = n;
        } else {
            let wend: usize = if n - cand > LOOKAHEAD_BYTES {
                cand + LOOKAHEAD_BYTES
            } else {
                n
            };
            let found = find_newline(bytes, cand, wend);
            match found {
                Some(p) => {
                    let e = p + 1;
                    out.push(Chunk { start: pos, end: e });
                    proof {
                        lemma_line_end_unique(s, cand as int, p as int);
                        assert(line_end(s, cand as int) == p + 1);
                        let tail = plan_from(s, target as int, e as int);
                        if tail is Some {
                            assert(plan_from(s, target as int, pos as int) == Some(
                                seq![(pos as int, e as int)] + tail->Some_0,
                            ));
                            assert(chunks_seq(out@) + tail->Some_0 =~= chunks_seq(out0) + (seq![
                                (pos as int, e as int),
                            ] + tail->Some_0));
                        } else {
                            assert(plan_from(s, target as int, pos as int) is None);
                        }
                    }
                    pos = e;
                },
                None => {
                    proof {
                        lemma_line_end_props(s, cand as int);
                        let le = line_end(s, cand as int);
                        if cand < le && le <= min_i(
                            cand + LOOKAHEAD_BYTES as int,
                            s.len() as int,
                        ) && s[le - 1] == 10u8 {
                            assert(cand as int <= le - 1 < wend);
                            assert(false);
                        }
                    }
                    if wend == n {
                        // The unterminated final record reaches the end of
                        // the input within the window.
                        out.push(Chunk { start: pos, end: n });
                        proof {
                            let le = line_end(s, cand as int);
                            if le < n {
                                assert(s[le - 1] == 10u8);
                                assert(cand as int <= le - 1 < wend);
                                assert(false);
                            }
                            assert(plan_from(s, target as int, pos as int) == Some(
                                seq![(pos as int, n as int)],
                            ));
                            assert(chunks_seq(out@) + Seq::<(int, int)>::empty() =~= chunks_seq(
                                out0,
                            ) + seq![(pos as int, n as int)]);
                        }
                        pos = n;
                    } else {
                        proof {
                            assert(wend == cand + LOOKAHEAD_BYTES);
                            assert(plan_from(s, target as int, pos as int) is None);
                        }
                        return Err(AggError::RecordTooLong);
                    }
                },
            }
        }
    }
    proof {
        assert(plan_from(s, target as int, pos as int) == Some(Seq::<(int, int)>::empty()));
        assert(chunks_seq(out@) + Seq::<(int, int)>::empty() =~= chunks_seq(out@));
    }
    Ok(out)
}

} // verus!

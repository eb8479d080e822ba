//! Deterministic output rendering: `{k1=min/mean/max, k2=...}` with keys in
//! ascending byte order and every numeric field fixed to one decimal place.
//! The mean is rounded half away from zero.

use vstd::prelude::*;
use vstd::arithmetic::div_mod::{lemma_div_is_ordered, lemma_fundamental_div_mod_converse};
use crate::stats::{RunningStat, StatModel, stat_wf, lemma_sum_in_range, MAX_ABS_TENTHS};
use crate::table::{
    StatMap, AggMap, entries_map, kv_sorted, lemma_em_contains, lemma_em_dom, lemma_em_value,
    lemma_sorted_distinct,
};
use crate::order::{lex_lt, lemma_lex_lt_asym};

verus! {

/// Decimal digits of `n`, most significant first; `n` below one renders
/// as a single zero.
pub open spec fn dec_digits(n: int) -> Seq<u8>
    decreases n,
{
    if n <= 0 {
        seq![48u8]
    } else if n < 10 {
        seq![(48 + n) as u8]
    } else {
        dec_digits(n / 10).push((48 + n % 10) as u8)
    }
}

/// The bytes of `t` tenths: optional minus, integer part, `.`, one digit.
pub open spec fn fmt_tenths(t: int) -> Seq<u8> {
    let a = if t < 0 {
        -t
    } else {
        t
    };
    let sign: Seq<u8> = if t < 0 {
        seq![45u8]
    } else {
        Seq::empty()
    };
    sign + dec_digits(a / 10) + seq![46u8] + dec_digits(a % 10)
}

/// Mean in tenths, rounded half away from zero.
pub open spec fn mean_rounded(sum: int, count: int) -> int {
    if sum >= 0 {
        (2 * sum + count) / (2 * count)
    } else {
        -((2 * (-sum) + count) / (2 * count))
    }
}

/// The quotient `(2s + c) / (2c)` lies within `[lo, hi]` when `c*lo <= s <= c*hi`.
proof fn lemma_round_bounds(s: int, c: int, lo: int, hi: int)
    requires
        1 <= c,
        0 <= s,
        c * lo <= s,
        s <= c * hi,
    ensures
        lo <= (2 * s + c) / (2 * c) <= hi,
{
    assert(2 * (c * hi) == hi * (2 * c)) by (nonlinear_arith);
    assert(2 * (c * lo) == lo * (2 * c)) by (nonlinear_arith);
    lemma_fundamental_div_mod_converse(hi * (2 * c) + c, 2 * c, hi, c);
    lemma_fundamental_div_mod_converse(lo * (2 * c) + c, 2 * c, lo, c);
    lemma_div_is_ordered(2 * s + c, 2 * (c * hi) + c, 2 * c);
    lemma_div_is_ordered(2 * (c * lo) + c, 2 * s + c, 2 * c);
}

/// The rounded mean never leaves `[min, max]`.
pub proof fn lemma_mean_in_range(st: StatModel)
    requires
        stat_wf(st),
    ensures
        st.min <= mean_rounded(st.sum, st.count) <= st.max,
{
    if st.sum >= 0 {
        lemma_round_bounds(st.sum, st.count, st.min, st.max);
    } else {
        assert(st.count * st.min <= st.sum);
        assert(-(st.count * st.min) == st.count * (-st.min)) by (nonlinear_arith);
        assert(-(st.count * st.max) == st.count * (-st.max)) by (nonlinear_arith);
        lemma_round_bounds(-st.sum, st.count, -st.max, -st.min);
    }
}

impl RunningStat {
    /// The mean of all observations, in tenths, rounded half away from zero.
    pub fn mean_tenths(&self) -> (r: i64)
        requires
            stat_wf(self@),
        ensures
            r == mean_rounded(self@.sum, self@.count),
            self@.min <= r <= self@.max,
    {
        proof {
            lemma_sum_in_range(self@);
            lemma_mean_in_range(self@);
        }
        let c: u128 = self.count as u128;
        if self.sum >= 0 {
            let q: u128 = (2 * (self.sum as u128) + c) / (2 * c);
            q as i64
        } else {
            let q: u128 = (2 * ((-self.sum) as u128) + c) / (2 * c);
            -(q as i64)
        }
    }
}

/// Append the decimal digits of `n`.
pub fn push_digits(out: &mut Vec<u8>, n: u64)
    ensures
        final(out)@ == old(out)@ + dec_digits(n as int),
    decreases n,
{
    if n < 10 {
        out.push(48 + (n as u8));
        proof {
            assert(final(out)@ =~= old(out)@ + dec_digits(n as int));
        }
    } else {
        push_digits(out, n / 10);
        out.push(48 + ((n % 10) as u8));
        proof {
            assert(final(out)@ =~= old(out)@ + dec_digits(n as int));
        }
    }
}

/// Append the rendering of `t` tenths.
pub fn push_tenths(out: &mut Vec<u8>, t: i64)
    requires
        -MAX_ABS_TENTHS <= t <= MAX_ABS_TENTHS,
    ensures
        final(out)@ == old(out)@ + fmt_tenths(t as int),
{
    let a: u64 = if t < 0 {
        out.push(45u8);
        (-t) as u64
    } else {
        t as u64
    };
    push_digits(out, a / 10);
    out.push(46u8);
    out.push(48 + ((a % 10) as u8));
    proof {
        assert(dec_digits((a % 10) as int) =~= seq![(48 + (a % 10) as int) as u8]);
        assert(final(out)@ =~= old(out)@ + fmt_tenths(t as int));
    }
}

/// The rendered bytes of one entry: `key=min/mean/max`.
pub open spec fn render_entry(e: (Seq<u8>, StatModel)) -> Seq<u8> {
    e.0 + seq![61u8] + fmt_tenths(e.1.min) + seq![47u8] + fmt_tenths(
        mean_rounded(e.1.sum, e.1.count),
    ) + seq![47u8] + fmt_tenths(e.1.max)
}

/// Rendered entries `[0, i)`, separated by `", "`.
pub open spec fn render_upto(s: Seq<(Seq<u8>, StatModel)>, i: int) -> Seq<u8>
    decreases i,
{
    if i <= 0 {
        Seq::empty()
    } else if i == 1 {
        render_entry(s[0])
    } else {
        render_upto(s, i - 1) + seq![44u8, 32u8] + render_entry(s[i - 1])
    }
}

/// The full output: all entries, bracketed and newline-terminated.
pub open spec fn render_entries(s: Seq<(Seq<u8>, StatModel)>) -> Seq<u8> {
    seq![123u8] + render_upto(s, s.len() as int) + seq![125u8, 10u8]
}

/// A map has at most one sorted entry sequence describing it, so the
/// rendered output depends on the mapping alone: output ordering is
/// deterministic.
pub proof fn lemma_sorted_entries_unique(a: Seq<(Seq<u8>, StatModel)>, b: Seq<(Seq<u8>, StatModel)>)
    requires
        kv_sorted(a),
        kv_sorted(b),
        entries_map(a) == entries_map(b),
    ensures
        a == b,
    decreases a.len(),
{
    lemma_em_dom(a);
    lemma_em_dom(b);
    if a.len() == 0 && b.len() == 0 {
        assert(a =~= b);
    } else if a.len() == 0 {
        lemma_em_contains(b, b.len() - 1);
        assert(entries_map(a).dom().contains(b[b.len() - 1].0));
        assert(false);
    } else if b.len() == 0 {
        lemma_em_contains(a, a.len() - 1);
        assert(entries_map(b).dom().contains(a[a.len() - 1].0));
        assert(false);
    } else {
        let ka = a.last().0;
        let kb = b.last().0;
        lemma_em_contains(a, a.len() - 1);
        lemma_em_contains(b, b.len() - 1);
        if ka != kb {
            assert(entries_map(b).dom().contains(ka));
            let ia = choose|i: int| 0 <= i < b.len() && (#[trigger] b[i]).0 == ka;
            assert(ia < b.len() - 1);
            assert(lex_lt(b[ia].0, b[b.len() - 1].0));
            assert(entries_map(a).dom().contains(kb));
            let ib = choose|i: int| 0 <= i < a.len() && (#[trigger] a[i]).0 == kb;
            assert(ib < a.len() - 1);
            lemma_lex_lt_asym(ka, kb);
            assert(false);
        }
        lemma_sorted_distinct(a);
        lemma_sorted_distinct(b);
        lemma_em_value(a, a.len() - 1);
        lemma_em_value(b, b.len() - 1);
        assert(a.last() == b.last());
        lemma_em_dom(a.drop_last());
        lemma_em_dom(b.drop_last());
        assert forall|j: int| 0 <= j < a.drop_last().len() implies (#[trigger] a.drop_last()[j]).0
            != ka by {
            assert(a.drop_last()[j] == a[j]);
        }
        assert forall|j: int| 0 <= j < b.drop_last().len() implies (#[trigger] b.drop_last()[j]).0
            != kb by {
            assert(b.drop_last()[j] == b[j]);
        }
        assert(!entries_map(a.drop_last()).dom().contains(ka));
        assert(!entries_map(b.drop_last()).dom().contains(kb));
        assert(entries_map(a.drop_last()) =~= entries_map(a).remove(ka));
        assert(entries_map(b.drop_last()) =~= entries_map(b).remove(kb));
        lemma_sorted_entries_unique(a.drop_last(), b.drop_last());
        assert forall|j: int| 0 <= j < a.len() implies a[j] == b[j] by {
            if j < a.len() - 1 {
                assert(a.drop_last()[j] == a[j]);
                assert(b.drop_last()[j] == b[j]);
            }
        }
        assert(a =~= b);
    }
}

/// The sorted entry sequence describing `m`.
pub open spec fn canonical_entries(m: StatMap) -> Seq<(Seq<u8>, StatModel)> {
    choose|s: Seq<(Seq<u8>, StatModel)>| kv_sorted(s) && entries_map(s) == m
}

/// The rendering of a mapping: its sorted entries, rendered.
pub open spec fn render_map(m: StatMap) -> Seq<u8> {
    render_entries(canonical_entries(m))
}

/// Any sorted description of `m` is the canonical one.
pub proof fn lemma_canonical_is(m: StatMap, s: Seq<(Seq<u8>, StatModel)>)
    requires
        kv_sorted(s),
        entries_map(s) == m,
    ensures
        canonical_entries(m) == s,
{
    assert(kv_sorted(s) && entries_map(s) == m);
    lemma_sorted_entries_unique(canonical_entries(m), s);
}

/// Render the table: one entry per key in ascending byte order.
#[verifier::loop_isolation(false)]
#[verifier::rlimit(100)]
pub fn format_output(m: &AggMap) -> (out: Vec<u8>)
    requires
        m.inv(),
    ensures
        out@ == render_entries(m.kv_seq()),
        out@ == render_map(m@),
{
    let ghost kv = m.kv_seq();
    let mut out: Vec<u8> = Vec::new();
    out.push(123u8);
    proof {
        assert(out@ =~= seq![123u8] + render_upto(kv, 0));
    }
    let n = m.entries.len();
    let mut i: usize = 0;
    while i < n
        invariant
            0 <= i <= n,
            out@ == seq![123u8] + render_upto(kv, i as int),
        decreases n - i,
    {
        if i > 0 {
            out.push(44u8);
            out.push(32u8);
        }
        let ghost out_pre = out@;
        let klen = m.entries[i].key.len();
        let mut p: usize = 0;
        while p < klen
            invariant
                0 <= p <= klen,
                klen == m.entries@[i as int].key@.len(),
                i < n,
                out@ == out_pre + m.entries@[i as int].key@.subrange(0, p as int),
            decreases klen - p,
        {
            out.push(m.entries[i].key[p]);
            p = p + 1;
            proof {
                assert(out@ =~= out_pre + m.entries@[i as int].key@.subrange(0, p as int));
            }
        }
        proof {
            assert(m.entries@[i as int].key@.subrange(0, klen as int) =~= kv[i as int].0);
        }
        out.push(61u8);
        let mn = m.entries[i].stat.min;
        let mx = m.entries[i].stat.max;
        proof {
            assert(stat_wf((#[trigger] m.kv_seq()[i as int]).1));
        }
        let me = m.entries[i].stat.mean_tenths();
        push_tenths(&mut out, mn);
        out.push(47u8);
        push_tenths(&mut out, me);
        out.push(47u8);
        push_tenths(&mut out, mx);
        proof {
            assert(out@ =~= out_pre + render_entry(kv[i as int]));
            if i > 0 {
                assert(out_pre =~= (seq![123u8] + render_upto(kv, i as int)) + seq![44u8, 32u8]);
            }
        }
        i = i + 1;
        proof {
            assert(out@ =~= seq![123u8] + render_upto(kv, i as int));
        }
    }
    out.push(125u8);
    out.push(10u8);
    proof {
        assert(out@ =~= render_entries(kv));
        m.lemma_view_wf();
        lemma_canonical_is(m@, kv);
    }
    out
}

} // verus!

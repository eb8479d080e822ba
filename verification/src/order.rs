//! Ascending byte-wise lexicographic order on keys, used to keep the
//! result table sorted and the rendered output deterministic.

use vstd::prelude::*;

verus! {

/// Strict byte-wise lexicographic order.
pub open spec fn lex_lt(a: Seq<u8>, b: Seq<u8>) -> bool
    decreases a.len(),
{
    if b.len() == 0 {
        false
    } else if a.len() == 0 {
        true
    } else if a[0] < b[0] {
        true
    } else if a[0] > b[0] {
        false
    } else {
        lex_lt(a.subrange(1, a.len() as int), b.subrange(1, b.len() as int))
    }
}

/// The order is asymmetric, hence also irreflexive.
pub proof fn lemma_lex_lt_asym(a: Seq<u8>, b: Seq<u8>)
    requires
        lex_lt(a, b),
    ensures
        !lex_lt(b, a),
        a != b,
    decreases a.len(),
{
    if b.len() > 0 && a.len() > 0 && a[0] == b[0] {
        let ta = a.subrange(1, a.len() as int);
        let tb = b.subrange(1, b.len() as int);
        lemma_lex_lt_asym(ta, tb);
        if a == b {
            assert(ta =~= tb);
        }
    }
}

/// The order is transitive.
pub proof fn lemma_lex_lt_trans(a: Seq<u8>, b: Seq<u8>, c: Seq<u8>)
    requires
        lex_lt(a, b),
        lex_lt(b, c),
    ensures
        lex_lt(a, c),
    decreases a.len(),
{
    if c.len() == 0 || b.len() == 0 {
        // lex_lt(b, c) forces c nonempty; lex_lt(a, b) forces b nonempty.
    } else if a.len() == 0 {
    } else if a[0] == b[0] && b[0] == c[0] {
        lemma_lex_lt_trans(
            a.subrange(1, a.len() as int),
            b.subrange(1, b.len() as int),
            c.subrange(1, c.len() as int),
        );
    }
}

/// Positional characterisation: with the first `i` bytes equal, the order of
/// `a` and `b` is settled by position `i` (or by one running out).
pub proof fn lemma_lex_by_index(a: Seq<u8>, b: Seq<u8>, i: int)
    requires
        0 <= i <= a.len(),
        i <= b.len(),
        forall|j: int| 0 <= j < i ==> a[j] == b[j],
    ensures
        (i < a.len() && i < b.len() && a[i] < b[i]) ==> lex_lt(a, b),
        (i < a.len() && i < b.len() && a[i] > b[i]) ==> lex_lt(b, a),
        (i == a.len() && i < b.len()) ==> lex_lt(a, b),
        (i == b.len() && i < a.len()) ==> lex_lt(b, a),
        (i == a.len() && i == b.len()) ==> a == b,
    decreases i,
{
    if i == 0 {
        if a.len() == 0 && b.len() == 0 {
            assert(a =~= b);
        }
    } else {
        let ta = a.subrange(1, a.len() as int);
        let tb = b.subrange(1, b.len() as int);
        lemma_lex_by_index(ta, tb, i - 1);
        if i == a.len() && i == b.len() {
            assert(ta =~= tb);
            assert(a =~= b);
        }
    }
}

/// Three-way byte-wise comparison of two keys: `-1` for less, `0` for
/// equal, `1` for greater, in the `lex_lt` order.
#[verifier::loop_isolation(false)]
pub fn key_cmp(a: &Vec<u8>, b: &Vec<u8>) -> (r: i8)
    ensures
        r == -1i8 || r == 0i8 || r == 1i8,
        r == -1i8 ==> lex_lt(a@, b@),
        r == 0i8 ==> a@ == b@,
        r == 1i8 ==> lex_lt(b@, a@),
{
    let mut i: usize = 0;
    while i < a.len() && i < b.len()
        invariant
            0 <= i <= a@.len(),
            i <= b@.len(),
            forall|j: int| 0 <= j < i ==> a@[j] == b@[j],
        decreases a@.len() - i,
    {
        let x = a[i];
        let y = b[i];
        if x < y {
            proof {
                lemma_lex_by_index(a@, b@, i as int);
            }
            return -1i8;
        }
        if x > y {
            proof {
                lemma_lex_by_index(a@, b@, i as int);
            }
            return 1i8;
        }
        i = i + 1;
    }
    proof {
        lemma_lex_by_index(a@, b@, i as int);
    }
    if a.len() < b.len() {
        -1i8
    } else if a.len() > b.len() {
        1i8
    } else {
        0i8
    }
}

} // verus!

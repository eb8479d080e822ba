//! Lenient record parsing: a line is `key;value`, the key is the byte
//! sequence before the first `;`, the value a decimal literal with an
//! optional sign and at most one fractional digit, read as integer tenths.
//! A line that does not fit this shape yields no record.

use vstd::prelude::*;
use crate::stats::MAX_ABS_TENTHS;

verus! {

/// Largest integer part a value literal may carry; with one fractional
/// digit this keeps every value within `MAX_ABS_TENTHS` tenths.
pub const MAX_INT_PART: i64 = 99_999_999_999_999;

/// One past the first newline at or after `i`, or `s.len()` if there is none.
pub open spec fn line_end(s: Seq<u8>, i: int) -> int
    decreases s.len() - i,
{
    if i < 0 || i >= s.len() {
        i
    } else if s[i] == 10u8 {
        i + 1
    } else {
        line_end(s, i + 1)
    }
}

/// Basic facts about `line_end`: it stays within `[i, s.len()]`, makes
/// progress, and the bytes strictly before it (except the last) are not
/// newlines, while the last one is a newline unless the end of `s` was hit.
pub proof fn lemma_line_end_props(s: Seq<u8>, i: int)
    requires
        0 <= i <= s.len(),
    ensures
        i <= line_end(s, i) <= s.len(),
        i < s.len() ==> i + 1 <= line_end(s, i),
        forall|j: int| i <= j < line_end(s, i) - 1 ==> s[j] != 10u8,
        line_end(s, i) < s.len() ==> s[line_end(s, i) - 1] == 10u8,
    decreases s.len() - i,
{
    if i < s.len() && s[i] != 10u8 {
        lemma_line_end_props(s, i + 1);
    }
}

/// `line_end` is pinned down by a witness: if no newline occurs in `[i, j)`
/// and `j` is the end of `s` or a newline, then `line_end(s, i)` is `j + 1`
/// (newline found) or `j == s.len()` (none found).
pub proof fn lemma_line_end_unique(s: Seq<u8>, i: int, j: int)
    requires
        0 <= i <= j <= s.len(),
        forall|m: int| i <= m < j ==> s[m] != 10u8,
        j == s.len() || s[j] == 10u8,
    ensures
        line_end(s, i) == (if j < s.len() {
            j + 1
        } else {
            j
        }),
    decreases j - i,
{
    if i < j {
        lemma_line_end_unique(s, i + 1, j);
    }
}

/// First `;` at or after `i` and before `e`, or `e` if there is none.
pub open spec fn semi_pos(s: Seq<u8>, i: int, e: int) -> int
    decreases e - i,
{
    if i < 0 || i >= e || e > s.len() {
        e
    } else if s[i] == 59u8 {
        i
    } else {
        semi_pos(s, i + 1, e)
    }
}

/// `semi_pos` is pinned down by a witness in the same way as `line_end`.
pub proof fn lemma_semi_pos_unique(s: Seq<u8>, i: int, e: int, j: int)
    requires
        0 <= i <= j <= e <= s.len(),
        forall|m: int| i <= m < j ==> s[m] != 59u8,
        j == e || s[j] == 59u8,
    ensures
        semi_pos(s, i, e) == j,
    decreases j - i,
{
    if i < j {
        lemma_semi_pos_unique(s, i + 1, e, j);
    }
}

pub open spec fn is_digit(b: u8) -> bool {
    48 <= b <= 57
}

pub open spec fn all_digits(s: Seq<u8>, i: int, j: int) -> bool {
    forall|k: int| i <= k < j ==> is_digit(s[k])
}

/// Value of the decimal digit run `s[i..j)`.
pub open spec fn digits_val(s: Seq<u8>, i: int, j: int) -> int
    decreases j - i,
{
    if j <= i {
        0
    } else {
        digits_val(s, i, j - 1) * 10 + (s[j - 1] - 48)
    }
}

pub proof fn lemma_digits_val_nonneg(s: Seq<u8>, i: int, j: int)
    requires
        all_digits(s, i, j),
    ensures
        digits_val(s, i, j) >= 0,
    decreases j - i,
{
    if j > i {
        lemma_digits_val_nonneg(s, i, j - 1);
    }
}

/// A longer digit run never has a smaller value.
pub proof fn lemma_digits_val_mono(s: Seq<u8>, i: int, j1: int, j2: int)
    requires
        i <= j1 <= j2,
        all_digits(s, i, j2),
    ensures
        digits_val(s, i, j1) <= digits_val(s, i, j2),
    decreases j2 - j1,
{
    if j1 < j2 {
        lemma_digits_val_mono(s, i, j1, j2 - 1);
        lemma_digits_val_nonneg(s, i, j2 - 1);
    }
}

pub open spec fn sgn(neg: bool, m: int) -> int {
    if neg {
        -m
    } else {
        m
    }
}

/// Parses `s[i..j)` as a decimal literal `sign? digits ('.' digit)?`,
/// yielding the value in tenths; `None` if the bytes are not such a literal
/// or the integer part exceeds `MAX_INT_PART`.
pub open spec fn parse_value_at(s: Seq<u8>, i: int, j: int) -> Option<int> {
    if i < 0 || j > s.len() || i >= j {
        None
    } else {
        let st = if s[i] == 45u8 || s[i] == 43u8 {
            i + 1
        } else {
            i
        };
        let neg = s[i] == 45u8;
        if st < j && all_digits(s, st, j) {
            if digits_val(s, st, j) <= MAX_INT_PART as int {
                Some(sgn(neg, digits_val(s, st, j) * 10))
            } else {
                None
            }
        } else if st < j - 2 && s[j - 2] == 46u8 && all_digits(s, st, j - 2) && is_digit(s[j - 1]) {
            if digits_val(s, st, j - 2) <= MAX_INT_PART as int {
                Some(sgn(neg, digits_val(s, st, j - 2) * 10 + (s[j - 1] - 48)))
            } else {
                None
            }
        } else {
            None
        }
    }
}

/// Every parsed value lies within `MAX_ABS_TENTHS` tenths.
pub proof fn lemma_parse_value_bounds(s: Seq<u8>, i: int, j: int)
    requires
        parse_value_at(s, i, j) is Some,
    ensures
        -(MAX_ABS_TENTHS as int) <= parse_value_at(s, i, j)->Some_0 <= MAX_ABS_TENTHS as int,
{
    let st = if s[i] == 45u8 || s[i] == 43u8 {
        i + 1
    } else {
        i
    };
    if st < j && all_digits(s, st, j) {
        lemma_digits_val_nonneg(s, st, j);
    } else {
        lemma_digits_val_nonneg(s, st, j - 2);
    }
}

/// Parses the line `s[i..j)` (trailing newline, if any, included) into its
/// record: the key `s[i..sp)` before the first `;` and the value in tenths.
/// `None` on a missing delimiter, an empty key, or an unparsable value.
pub open spec fn parse_line_at(s: Seq<u8>, i: int, j: int) -> Option<(Seq<u8>, int)> {
    let e = if i < j && s[j - 1] == 10u8 {
        j - 1
    } else {
        j
    };
    let sp = semi_pos(s, i, e);
    if sp == e || sp == i {
        None
    } else {
        match parse_value_at(s, sp + 1, e) {
            Some(v) => Some((s.subrange(i, sp), v)),
            None => None,
        }
    }
}

/// A parsed line's value lies within `MAX_ABS_TENTHS` tenths.
pub proof fn lemma_parse_line_bounds(s: Seq<u8>, i: int, j: int)
    requires
        parse_line_at(s, i, j) is Some,
    ensures
        -(MAX_ABS_TENTHS as int) <= parse_line_at(s, i, j)->Some_0.1 <= MAX_ABS_TENTHS as int,
{
    let e = if i < j && s[j - 1] == 10u8 {
        j - 1
    } else {
        j
    };
    let sp = semi_pos(s, i, e);
    lemma_parse_value_bounds(s, sp + 1, e);
}

/// First newline position in `bytes[from..to)`, if any.
pub fn find_newline(bytes: &[u8], from: usize, to: usize) -> (r: Option<usize>)
    requires
        from <= to <= bytes@.len(),
    ensures
        match r {
            Some(j) => {
                &&& from <= j < to
                &&& bytes@[j as int] == 10u8
                &&& forall|m: int| from <= m < j ==> bytes@[m] != 10u8
            },
            None => forall|m: int| from <= m < to ==> bytes@[m] != 10u8,
        },
{
    let mut j = from;
    while j < to
        invariant
            from <= j <= to <= bytes@.len(),
            forall|m: int| from <= m < j ==> bytes@[m] != 10u8,
        decreases to - j,
    {
        if bytes[j] == 10u8 {
            return Some(j);
        }
        j = j + 1;
    }
    None
}

/// Copy `bytes[i..j)` into an owned vector.
pub fn copy_bytes(bytes: &[u8], i: usize, j: usize) -> (r: Vec<u8>)
    requires
        i <= j <= bytes@.len(),
    ensures
        r@ == bytes@.subrange(i as int, j as int),
{
    let mut out: Vec<u8> = Vec::new();
    let mut p = i;
    while p < j
        invariant
            i <= p <= j <= bytes@.len(),
            out@ == bytes@.subrange(i as int, p as int),
        decreases j - p,
    {
        out.push(bytes[p]);
        p = p + 1;
        proof {
            assert(out@ =~= bytes@.subrange(i as int, p as int));
        }
    }
    out
}

/// Parse the line `bytes[start..end)` into the key's end position and the
/// value in tenths, exactly as `parse_line_at` describes.
#[verifier::loop_isolation(false)]
pub fn parse_record(bytes: &[u8], start: usize, end: usize) -> (r: Option<(usize, i64)>)
    requires
        start <= end <= bytes@.len(),
    ensures
        match r {
            Some(sv) => {
                &&& start < sv.0 < end
                &&& parse_line_at(bytes@, start as int, end as int) == Some(
                    (bytes@.subrange(start as int, sv.0 as int), sv.1 as int),
                )
            },
            None => parse_line_at(bytes@, start as int, end as int) is None,
        },
{
    let ghost s = bytes@;
    // Strip one trailing newline.
    let bend: usize = if end > start && bytes[end - 1] == 10u8 {
        end - 1
    } else {
        end
    };
    // Find the first `;` in [start, bend).
    let mut sp = start;
    while sp < bend && bytes[sp] != 59u8
        invariant
            start <= sp <= bend <= bytes@.len(),
            forall|m: int| start <= m < sp ==> bytes@[m] != 59u8,
        decreases bend - sp,
    {
        sp = sp + 1;
    }
    proof {
        lemma_semi_pos_unique(s, start as int, bend as int, sp as int);
    }
    if sp == bend || sp == start {
        return None;
    }
    // Parse the value bytes [sp + 1, bend).
    let vstart = sp + 1;
    if vstart >= bend {
        return None;
    }
    let neg = bytes[vstart] == 45u8;
    let p0: usize = if neg || bytes[vstart] == 43u8 {
        vstart + 1
    } else {
        vstart
    };
    // Where the digit run of the integer part ends.
    let has_frac = bend - p0 > 2 && bytes[bend - 2] == 46u8;
    let dend: usize = if has_frac {
        bend - 2
    } else {
        bend
    };
    if p0 >= dend {
        return None;
    }
    let mut acc: i64 = 0;
    let mut p = p0;
    while p < dend
        invariant
            p0 <= p <= dend <= bytes@.len(),
            all_digits(s, p0 as int, p as int),
            0 <= acc <= MAX_INT_PART,
            acc == digits_val(s, p0 as int, p as int),
            has_frac ==> (dend + 2 == bend && s[bend - 2] == 46u8),
            !has_frac ==> dend == bend,
        decreases dend - p,
    {
        let b = bytes[p];
        if b < 48u8 || b > 57u8 {
            // Not a digit: neither grammar case accepts these bytes.
            proof {
                assert(!is_digit(s[p as int]));
                assert(all_digits(s, p0 as int, bend as int) ==> is_digit(s[p as int]));
                if (p as int) < bend - 2 {
                    assert(all_digits(s, p0 as int, bend - 2) ==> is_digit(s[p as int]));
                }
            }
            return None;
        }
        acc = acc * 10 + ((b - 48u8) as i64);
        p = p + 1;
        if acc > MAX_INT_PART {
            proof {
                if all_digits(s, p0 as int, bend as int) {
                    lemma_digits_val_mono(s, p0 as int, p as int, bend as int);
                }
                if all_digits(s, p0 as int, bend - 2) && p as int <= bend - 2 {
                    lemma_digits_val_mono(s, p0 as int, p as int, bend - 2);
                }
            }
            return None;
        }
    }
    if has_frac {
        let fb = bytes[bend - 1];
        if fb < 48u8 || fb > 57u8 {
            proof {
                assert(!is_digit(s[bend - 2]));
                assert(all_digits(s, p0 as int, bend as int) ==> is_digit(s[bend - 2]));
            }
            return None;
        }
        let mag: i64 = acc * 10 + ((fb - 48u8) as i64);
        let v: i64 = if neg {
            -mag
        } else {
            mag
        };
        proof {
            assert(!is_digit(s[bend - 2]));
            assert(all_digits(s, p0 as int, bend as int) ==> is_digit(s[bend - 2]));
        }
        Some((sp, v))
    } else {
        let mag: i64 = acc * 10;
        let v: i64 = if neg {
            -mag
        } else {
            mag
        };
        Some((sp, v))
    }
}

} // verus!

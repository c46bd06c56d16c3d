//! Linear mapping of a value from one range onto another.
use vstd::prelude::*;
use vstd::arithmetic::div_mod::*;
use vstd::arithmetic::mul::*;

verus! {

/// Integer quotient rounded toward zero, as Rust's `/` computes it.
pub open spec fn trunc_div(a: int, b: int) -> int {
    let q = abs(a) / abs(b);
    if (a >= 0) == (b > 0) {
        q
    } else {
        -q
    }
}

/// Absolute value.
pub open spec fn abs(a: int) -> int {
    if a >= 0 {
        a
    } else {
        -a
    }
}

/// `s` carried from `[from_lo, from_hi]` onto `[to_lo, to_hi]` by the linear
/// map that sends `from_lo` to `to_lo` and `from_hi` to `to_hi`, the quotient
/// rounded toward zero.
pub open spec fn mapped(from_lo: int, from_hi: int, to_lo: int, to_hi: int, s: int) -> int {
    to_lo + trunc_div((s - from_lo) * (to_hi - to_lo), from_hi - from_lo)
}

/// Maps `s` from `from_range` onto `to_range`.
///
/// Returns `None` when `from_range` is empty (its two ends are equal), or when
/// the mapped value does not fit in an `i32`.
pub fn map_range(from_range: (i32, i32), to_range: (i32, i32), s: i32) -> (r: Option<i32>)
    ensures
        from_range.0 == from_range.1 ==> r is None,
        from_range.0 != from_range.1 ==> (r is Some <==> i32::MIN <= mapped(
            from_range.0 as int,
            from_range.1 as int,
            to_range.0 as int,
            to_range.1 as int,
            s as int,
        ) <= i32::MAX),
        r matches Some(v) ==> v == mapped(
            from_range.0 as int,
            from_range.1 as int,
            to_range.0 as int,
            to_range.1 as int,
            s as int,
        ),
{
    if from_range.0 == from_range.1 {
        return None;
    }
    let ds: i128 = s as i128 - from_range.0 as i128;
    let dt: i128 = to_range.1 as i128 - to_range.0 as i128;
    let den: i128 = from_range.1 as i128 - from_range.0 as i128;
    assert(-0x1_0000_0000_0000_0000 <= ds * dt <= 0x1_0000_0000_0000_0000) by (nonlinear_arith)
        requires
            -0x1_0000_0000 <= ds <= 0x1_0000_0000,
            -0x1_0000_0000 <= dt <= 0x1_0000_0000,
    ;
    let num: i128 = ds * dt;
    let abs_num: u128 = if num >= 0 { num as u128 } else { (-num) as u128 };
    let abs_den: u128 = if den >= 0 { den as u128 } else { (-den) as u128 };
    let q: u128 = abs_num / abs_den;
    assert(q <= abs_num) by {
        lemma_div_is_ordered_by_denominator(abs_num as int, 1, abs_den as int);
        lemma_div_basics(abs_num as int);
    }
    let signed_q: i128 = if (num >= 0) == (den > 0) { q as i128 } else { -(q as i128) };
    let v: i128 = to_range.0 as i128 + signed_q;
    if v < i32::MIN as i128 || v > i32::MAX as i128 {
        None
    } else {
        Some(v as i32)
    }
}

/// For a sample within a non-empty source range, the mapped value stays within
/// the target range, and the two ends of the source range go exactly to the
/// two ends of the target range.
pub proof fn lemma_mapped_bounds(min: int, max: int, lo: int, hi: int, s: int)
    requires
        min < max,
        min <= s <= max,
        lo <= hi,
    ensures
        lo <= mapped(min, max, lo, hi, s) <= hi,
        mapped(min, max, lo, hi, min) == lo,
        mapped(min, max, lo, hi, max) == hi,
{
    let den = max - min;
    let span = hi - lo;
    let num = (s - min) * span;
    lemma_mul_nonnegative(s - min, span);
    lemma_mul_inequality(s - min, den, span);
    lemma_div_pos_is_pos(num, den);
    lemma_div_is_ordered(num, den * span, den);
    lemma_div_multiples_vanish(span, den);
    assert(den * span == span * den) by (nonlinear_arith);
    assert(0 * span == 0);
    lemma_div_basics(den);
}

} // verus!

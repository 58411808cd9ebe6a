//! Small arithmetic facts shared by the geometric modules: bounds on
//! products, and integer division that rounds toward zero.

use vstd::arithmetic::div_mod::{lemma_div_is_ordered, lemma_div_pos_is_pos};
use vstd::prelude::*;

verus! {

/// Quotient of `a / b` rounded toward zero, as Rust's integer division does.
pub open spec fn div_tz(a: int, b: int) -> int
    recommends
        b != 0,
{
    let q = abs_i(a) / abs_i(b);
    if (a < 0) <==> (b < 0) {
        q
    } else {
        -q
    }
}

/// Absolute value of an unbounded integer.
pub open spec fn abs_i(a: int) -> int {
    if a < 0 {
        -a
    } else {
        a
    }
}

/// |a * b| <= m1 * m2 whenever |a| <= m1 and |b| <= m2.
pub proof fn lemma_mul_bound(a: int, b: int, m1: int, m2: int)
    requires
        abs_i(a) <= m1,
        abs_i(b) <= m2,
    ensures
        abs_i(a * b) <= m1 * m2,
{
    assert(abs_i(a * b) <= m1 * m2) by (nonlinear_arith)
        requires
            abs_i(a) <= m1,
            abs_i(b) <= m2,
    ;
}

/// Division toward zero never increases magnitude faster than the exact
/// quotient: if |a| <= |b| * m then |div_tz(a, b)| <= m.
pub proof fn lemma_div_tz_bound(a: int, b: int, m: int)
    requires
        b != 0,
        0 <= m,
        abs_i(a) <= abs_i(b) * m,
    ensures
        abs_i(div_tz(a, b)) <= m,
{
    let aa = abs_i(a);
    let ab = abs_i(b);
    assert(ab * m / ab == m) by (nonlinear_arith)
        requires
            ab > 0,
            0 <= m,
    ;
    lemma_div_is_ordered(aa, ab * m, ab);
    lemma_div_pos_is_pos(aa, ab);
}

/// The quotient toward zero keeps the sign of the exact quotient.
pub proof fn lemma_div_tz_sign(a: int, b: int)
    requires
        b != 0,
    ensures
        a == 0 ==> div_tz(a, b) == 0,
        ((a < 0) <==> (b < 0)) && a != 0 ==> div_tz(a, b) >= 0,
        ((a < 0) != (b < 0)) && a != 0 ==> div_tz(a, b) <= 0,
{
    lemma_div_pos_is_pos(abs_i(a), abs_i(b));
    if a == 0 {
        vstd::arithmetic::div_mod::lemma_div_of0(abs_i(b));
    }
}

/// Integer division of `i128` values, rounding toward zero.
///
/// The quotient is computed on magnitudes, so its specification is the plain
/// Euclidean quotient of non-negative values with the sign reapplied.
pub fn tdiv(a: i128, b: i128) -> (q: i128)
    requires
        b != 0,
        abs_i(a as int) < 0x4000_0000_0000_0000_0000_0000_0000_0000,
        abs_i(b as int) < 0x4000_0000_0000_0000_0000_0000_0000_0000,
    ensures
        q == div_tz(a as int, b as int),
{
    let aa: i128 = if a < 0 {
        -a
    } else {
        a
    };
    let ab: i128 = if b < 0 {
        -b
    } else {
        b
    };
    let q = aa / ab;
    proof {
        lemma_div_pos_is_pos(aa as int, ab as int);
    }
    if (a < 0) == (b < 0) {
        q
    } else {
        -q
    }
}

} // verus!

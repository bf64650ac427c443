//! Unsigned 256-bit numbers as pairs of 128-bit halves, for exact
//! comparisons of products that do not fit in 128 bits.

use vstd::prelude::*;

verus! {

/// 2^64.
pub open spec fn half() -> int {
    0x1_0000_0000_0000_0000int
}

/// 2^128.
pub open spec fn base() -> int {
    0x1_0000_0000_0000_0000_0000_0000_0000_0000int
}

/// The number that a pair `(high, low)` stands for.
pub open spec fn wide_value(w: (u128, u128)) -> int {
    w.0 * base() + w.1
}

/// `a < b`.
pub fn wide_less(a: (u128, u128), b: (u128, u128)) -> (r: bool)
    ensures
        r == (wide_value(a) < wide_value(b)),
{
    proof {
        if a.0 < b.0 {
            assert(a.0 * base() + base() <= b.0 * base()) by (nonlinear_arith)
                requires
                    a.0 < b.0,
            ;
        } else if a.0 > b.0 {
            assert(b.0 * base() + base() <= a.0 * base()) by (nonlinear_arith)
                requires
                    b.0 < a.0,
            ;
        }
    }
    a.0 < b.0 || (a.0 == b.0 && a.1 < b.1)
}

/// `a + b`, which must be below 2^256.
pub fn wide_add(a: (u128, u128), b: (u128, u128)) -> (r: (u128, u128))
    requires
        wide_value(a) + wide_value(b) < base() * base(),
    ensures
        wide_value(r) == wide_value(a) + wide_value(b),
{
    let carry: u128 = if a.1 > u128::MAX - b.1 { 1 } else { 0 };
    let low: u128 = if carry == 1 { a.1 - (u128::MAX - b.1) - 1 } else { a.1 + b.1 };
    proof {
        assert(a.1 + b.1 == low + carry * base());
        assert((a.0 + b.0 + carry) * base() + low == wide_value(a) + wide_value(b)) by (nonlinear_arith)
            requires
                a.1 + b.1 == low + carry * base(),
        ;
        assert(a.0 + b.0 + carry < base()) by (nonlinear_arith)
            requires
                (a.0 + b.0 + carry) * base() + low < base() * base(),
                low >= 0,
        ;
    }
    (a.0 + b.0 + carry, low)
}

/// `a - b`, for `b <= a`.
pub fn wide_sub(a: (u128, u128), b: (u128, u128)) -> (r: (u128, u128))
    requires
        wide_value(b) <= wide_value(a),
    ensures
        wide_value(r) == wide_value(a) - wide_value(b),
{
    proof {
        if a.0 < b.0 {
            assert(a.0 * base() + base() <= b.0 * base()) by (nonlinear_arith)
                requires
                    a.0 < b.0,
            ;
        }
    }
    if a.1 >= b.1 {
        proof {
            assert((a.0 - b.0) * base() == a.0 * base() - b.0 * base()) by (nonlinear_arith);
        }
        (a.0 - b.0, a.1 - b.1)
    } else {
        proof {
            if a.0 == b.0 {
                assert(false);
            }
            assert((a.0 - b.0 - 1) * base() == a.0 * base() - b.0 * base() - base()) by (nonlinear_arith);
        }
        (a.0 - b.0 - 1, a.1 + (u128::MAX - b.1) + 1)
    }
}

proof fn lemma_half_product(x: int, y: int)
    requires
        0 <= x < half(),
        0 <= y < half(),
    ensures
        x * y < base(),
{
    assert(x * y <= (half() - 1) * (half() - 1)) by (nonlinear_arith)
        requires
            0 <= x < half(),
            0 <= y < half(),
    ;
    assert(0xFFFF_FFFF_FFFF_FFFFint * 0xFFFF_FFFF_FFFF_FFFFint
        < 0x1_0000_0000_0000_0000_0000_0000_0000_0000int);
}

/// The full product of two 128-bit numbers.
pub fn wide_mul(a: u128, b: u128) -> (r: (u128, u128))
    ensures
        wide_value(r) == a * b,
{
    let h: u128 = 0x1_0000_0000_0000_0000;
    let a1 = a / h;
    let a0 = a % h;
    let b1 = b / h;
    let b0 = b % h;
    proof {
        assert(a == a1 * h + a0 && a1 < h && a0 < h) by (nonlinear_arith)
            requires
                h == half(),
                a1 == a / h,
                a0 == a % h,
                a < base(),
        ;
        assert(b == b1 * h + b0 && b1 < h && b0 < h) by (nonlinear_arith)
            requires
                h == half(),
                b1 == b / h,
                b0 == b % h,
                b < base(),
        ;
        lemma_half_product(a0 as int, b0 as int);
        lemma_half_product(a0 as int, b1 as int);
        lemma_half_product(a1 as int, b0 as int);
        lemma_half_product(a1 as int, b1 as int);
        assert(a0 * b0 < base());
        assert(a0 * b1 < base());
        assert(a1 * b0 < base());
        assert(a1 * b1 < base());
    }
    let p00 = a0 * b0;
    let p01 = a0 * b1;
    let p10 = a1 * b0;
    let p11 = a1 * b1;
    let mid = p01 % h + p10 % h;
    let shifted = (mid % h) * h;
    let carry: u128 = if p00 > u128::MAX - shifted { 1 } else { 0 };
    let low: u128 = if carry == 1 { p00 - (u128::MAX - shifted) - 1 } else { p00 + shifted };
    let ghost high: int = p11 + p01 / h + p10 / h + mid / h + carry;
    proof {
        assert(shifted + p00 == low + carry * base());
        assert(a * b == high * base() + low) by (nonlinear_arith)
            requires
                h == half(),
                base() == half() * half(),
                a == a1 * h + a0,
                b == b1 * h + b0,
                p00 == a0 * b0,
                p01 == a0 * b1,
                p10 == a1 * b0,
                p11 == a1 * b1,
                p01 == (p01 / h) * h + p01 % h,
                p10 == (p10 / h) * h + p10 % h,
                mid == p01 % h + p10 % h,
                mid == (mid / h) * h + mid % h,
                shifted == (mid % h) * h,
                shifted + p00 == low + carry * base(),
                high == p11 + p01 / h + p10 / h + mid / h + carry,
        ;
        assert(a * b < base() * base()) by (nonlinear_arith)
            requires
                0 <= a < base(),
                0 <= b < base(),
        ;
        assert(high < base()) by (nonlinear_arith)
            requires
                a * b == high * base() + low,
                a * b < base() * base(),
                low >= 0,
        ;
        assert(mid / h <= 1) by (nonlinear_arith)
            requires
                h == half(),
                mid == p01 % h + p10 % h,
                p01 % h < h,
                p10 % h < h,
        ;
    }
    (p11 + p01 / h + p10 / h + mid / h + carry, low)
}

} // verus!

//! How products and roots of fixed-point amounts behave.

use crate::amount::{floor_root, is_root, truncated_quotient, Amount, Fixed, FIXED_ONE};
use vstd::prelude::*;

verus! {

/// The opposite of an amount.
pub open spec fn opposite(v: Fixed) -> Fixed {
    Fixed { raw: (-v.raw) as i64 }
}

/// An amount and its opposite have the same square.
pub proof fn lemma_square_of_opposite(v: Fixed)
    requires
        i64::MIN < v.raw,
    ensures
        opposite(v).times_spec(opposite(v)) == v.times_spec(v),
{
    let n = v.raw as int;
    assert((-n) * (-n) == n * n) by (nonlinear_arith);
    assert(n == i64::MAX || n == -i64::MAX ==> truncated_quotient(n * n, FIXED_ONE as int)
        >= i64::MAX) by {
        if n == i64::MAX || n == -i64::MAX {
            assert(n * n == 0x7fff_ffff_ffff_ffff * 0x7fff_ffff_ffff_ffff) by (nonlinear_arith)
                requires
                    n == 0x7fff_ffff_ffff_ffff || n == -0x7fff_ffff_ffff_ffff,
            ;
        }
    }
}

/// A product grows with its first factor.
pub proof fn lemma_times_grows(a: Fixed, b: Fixed, c: Fixed)
    requires
        0 <= a.raw <= b.raw,
        0 <= c.raw,
    ensures
        0 <= a.times_spec(c).raw <= b.times_spec(c).raw,
{
    let (x, y, z) = (a.raw as int, b.raw as int, c.raw as int);
    assert(0 <= x * z <= y * z) by (nonlinear_arith)
        requires
            0 <= x <= y,
            0 <= z,
    ;
}

/// A product grows with both factors.
pub proof fn lemma_products_grow(a: Fixed, b: Fixed, c: Fixed, d: Fixed)
    requires
        0 <= a.raw <= b.raw,
        0 <= c.raw <= d.raw,
    ensures
        0 <= a.times_spec(c).raw <= b.times_spec(d).raw,
{
    lemma_times_grows(a, b, c);
    lemma_times_swaps(b, c);
    lemma_times_swaps(b, d);
    lemma_times_grows(c, d, b);
}

/// A product is the same in either order.
pub proof fn lemma_times_swaps(a: Fixed, b: Fixed)
    ensures
        a.times_spec(b) == b.times_spec(a),
{
    let (x, y) = (a.raw as int, b.raw as int);
    assert(x * y == y * x) by (nonlinear_arith);
}

/// One changes nothing as a factor.
pub proof fn lemma_one_is_neutral(a: Fixed)
    ensures
        a.times_spec((Fixed { raw: 65536 })) == a,
        (Fixed { raw: 65536 }).times_spec(a) == a,
{
    lemma_times_swaps(a, Fixed { raw: 65536 });
}

/// A factor that is not below zero keeps the order.
pub proof fn lemma_times_keeps_order(a: Fixed, b: Fixed, c: Fixed)
    requires
        i64::MIN < a.raw <= b.raw,
        0 <= c.raw,
    ensures
        a.times_spec(c).raw <= b.times_spec(c).raw,
{
    let (x, y, z) = (a.raw as int, b.raw as int, c.raw as int);
    assert(x * z <= y * z) by (nonlinear_arith)
        requires
            x <= y,
            0 <= z,
    ;
    assert(x < 0 ==> x * z <= 0) by (nonlinear_arith)
        requires
            0 <= z,
    ;
    assert(0 <= y ==> 0 <= y * z) by (nonlinear_arith)
        requires
            0 <= z,
    ;
}

/// The root of a number grows with it.
pub proof fn lemma_floor_root(n: int, m: int)
    requires
        0 <= n <= m < 0x8000_0000_0000_0000 * 65536,
    ensures
        0 <= floor_root(n) <= floor_root(m),
        floor_root(m) < 0x1_0000_0000_0000,
        is_root(n, floor_root(n)),
{
    lemma_root_exists(n);
    lemma_root_exists(m);
    let (a, b) = (floor_root(n), floor_root(m));
    assert(a <= b) by (nonlinear_arith)
        requires
            0 <= a,
            0 <= b,
            a * a <= n,
            n <= m,
            m < (b + 1) * (b + 1),
    ;
    assert(b < 0x1_0000_0000_0000) by (nonlinear_arith)
        requires
            0 <= b,
            b * b <= m,
            m < 0x8000_0000_0000_0000 * 65536,
    ;
}

/// Every number has a root.
pub proof fn lemma_root_exists(n: int)
    requires
        0 <= n,
    ensures
        exists|r: int| is_root(n, r),
        is_root(n, floor_root(n)),
    decreases n,
{
    if n == 0 {
        assert(is_root(0, 0));
    } else {
        lemma_root_exists(n - 1);
        let r = floor_root(n - 1);
        if n < (r + 1) * (r + 1) {
            assert(is_root(n, r));
        } else {
            assert(n < (r + 2) * (r + 2)) by (nonlinear_arith)
                requires
                    n - 1 < (r + 1) * (r + 1),
                    0 <= r,
            ;
            assert(is_root(n, r + 1));
        }
    }
}

} // verus!

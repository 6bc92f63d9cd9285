//! Canonical residues modulo a positive modulus.
use vstd::prelude::*;

verus! {

/// The canonical representative of `x` in `[0, m)`: `((x mod m) + m) mod m`.
pub open spec fn normalize(x: int, m: int) -> int
    recommends
        m > 0,
{
    x % m
}

/// Reduction of a value into the canonical residue class.
pub trait Mod: Sized {
    /// The canonical residue of the value modulo `m`, in the value's own type.
    spec fn residue(&self, m: int) -> Self;

    /// The canonical residue of the value modulo `m`.
    fn mod_by(&self, m: i32) -> (r: Self)
        requires
            m > 0,
        ensures
            r == self.residue(m as int),
    ;
}

impl Mod for i32 {
    open spec fn residue(&self, m: int) -> i32 {
        normalize(*self as int, m) as i32
    }

    fn mod_by(&self, m: i32) -> (r: i32) {
        match self.checked_rem_euclid(m) {
            Some(r) => r,
            // unreachable: the divisor is positive
            None => 0,
        }
    }
}

impl Mod for i64 {
    open spec fn residue(&self, m: int) -> i64 {
        normalize(*self as int, m) as i64
    }

    fn mod_by(&self, m: i32) -> (r: i64) {
        match self.checked_rem_euclid(m as i64) {
            Some(r) => r,
            // unreachable: the divisor is positive
            None => 0,
        }
    }
}

/// Every normalized value lies in `[0, m)` and is congruent to `x` modulo `m`.
pub proof fn lemma_normalize_canonical(x: int, m: int)
    requires
        m > 0,
    ensures
        0 <= normalize(x, m) < m,
        (normalize(x, m) - x) % m == 0,
{
    vstd::arithmetic::div_mod::lemma_fundamental_div_mod(x, m);
    let q = -(x / m);
    assert(normalize(x, m) - x == q * m) by (nonlinear_arith)
        requires
            x == m * (x / m) + x % m,
            q == -(x / m),
    ;
    vstd::arithmetic::div_mod::lemma_mod_multiples_basic(q, m);
}

/// Bounds on a product from bounds on its factors.
pub proof fn lemma_product_bounds(x: int, y: int, bx: int, by: int)
    requires
        -bx <= x <= bx,
        -by <= y <= by,
    ensures
        -(bx * by) <= x * y <= bx * by,
{
    assert(-(bx * by) <= x * y <= bx * by) by (nonlinear_arith)
        requires
            -bx <= x <= bx,
            -by <= y <= by,
    ;
}

/// The range of a product of two `i32` values.
pub proof fn lemma_i32_product_range(x: i32, y: i32)
    ensures
        -0x4000_0000_0000_0000 + 0x8000_0000 <= x * y <= 0x4000_0000_0000_0000,
{
    assert(-0x4000_0000_0000_0000 + 0x8000_0000 <= x * y <= 0x4000_0000_0000_0000) by (nonlinear_arith)
        requires
            -0x8000_0000 <= x < 0x8000_0000,
            -0x8000_0000 <= y < 0x8000_0000,
    ;
}

/// `x` and `y` leave the same residue modulo `m`.
pub open spec fn congruent(x: int, y: int, m: int) -> bool {
    x % m == y % m
}

/// A residue is congruent to the value it came from.
pub proof fn lemma_cong_mod(x: int, m: int)
    requires
        m > 0,
    ensures
        congruent(x % m, x, m),
{
    vstd::arithmetic::div_mod::lemma_mod_twice(x, m);
}

/// Congruence is kept by multiplication.
pub proof fn lemma_cong_mul(x1: int, y1: int, x2: int, y2: int, m: int)
    requires
        m > 0,
        congruent(x1, y1, m),
        congruent(x2, y2, m),
    ensures
        congruent(x1 * x2, y1 * y2, m),
{
    vstd::arithmetic::div_mod::lemma_mul_mod_noop_left(x1, x2, m);
    vstd::arithmetic::div_mod::lemma_mul_mod_noop_left(y1, x2, m);
    vstd::arithmetic::div_mod::lemma_mul_mod_noop_right(y1, x2, m);
    vstd::arithmetic::div_mod::lemma_mul_mod_noop_right(y1, y2, m);
}

/// Congruence is kept by addition.
pub proof fn lemma_cong_add(x1: int, y1: int, x2: int, y2: int, m: int)
    requires
        m > 0,
        congruent(x1, y1, m),
        congruent(x2, y2, m),
    ensures
        congruent(x1 + x2, y1 + y2, m),
{
    vstd::arithmetic::div_mod::lemma_add_mod_noop(x1, x2, m);
    vstd::arithmetic::div_mod::lemma_add_mod_noop(y1, y2, m);
}

/// Congruence is kept by subtraction.
pub proof fn lemma_cong_sub(x1: int, y1: int, x2: int, y2: int, m: int)
    requires
        m > 0,
        congruent(x1, y1, m),
        congruent(x2, y2, m),
    ensures
        congruent(x1 - x2, y1 - y2, m),
{
    vstd::arithmetic::div_mod::lemma_sub_mod_noop(x1, x2, m);
    vstd::arithmetic::div_mod::lemma_sub_mod_noop(y1, y2, m);
}

} // verus!

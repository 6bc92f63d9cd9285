//! The 2×2 key matrix of a Hill cipher.
use vstd::prelude::*;
use crate::matrix::{
    Matrix, MatrixError, MatrixRead, determinant_of, first_inverse_from, has_inverse, is_inverse,
    least_inverse, lemma_least_inverse, reduce_entries, scaled_adjugate,
};
use crate::modular::{
    Mod, congruent, lemma_cong_mod, lemma_cong_mul, lemma_cong_sub, lemma_i32_product_range,
    lemma_normalize_canonical, lemma_product_bounds, normalize,
};

verus! {

/// The key
/// ```text
/// [a b]
/// [c d]
/// ```
/// acting on row vectors modulo `modulo`.
#[derive(Clone, Copy, Debug)]
pub struct HillCipherKeyMatrix {
    pub modulo: i32,
    pub a: i32,
    pub b: i32,
    pub c: i32,
    pub d: i32,
}

/// The inverse of `k` modulo its modulus, as `inversed` computes it.
pub open spec fn inverse_of(k: HillCipherKeyMatrix) -> HillCipherKeyMatrix {
    let m = k.modulo as int;
    let s = least_inverse(determinant_of(k.entries(), m), m);
    HillCipherKeyMatrix {
        modulo: k.modulo,
        a: normalize(k.d * s, m) as i32,
        b: normalize(-k.b * s, m) as i32,
        c: normalize(-k.c * s, m) as i32,
        d: normalize(k.a * s, m) as i32,
    }
}

impl HillCipherKeyMatrix {
    /// The key `[a b; c d]` under `modulo`.
    pub fn from(a: i32, b: i32, c: i32, d: i32, modulo: i32) -> (r: Self)
        ensures
            r == (HillCipherKeyMatrix { modulo, a, b, c, d }),
    {
        HillCipherKeyMatrix { modulo, a, b, c, d }
    }

    /// Replaces the four entries, keeping the modulus.
    pub fn update(&mut self, a: i32, b: i32, c: i32, d: i32)
        ensures
            *final(self) == (HillCipherKeyMatrix { modulo: old(self).modulo, a, b, c, d }),
    {
        self.a = a;
        self.b = b;
        self.c = c;
        self.d = d;
    }
}

impl MatrixRead for HillCipherKeyMatrix {
    open spec fn entries(&self) -> Seq<Seq<i32>> {
        seq![seq![self.a, self.b], seq![self.c, self.d]]
    }

    fn at(&self, row: usize, col: usize) -> (r: Result<i32, MatrixError>) {
        match (row, col) {
            (0, 0) => Ok(self.a),
            (0, 1) => Ok(self.b),
            (1, 0) => Ok(self.c),
            (1, 1) => Ok(self.d),
            _ => Err(MatrixError::InvalidIndex),
        }
    }

    fn width(&self) -> (r: usize) {
        2
    }

    fn height(&self) -> (r: usize) {
        2
    }
}

impl Matrix for HillCipherKeyMatrix {
    open spec fn modulus(&self) -> int {
        self.modulo as int
    }

    open spec fn supports_product(&self) -> bool {
        false
    }

    open spec fn has_determinant(&self) -> bool {
        true
    }

    /// A key is never the left operand of a product.
    fn mul<T: MatrixRead>(&mut self, other: &T) -> (r: Result<(), MatrixError>) {
        Err(MatrixError::Unsupported)
    }

    fn mod_by(&mut self, m: i32) {
        self.a = self.a.mod_by(m);
        self.b = self.b.mod_by(m);
        self.c = self.c.mod_by(m);
        self.d = self.d.mod_by(m);
        assert(self.entries() =~~= reduce_entries(old(self).entries(), m as int));
    }

    fn set(&mut self, row: usize, col: usize, value: i32) -> (r: Result<(), MatrixError>) {
        match (row, col) {
            (0, 0) => self.a = value,
            (0, 1) => self.b = value,
            (1, 0) => self.c = value,
            (1, 1) => self.d = value,
            _ => return Err(MatrixError::InvalidIndex),
        }
        assert(self.entries() =~~= old(self).entries().update(
            row as int,
            old(self).entries()[row as int].update(col as int, value),
        ));
        Ok(())
    }

    fn det(&self) -> (r: Result<i32, MatrixError>) {
        proof {
            lemma_i32_product_range(self.a, self.d);
            lemma_i32_product_range(self.b, self.c);
        }
        let p: i64 = (self.a as i64) * (self.d as i64) - (self.b as i64) * (self.c as i64);
        proof {
            lemma_normalize_canonical(p as int, self.modulo as int);
        }
        Ok(p.mod_by(self.modulo) as i32)
    }

    fn det_inverse(&self) -> (r: Result<i32, MatrixError>) {
        let det = match self.det() {
            Ok(x) => x,
            Err(e) => return Err(e),
        };
        let ghost x = det as int;
        let ghost m = self.modulo as int;
        proof {
            lemma_normalize_canonical(
                self.a * self.d - self.b * self.c,
                m,
            );
        }
        let mut inv: i32 = 0;
        while inv < self.modulo
            invariant
                x == determinant_of(self.entries(), self.modulus()),
                x == det as int,
                m == self.modulo,
                m > 0,
                0 <= x < m,
                0 <= inv <= m,
                first_inverse_from(x, m, 0) == first_inverse_from(x, m, inv as int),
                forall|j: int| 0 <= j < inv ==> !is_inverse(x, j, m),
            decreases m - inv,
        {
            proof {
                lemma_i32_product_range(det, inv);
                lemma_normalize_canonical(x * inv, m);
            }
            let t: i64 = (det as i64) * (inv as i64);
            if t.mod_by(self.modulo) == 1 {
                proof {
                    lemma_least_inverse(x, m);
                }
                return Ok(inv);
            }
            inv = inv + 1;
        }
        proof {
            lemma_least_inverse(x, m);
        }
        Err(MatrixError::NoInverse)
    }

    fn inversed(&self) -> (r: Result<Self, MatrixError>) {
        let s: i64 = match self.det_inverse() {
            Ok(x) => x as i64,
            Err(e) => return Err(e),
        };
        let m = self.modulo;
        proof {
            lemma_normalize_canonical(
                self.a * self.d - self.b * self.c,
                m as int,
            );
            lemma_least_inverse(determinant_of(self.entries(), m as int), m as int);
            lemma_product_bounds(self.a as int, s as int, 0x8000_0000, 0x8000_0000);
            lemma_product_bounds(-self.b, s as int, 0x8000_0000, 0x8000_0000);
            lemma_product_bounds(-self.c, s as int, 0x8000_0000, 0x8000_0000);
            lemma_product_bounds(self.d as int, s as int, 0x8000_0000, 0x8000_0000);
            lemma_normalize_canonical(self.a * s, m as int);
            lemma_normalize_canonical(-self.b * s, m as int);
            lemma_normalize_canonical(-self.c * s, m as int);
            lemma_normalize_canonical(self.d * s, m as int);
        }
        let r = Self::from(
            ((self.d as i64) * s).mod_by(m) as i32,
            (-(self.b as i64) * s).mod_by(m) as i32,
            (-(self.c as i64) * s).mod_by(m) as i32,
            ((self.a as i64) * s).mod_by(m) as i32,
            m,
        );
        assert(r.entries() =~~= scaled_adjugate(self.entries(), s as int, m as int));
        Ok(r)
    }
}

/// A key with the entries and modulus that `inversed` returns for `k` is `inverse_of(k)`.
pub proof fn lemma_inversed_is_inverse_of(k: HillCipherKeyMatrix, r: HillCipherKeyMatrix)
    requires
        r.entries() == scaled_adjugate(
            k.entries(),
            least_inverse(determinant_of(k.entries(), k.modulus()), k.modulus()),
            k.modulus(),
        ),
        r.modulus() == k.modulus(),
    ensures
        r == inverse_of(k),
{
    assert(r.entries()[0][0] == r.a && r.entries()[0][1] == r.b);
    assert(r.entries()[1][0] == r.c && r.entries()[1][1] == r.d);
}

proof fn lemma_inverse_identities(a: int, b: int, c: int, d: int, s: int, t: int)
    ensures
        (d * s) * (a * s) - (-b * s) * (-c * s) == s * s * (a * d - b * c),
        (s * s * (a * d - b * c)) * (a * d - b * c) == (s * (a * d - b * c)) * (s * (a * d - b * c)),
        (a * d - b * c) * ((s * s * (a * d - b * c)) * t) == ((s * (a * d - b * c)) * (s * (a * d - b * c))) * t,
        (a * s) * (a * d - b * c) == a * (s * (a * d - b * c)),
        -(-b * s) * (a * d - b * c) == b * (s * (a * d - b * c)),
        -(-c * s) * (a * d - b * c) == c * (s * (a * d - b * c)),
        (d * s) * (a * d - b * c) == d * (s * (a * d - b * c)),
{
    let dd = a * d - b * c;
    assert((d * s) * (a * s) == s * s * (a * d)) by (nonlinear_arith);
    assert((-b * s) * (-c * s) == s * s * (b * c)) by (nonlinear_arith);
    assert(s * s * (a * d) - s * s * (b * c) == s * s * dd) by (nonlinear_arith)
        requires
            dd == a * d - b * c,
    ;
    assert((s * s * dd) * dd == (s * dd) * (s * dd)) by (nonlinear_arith);
    assert(dd * ((s * s * dd) * t) == ((s * dd) * (s * dd)) * t) by (nonlinear_arith);
    assert((a * s) * dd == a * (s * dd)) by (nonlinear_arith);
    assert(-(-b * s) * dd == b * (s * dd)) by (nonlinear_arith);
    assert(-(-c * s) * dd == c * (s * dd)) by (nonlinear_arith);
    assert((d * s) * dd == d * (s * dd)) by (nonlinear_arith);
}

/// Inverting a key twice gives back its entries reduced modulo its modulus; the inverse of an
/// invertible key is invertible.
pub proof fn lemma_inverse_of_inverse(k: HillCipherKeyMatrix)
    requires
        k.modulo > 0,
        has_inverse(determinant_of(k.entries(), k.modulo as int), k.modulo as int),
    ensures
        has_inverse(determinant_of(inverse_of(k).entries(), k.modulo as int), k.modulo as int),
        inverse_of(inverse_of(k)) == (HillCipherKeyMatrix {
            modulo: k.modulo,
            a: normalize(k.a as int, k.modulo as int) as i32,
            b: normalize(k.b as int, k.modulo as int) as i32,
            c: normalize(k.c as int, k.modulo as int) as i32,
            d: normalize(k.d as int, k.modulo as int) as i32,
        }),
{
    let m = k.modulo as int;
    let (a, b, c, d) = (k.a as int, k.b as int, k.c as int, k.d as int);
    let dd = a * d - b * c;
    let det = determinant_of(k.entries(), m);
    let s = least_inverse(det, m);
    lemma_least_inverse(det, m);
    lemma_inverse_identities(a, b, c, d, s, 0);
    let ki = inverse_of(k);
    lemma_normalize_canonical(d * s, m);
    lemma_normalize_canonical(-b * s, m);
    lemma_normalize_canonical(-c * s, m);
    lemma_normalize_canonical(a * s, m);
    lemma_normalize_canonical(dd, m);
    let (a1, b1, c1, d1) = (ki.a as int, ki.b as int, ki.c as int, ki.d as int);
    lemma_cong_mod(d * s, m);
    lemma_cong_mod(-b * s, m);
    lemma_cong_mod(-c * s, m);
    lemma_cong_mod(a * s, m);
    lemma_cong_mod(dd, m);
    vstd::arithmetic::div_mod::lemma_small_mod(1, m as nat);
    // s * dd leaves residue 1.
    lemma_cong_mul(det, dd, s, s, m);
    assert(det * s == s * det && dd * s == s * dd) by (nonlinear_arith);
    assert(congruent(s * dd, 1, m));
    // The inverse's determinant is congruent to s * s * dd.
    let det1 = determinant_of(ki.entries(), m);
    lemma_cong_mul(a1, d * s, d1, a * s, m);
    lemma_cong_mul(b1, -b * s, c1, -c * s, m);
    lemma_cong_sub(a1 * d1, (d * s) * (a * s), b1 * c1, (-b * s) * (-c * s), m);
    lemma_cong_mod(a1 * d1 - b1 * c1, m);
    assert(congruent(det1, s * s * dd, m));
    // det is an inverse of det1.
    lemma_cong_mul(det1, s * s * dd, det, dd, m);
    lemma_cong_mul(s * dd, 1, s * dd, 1, m);
    lemma_normalize_canonical(det1 * det, m);
    assert(is_inverse(det1, det, m));
    lemma_normalize_canonical(a1 * d1 - b1 * c1, m);
    assert(has_inverse(det1, m));
    // The inverse's least inverse is congruent to dd.
    let t = least_inverse(det1, m);
    lemma_least_inverse(det1, m);
    lemma_inverse_identities(a, b, c, d, s, t);
    lemma_cong_mul(det1, s * s * dd, t, t, m);
    assert(congruent(s * s * dd * t, 1, m));
    lemma_cong_mul(dd, dd, s * s * dd * t, 1, m);
    lemma_cong_mul((s * dd) * (s * dd), 1, t, t, m);
    assert(congruent(t, dd, m));
    // Each entry of the second inverse.
    lemma_cong_mul(d1, a * s, t, dd, m);
    lemma_cong_mul(a, a, s * dd, 1, m);
    lemma_cong_mul(-1, -1, b1, -b * s, m);
    lemma_cong_mul(-1, -1, c1, -c * s, m);
    lemma_cong_mul(-b1, -(-b * s), t, dd, m);
    lemma_cong_mul(b, b, s * dd, 1, m);
    lemma_cong_mul(-c1, -(-c * s), t, dd, m);
    lemma_cong_mul(c, c, s * dd, 1, m);
    lemma_cong_mul(a1, d * s, t, dd, m);
    lemma_cong_mul(d, d, s * dd, 1, m);
}

} // verus!

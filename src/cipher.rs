//! Encryption of one block under a key.
use vstd::prelude::*;
use crate::key::{HillCipherKeyMatrix, inverse_of};
use crate::matrix::{
    Matrix, MatrixRead, determinant_of, dot, fits_i32, has_inverse, least_inverse,
    lemma_least_inverse, product_fits,
};
use crate::modular::{
    congruent, lemma_cong_add, lemma_cong_mod, lemma_cong_mul, lemma_normalize_canonical, normalize,
};

verus! {

/// The row vector `v` times the key, each entry reduced modulo `m`.
pub open spec fn encrypt(v: Seq<i32>, k: HillCipherKeyMatrix, m: int) -> Seq<i32> {
    seq![
        normalize(v[0] * k.a + v[1] * k.c, m) as i32,
        normalize(v[0] * k.b + v[1] * k.d, m) as i32,
    ]
}

/// Every product and sum formed while multiplying `v` by the key fits in an `i32`.
pub open spec fn encrypt_fits(v: Seq<i32>, k: HillCipherKeyMatrix) -> bool {
    &&& fits_i32(v[0] * k.a)
    &&& fits_i32(v[1] * k.c)
    &&& fits_i32(v[0] * k.a + v[1] * k.c)
    &&& fits_i32(v[0] * k.b)
    &&& fits_i32(v[1] * k.d)
    &&& fits_i32(v[0] * k.b + v[1] * k.d)
}

/// Multiplies the two-letter block by the key and reduces the result modulo `modulo`.
pub fn crypt(block: &Vec<i32>, key: &HillCipherKeyMatrix, modulo: i32) -> (r: Vec<i32>)
    requires
        block@.len() == 2,
        modulo > 0,
        encrypt_fits(block@, *key),
    ensures
        r@ == encrypt(block@, *key, modulo as int),
{
    let ghost b = key.entries();
    let ghost v = block@;
    assert(dot(v, b, 0, 0) == 0 && dot(v, b, 1, 0) == 0);
    assert(dot(v, b, 0, 1) == v[0] * key.a);
    assert(dot(v, b, 0, 2) == v[0] * key.a + v[1] * key.c);
    assert(dot(v, b, 1, 1) == v[0] * key.b);
    assert(dot(v, b, 1, 2) == v[0] * key.b + v[1] * key.d);
    assert(product_fits(seq![v], b));
    let mut ret: Vec<i32> = Vec::new();
    ret.push(block[0]);
    ret.push(block[1]);
    assert(ret@ =~= v);
    let _ = ret.mul(key);
    ret.mod_by(modulo);
    assert(ret@ =~= encrypt(v, *key, modulo as int)) by {
        assert(ret.entries()[0] == ret@);
    }
    ret
}

/// Multiplying `v * K` by `s` times the adjugate of `K` scales `v` by `s * det(K)`.
proof fn lemma_adjugate_row(v0: int, v1: int, a: int, b: int, c: int, d: int, s: int)
    ensures
        (v0 * a + v1 * c) * (d * s) + (v0 * b + v1 * d) * (-c * s) == (s * (a * d - b * c)) * v0,
        (v0 * a + v1 * c) * (-b * s) + (v0 * b + v1 * d) * (a * s) == (s * (a * d - b * c)) * v1,
{
    let x = v0 * a + v1 * c;
    let y = v0 * b + v1 * d;
    let dd = a * d - b * c;
    assert(x * d - y * c == v0 * dd) by (nonlinear_arith)
        requires
            x == v0 * a + v1 * c,
            y == v0 * b + v1 * d,
            dd == a * d - b * c,
    ;
    assert(a * y - b * x == v1 * dd) by (nonlinear_arith)
        requires
            x == v0 * a + v1 * c,
            y == v0 * b + v1 * d,
            dd == a * d - b * c,
    ;
    assert(x * (d * s) + y * (-c * s) == (x * d - y * c) * s) by (nonlinear_arith);
    assert(x * (-b * s) + y * (a * s) == (a * y - b * x) * s) by (nonlinear_arith);
    assert((v0 * dd) * s == (s * dd) * v0) by (nonlinear_arith);
    assert((v1 * dd) * s == (s * dd) * v1) by (nonlinear_arith);
}

/// Decrypting with the inverse key the encryption of a block gives back the block, each entry
/// reduced modulo the key's modulus.
pub proof fn lemma_decrypt_inverts_encrypt(v: Seq<i32>, k: HillCipherKeyMatrix)
    requires
        v.len() == 2,
        k.modulo > 0,
        has_inverse(determinant_of(k.entries(), k.modulo as int), k.modulo as int),
    ensures
        encrypt(encrypt(v, k, k.modulo as int), inverse_of(k), k.modulo as int) == seq![
            normalize(v[0] as int, k.modulo as int) as i32,
            normalize(v[1] as int, k.modulo as int) as i32,
        ],
{
    let m = k.modulo as int;
    let (a, b, c, d) = (k.a as int, k.b as int, k.c as int, k.d as int);
    let det = determinant_of(k.entries(), m);
    let s = least_inverse(det, m);
    lemma_least_inverse(det, m);
    let (v0, v1) = (v[0] as int, v[1] as int);
    let x = v0 * a + v1 * c;
    let y = v0 * b + v1 * d;
    let e = encrypt(v, k, m);
    let ki = inverse_of(k);
    lemma_normalize_canonical(x, m);
    lemma_normalize_canonical(y, m);
    lemma_normalize_canonical(d * s, m);
    lemma_normalize_canonical(-b * s, m);
    lemma_normalize_canonical(-c * s, m);
    lemma_normalize_canonical(a * s, m);
    lemma_normalize_canonical(v0, m);
    lemma_normalize_canonical(v1, m);
    assert(e[0] as int == x % m && e[1] as int == y % m);
    lemma_cong_mod(x, m);
    lemma_cong_mod(y, m);
    lemma_cong_mod(d * s, m);
    lemma_cong_mod(-b * s, m);
    lemma_cong_mod(-c * s, m);
    lemma_cong_mod(a * s, m);
    // s * (ad - bc) leaves residue 1.
    let dd = a * d - b * c;
    lemma_cong_mod(dd, m);
    lemma_cong_mul(det, dd, s, s, m);
    assert(congruent(s * dd, 1, m)) by {
        assert(det * s == s * det) by (nonlinear_arith);
        assert(dd * s == s * dd) by (nonlinear_arith);
        vstd::arithmetic::div_mod::lemma_small_mod(1, m as nat);
    }
    // First entry: x * (d s) + y * (-c s) == s * dd * v0.
    lemma_cong_mul(e[0] as int, x, ki.a as int, d * s, m);
    lemma_cong_mul(e[1] as int, y, ki.c as int, -c * s, m);
    lemma_cong_add(e[0] * ki.a, x * (d * s), e[1] * ki.c, y * (-c * s), m);
    lemma_adjugate_row(v0, v1, a, b, c, d, s);
    lemma_cong_mul(s * dd, 1, v0, v0, m);
    // Second entry: x * (-b s) + y * (a s) == s * dd * v1.
    lemma_cong_mul(e[0] as int, x, ki.b as int, -b * s, m);
    lemma_cong_mul(e[1] as int, y, ki.d as int, a * s, m);
    lemma_cong_add(e[0] * ki.b, x * (-b * s), e[1] * ki.d, y * (a * s), m);
    lemma_cong_mul(s * dd, 1, v1, v1, m);
    assert(encrypt(e, ki, m) =~= seq![normalize(v0, m) as i32, normalize(v1, m) as i32]);
}

} // verus!

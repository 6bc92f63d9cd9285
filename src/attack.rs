//! Frequency analysis of ciphertext digrams and the brute-force key search.
use vstd::prelude::*;
use crate::cipher::{crypt, encrypt};
use crate::key::HillCipherKeyMatrix;

verus! {

/// Largest modulus for which every product and sum of the search fits in an `i32`.
pub const MAX_MODULUS: i32 = 32768;

/// The ciphertext under attack.
pub struct B2 {
    pub ciphertext: String,
}

/// The contents of a list of blocks.
pub open spec fn blocks_view(s: Seq<Vec<i32>>) -> Seq<Seq<i32>> {
    s.map_values(|v: Vec<i32>| v@)
}

/// The key `[a b; c d]` under `m`.
pub open spec fn quad_key(a: int, b: int, c: int, d: int, m: int) -> HillCipherKeyMatrix {
    HillCipherKeyMatrix { modulo: m as i32, a: a as i32, b: b as i32, c: c as i32, d: d as i32 }
}

/// Every plaintext block encrypts under `k` into a block of `cts`.
pub open spec fn key_matches(pts: Seq<Seq<i32>>, cts: Seq<Seq<i32>>, k: HillCipherKeyMatrix) -> bool {
    forall|i: int| 0 <= i < pts.len() ==> cts.contains(#[trigger] encrypt(pts[i], k, k.modulo as int))
}

pub open spec fn in_search_range(a: int, b: int, c: int, d: int, m: int) -> bool {
    0 <= a < m && 0 <= b < m && 0 <= c < m && 0 <= d < m
}

/// `(a, b, c, d)` comes before `(w, x, y, z)` in row-major order.
pub open spec fn comes_before(a: int, b: int, c: int, d: int, w: int, x: int, y: int, z: int) -> bool {
    a < w || (a == w && (b < x || (b == x && (c < y || (c == y && d < z)))))
}

/// No candidate key before `(w, x, y, z)` in row-major order matches.
pub open spec fn none_before(pts: Seq<Seq<i32>>, cts: Seq<Seq<i32>>, m: int, w: int, x: int, y: int, z: int) -> bool {
    forall|a: int, b: int, c: int, d: int|
        in_search_range(a, b, c, d, m) && comes_before(a, b, c, d, w, x, y, z)
            ==> !#[trigger] key_matches(pts, cts, quad_key(a, b, c, d, m))
}

/// Some candidate key with entries in `[0, m)` matches.
pub open spec fn some_key_matches(pts: Seq<Seq<i32>>, cts: Seq<Seq<i32>>, m: int) -> bool {
    exists|a: int, b: int, c: int, d: int|
        in_search_range(a, b, c, d, m) && #[trigger] key_matches(pts, cts, quad_key(a, b, c, d, m))
}

/// When each ciphertext block is the encryption of the plaintext block at the same position under
/// a key with entries in `[0, m)`, some key matches, so `solve` returns a key.
pub proof fn lemma_known_key_is_found(pts: Seq<Seq<i32>>, cts: Seq<Seq<i32>>, k: HillCipherKeyMatrix)
    requires
        k.modulo > 0,
        in_search_range(k.a as int, k.b as int, k.c as int, k.d as int, k.modulo as int),
        cts.len() == pts.len(),
        forall|i: int| 0 <= i < pts.len() ==> cts[i] == encrypt(pts[i], k, k.modulo as int),
    ensures
        some_key_matches(pts, cts, k.modulo as int),
{
    let m = k.modulo as int;
    assert(k == quad_key(k.a as int, k.b as int, k.c as int, k.d as int, m));
    assert forall|i: int| 0 <= i < pts.len() implies cts.contains(#[trigger] encrypt(pts[i], k, m)) by {
        assert(cts[i] == encrypt(pts[i], k, m));
    }
    assert(key_matches(pts, cts, quad_key(k.a as int, k.b as int, k.c as int, k.d as int, m)));
}

/// A plaintext digram: two digits in `[0, m)`.
pub open spec fn is_digit_block(v: Seq<i32>, m: int) -> bool {
    v.len() == 2 && 0 <= v[0] < m && 0 <= v[1] < m
}

/// Whether the two blocks hold the same digits.
fn same_block(x: &Vec<i32>, y: &Vec<i32>) -> (r: bool)
    ensures
        r == (x@ == y@),
{
    if x.len() != y.len() {
        return false;
    }
    let mut i: usize = 0;
    while i < x.len()
        invariant
            x.len() == y.len(),
            i <= x.len(),
            forall|k: int| 0 <= k < i ==> x@[k] == y@[k],
        decreases x.len() - i,
    {
        if x[i] != y[i] {
            return false;
        }
        i = i + 1;
    }
    assert(x@ =~= y@);
    true
}

/// Whether `blocks` holds a block equal to `b`.
fn contains_block(blocks: &[Vec<i32>], b: &Vec<i32>) -> (r: bool)
    ensures
        r == blocks_view(blocks@).contains(b@),
{
    let mut i: usize = 0;
    while i < blocks.len()
        invariant
            i <= blocks.len(),
            forall|k: int| 0 <= k < i ==> blocks@[k]@ != b@,
        decreases blocks.len() - i,
    {
        if same_block(&blocks[i], b) {
            assert(blocks_view(blocks@)[i as int] == b@);
            return true;
        }
        i = i + 1;
    }
    false
}

proof fn lemma_digit_products(x: int, y: int, m: int)
    requires
        0 <= x < m,
        0 <= y < m,
        m <= MAX_MODULUS,
    ensures
        0 <= x * y < 0x4000_0000,
{
    assert(0 <= x * y < 0x4000_0000) by (nonlinear_arith)
        requires
            0 <= x < m,
            0 <= y < m,
            m <= 32768,
    ;
}

/// Whether every plaintext block encrypts under `key` into a block of `ciphertext_blocks`.
fn matches_all(
    plaintext_blocks: &[Vec<i32>],
    ciphertext_blocks: &[Vec<i32>],
    key: &HillCipherKeyMatrix,
    modulo: i32,
) -> (r: bool)
    requires
        0 < modulo <= MAX_MODULUS,
        key.modulo == modulo,
        in_search_range(key.a as int, key.b as int, key.c as int, key.d as int, modulo as int),
        forall|i: int| 0 <= i < plaintext_blocks@.len() ==> is_digit_block(#[trigger] plaintext_blocks@[i]@, modulo as int),
    ensures
        r == key_matches(blocks_view(plaintext_blocks@), blocks_view(ciphertext_blocks@), *key),
{
    let ghost pts = blocks_view(plaintext_blocks@);
    let ghost cts = blocks_view(ciphertext_blocks@);
    let mut i: usize = 0;
    while i < plaintext_blocks.len()
        invariant
            0 < modulo <= MAX_MODULUS,
            key.modulo == modulo,
            in_search_range(key.a as int, key.b as int, key.c as int, key.d as int, modulo as int),
            forall|i: int| 0 <= i < plaintext_blocks@.len() ==> is_digit_block(#[trigger] plaintext_blocks@[i]@, modulo as int),
            pts == blocks_view(plaintext_blocks@),
            cts == blocks_view(ciphertext_blocks@),
            i <= plaintext_blocks.len(),
            forall|k: int| 0 <= k < i ==> cts.contains(#[trigger] encrypt(pts[k], *key, modulo as int)),
        decreases plaintext_blocks.len() - i,
    {
        let pb = &plaintext_blocks[i];
        assert(is_digit_block(plaintext_blocks@[i as int]@, modulo as int));
        proof {
            let m = modulo as int;
            lemma_digit_products(pb@[0] as int, key.a as int, m);
            lemma_digit_products(pb@[1] as int, key.c as int, m);
            lemma_digit_products(pb@[0] as int, key.b as int, m);
            lemma_digit_products(pb@[1] as int, key.d as int, m);
        }
        let e = crypt(pb, key, modulo);
        if !contains_block(ciphertext_blocks, &e) {
            assert(pts[i as int] == pb@);
            return false;
        }
        i = i + 1;
    }
    true
}

impl B2 {
    /// Searches the keys with entries in `[0, modulo)` in row-major order and returns the first
    /// one under which every plaintext block encrypts into the ciphertext block set.
    pub fn solve(
        &self,
        plaintext_blocks: &[Vec<i32>],
        ciphertext_blocks: &[Vec<i32>],
        modulo: i32,
    ) -> (r: Option<HillCipherKeyMatrix>)
        requires
            0 < modulo <= MAX_MODULUS,
            forall|i: int| 0 <= i < plaintext_blocks@.len() ==> is_digit_block(#[trigger] plaintext_blocks@[i]@, modulo as int),
        ensures
            r is None <==> !some_key_matches(blocks_view(plaintext_blocks@), blocks_view(ciphertext_blocks@), modulo as int),
            r matches Some(k) ==> {
                &&& k.modulo == modulo
                &&& in_search_range(k.a as int, k.b as int, k.c as int, k.d as int, modulo as int)
                &&& key_matches(blocks_view(plaintext_blocks@), blocks_view(ciphertext_blocks@), k)
                &&& none_before(blocks_view(plaintext_blocks@), blocks_view(ciphertext_blocks@), modulo as int,
                        k.a as int, k.b as int, k.c as int, k.d as int)
            },
    {
        let ghost pts = blocks_view(plaintext_blocks@);
        let ghost cts = blocks_view(ciphertext_blocks@);
        let ghost m = modulo as int;
        let mut key_enc = HillCipherKeyMatrix::from(0, 0, 0, 0, modulo);
        let mut i: i32 = 0;
        while i < modulo
            invariant
                0 < modulo <= MAX_MODULUS,
                forall|i: int| 0 <= i < plaintext_blocks@.len() ==> is_digit_block(#[trigger] plaintext_blocks@[i]@, modulo as int),
                pts == blocks_view(plaintext_blocks@),
                cts == blocks_view(ciphertext_blocks@),
                m == modulo,
                key_enc.modulo == modulo,
                0 <= i <= modulo,
                none_before(pts, cts, m, i as int, 0, 0, 0),
            decreases modulo - i,
        {
            let mut j: i32 = 0;
            while j < modulo
                invariant
                    0 < modulo <= MAX_MODULUS,
                    forall|i: int| 0 <= i < plaintext_blocks@.len() ==> is_digit_block(#[trigger] plaintext_blocks@[i]@, modulo as int),
                    pts == blocks_view(plaintext_blocks@),
                    cts == blocks_view(ciphertext_blocks@),
                    m == modulo,
                    key_enc.modulo == modulo,
                    0 <= i < modulo,
                    0 <= j <= modulo,
                    none_before(pts, cts, m, i as int, j as int, 0, 0),
                decreases modulo - j,
            {
                let mut k: i32 = 0;
                while k < modulo
                    invariant
                        0 < modulo <= MAX_MODULUS,
                        forall|i: int| 0 <= i < plaintext_blocks@.len() ==> is_digit_block(#[trigger] plaintext_blocks@[i]@, modulo as int),
                        pts == blocks_view(plaintext_blocks@),
                        cts == blocks_view(ciphertext_blocks@),
                        m == modulo,
                        key_enc.modulo == modulo,
                        0 <= i < modulo,
                        0 <= j < modulo,
                        0 <= k <= modulo,
                        none_before(pts, cts, m, i as int, j as int, k as int, 0),
                    decreases modulo - k,
                {
                    let mut l: i32 = 0;
                    while l < modulo
                        invariant
                            0 < modulo <= MAX_MODULUS,
                            forall|i: int| 0 <= i < plaintext_blocks@.len() ==> is_digit_block(#[trigger] plaintext_blocks@[i]@, modulo as int),
                            pts == blocks_view(plaintext_blocks@),
                            cts == blocks_view(ciphertext_blocks@),
                            m == modulo,
                            key_enc.modulo == modulo,
                            0 <= i < modulo,
                            0 <= j < modulo,
                            0 <= k < modulo,
                            0 <= l <= modulo,
                            none_before(pts, cts, m, i as int, j as int, k as int, l as int),
                        decreases modulo - l,
                    {
                        key_enc.update(i, j, k, l);
                        assert(key_enc == quad_key(i as int, j as int, k as int, l as int, m));
                        if matches_all(plaintext_blocks, ciphertext_blocks, &key_enc, modulo) {
                            return Some(key_enc);
                        }
                        l = l + 1;
                    }
                    k = k + 1;
                }
                j = j + 1;
            }
            i = i + 1;
        }
        None
    }
}

} // verus!

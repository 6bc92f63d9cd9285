//! Recovering the plaintext: hypotheses from the ranking, the key search, and decryption.
use vstd::prelude::*;
use vstd::utf8::{encode_utf8, is_ascii_chars, is_ascii_chars_encode_utf8};
use crate::attack::{B2, blocks_view, in_search_range, is_digit_block, key_matches, none_before, some_key_matches};
use crate::cipher::{crypt, encrypt};
use crate::codec::{alphabet_digits, block_view, byte_blocks, letters_of, string_view};
use crate::key::{HillCipherKeyMatrix, inverse_of, lemma_inversed_is_inverse_of};
use crate::matrix::{Matrix, MatrixRead, determinant_of, has_inverse};
use crate::modular::{lemma_normalize_canonical, lemma_product_bounds};

verus! {

/// Why the attack produced no plaintext.
#[derive(Clone, Copy, Debug)]
pub enum AttackError {
    /// No key with entries in `[0, modulo)` maps the hypotheses into the ranked digrams.
    KeyNotFound,
    /// The key found has a determinant without inverse modulo the modulus.
    NoInverse(HillCipherKeyMatrix),
}

/// The letters of a text as distances from `'A'`.
pub open spec fn digits_of(s: Seq<char>) -> Seq<i32> {
    s.map_values(|c: char| (c as u32 as int - 65) as i32)
}

/// The first `top` digrams of a ranking as digit blocks.
pub open spec fn ranked_digits(ranked: Seq<(String, i32)>, top: int) -> Seq<Seq<i32>> {
    Seq::new(
        (if top < ranked.len() { top } else { ranked.len() as int }) as nat,
        |i: int| digits_of(ranked[i].0@),
    )
}

/// `k` is the first key, in row-major order, under which the hypotheses match.
pub open spec fn is_first_match(pts: Seq<Seq<i32>>, cts: Seq<Seq<i32>>, m: int, k: HillCipherKeyMatrix) -> bool {
    &&& k.modulo == m
    &&& in_search_range(k.a as int, k.b as int, k.c as int, k.d as int, m)
    &&& key_matches(pts, cts, k)
    &&& none_before(pts, cts, m, k.a as int, k.b as int, k.c as int, k.d as int)
}

/// The text's digit blocks, each multiplied by `key` and reduced, spelled as letters.
pub open spec fn decryption_of(text: Seq<char>, key: HillCipherKeyMatrix) -> Seq<char> {
    letters_of(byte_blocks(encode_utf8(text)).map_values(|v: Seq<i32>| encrypt(v, key, key.modulo as int)))
}

/// The letters of a text as distances from `'A'`.
fn digits(s: &String) -> (r: Vec<i32>)
    ensures
        r@ == digits_of(s@),
{
    let mut r: Vec<i32> = Vec::new();
    for c in it: s.as_str().chars()
        invariant
            it.seq() == s@,
            r@ == digits_of(s@.take(it.index() as int)),
    {
        let code: u32 = c as u32;
        r.push((code as i64 - 65) as i32);
        proof {
            assert(c == s@[it.index() as int]);
            assert(s@.take(it.index() + 1) =~= s@.take(it.index() as int).push(c));
            assert(r@ =~= digits_of(s@.take(it.index() + 1)));
        }
    }
    proof {
        assert(s@.take(s@.len() as int) =~= s@);
    }
    r
}

/// The first `top` ranked digrams as digit blocks.
pub fn ranked_blocks(ranked: &Vec<(String, i32)>, top: usize) -> (r: Vec<Vec<i32>>)
    ensures
        blocks_view(r@) == ranked_digits(ranked@, top as int),
{
    let n = if top < ranked.len() { top } else { ranked.len() };
    let mut r: Vec<Vec<i32>> = Vec::new();
    let mut i: usize = 0;
    while i < n
        invariant
            n == if top < ranked.len() { top } else { ranked.len() },
            i <= n,
            r.len() == i,
            forall|k: int| 0 <= k < i ==> #[trigger] r@[k]@ == digits_of(ranked@[k].0@),
        decreases n - i,
    {
        r.push(digits(&ranked[i].0));
        i = i + 1;
    }
    assert(blocks_view(r@) =~= ranked_digits(ranked@, top as int));
    r
}

/// The text decrypted block by block under `key`.
pub fn decrypt_text(text: &String, key: &HillCipherKeyMatrix) -> (r: String)
    requires
        is_ascii_chars(text@),
        text@.len() % 2 == 0,
        0 < key.modulo <= 26,
        in_search_range(key.a as int, key.b as int, key.c as int, key.d as int, key.modulo as int),
    ensures
        r@ == decryption_of(text@, *key),
{
    proof {
        is_ascii_chars_encode_utf8(text@);
    }
    let ghost bytes = encode_utf8(text@);
    let ghost bb = byte_blocks(bytes);
    let ghost m = key.modulo as int;
    let blocks = block_view(text.clone());
    let mut out: Vec<Vec<i32>> = Vec::new();
    let mut i: usize = 0;
    while i < blocks.len()
        invariant
            blocks_view(blocks@) == bb,
            bb == byte_blocks(bytes),
            bytes == encode_utf8(text@),
            bytes.len() == text@.len(),
            forall|p: int| 0 <= p < text@.len() ==> text@[p] as u8 == #[trigger] bytes[p],
            is_ascii_chars(text@),
            m == key.modulo,
            0 < key.modulo <= 26,
            in_search_range(key.a as int, key.b as int, key.c as int, key.d as int, m),
            i <= blocks.len(),
            out.len() == i,
            forall|k: int| 0 <= k < i ==> #[trigger] out@[k]@ == encrypt(bb[k], *key, m),
            alphabet_digits(blocks_view(out@)),
        decreases blocks.len() - i,
    {
        let b = &blocks[i];
        assert(b@ == bb[i as int]);
        proof {
            let j = 2 * i as int;
            assert(blocks_view(blocks@).len() == blocks@.len());
            assert(j + 1 < text@.len());
            assert('\0' <= text@[j] <= '\u{7f}' && '\0' <= text@[j + 1] <= '\u{7f}');
            let (x, y) = (b@[0] as int, b@[1] as int);
            assert(text@[j] as u8 == bytes[j] && text@[j + 1] as u8 == bytes[j + 1]);
            assert(bytes[j] <= 127 && bytes[j + 1] <= 127);
            assert(-65 <= x <= 62 && -65 <= y <= 62);
            lemma_product_bounds(x, key.a as int, 65, 26);
            lemma_product_bounds(y, key.c as int, 65, 26);
            lemma_product_bounds(x, key.b as int, 65, 26);
            lemma_product_bounds(y, key.d as int, 65, 26);
            lemma_normalize_canonical(x * key.a + y * key.c, m);
            lemma_normalize_canonical(x * key.b + y * key.d, m);
        }
        let e = crypt(b, key, key.modulo);
        out.push(e);
        assert(blocks_view(out@)[i as int] == e@);
        i = i + 1;
    }
    assert(blocks_view(out@) =~= bb.map_values(|v: Seq<i32>| encrypt(v, *key, m)));
    string_view(out.as_slice())
}

impl B2 {
    /// Searches for the key that maps the plaintext hypotheses into the first `top` ranked
    /// digrams, inverts it, and decrypts the ciphertext with the inverse.
    pub fn attack(
        &self,
        ranked: &Vec<(String, i32)>,
        hypothesis: &[Vec<i32>],
        top: usize,
        modulo: i32,
    ) -> (r: Result<(HillCipherKeyMatrix, HillCipherKeyMatrix, String), AttackError>)
        requires
            0 < modulo <= 26,
            forall|i: int| 0 <= i < hypothesis@.len() ==> is_digit_block(#[trigger] hypothesis@[i]@, modulo as int),
            is_ascii_chars(self.ciphertext@),
            self.ciphertext@.len() % 2 == 0,
        ensures
            r matches Err(AttackError::KeyNotFound) <==> !some_key_matches(
                blocks_view(hypothesis@),
                ranked_digits(ranked@, top as int),
                modulo as int,
            ),
            r matches Err(AttackError::NoInverse(k)) ==> {
                &&& is_first_match(blocks_view(hypothesis@), ranked_digits(ranked@, top as int), modulo as int, k)
                &&& !has_inverse(determinant_of(k.entries(), modulo as int), modulo as int)
            },
            r matches Ok((enc, dec, t)) ==> {
                &&& is_first_match(blocks_view(hypothesis@), ranked_digits(ranked@, top as int), modulo as int, enc)
                &&& has_inverse(determinant_of(enc.entries(), modulo as int), modulo as int)
                &&& dec == inverse_of(enc)
                &&& t@ == decryption_of(self.ciphertext@, dec)
            },
    {
        let cts = ranked_blocks(ranked, top);
        let enc = match self.solve(hypothesis, cts.as_slice(), modulo) {
            Some(k) => k,
            None => return Err(AttackError::KeyNotFound),
        };
        let dec = match enc.inversed() {
            Ok(k) => k,
            Err(_) => return Err(AttackError::NoInverse(enc)),
        };
        proof {
            lemma_inversed_is_inverse_of(enc, dec);
            let m = modulo as int;
            let s = crate::matrix::least_inverse(determinant_of(enc.entries(), m), m);
            lemma_normalize_canonical(enc.d * s, m);
            lemma_normalize_canonical(-enc.b * s, m);
            lemma_normalize_canonical(-enc.c * s, m);
            lemma_normalize_canonical(enc.a * s, m);
        }
        let text = decrypt_text(&self.ciphertext, &dec);
        Ok((enc, dec, text))
    }
}

} // verus!

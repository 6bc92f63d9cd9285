use hill_cipher::attack::B2;
use hill_cipher::cipher::crypt;
use hill_cipher::codec::{block_view, string_view};
use hill_cipher::key::HillCipherKeyMatrix;
use hill_cipher::matrix::{Matrix, MatrixError, MatrixRead};
use hill_cipher::modular::Mod;
use hill_cipher::recovery::{AttackError, decrypt_text, ranked_blocks};

fn entries(k: &HillCipherKeyMatrix) -> (i32, i32, i32, i32, i32) {
    (k.a, k.b, k.c, k.d, k.modulo)
}

#[test]
fn normalize_negative_and_large_values() {
    assert_eq!((-1i32).mod_by(26), 25);
    assert_eq!((-26i32).mod_by(26), 0);
    assert_eq!((-27i32).mod_by(26), 25);
    assert_eq!(27i32.mod_by(26), 1);
    assert_eq!(5i32.mod_by(26), 5);
    assert_eq!(i32::MIN.mod_by(26), ((i32::MIN as i64).rem_euclid(26)) as i32);
    assert_eq!((-7i64).mod_by(5), 3);
}

#[test]
fn normalize_stays_in_range_and_congruent() {
    for m in 1..30i32 {
        for x in -100..100i32 {
            let r = x.mod_by(m);
            assert!(0 <= r && r < m);
            assert_eq!((r - x) % m, 0);
        }
    }
}

#[test]
fn determinant_and_its_inverse() {
    let k = HillCipherKeyMatrix::from(3, 3, 2, 5, 26);
    assert_eq!(k.det(), Ok(9));
    assert_eq!(k.det_inverse(), Ok(3));
    let neg = HillCipherKeyMatrix::from(0, 1, 1, 0, 26);
    assert_eq!(neg.det(), Ok(25));
    assert_eq!(neg.det_inverse(), Ok(25));
}

#[test]
fn no_inverse_when_determinant_shares_a_factor() {
    let k = HillCipherKeyMatrix::from(2, 0, 0, 2, 26);
    assert_eq!(k.det(), Ok(4));
    assert_eq!(k.det_inverse(), Err(MatrixError::NoInverse));
    assert!(matches!(k.inversed(), Err(MatrixError::NoInverse)));
    let one = HillCipherKeyMatrix::from(1, 0, 0, 1, 1);
    assert_eq!(one.det_inverse(), Err(MatrixError::NoInverse));
}

#[test]
fn inverse_of_key() {
    let k = HillCipherKeyMatrix::from(3, 3, 2, 5, 26);
    let inv = k.inversed().unwrap();
    assert_eq!(entries(&inv), (15, 17, 20, 9, 26));
}

#[test]
fn inverse_of_inverse_restores_key() {
    let k = HillCipherKeyMatrix::from(3, 3, 2, 5, 26);
    let back = k.inversed().unwrap().inversed().unwrap();
    assert_eq!(entries(&back), (3, 3, 2, 5, 26));
    let unreduced = HillCipherKeyMatrix::from(29, -23, 28, 31, 26);
    let back = unreduced.inversed().unwrap().inversed().unwrap();
    assert_eq!(entries(&back), (3, 3, 2, 5, 26));
}

#[test]
fn encrypt_block() {
    let k = HillCipherKeyMatrix::from(3, 3, 2, 5, 26);
    assert_eq!(crypt(&vec![7, 4], &k, 26), vec![3, 15]);
}

#[test]
fn decrypt_inverts_encrypt() {
    let k = HillCipherKeyMatrix::from(3, 3, 2, 5, 26);
    let inv = k.inversed().unwrap();
    for x in 0..26 {
        for y in 0..26 {
            let v = vec![x, y];
            let e = crypt(&v, &k, 26);
            assert_eq!(crypt(&e, &inv, 26), v);
        }
    }
    let e = crypt(&vec![33, -1], &k, 26);
    assert_eq!(crypt(&e, &inv, 26), vec![7, 25]);
}

#[test]
fn vector_times_key_unreduced() {
    let k = HillCipherKeyMatrix::from(3, 3, 2, 5, 26);
    let mut v: Vec<i32> = vec![7, 4];
    assert_eq!(v.mul(&k), Ok(()));
    assert_eq!(v, vec![29, 41]);
    v.mod_by(26);
    assert_eq!(v, vec![3, 15]);
}

#[test]
fn vector_times_vector() {
    let mut v: Vec<i32> = vec![2];
    assert_eq!(v.mul(&vec![3, 4, 5]), Ok(()));
    assert_eq!(v, vec![6, 8, 10]);
}

#[test]
fn dimension_mismatch() {
    let k = HillCipherKeyMatrix::from(3, 3, 2, 5, 26);
    let mut v: Vec<i32> = vec![1, 2, 3];
    assert_eq!(v.mul(&k), Err(MatrixError::DimensionMismatch));
    assert_eq!(v, vec![1, 2, 3]);
}

#[test]
fn key_is_never_multiplied() {
    let mut k = HillCipherKeyMatrix::from(3, 3, 2, 5, 26);
    let v: Vec<i32> = vec![1, 2];
    assert_eq!(k.mul(&v), Err(MatrixError::Unsupported));
    assert_eq!(entries(&k), (3, 3, 2, 5, 26));
}

#[test]
fn vector_has_no_determinant() {
    for len in 0..6usize {
        let v: Vec<i32> = vec![1; len];
        assert_eq!(v.det(), Err(MatrixError::Unsupported));
        assert_eq!(v.det_inverse(), Err(MatrixError::Unsupported));
        assert!(matches!(v.inversed(), Err(MatrixError::Unsupported)));
    }
}

#[test]
fn element_access() {
    let mut k = HillCipherKeyMatrix::from(1, 2, 3, 4, 26);
    assert_eq!(k.at(0, 0), Ok(1));
    assert_eq!(k.at(0, 1), Ok(2));
    assert_eq!(k.at(1, 0), Ok(3));
    assert_eq!(k.at(1, 1), Ok(4));
    assert_eq!(k.at(2, 0), Err(MatrixError::InvalidIndex));
    assert_eq!(k.set(1, 0, 9), Ok(()));
    assert_eq!(k.at(1, 0), Ok(9));
    assert_eq!(k.set(0, 2, 9), Err(MatrixError::InvalidIndex));
    let mut v: Vec<i32> = vec![5, 6];
    assert_eq!(v.at(0, 1), Ok(6));
    assert_eq!(v.at(1, 0), Err(MatrixError::InvalidIndex));
    assert_eq!(v.at(0, 2), Err(MatrixError::InvalidIndex));
    assert_eq!(v.set(0, 0, 7), Ok(()));
    assert_eq!(v, vec![7, 6]);
    assert_eq!(v.set(1, 0, 7), Err(MatrixError::InvalidIndex));
}

#[test]
fn dimensions() {
    let k = HillCipherKeyMatrix::from(1, 2, 3, 4, 26);
    assert_eq!((k.width(), k.height()), (2, 2));
    assert!(k.square());
    let v: Vec<i32> = vec![1, 2, 3];
    assert_eq!((v.width(), v.height()), (3, 1));
    assert!(!v.square());
    assert!(vec![1].square());
}

#[test]
fn key_reduction_and_update() {
    let mut k = HillCipherKeyMatrix::from(-1, 27, 52, 5, 26);
    k.mod_by(26);
    assert_eq!(entries(&k), (25, 1, 0, 5, 26));
    k.update(1, 2, 3, 4);
    assert_eq!(entries(&k), (1, 2, 3, 4, 26));
}

#[test]
fn digram_frequency_ranking() {
    let b2 = B2 { ciphertext: "ABABCD".to_string() };
    assert_eq!(b2.top_digrams(), vec![("AB".to_string(), 2), ("CD".to_string(), 1)]);
}

#[test]
fn digram_frequency_edge_cases() {
    let empty = B2 { ciphertext: String::new() };
    assert!(empty.top_digrams().is_empty());
    let b2 = B2 { ciphertext: "XYABABABXYQQ".to_string() };
    assert_eq!(
        b2.top_digrams(),
        vec![("AB".to_string(), 3), ("XY".to_string(), 2), ("QQ".to_string(), 1)]
    );
    let aligned = B2 { ciphertext: "BAAB".to_string() };
    assert_eq!(aligned.top_digrams(), vec![("BA".to_string(), 1), ("AB".to_string(), 1)]);
}

#[test]
fn block_codec() {
    assert_eq!(block_view("THHE".to_string()), vec![vec![19, 7], vec![7, 4]]);
    assert_eq!(string_view(&[vec![19, 7], vec![7, 4]]), "THHE");
    assert_eq!(string_view(&[vec![0, 25, 1]]), "AZB");
    assert!(block_view(String::new()).is_empty());
    assert_eq!(string_view(&[]), "");
}

#[test]
fn block_codec_round_trip() {
    for s in ["THHEINERAN", "AZ", "", "ZZYYXXAABB"] {
        assert_eq!(string_view(&block_view(s.to_string())), s);
    }
}

#[test]
fn solver_finds_consistent_key() {
    let key = HillCipherKeyMatrix::from(3, 3, 2, 5, 26);
    let plain = block_view("THHEINERAN".to_string());
    let cipher: Vec<Vec<i32>> = plain.iter().map(|b| crypt(b, &key, 26)).collect();
    let b2 = B2 { ciphertext: String::new() };
    let found = b2.solve(&plain, &cipher, 26).expect("a key exists");
    assert_eq!(found.modulo, 26);
    for b in &plain {
        assert!(cipher.contains(&crypt(b, &found, 26)));
    }
}

#[test]
fn solver_returns_first_key_in_order() {
    let b2 = B2 { ciphertext: String::new() };
    let plain = vec![vec![1, 0]];
    let cipher = vec![vec![0, 0]];
    let found = b2.solve(&plain, &cipher, 26).unwrap();
    assert_eq!(entries(&found), (0, 0, 0, 0, 26));
    let cipher = vec![vec![1, 2]];
    let found = b2.solve(&plain, &cipher, 26).unwrap();
    assert_eq!(entries(&found), (1, 2, 0, 0, 26));
}

#[test]
fn solver_reports_not_found() {
    let b2 = B2 { ciphertext: String::new() };
    assert!(b2.solve(&[vec![1, 0]], &[], 5).is_none());
    assert!(b2.solve(&[vec![1, 0], vec![0, 0]], &[vec![1, 1]], 7).is_none());
    assert!(b2.solve(&[vec![1, 0], vec![0, 1]], &[vec![1, 1]], 7).is_some());
    assert!(b2.solve(&[vec![0, 0]], &[vec![1, 1]], 4).is_none());
}

#[test]
fn raw_text_is_cleaned() {
    let b2 = B2::from_text("ab\ncD\nEf\n");
    assert_eq!(b2.ciphertext, "ABCDEF");
    assert_eq!(B2::from_text("\n\n").ciphertext, "");
}

#[test]
fn top_ranked_digrams_as_blocks() {
    let ranked = vec![("AB".to_string(), 3), ("ZC".to_string(), 2), ("QQ".to_string(), 1)];
    assert_eq!(ranked_blocks(&ranked, 2), vec![vec![0, 1], vec![25, 2]]);
    assert_eq!(ranked_blocks(&ranked, 10).len(), 3);
    assert!(ranked_blocks(&ranked, 0).is_empty());
}

#[test]
fn decrypt_whole_text() {
    let key = HillCipherKeyMatrix::from(3, 3, 2, 5, 26);
    assert_eq!(decrypt_text(&"HE".to_string(), &key), "DP");
    let inv = key.inversed().unwrap();
    assert_eq!(decrypt_text(&"DPDP".to_string(), &inv), "HEHE");
    assert_eq!(decrypt_text(&String::new(), &inv), "");
}

#[test]
fn attack_recovers_plaintext() {
    let key = HillCipherKeyMatrix::from(3, 3, 2, 5, 26);
    let plaintext = "THHEINERANTHHEAT";
    let blocks = block_view(plaintext.to_string());
    let enc: Vec<Vec<i32>> = blocks.iter().map(|b| crypt(b, &key, 26)).collect();
    let b2 = B2 { ciphertext: string_view(&enc) };
    let ranked = b2.top_digrams();
    let hypothesis = block_view("THHEINERAN".to_string());
    let (found, dec, text) = b2.attack(&ranked, &hypothesis, 10, 26).expect("attack succeeds");
    for b in &hypothesis {
        assert!(enc.contains(&crypt(b, &found, 26)));
    }
    let back = found.inversed().unwrap();
    assert_eq!(entries(&dec), entries(&back));
    assert_eq!(text, decrypt_text(&b2.ciphertext, &back));
}

#[test]
fn attack_errors() {
    let b2 = B2 { ciphertext: "ABCD".to_string() };
    let ranked = b2.top_digrams();
    let hypothesis = vec![vec![1, 0], vec![0, 0]];
    assert!(matches!(b2.attack(&ranked, &hypothesis, 10, 26), Err(AttackError::KeyNotFound)));
    // [1, 0] -> "AB" only with a = 0, b = 1; the first such key is [0 1; 0 0], singular.
    let ranked = vec![("AB".to_string(), 1)];
    match b2.attack(&ranked, &[vec![1, 0]], 10, 26) {
        Err(AttackError::NoInverse(k)) => assert_eq!(entries(&k), (0, 1, 0, 0, 26)),
        other => panic!("unexpected {:?}", other.map(|r| r.2)),
    }
}

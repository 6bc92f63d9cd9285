//! Known-ciphertext cryptanalysis of a 2×2 Hill cipher over a small alphabet.
pub mod modular;
pub mod matrix;
pub mod vector;
pub mod key;
pub mod cipher;
pub mod attack;
pub mod codec;
pub mod frequency;
pub mod text;
pub mod recovery;

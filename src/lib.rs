//! Lewi–Wu comparison-revealing encryption: ciphertexts that can be compared for equality or
//! order without being decrypted.
//!
//! A [`Cipher`] splits each plaintext into `N` blocks of width `W` and produces ciphertexts
//! with a deterministic left part and a randomised right part. Comparing the left part of one
//! ciphertext with the right part of another reveals, through the comparator of arity `M`, only
//! whether the plaintexts are equal ([`EQUALITY`]) or how they are ordered ([`ORDERING`]).

pub mod bitlist;
pub mod cipher;
pub mod ciphertext;
pub mod cmp;
pub mod encoding;
pub mod error;
pub mod hash;
pub mod kbkdf;
pub mod plaintext;
pub mod prf;
pub mod properties;
pub mod prp;
mod rng;

pub use bitlist::{ReadableBitList, WritableBitList};
pub use cipher::Cipher;
pub use ciphertext::{CipherText, Serializable as SerializableCipherText};
pub use cmp::{Comparator, EqualityCMP, OrderingCMP, EQUALITY, ORDERING};
pub use error::Error;
pub use plaintext::PlainText;

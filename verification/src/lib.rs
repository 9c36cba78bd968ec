//! A block cipher whose key schedule is derived from a labelled graph.
//!
//! The graph's edges are encoded as a polynomial over the ring of integers
//! modulo 512, and a plaintext is encrypted by rounds of masking, polynomial
//! division by that key and conditional reversal.

pub mod affine;
pub mod arith;
pub mod cipher;
pub mod division_laws;
pub mod encoding;
pub mod error;
pub mod graph;
pub mod polynomials;
pub mod product_laws;
pub mod ring;
pub mod round;

pub use crate::affine::{inv_substitute, substitute};
pub use crate::arith::{egcd, mod_inv};
pub use crate::cipher::{decrypt, decrypt_rounds, encrypt, encrypt_rounds, ROUNDS};
pub use crate::encoding::{hex2poly, poly2hex, poly2string, string2poly};
pub use crate::error::CipherError;
pub use crate::graph::{Graph, BASE_MODULUS};
pub use crate::polynomials::Polynomial;
pub use crate::ring::EXT_MODULUS;
pub use crate::round::{forward_round, get_round, get_round_inv, inverse_round};

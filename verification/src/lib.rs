//! A matrix-based text cipher.
//!
//! A message is encoded in four stages, each of which can be used alone:
//!
//! - [`correspondence`]: an alphabet gives each symbol a numeral, its
//!   position, and each numeral its symbol;
//! - [`numerals`]: a text becomes the sequence of the numerals of its
//!   characters, and a sequence of numerals becomes a text;
//! - [`shaper`]: the numerals are padded with zeros to whole rows, read as a
//!   matrix stored row after row, and a square matrix is transposed in place;
//! - [`transform`]: a key vector is multiplied into the message vector
//!   element by element, and each window of products is summed to one
//!   numeral.
//!
//! [`encodec`] runs the stages one after the other. Decoding multiplies a
//! second key vector into the encoded vector and converts the product to
//! text. No key is inverted here: the caller brings the decoding key, and
//! [`round_trip`] says for which messages and keys the text comes back.
//!
//! No function has a precondition. What cannot be done is reported as a
//! [`CipherError`], and what is done with a character or a numeral that the
//! alphabet does not know is the caller's choice of a [`SymbolPolicy`].

pub mod blocks;
pub mod correspondence;
pub mod encodec;
pub mod error;
pub mod grid;
pub mod numerals;
pub mod round_trip;
pub mod shaper;
pub mod transform;

pub use blocks::{encoding_test_mat, matrix_mul_base, splitter};
pub use correspondence::{gen_correspondence, CorrespondenceTable, DEFAULT_CORRESP};
pub use encodec::{decode, encode};
pub use error::CipherError;
pub use numerals::{message_mat_to_chars, message_numerals, SymbolPolicy};
pub use shaper::{message_vector, msg_vec_to_mat, transpose, DEF_DIM, MAT_ROWS};
pub use transform::matrix_mul;

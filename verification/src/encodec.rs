//! Encoding a message with a key vector, and decoding it with another.

use vstd::prelude::*;
use crate::correspondence::gen_correspondence;
use crate::error::{viewed, CipherError};
use crate::numerals::{
    message_mat_to_chars,
    message_numerals,
    numerals_outcome,
    text_outcome,
    SymbolPolicy,
};
use crate::shaper::{message_vector, padded, transpose, transpose_outcome, MAT_ROWS};
use crate::transform::{matrix_mul, multiply_outcome};

verus! {

/// What encoding `text` with `key` comes to.
///
/// The text is converted to numerals over `alphabet` under `policy`; the
/// numerals are padded to whole rows of [`MAT_ROWS`], read as a square matrix
/// of `cols` columns and transposed; the key is multiplied into the result in
/// windows of `cols` numerals. The first stage that refuses decides the
/// error.
pub open spec fn encode_outcome(
    text: Seq<char>,
    key: Seq<usize>,
    alphabet: Seq<char>,
    cols: nat,
    policy: SymbolPolicy,
) -> Result<Seq<usize>, CipherError> {
    if alphabet.len() == 0 {
        Err(CipherError::EmptyAlphabetError)
    } else {
        match numerals_outcome(text, alphabet, policy) {
            Err(e) => Err(e),
            Ok(numerals) => match transpose_outcome(padded(numerals, MAT_ROWS as nat), cols) {
                Err(e) => Err(e),
                Ok(matrix) => multiply_outcome(key, matrix, cols),
            },
        }
    }
}

/// What decoding `encoded` with `key` comes to.
///
/// The key is multiplied into the encoded vector in windows of `cols`
/// numerals, and the product is converted to text over `alphabet` under
/// `policy`. The first stage that refuses decides the error.
pub open spec fn decode_outcome(
    encoded: Seq<usize>,
    key: Seq<usize>,
    alphabet: Seq<char>,
    cols: nat,
    policy: SymbolPolicy,
) -> Result<Seq<char>, CipherError> {
    if alphabet.len() == 0 {
        Err(CipherError::EmptyAlphabetError)
    } else {
        match multiply_outcome(key, encoded, cols) {
            Err(e) => Err(e),
            Ok(product) => text_outcome(product, alphabet, policy),
        }
    }
}

/// Encodes the message with the key vector `encoding_mat` over the alphabet
/// `correspondence`: see [`encode_outcome`].
pub fn encode(
    msg: String,
    encoding_mat: Vec<usize>,
    correspondence: &[char],
    no_of_cols: usize,
    policy: SymbolPolicy,
) -> (res: Result<Vec<usize>, CipherError>)
    ensures
        viewed(res) == encode_outcome(
            msg@,
            encoding_mat@,
            correspondence@,
            no_of_cols as nat,
            policy,
        ),
{
    let corresp_mat = match gen_correspondence(correspondence) {
        Ok(table) => table,
        Err(e) => {
            return Err(e);
        },
    };
    let mut msg_numeric = match message_numerals(msg, &corresp_mat, policy) {
        Ok(numerals) => numerals,
        Err(e) => {
            return Err(e);
        },
    };
    let mut msg_vec = match message_vector(&mut msg_numeric, MAT_ROWS as usize) {
        Ok(padded) => padded,
        Err(e) => {
            return Err(e);
        },
    };
    let msg_mat = match transpose(&mut msg_vec, no_of_cols) {
        Ok(matrix) => matrix,
        Err(e) => {
            return Err(e);
        },
    };
    matrix_mul(encoding_mat, msg_mat, no_of_cols)
}

/// Decodes the encoded vector with the key vector `decoding_mat` over the
/// alphabet `correspondence`: see [`decode_outcome`].
///
/// The text is the message only where `decoding_mat` undoes what the
/// encoding key did; nothing here can tell whether it does.
pub fn decode(
    encoded_msg_matrix: Vec<usize>,
    decoding_mat: Vec<usize>,
    correspondence: &[char],
    no_of_cols: usize,
    policy: SymbolPolicy,
) -> (res: Result<String, CipherError>)
    ensures
        viewed(res) == decode_outcome(
            encoded_msg_matrix@,
            decoding_mat@,
            correspondence@,
            no_of_cols as nat,
            policy,
        ),
{
    let corresp_mat = match gen_correspondence(correspondence) {
        Ok(table) => table,
        Err(e) => {
            return Err(e);
        },
    };
    let mat_mul = match matrix_mul(decoding_mat, encoded_msg_matrix, no_of_cols) {
        Ok(product) => product,
        Err(e) => {
            return Err(e);
        },
    };
    message_mat_to_chars(&mat_mul, corresp_mat, policy)
}

} // verus!

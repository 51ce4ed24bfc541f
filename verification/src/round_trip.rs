//! When decoding gives a message back.
//!
//! The transform sums each window to one numeral, so an encoded vector is
//! shorter than the message it was made from, and only some messages can
//! come back. The laws here say which.

use vstd::prelude::*;
use vstd::arithmetic::div_mod::lemma_fundamental_div_mod_converse;
use crate::encodec::{decode_outcome, encode_outcome};
use crate::error::CipherError;
use crate::grid::{cell, lemma_cell_joins};
use crate::numerals::{
    all_in_range,
    all_known,
    lemma_known_without_last,
    lemma_numerals_round_trip,
    lemma_text_round_trip,
    numerals_of,
    symbols_of,
    SymbolPolicy,
};
use crate::shaper::{
    lemma_padded_without_trailing,
    lemma_zeros_without_trailing,
    padded,
    transpose_outcome,
    transposed,
    without_trailing,
    MAT_ROWS,
};
use crate::transform::{
    lemma_products_sum_without_zeros,
    multiply_outcome,
    products_sum,
    window_dot,
};

verus! {

/// Whether `inverse_key`, multiplied into `encoded` in windows of `cols`
/// numerals, gives back `numerals` apart from zeros at the end.
pub open spec fn undoes(
    inverse_key: Seq<usize>,
    cols: nat,
    encoded: Seq<usize>,
    numerals: Seq<usize>,
) -> bool {
    match multiply_outcome(inverse_key, encoded, cols) {
        Ok(product) => without_trailing(product, 0usize) == without_trailing(numerals, 0usize),
        Err(_) => false,
    }
}

/// Numerals that agree, apart from zeros at the end, with the numerals of a
/// text over the alphabet all have a symbol, and their symbols agree with
/// the text apart from the symbol of zero at the end.
proof fn lemma_symbols_without_trailing(product: Seq<usize>, text: Seq<char>, alphabet: Seq<char>)
    requires
        0 < alphabet.len() <= usize::MAX,
        all_known(text, alphabet),
        without_trailing(product, 0usize) == without_trailing(numerals_of(text, alphabet), 0usize),
    ensures
        all_in_range(product, alphabet),
        without_trailing(symbols_of(product, alphabet), alphabet[0]) == without_trailing(
            text,
            alphabet[0],
        ),
    decreases product.len() + text.len(),
{
    if product.len() > 0 && product.last() == 0 {
        let shorter = product.drop_last();
        lemma_symbols_without_trailing(shorter, text, alphabet);
        assert(symbols_of(product, alphabet).drop_last() =~= symbols_of(shorter, alphabet));
        assert(all_in_range(product, alphabet)) by {
            assert forall|i: int| 0 <= i < product.len() implies #[trigger] product[i]
                < alphabet.len() by {
                if i < shorter.len() {
                    assert(shorter[i] == product[i]);
                }
            }
        }
    } else if text.len() > 0 && text.last() == alphabet[0] {
        let rest = text.drop_last();
        lemma_known_without_last(text, alphabet);
        alphabet.index_of_first_ensures(alphabet[0]);
        assert((numerals_of(rest, alphabet) + seq![0usize]).drop_last() =~= numerals_of(
            rest,
            alphabet,
        ));
        lemma_symbols_without_trailing(product, rest, alphabet);
    } else {
        lemma_text_round_trip(text, alphabet, SymbolPolicy::Skip, SymbolPolicy::Skip);
    }
}

/// Decoding gives the message back, apart from symbols of padding at its
/// end, wherever the decoding key undoes the encoding key on the message.
///
/// For a text made of symbols of the alphabet alone that can be encoded, and
/// a decoding key that takes the encoded vector back to the numerals of the
/// text apart from zeros at the end, decoding is not refused under either
/// policy, and the decoded text without the symbol of zero at its end is the
/// text without that symbol at its end.
pub proof fn lemma_decode_inverts_encode(
    text: Seq<char>,
    key: Seq<usize>,
    inverse_key: Seq<usize>,
    alphabet: Seq<char>,
    cols: nat,
    inverse_cols: nat,
    policy: SymbolPolicy,
    inverse_policy: SymbolPolicy,
)
    requires
        alphabet.len() <= usize::MAX,
        all_known(text, alphabet),
        match encode_outcome(text, key, alphabet, cols, policy) {
            Ok(encoded) => undoes(inverse_key, inverse_cols, encoded, numerals_of(text, alphabet)),
            Err(_) => false,
        },
    ensures
        match encode_outcome(text, key, alphabet, cols, policy) {
            Ok(encoded) => match decode_outcome(
                encoded,
                inverse_key,
                alphabet,
                inverse_cols,
                inverse_policy,
            ) {
                Ok(decoded) => without_trailing(decoded, alphabet[0]) == without_trailing(
                    text,
                    alphabet[0],
                ),
                Err(_) => false,
            },
            Err(_) => false,
        },
{
    let encoded = encode_outcome(text, key, alphabet, cols, policy).unwrap();
    let product = multiply_outcome(inverse_key, encoded, inverse_cols).unwrap();
    lemma_symbols_without_trailing(product, text, alphabet);
}

/// The numerals of a text without the symbol of zero at its end are the
/// numerals of the text without the zeros at their end.
proof fn lemma_numerals_without_trailing(text: Seq<char>, alphabet: Seq<char>)
    requires
        0 < alphabet.len() <= usize::MAX,
        all_known(text, alphabet),
    ensures
        all_known(without_trailing(text, alphabet[0]), alphabet),
        numerals_of(without_trailing(text, alphabet[0]), alphabet) == without_trailing(
            numerals_of(text, alphabet),
            0usize,
        ),
    decreases text.len(),
{
    if text.len() > 0 {
        let rest = text.drop_last();
        let last = text.last();
        lemma_known_without_last(text, alphabet);
        alphabet.index_of_first_ensures(last);
        let numeral = alphabet.index_of_first(last).unwrap() as usize;
        let numerals = numerals_of(rest, alphabet) + seq![numeral];
        assert(numerals.drop_last() =~= numerals_of(rest, alphabet));
        if last == alphabet[0] {
            lemma_numerals_without_trailing(rest, alphabet);
        }
    }
}

/// With a table that is a bijection, and no numeral left out, decoding gives
/// the message back only where the decoding key undoes the encoding key.
///
/// For a text made of symbols of an alphabet without a repeated symbol: if
/// decoding the encoded text is not refused where unknown numerals are, and
/// the decoded text is the text apart from the symbol of zero at the end,
/// then the decoding key has taken the encoded vector back to the numerals
/// of the text apart from zeros at the end.
pub proof fn lemma_decode_inverts_encode_only_if_undone(
    text: Seq<char>,
    key: Seq<usize>,
    inverse_key: Seq<usize>,
    alphabet: Seq<char>,
    cols: nat,
    inverse_cols: nat,
    policy: SymbolPolicy,
)
    requires
        alphabet.len() <= usize::MAX,
        alphabet.no_duplicates(),
        all_known(text, alphabet),
        match encode_outcome(text, key, alphabet, cols, policy) {
            Ok(encoded) => match decode_outcome(
                encoded,
                inverse_key,
                alphabet,
                inverse_cols,
                SymbolPolicy::Fail,
            ) {
                Ok(decoded) => without_trailing(decoded, alphabet[0]) == without_trailing(
                    text,
                    alphabet[0],
                ),
                Err(_) => false,
            },
            Err(_) => false,
        },
    ensures
        match encode_outcome(text, key, alphabet, cols, policy) {
            Ok(encoded) => undoes(inverse_key, inverse_cols, encoded, numerals_of(text, alphabet)),
            Err(_) => false,
        },
{
    let encoded = encode_outcome(text, key, alphabet, cols, policy).unwrap();
    let product = multiply_outcome(inverse_key, encoded, inverse_cols).unwrap();
    let decoded = symbols_of(product, alphabet);
    lemma_numerals_round_trip(product, alphabet);
    lemma_numerals_without_trailing(decoded, alphabet);
    lemma_numerals_without_trailing(text, alphabet);
}

/// Whether the flattened matrix `m` of `n` columns holds zeros everywhere
/// below its first row.
pub open spec fn fills_first_row(m: Seq<usize>, n: nat) -> bool {
    forall|k: int| n <= k < m.len() ==> #[trigger] m[k] == 0
}

/// Whether the flattened matrix `key` of `n` columns holds a one at the head
/// of each of its `n` rows.
pub open spec fn first_column_of_ones(key: Seq<usize>, n: nat) -> bool {
    key.len() == n * n && forall|w: int| 0 <= w < n ==> #[trigger] key[cell(w, 0, n as int)] == 1
}

/// Whether `key` holds `n` ones and nothing else.
pub open spec fn all_ones(key: Seq<usize>, n: nat) -> bool {
    key.len() == n && forall|j: int| 0 <= j < n ==> #[trigger] key[j] == 1
}

/// In the transpose of a matrix that has zeros below its first row, each
/// window begins with a numeral of that row and goes on with zeros, so a
/// key with a one at the head of each window keeps that numeral.
proof fn lemma_window_keeps_first_row(m: Seq<usize>, key: Seq<usize>, n: nat, w: int)
    requires
        m.len() == n * n,
        fills_first_row(m, n),
        first_column_of_ones(key, n),
        0 <= w < n,
    ensures
        window_dot(key, transposed(m, n), n, w) == m[w],
{
    let ni = n as int;
    let matrix = transposed(m, n);
    let head = cell(w, 0, ni);
    lemma_cell_joins(w, 0, ni);
    lemma_cell_joins(0, w, ni);
    assert forall|i: int| head + 1 <= i < head + n implies #[trigger] matrix[i] == 0 by {
        let s = i - head;
        lemma_cell_joins(w, s, ni);
        lemma_cell_joins(s, w, ni);
        assert(cell(s, w, ni) >= n) by (nonlinear_arith)
            requires
                s >= 1,
                w >= 0,
                ni == n,
        ;
    }
    lemma_products_sum_without_zeros(key, matrix, head, head + 1, head + n);
    assert(products_sum(key, matrix, head, head) == 0);
}

/// A key whose first column holds ones keeps the first row of the message,
/// and a decoding key of ones, multiplied in windows of one numeral, undoes
/// it.
proof fn lemma_first_row_is_undone(
    numerals: Seq<usize>,
    key: Seq<usize>,
    inverse_key: Seq<usize>,
    n: nat,
)
    requires
        n > 0,
        padded(numerals, MAT_ROWS as nat).len() == n * n,
        fills_first_row(padded(numerals, MAT_ROWS as nat), n),
        first_column_of_ones(key, n),
        all_ones(inverse_key, n),
    ensures
        transpose_outcome(padded(numerals, MAT_ROWS as nat), n) matches Ok(matrix)
            && multiply_outcome(key, matrix, n) == Ok::<Seq<usize>, CipherError>(
            padded(numerals, MAT_ROWS as nat).take(n as int),
        ),
        undoes(inverse_key, 1, padded(numerals, MAT_ROWS as nat).take(n as int), numerals),
{
    let m = padded(numerals, MAT_ROWS as nat);
    let ni = n as int;
    let matrix = transposed(m, n);
    let row = m.take(ni);
    lemma_fundamental_div_mod_converse(m.len() as int, ni, ni, 0);
    assert(n <= m.len()) by (nonlinear_arith)
        requires
            n > 0,
            m.len() == n * n,
    ;
    assert forall|w: int| 0 <= w < n implies #[trigger] window_dot(key, matrix, n, w) == row[w] by {
        lemma_window_keeps_first_row(m, key, n, w);
    }
    assert(Seq::new(matrix.len() / n, |w: int| window_dot(key, matrix, n, w) as usize) =~= row);
    assert forall|j: int| 0 <= j < n implies #[trigger] window_dot(inverse_key, row, 1, j)
        == row[j] by {
        assert(products_sum(inverse_key, row, j, j) == 0);
    }
    assert(Seq::new(row.len() / 1, |j: int| window_dot(inverse_key, row, 1, j) as usize) =~= row);
    assert(row + Seq::new((m.len() - n) as nat, |i: int| 0usize) =~= m);
    lemma_zeros_without_trailing(row, (m.len() - n) as nat);
    lemma_padded_without_trailing(numerals, MAT_ROWS as nat);
}

/// A message that fits the first row of its matrix comes back from a key
/// whose first column holds ones and a decoding key of ones.
///
/// The transposition turns the first row of the message matrix into its
/// first column, which is where each window begins. So for a text over the
/// alphabet whose padded numerals have zeros below the first row, the
/// encoded vector is that first row, whatever else the key holds; the
/// decoding key, multiplied in windows of one numeral, gives it back; and
/// the decoded text is the text apart from the symbol of zero at the end.
pub proof fn lemma_first_row_round_trip(
    text: Seq<char>,
    key: Seq<usize>,
    inverse_key: Seq<usize>,
    alphabet: Seq<char>,
    n: nat,
    policy: SymbolPolicy,
    inverse_policy: SymbolPolicy,
)
    requires
        0 < alphabet.len() <= usize::MAX,
        all_known(text, alphabet),
        n > 0,
        padded(numerals_of(text, alphabet), MAT_ROWS as nat).len() == n * n,
        fills_first_row(padded(numerals_of(text, alphabet), MAT_ROWS as nat), n),
        first_column_of_ones(key, n),
        all_ones(inverse_key, n),
    ensures
        encode_outcome(text, key, alphabet, n, policy) == Ok::<Seq<usize>, CipherError>(
            padded(numerals_of(text, alphabet), MAT_ROWS as nat).take(n as int),
        ),
        match decode_outcome(
            padded(numerals_of(text, alphabet), MAT_ROWS as nat).take(n as int),
            inverse_key,
            alphabet,
            1,
            inverse_policy,
        ) {
            Ok(decoded) => without_trailing(decoded, alphabet[0]) == without_trailing(
                text,
                alphabet[0],
            ),
            Err(_) => false,
        },
{
    lemma_first_row_is_undone(numerals_of(text, alphabet), key, inverse_key, n);
    lemma_decode_inverts_encode(text, key, inverse_key, alphabet, n, 1, policy, inverse_policy);
}

} // verus!

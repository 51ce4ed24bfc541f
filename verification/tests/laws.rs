//! The laws of the cipher on concrete values, its edge cases and its errors.

use encode_decode::{
    decode, encode, gen_correspondence, matrix_mul, matrix_mul_base, message_mat_to_chars,
    message_numerals, message_vector, msg_vec_to_mat, splitter, transpose, CipherError,
    SymbolPolicy, DEFAULT_CORRESP, DEF_DIM, MAT_ROWS,
};

#[test]
fn default_alphabet_has_77_distinct_symbols() {
    assert_eq!(DEFAULT_CORRESP.len(), 77);
    for i in 0..77 {
        for j in 0..77 {
            if i != j {
                assert_ne!(DEFAULT_CORRESP[i], DEFAULT_CORRESP[j]);
            }
        }
    }
    assert_eq!(DEFAULT_CORRESP[0], ' ');
    assert_eq!(DEFAULT_CORRESP[62], '0');
    assert_eq!(DEFAULT_CORRESP[76], '.');
}

#[test]
fn correspondence_is_a_bijection_on_the_default_alphabet() {
    let table = gen_correspondence(&DEFAULT_CORRESP).unwrap();
    for i in 0..77 {
        let symbol = table.symbol_at(i).unwrap();
        assert_eq!(symbol, DEFAULT_CORRESP[i]);
        assert_eq!(table.index_of(symbol), Ok(i));
    }
    for symbol in DEFAULT_CORRESP {
        let numeral = table.index_of(symbol).unwrap();
        assert_eq!(table.symbol_at(numeral), Ok(symbol));
    }
}

#[test]
fn lookups_outside_the_table_are_reported() {
    let table = gen_correspondence(&DEFAULT_CORRESP).unwrap();
    assert_eq!(table.index_of('!'), Err(CipherError::UnknownSymbolError));
    assert_eq!(table.index_of('\n'), Err(CipherError::UnknownSymbolError));
    assert_eq!(table.symbol_at(77), Err(CipherError::UnknownSymbolError));
    assert_eq!(table.symbol_at(usize::MAX), Err(CipherError::UnknownSymbolError));
    assert_eq!(table.get(&76), Some(&'.'));
    assert_eq!(table.get(&77), None);
}

#[test]
fn empty_alphabet_is_refused() {
    let none: [char; 0] = [];
    assert!(matches!(gen_correspondence(&none), Err(CipherError::EmptyAlphabetError)));
    assert_eq!(
        encode("a".to_string(), vec![1], &none, 1, SymbolPolicy::Skip),
        Err(CipherError::EmptyAlphabetError)
    );
    assert_eq!(
        decode(vec![1], vec![1], &none, 1, SymbolPolicy::Skip),
        Err(CipherError::EmptyAlphabetError)
    );
}

#[test]
fn repeated_symbol_takes_its_first_position() {
    let table = gen_correspondence(&['x', 'y', 'x', 'z']).unwrap();
    assert_eq!(table.len(), 4);
    assert_eq!(table.index_of('x'), Ok(0));
    assert_eq!(table.index_of('z'), Ok(3));
    assert_eq!(table.symbol_at(2), Ok('x'));
    let numerals = message_numerals("zxy".to_string(), &table, SymbolPolicy::Fail).unwrap();
    assert_eq!(numerals, vec![3, 0, 1]);
}

#[test]
fn bijection_is_told_from_repetition() {
    assert!(gen_correspondence(&DEFAULT_CORRESP).unwrap().is_bijection());
    assert!(gen_correspondence(&['q']).unwrap().is_bijection());
    assert!(!gen_correspondence(&['x', 'y', 'x', 'z']).unwrap().is_bijection());
    assert!(!gen_correspondence(&['x', 'y', 'z', 'z']).unwrap().is_bijection());
}

#[test]
fn default_policy_skips() {
    assert_eq!(SymbolPolicy::default(), SymbolPolicy::Skip);
}

#[test]
fn unknown_characters_are_skipped_or_refused() {
    let table = gen_correspondence(&DEFAULT_CORRESP).unwrap();
    let skipped = message_numerals("a!b\u{e9}c".to_string(), &table, SymbolPolicy::Skip);
    assert_eq!(skipped, Ok(vec![1, 2, 3]));
    let refused = message_numerals("a!b".to_string(), &table, SymbolPolicy::Fail);
    assert_eq!(refused, Err(CipherError::UnknownSymbolError));
    let known = message_numerals("a b".to_string(), &table, SymbolPolicy::Fail);
    assert_eq!(known, Ok(vec![1, 0, 2]));
    let empty = message_numerals(String::new(), &table, SymbolPolicy::Fail);
    assert_eq!(empty, Ok(vec![]));
}

#[test]
fn unknown_numerals_are_skipped_or_refused() {
    let skipped = message_mat_to_chars(
        &vec![1, 77, 2, 1000, 76],
        gen_correspondence(&DEFAULT_CORRESP).unwrap(),
        SymbolPolicy::Skip,
    );
    assert_eq!(skipped, Ok("ab.".to_string()));
    let refused = message_mat_to_chars(
        &vec![1, 77, 2],
        gen_correspondence(&DEFAULT_CORRESP).unwrap(),
        SymbolPolicy::Fail,
    );
    assert_eq!(refused, Err(CipherError::UnknownSymbolError));
    let known = message_mat_to_chars(
        &vec![46, 15, 4, 1, 25],
        gen_correspondence(&DEFAULT_CORRESP).unwrap(),
        SymbolPolicy::Fail,
    );
    assert_eq!(known, Ok("Today".to_string()));
    let empty = message_mat_to_chars(
        &vec![],
        gen_correspondence(&DEFAULT_CORRESP).unwrap(),
        SymbolPolicy::Fail,
    );
    assert_eq!(empty, Ok(String::new()));
}

#[test]
fn text_comes_back_from_its_numerals() {
    let text = "Is it (really) so? Yes: \"it is\"; 1-2_3 [x] {y}, 0.";
    let table = gen_correspondence(&DEFAULT_CORRESP).unwrap();
    let numerals = message_numerals(text.to_string(), &table, SymbolPolicy::Fail).unwrap();
    assert_eq!(numerals.len(), text.chars().count());
    let back = message_mat_to_chars(&numerals, table.clone(), SymbolPolicy::Fail).unwrap();
    assert_eq!(back, text);
    let again = message_mat_to_chars(&numerals, table, SymbolPolicy::Skip).unwrap();
    assert_eq!(again, text);
}

#[test]
fn numerals_come_back_from_their_text() {
    let numerals: Vec<usize> = (0..77).rev().chain(0..77).collect();
    let table = gen_correspondence(&DEFAULT_CORRESP).unwrap();
    let text = message_mat_to_chars(&numerals, table.clone(), SymbolPolicy::Fail).unwrap();
    assert_eq!(text.chars().count(), numerals.len());
    assert_eq!(message_numerals(text, &table, SymbolPolicy::Fail), Ok(numerals));
}

#[test]
fn numerals_of_a_repeated_symbol_do_not_come_back() {
    let table = gen_correspondence(&['x', 'y', 'x']).unwrap();
    let text = message_mat_to_chars(&vec![2, 1], table.clone(), SymbolPolicy::Fail).unwrap();
    assert_eq!(text, "xy");
    assert_eq!(message_numerals(text, &table, SymbolPolicy::Fail), Ok(vec![0, 1]));
}

#[test]
fn a_copy_of_a_table_holds_the_same_alphabet() {
    let table = gen_correspondence(&['q', 'r', 's']).unwrap();
    let copy = table.clone();
    assert_eq!(copy.len(), 3);
    for i in 0..4 {
        assert_eq!(copy.get(&i), table.get(&i));
    }
    assert_eq!(copy.index_of('s'), Ok(2));
}

#[test]
fn padding_fills_whole_rows_and_adds_less_than_a_row() {
    assert_eq!(MAT_ROWS, 4);
    assert_eq!(DEF_DIM, 4);
    for len in 0..20usize {
        let source: Vec<usize> = (1..=len).collect();
        let mut numerals = source.clone();
        let padded = message_vector(&mut numerals, 4).unwrap();
        assert_eq!(padded, numerals);
        assert_eq!(padded.len() % 4, 0);
        assert!(padded.len() - len < 4);
        assert_eq!(&padded[..len], &source[..]);
        assert!(padded[len..].iter().all(|n| *n == 0));
    }
}

#[test]
fn padding_leaves_whole_rows_alone() {
    let mut numerals: Vec<usize> = vec![5, 6, 7, 8];
    assert_eq!(message_vector(&mut numerals, 4).unwrap(), vec![5, 6, 7, 8]);
    assert_eq!(numerals, vec![5, 6, 7, 8]);
    let mut none: Vec<usize> = vec![];
    assert_eq!(message_vector(&mut none, 4).unwrap(), vec![]);
    let mut one: Vec<usize> = vec![9];
    assert_eq!(message_vector(&mut one, 4).unwrap(), vec![9, 0, 0, 0]);
    let mut five: Vec<usize> = vec![1, 2, 3, 4, 5];
    assert_eq!(message_vector(&mut five, 3).unwrap(), vec![1, 2, 3, 4, 5, 0]);
    let mut any: Vec<usize> = vec![1, 2, 3];
    assert_eq!(message_vector(&mut any, 1).unwrap(), vec![1, 2, 3]);
}

#[test]
fn padding_refuses_rows_without_numerals() {
    let mut numerals: Vec<usize> = vec![1, 2, 3];
    assert_eq!(message_vector(&mut numerals, 0), Err(CipherError::DimensionError));
    assert_eq!(numerals, vec![1, 2, 3]);
}

#[test]
fn reshape_partitions_in_order() {
    let numerals: Vec<usize> = vec![1, 2, 3, 4, 5, 6];
    assert_eq!(msg_vec_to_mat(&numerals, 3), Ok(vec![vec![1, 2, 3], vec![4, 5, 6]]));
    assert_eq!(msg_vec_to_mat(&numerals, 2), Ok(vec![vec![1, 2], vec![3, 4], vec![5, 6]]));
    assert_eq!(msg_vec_to_mat(&numerals, 6), Ok(vec![vec![1, 2, 3, 4, 5, 6]]));
    assert_eq!(msg_vec_to_mat(&vec![], 5), Ok(vec![]));
}

#[test]
fn reshape_refuses_a_length_that_does_not_divide() {
    let numerals: Vec<usize> = vec![1, 2, 3, 4];
    assert_eq!(msg_vec_to_mat(&numerals, 3), Err(CipherError::DimensionError));
    assert_eq!(msg_vec_to_mat(&numerals, 0), Err(CipherError::DimensionError));
    assert_eq!(msg_vec_to_mat(&numerals, 8), Err(CipherError::DimensionError));
    assert_eq!(numerals, vec![1, 2, 3, 4]);
}

#[test]
fn transpose_of_three_by_three() {
    let mut matrix: Vec<usize> = vec![1, 2, 3, 4, 5, 6, 7, 8, 9];
    let transposed = transpose(&mut matrix, 3).unwrap();
    assert_eq!(transposed, vec![1, 4, 7, 2, 5, 8, 3, 6, 9]);
    assert_eq!(matrix, vec![1, 4, 7, 2, 5, 8, 3, 6, 9]);
}

#[test]
fn transpose_twice_is_identity() {
    for n in 0..7usize {
        let source: Vec<usize> = (0..n * n).map(|k| k * k + 1).collect();
        let mut matrix = source.clone();
        transpose(&mut matrix, n).unwrap();
        if n > 1 {
            assert_ne!(matrix, source);
        }
        transpose(&mut matrix, n).unwrap();
        assert_eq!(matrix, source);
    }
}

#[test]
fn transpose_refuses_what_is_not_square() {
    let mut wide: Vec<usize> = vec![1, 2, 3, 4, 5, 6];
    assert_eq!(transpose(&mut wide, 3), Err(CipherError::UnsupportedShapeError));
    assert_eq!(transpose(&mut wide, 2), Err(CipherError::UnsupportedShapeError));
    assert_eq!(transpose(&mut wide, 6), Err(CipherError::UnsupportedShapeError));
    assert_eq!(transpose(&mut wide, 4), Err(CipherError::DimensionError));
    assert_eq!(transpose(&mut wide, 0), Err(CipherError::DimensionError));
    assert_eq!(wide, vec![1, 2, 3, 4, 5, 6]);
    let mut none: Vec<usize> = vec![];
    assert_eq!(transpose(&mut none, 0), Ok(vec![]));
    assert_eq!(transpose(&mut none, 3), Err(CipherError::UnsupportedShapeError));
    let mut one: Vec<usize> = vec![7];
    assert_eq!(transpose(&mut one, 1), Ok(vec![7]));
}

#[test]
fn multiply_sums_the_products_of_each_window() {
    let key: Vec<usize> = vec![1, 2, 3, 4];
    let msg: Vec<usize> = vec![5, 6, 7, 8];
    assert_eq!(matrix_mul(key.clone(), msg.clone(), 2), Ok(vec![17, 53]));
    assert_eq!(matrix_mul(key.clone(), msg.clone(), 1), Ok(vec![5, 12, 21, 32]));
    assert_eq!(matrix_mul(key.clone(), msg.clone(), 4), Ok(vec![70]));
    assert_eq!(matrix_mul(vec![], vec![], 3), Ok(vec![]));
}

#[test]
fn multiply_refuses_lengths_that_do_not_fit() {
    let key: Vec<usize> = vec![1, 2, 3, 4];
    let msg: Vec<usize> = vec![5, 6, 7, 8];
    assert_eq!(matrix_mul(key.clone(), msg.clone(), 3), Err(CipherError::DimensionError));
    assert_eq!(matrix_mul(key.clone(), msg.clone(), 0), Err(CipherError::DimensionError));
    assert_eq!(matrix_mul(vec![1, 2, 3], msg.clone(), 2), Err(CipherError::DimensionError));
    assert_eq!(matrix_mul(vec![1, 2, 3, 4, 5, 6], msg, 2), Err(CipherError::DimensionError));
}

#[test]
fn multiply_refuses_a_sum_beyond_the_machine_word() {
    assert_eq!(matrix_mul(vec![usize::MAX], vec![2], 1), Err(CipherError::OverflowError));
    assert_eq!(
        matrix_mul(vec![1, 1, usize::MAX, 1], vec![1, 1, 1, 1], 2),
        Err(CipherError::OverflowError)
    );
    assert_eq!(
        matrix_mul(vec![usize::MAX, 0], vec![1, 5], 2),
        Ok(vec![usize::MAX])
    );
}

#[test]
fn toda_sums_to_66() {
    let table = gen_correspondence(&DEFAULT_CORRESP).unwrap();
    assert_eq!(table.get(&0), Some(&' '));
    assert_eq!(table.index_of('T'), Ok(46));
    assert_eq!(table.index_of('o'), Ok(15));
    assert_eq!(table.index_of('d'), Ok(4));
    assert_eq!(table.index_of('a'), Ok(1));
    let mut numerals = message_numerals("Toda".to_string(), &table, SymbolPolicy::Skip).unwrap();
    assert_eq!(numerals, vec![46, 15, 4, 1]);
    let padded = message_vector(&mut numerals, 8).unwrap();
    assert_eq!(padded, vec![46, 15, 4, 1, 0, 0, 0, 0]);
    let rows = msg_vec_to_mat(&padded, 8).unwrap();
    assert_eq!(rows, vec![vec![46, 15, 4, 1, 0, 0, 0, 0]]);
    let key: Vec<usize> = vec![1; 8];
    assert_eq!(matrix_mul(key, padded, 8), Ok(vec![66]));
}

#[test]
fn reshape_of_three_columns_over_four_is_refused() {
    let numerals: Vec<usize> = vec![46, 15, 4, 1];
    assert_eq!(msg_vec_to_mat(&numerals, 3), Err(CipherError::DimensionError));
}

#[test]
fn encode_reports_the_first_stage_that_refuses() {
    let ones: Vec<usize> = vec![1; 4];
    assert_eq!(
        encode("a!".to_string(), ones.clone(), &DEFAULT_CORRESP, 2, SymbolPolicy::Fail),
        Err(CipherError::UnknownSymbolError)
    );
    assert_eq!(
        encode("a!".to_string(), ones.clone(), &DEFAULT_CORRESP, 2, SymbolPolicy::Skip),
        Ok(vec![1, 0])
    );
    assert_eq!(
        encode("abcde".to_string(), ones.clone(), &DEFAULT_CORRESP, 2, SymbolPolicy::Skip),
        Err(CipherError::UnsupportedShapeError)
    );
    assert_eq!(
        encode("abcd".to_string(), ones.clone(), &DEFAULT_CORRESP, 3, SymbolPolicy::Skip),
        Err(CipherError::DimensionError)
    );
    assert_eq!(
        encode("abcd".to_string(), vec![1; 5], &DEFAULT_CORRESP, 2, SymbolPolicy::Skip),
        Err(CipherError::DimensionError)
    );
    assert_eq!(
        encode("abcd".to_string(), vec![usize::MAX; 4], &DEFAULT_CORRESP, 2, SymbolPolicy::Skip),
        Err(CipherError::OverflowError)
    );
    assert_eq!(
        encode(String::new(), vec![], &DEFAULT_CORRESP, 0, SymbolPolicy::Skip),
        Err(CipherError::DimensionError)
    );
}

#[test]
fn encode_transposes_before_it_multiplies() {
    // The matrix [[1, 2], [3, 4]] becomes [[1, 3], [2, 4]].
    let key: Vec<usize> = vec![1, 10, 100, 1000];
    assert_eq!(
        encode("abcd".to_string(), key, &DEFAULT_CORRESP, 2, SymbolPolicy::Skip),
        Ok(vec![1 + 30, 200 + 4000])
    );
}

#[test]
fn decode_reports_the_first_stage_that_refuses() {
    assert_eq!(
        decode(vec![1, 2], vec![1], &DEFAULT_CORRESP, 1, SymbolPolicy::Skip),
        Err(CipherError::DimensionError)
    );
    assert_eq!(
        decode(vec![1, 2], vec![1, usize::MAX], &DEFAULT_CORRESP, 1, SymbolPolicy::Skip),
        Err(CipherError::OverflowError)
    );
    assert_eq!(
        decode(vec![1, 2], vec![1, 50], &DEFAULT_CORRESP, 1, SymbolPolicy::Fail),
        Err(CipherError::UnknownSymbolError)
    );
    assert_eq!(
        decode(vec![1, 2], vec![1, 50], &DEFAULT_CORRESP, 1, SymbolPolicy::Skip),
        Ok("a".to_string())
    );
}

#[test]
fn decode_gives_the_message_back_where_the_key_is_undone() {
    // Two symbols in a matrix of two columns: the transposed matrix is
    // [[1, 0], [2, 0]], and a key of ones keeps the first column.
    let encoded = encode("ab".to_string(), vec![1; 4], &DEFAULT_CORRESP, 2, SymbolPolicy::Fail);
    assert_eq!(encoded, Ok(vec![1, 2]));
    let decoded = decode(encoded.unwrap(), vec![1; 2], &DEFAULT_CORRESP, 1, SymbolPolicy::Fail);
    assert_eq!(decoded, Ok("ab".to_string()));

    // A message of 62 symbols, all but the first two of them padding.
    let mut text = "Hi".to_string();
    for _ in 0..60 {
        text.push(' ');
    }
    let mut key: Vec<usize> = (0..64).map(|k| 3 * k + 2).collect();
    for w in 0..8 {
        key[w * 8] = 1;
    }
    let encoded = encode(text.clone(), key, &DEFAULT_CORRESP, 8, SymbolPolicy::Fail).unwrap();
    assert_eq!(encoded, vec![34, 9, 0, 0, 0, 0, 0, 0]);
    let decoded = decode(encoded, vec![1; 8], &DEFAULT_CORRESP, 1, SymbolPolicy::Fail).unwrap();
    assert_eq!(decoded, "Hi      ");
    assert_eq!(decoded.trim_end_matches(' '), text.trim_end_matches(' '));
    assert_eq!(decoded.trim_end_matches(' '), "Hi");
}

#[test]
fn a_full_first_row_comes_back() {
    let mut text = "Tuesday.".to_string();
    for _ in 0..54 {
        text.push(' ');
    }
    let mut key: Vec<usize> = vec![9; 64];
    for w in 0..8 {
        key[w * 8] = 1;
    }
    let encoded = encode(text, key, &DEFAULT_CORRESP, 8, SymbolPolicy::Skip).unwrap();
    assert_eq!(encoded, vec![46, 21, 5, 19, 4, 1, 25, 76]);
    let decoded = decode(encoded, vec![1; 8], &DEFAULT_CORRESP, 1, SymbolPolicy::Skip).unwrap();
    assert_eq!(decoded, "Tuesday.");
}

#[test]
fn decode_cannot_give_back_what_the_windows_summed() {
    let encoded = encode("abcd".to_string(), vec![1; 4], &DEFAULT_CORRESP, 2, SymbolPolicy::Fail);
    assert_eq!(encoded, Ok(vec![4, 6]));
    let decoded = decode(vec![4, 6], vec![1; 2], &DEFAULT_CORRESP, 1, SymbolPolicy::Fail);
    assert_eq!(decoded, Ok("df".to_string()));
}

#[test]
fn base_product_of_two_by_two() {
    let a: Vec<Vec<isize>> = vec![vec![-1, 0], vec![2, 3]];
    let b: Vec<Vec<usize>> = vec![vec![1, 1], vec![3, 2]];
    assert_eq!(matrix_mul_base(a, b), Ok(vec![-1, -1, 11, 8]));
}

#[test]
fn base_product_refuses_mismatched_matrices() {
    let a: Vec<Vec<isize>> = vec![vec![-1, 0], vec![2, 3]];
    let three: Vec<Vec<usize>> = vec![vec![1, 1], vec![3, 2], vec![0, 0]];
    assert_eq!(matrix_mul_base(a.clone(), three), Err(CipherError::DimensionError));
    assert_eq!(matrix_mul_base(vec![], vec![]), Err(CipherError::DimensionError));
    assert_eq!(matrix_mul_base(vec![vec![1]], vec![vec![1]]), Err(CipherError::DimensionError));
    let short: Vec<Vec<usize>> = vec![vec![1, 1], vec![3]];
    assert_eq!(matrix_mul_base(a.clone(), short), Err(CipherError::DimensionError));
    let wide: Vec<Vec<isize>> = vec![vec![-1, 0, 5], vec![2, 3, 5]];
    let b: Vec<Vec<usize>> = vec![vec![1, 1], vec![3, 2]];
    assert_eq!(matrix_mul_base(wide, b), Err(CipherError::DimensionError));
}

#[test]
fn base_product_refuses_an_entry_beyond_the_machine_word() {
    let a: Vec<Vec<isize>> = vec![vec![1, 1], vec![0, 0]];
    let b: Vec<Vec<usize>> = vec![vec![usize::MAX, 0], vec![0, 0]];
    assert_eq!(matrix_mul_base(a, b), Err(CipherError::OverflowError));
    let a: Vec<Vec<isize>> = vec![vec![isize::MAX, 1], vec![-1, 0]];
    let b: Vec<Vec<usize>> = vec![vec![1, 0], vec![1, 0]];
    assert_eq!(matrix_mul_base(a, b), Err(CipherError::OverflowError));
    let a: Vec<Vec<isize>> = vec![vec![isize::MAX, -1], vec![isize::MIN, 0]];
    let b: Vec<Vec<usize>> = vec![vec![1, 0], vec![1, 0]];
    assert_eq!(matrix_mul_base(a, b), Ok(vec![isize::MAX - 1, 0, isize::MIN, 0]));
}

#[test]
fn base_product_takes_the_upper_left_blocks() {
    let a: Vec<Vec<isize>> = vec![vec![1, 2, 3], vec![4, 5, 6], vec![7, 8, 9]];
    let b: Vec<Vec<usize>> = vec![vec![1, 0, 9], vec![0, 1, 9], vec![9, 9, 9]];
    assert_eq!(matrix_mul_base(a, b), Ok(vec![1, 2, 4, 5]));
}

#[test]
fn splitter_needs_four_rows() {
    let three: Vec<Vec<usize>> = vec![vec![1], vec![2], vec![3]];
    assert!(matches!(splitter(three), Err(CipherError::DimensionError)));
    assert!(matches!(splitter(vec![]), Err(CipherError::DimensionError)));
    let five: Vec<Vec<usize>> = vec![vec![1], vec![2, 2], vec![3], vec![], vec![5]];
    assert_eq!(splitter(five), Ok((vec![1], vec![2, 2], vec![3], vec![])));
}

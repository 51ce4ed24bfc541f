//! Turning text into numerals and numerals into text.

use vstd::prelude::*;
use crate::correspondence::{numeral_of, symbol_of, CorrespondenceTable};
use crate::error::{viewed, CipherError};

verus! {

/// What is done with a character that has no numeral, or a numeral that has
/// no symbol.
#[derive(Clone, Copy, Debug, PartialEq, Eq, Structural)]
pub enum SymbolPolicy {
    /// It is left out, and the conversion goes on.
    Skip,
    /// The conversion is refused.
    Fail,
}

impl Default for SymbolPolicy {
    /// Unknown symbols are left out unless asked otherwise.
    fn default() -> (policy: SymbolPolicy)
        ensures
            policy == SymbolPolicy::Skip,
    {
        SymbolPolicy::Skip
    }
}

/// The numerals of the characters of `text` that `alphabet` holds, in order.
pub open spec fn numerals_of(text: Seq<char>, alphabet: Seq<char>) -> Seq<usize> {
    text.filter_map(|c: char| numeral_of(alphabet, c))
}

/// Whether `alphabet` holds every character of `text`.
pub open spec fn all_known(text: Seq<char>, alphabet: Seq<char>) -> bool {
    forall|i: int| 0 <= i < text.len() ==> alphabet.contains(#[trigger] text[i])
}

/// What the conversion of `text` to numerals comes to under `policy`.
pub open spec fn numerals_outcome(
    text: Seq<char>,
    alphabet: Seq<char>,
    policy: SymbolPolicy,
) -> Result<Seq<usize>, CipherError> {
    if policy == SymbolPolicy::Fail && !all_known(text, alphabet) {
        Err(CipherError::UnknownSymbolError)
    } else {
        Ok(numerals_of(text, alphabet))
    }
}

/// The symbols of the numerals of `numerals` that lie within `alphabet`, in
/// order.
pub open spec fn symbols_of(numerals: Seq<usize>, alphabet: Seq<char>) -> Seq<char> {
    numerals.filter_map(|n: usize| symbol_of(alphabet, n))
}

/// Whether every numeral of `numerals` is a position of `alphabet`.
pub open spec fn all_in_range(numerals: Seq<usize>, alphabet: Seq<char>) -> bool {
    forall|i: int| 0 <= i < numerals.len() ==> #[trigger] numerals[i] < alphabet.len()
}

/// What the conversion of `numerals` to text comes to under `policy`.
pub open spec fn text_outcome(
    numerals: Seq<usize>,
    alphabet: Seq<char>,
    policy: SymbolPolicy,
) -> Result<Seq<char>, CipherError> {
    if policy == SymbolPolicy::Fail && !all_in_range(numerals, alphabet) {
        Err(CipherError::UnknownSymbolError)
    } else {
        Ok(symbols_of(numerals, alphabet))
    }
}

/// A text that the alphabet holds is still held without its last character.
pub proof fn lemma_known_without_last(text: Seq<char>, alphabet: Seq<char>)
    requires
        all_known(text, alphabet),
        text.len() > 0,
    ensures
        all_known(text.drop_last(), alphabet),
{
    let rest = text.drop_last();
    assert forall|i: int| 0 <= i < rest.len() implies alphabet.contains(#[trigger] rest[i]) by {
        assert(rest[i] == text[i]);
    }
}

/// Text made of symbols of the alphabet alone comes back unchanged from its
/// numerals, under either policy: every character has a numeral, every such
/// numeral lies within the alphabet, and its symbol is the character.
pub proof fn lemma_text_round_trip(
    text: Seq<char>,
    alphabet: Seq<char>,
    to: SymbolPolicy,
    back: SymbolPolicy,
)
    requires
        alphabet.len() <= usize::MAX,
        all_known(text, alphabet),
    ensures
        numerals_of(text, alphabet).len() == text.len(),
        all_in_range(numerals_of(text, alphabet), alphabet),
        symbols_of(numerals_of(text, alphabet), alphabet) == text,
        numerals_outcome(text, alphabet, to) == Ok::<Seq<usize>, CipherError>(
            numerals_of(text, alphabet),
        ),
        text_outcome(numerals_of(text, alphabet), alphabet, back) == Ok::<Seq<char>, CipherError>(
            text,
        ),
    decreases text.len(),
{
    if text.len() > 0 {
        let rest = text.drop_last();
        let last = text.last();
        lemma_known_without_last(text, alphabet);
        lemma_text_round_trip(rest, alphabet, to, back);
        alphabet.index_of_first_ensures(last);
        let numeral = alphabet.index_of_first(last).unwrap() as usize;
        let numerals = numerals_of(rest, alphabet) + seq![numeral];
        assert(numerals.drop_last() =~= numerals_of(rest, alphabet));
        assert(rest + seq![last] =~= text);
    }
}

/// In an alphabet without a repeated symbol, numerals that all have a symbol
/// come back unchanged from their text.
pub proof fn lemma_numerals_round_trip(numerals: Seq<usize>, alphabet: Seq<char>)
    requires
        alphabet.len() <= usize::MAX,
        alphabet.no_duplicates(),
        all_in_range(numerals, alphabet),
    ensures
        symbols_of(numerals, alphabet).len() == numerals.len(),
        all_known(symbols_of(numerals, alphabet), alphabet),
        numerals_of(symbols_of(numerals, alphabet), alphabet) == numerals,
    decreases numerals.len(),
{
    if numerals.len() > 0 {
        let rest = numerals.drop_last();
        let last = numerals.last();
        assert(all_in_range(rest, alphabet)) by {
            assert forall|i: int| 0 <= i < rest.len() implies #[trigger] rest[i]
                < alphabet.len() by {}
        }
        lemma_numerals_round_trip(rest, alphabet);
        let symbol = alphabet[last as int];
        alphabet.index_of_first_ensures(symbol);
        let symbols = symbols_of(rest, alphabet) + seq![symbol];
        assert(symbols.drop_last() =~= symbols_of(rest, alphabet));
        assert(all_known(symbols, alphabet)) by {
            assert forall|i: int| 0 <= i < symbols.len() implies alphabet.contains(
                #[trigger] symbols[i],
            ) by {}
        }
    }
}

/// `String::push` of the standard library, taken on trust and not proved
/// here: the string afterwards is the string before with the one character
/// `ch` appended at its end.
pub assume_specification[ String::push ](text: &mut String, ch: char)
    ensures
        final(text)@ == old(text)@.push(ch),
;

/// Converts the message to numerals: each character, in order, becomes its
/// numeral in the table.
///
/// A character that the table does not hold is left out under
/// [`SymbolPolicy::Skip`]; under [`SymbolPolicy::Fail`] the whole message is
/// refused.
pub fn message_numerals(
    msg: String,
    table: &CorrespondenceTable,
    policy: SymbolPolicy,
) -> (res: Result<Vec<usize>, CipherError>)
    ensures
        viewed(res) == numerals_outcome(msg@, table@, policy),
{
    let mut numerals: Vec<usize> = Vec::new();
    for c in it: msg.as_str().chars()
        invariant
            it.seq() == msg@,
            numerals@ == numerals_of(msg@.take(it.index() as int), table@),
            policy == SymbolPolicy::Fail ==> all_known(msg@.take(it.index() as int), table@),
    {
        let ghost at = it.index();
        proof {
            msg@.lemma_filter_map_take_succ(|c: char| numeral_of(table@, c), at);
            table@.index_of_first_ensures(c);
        }
        match table.index_of(c) {
            Ok(numeral) => {
                numerals.push(numeral);
            },
            Err(_) => {
                if policy == SymbolPolicy::Fail {
                    return Err(CipherError::UnknownSymbolError);
                }
            },
        }
    }
    proof {
        assert(msg@.take(msg@.len() as int) =~= msg@);
    }
    Ok(numerals)
}

/// Converts numerals to text: each numeral, in order, becomes the symbol
/// that the table holds at that position.
///
/// A numeral beyond the table is left out under [`SymbolPolicy::Skip`];
/// under [`SymbolPolicy::Fail`] the whole sequence is refused.
pub fn message_mat_to_chars(
    msg_vec: &Vec<usize>,
    table: CorrespondenceTable,
    policy: SymbolPolicy,
) -> (res: Result<String, CipherError>)
    ensures
        viewed(res) == text_outcome(msg_vec@, table@, policy),
{
    let mut text = String::new();
    let n = msg_vec.len();
    let mut i: usize = 0;
    while i < n
        invariant
            n == msg_vec@.len(),
            0 <= i <= n,
            text@ == symbols_of(msg_vec@.take(i as int), table@),
            policy == SymbolPolicy::Fail ==> all_in_range(msg_vec@.take(i as int), table@),
        decreases n - i,
    {
        proof {
            msg_vec@.lemma_filter_map_take_succ(|n: usize| symbol_of(table@, n), i as int);
        }
        match table.symbol_at(msg_vec[i]) {
            Ok(symbol) => {
                text.push(symbol);
            },
            Err(_) => {
                if policy == SymbolPolicy::Fail {
                    return Err(CipherError::UnknownSymbolError);
                }
            },
        }
        i += 1;
    }
    proof {
        assert(msg_vec@.take(n as int) =~= msg_vec@);
    }
    Ok(text)
}

} // verus!

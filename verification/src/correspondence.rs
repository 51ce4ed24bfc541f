//! The correspondence between symbols and numerals.
//!
//! An alphabet is an ordered sequence of symbols. The numeral of a symbol is
//! its position in the alphabet, counted from zero.

use vstd::prelude::*;
use crate::error::{viewed, CipherError};

verus! {

/// The default alphabet: the space, the lower-case and the upper-case
/// letters, the digits from one to nine and then zero, and fourteen marks of
/// punctuation.
pub const DEFAULT_CORRESP: [char; 77] = [
    ' ', 'a', 'b', 'c', 'd', 'e', 'f', 'g', 'h', 'i', 'j', 'k', 'l', 'm', 'n',
    'o', 'p', 'q', 'r', 's', 't', 'u', 'v', 'w', 'x', 'y', 'z', 'A', 'B', 'C',
    'D', 'E', 'F', 'G', 'H', 'I', 'J', 'K', 'L', 'M', 'N', 'O', 'P', 'Q', 'R',
    'S', 'T', 'U', 'V', 'W', 'X', 'Y', 'Z', '1', '2', '3', '4', '5', '6', '7', '8',
    '9', '0', ',', '?', '"', ';', ':', '(', ')', '-', '_', '[', ']', '{', '}', '.',
];

/// The numeral that `alphabet` gives to `symbol`: the first position at which
/// the symbol stands, or nothing where the alphabet does not hold it.
pub open spec fn numeral_of(alphabet: Seq<char>, symbol: char) -> Option<usize> {
    match alphabet.index_of_first(symbol) {
        Some(i) => Some(i as usize),
        None => None,
    }
}

/// The symbol that `alphabet` gives to `numeral`: the one at that position,
/// or nothing where the alphabet is shorter.
pub open spec fn symbol_of(alphabet: Seq<char>, numeral: usize) -> Option<char> {
    if numeral < alphabet.len() {
        Some(alphabet[numeral as int])
    } else {
        None
    }
}

/// What the numeral of a symbol says: the symbol stands at that position and
/// at none before it; a symbol without a numeral stands nowhere.
pub proof fn lemma_numeral_of(alphabet: Seq<char>, symbol: char)
    requires
        alphabet.len() <= usize::MAX,
    ensures
        match numeral_of(alphabet, symbol) {
            Some(numeral) => {
                &&& numeral < alphabet.len()
                &&& alphabet[numeral as int] == symbol
                &&& forall|j: int| 0 <= j < numeral ==> alphabet[j] != symbol
            },
            None => !alphabet.contains(symbol),
        },
{
    alphabet.index_of_first_ensures(symbol);
}

/// The position that holds the symbol, and has no position before it that
/// does, is the numeral of the symbol.
pub proof fn lemma_numeral_of_is_first(alphabet: Seq<char>, symbol: char, i: int)
    requires
        0 <= i < alphabet.len(),
        alphabet[i] == symbol,
        forall|j: int| 0 <= j < i ==> alphabet[j] != symbol,
    ensures
        numeral_of(alphabet, symbol) == Some(i as usize),
{
    alphabet.index_of_first_ensures(symbol);
}

/// A symbol that stands nowhere in the alphabet has no numeral.
pub proof fn lemma_numeral_of_absent(alphabet: Seq<char>, symbol: char)
    requires
        forall|j: int| 0 <= j < alphabet.len() ==> alphabet[j] != symbol,
    ensures
        numeral_of(alphabet, symbol) is None,
        !alphabet.contains(symbol),
{
    alphabet.index_of_first_ensures(symbol);
}

/// A table of correspondence: a non-empty alphabet, fixed once built.
#[derive(Debug)]
pub struct CorrespondenceTable {
    symbols: Vec<char>,
}

impl View for CorrespondenceTable {
    type V = Seq<char>;

    /// The alphabet of the table, in order.
    closed spec fn view(&self) -> Seq<char> {
        self.symbols@
    }
}

impl Clone for CorrespondenceTable {
    /// A table over the same alphabet.
    fn clone(&self) -> (copy: Self)
        ensures
            copy@ == self@,
    {
        proof {
            use_type_invariant(self);
        }
        CorrespondenceTable { symbols: self.symbols.clone() }
    }
}

impl CorrespondenceTable {
    #[verifier::type_invariant]
    spec fn holds_symbols(&self) -> bool {
        self.symbols@.len() > 0
    }

    /// The number of symbols, which is never zero.
    pub fn len(&self) -> (n: usize)
        ensures
            n == self@.len(),
            n > 0,
    {
        proof {
            use_type_invariant(self);
        }
        self.symbols.len()
    }

    /// The symbol at position `index`, as a map from numerals to symbols
    /// gives it: nothing where the alphabet has no such position.
    pub fn get(&self, index: &usize) -> (symbol: Option<&char>)
        ensures
            symbol_of(self@, *index) == match symbol {
                Some(found) => Some(*found),
                None => None,
            },
    {
        if *index < self.symbols.len() {
            Some(&self.symbols[*index])
        } else {
            None
        }
    }

    /// The symbol whose numeral is `index`. A numeral beyond the alphabet is
    /// reported as an unknown symbol.
    pub fn symbol_at(&self, index: usize) -> (res: Result<char, CipherError>)
        ensures
            res == match symbol_of(self@, index) {
                Some(symbol) => Ok::<char, CipherError>(symbol),
                None => Err(CipherError::UnknownSymbolError),
            },
    {
        if index < self.symbols.len() {
            Ok(self.symbols[index])
        } else {
            Err(CipherError::UnknownSymbolError)
        }
    }

    /// The numeral of `symbol`: the first position of the alphabet that holds
    /// it. A symbol that the alphabet does not hold is reported as unknown.
    pub fn index_of(&self, symbol: char) -> (res: Result<usize, CipherError>)
        ensures
            res == match numeral_of(self@, symbol) {
                Some(numeral) => Ok::<usize, CipherError>(numeral),
                None => Err(CipherError::UnknownSymbolError),
            },
    {
        let n = self.symbols.len();
        let mut i: usize = 0;
        while i < n
            invariant
                n == self.symbols@.len(),
                0 <= i <= n,
                forall|j: int| 0 <= j < i ==> self.symbols@[j] != symbol,
            decreases n - i,
        {
            if self.symbols[i] == symbol {
                proof {
                    lemma_numeral_of_is_first(self@, symbol, i as int);
                }
                return Ok(i);
            }
            i += 1;
        }
        proof {
            lemma_numeral_of_absent(self@, symbol);
        }
        Err(CipherError::UnknownSymbolError)
    }
}

impl CorrespondenceTable {
    /// Whether symbols and numerals correspond one to one: whether no symbol
    /// stands twice in the alphabet.
    pub fn is_bijection(&self) -> (distinct: bool)
        ensures
            distinct == self@.no_duplicates(),
    {
        let n = self.symbols.len();
        let mut i: usize = 0;
        while i < n
            invariant
                n == self.symbols@.len(),
                0 <= i <= n,
                forall|j: int, k: int| 0 <= j < k < i ==> self.symbols@[j] != self.symbols@[k],
            decreases n - i,
        {
            proof {
                lemma_numeral_of(self@, self.symbols@[i as int]);
            }
            match self.index_of(self.symbols[i]) {
                Ok(first) => {
                    if first != i {
                        return false;
                    }
                },
                Err(_) => {
                    return false;
                },
            }
            i += 1;
        }
        true
    }
}

/// What building a table over `alphabet` comes to: the table holds the
/// alphabet as it is, and an alphabet without symbols is refused.
pub open spec fn table_outcome(alphabet: Seq<char>) -> Result<Seq<char>, CipherError> {
    if alphabet.len() == 0 {
        Err(CipherError::EmptyAlphabetError)
    } else {
        Ok(alphabet)
    }
}

/// Builds the table of correspondence over `tokens`: the numeral of each
/// symbol is its position. An alphabet without symbols is refused.
pub fn gen_correspondence(tokens: &[char]) -> (res: Result<CorrespondenceTable, CipherError>)
    ensures
        viewed(res) == table_outcome(tokens@),
{
    let n = tokens.len();
    if n == 0 {
        return Err(CipherError::EmptyAlphabetError);
    }
    let mut symbols: Vec<char> = Vec::new();
    let mut i: usize = 0;
    while i < n
        invariant
            n == tokens@.len(),
            0 <= i <= n,
            symbols@ == tokens@.take(i as int),
        decreases n - i,
    {
        symbols.push(tokens[i]);
        i += 1;
    }
    proof {
        assert(tokens@.take(n as int) =~= tokens@);
    }
    Ok(CorrespondenceTable { symbols })
}

/// In an alphabet without a repeated symbol, symbols and numerals correspond
/// one to one: the numeral of the symbol at a position is that position, and
/// the symbol at the numeral of a symbol is that symbol. The second half
/// holds of every alphabet.
pub proof fn lemma_correspondence_bijection(alphabet: Seq<char>)
    requires
        alphabet.len() <= usize::MAX,
    ensures
        alphabet.no_duplicates() ==> forall|i: int|
            0 <= i < alphabet.len() ==> #[trigger] numeral_of(alphabet, alphabet[i]) == Some(
                i as usize,
            ),
        forall|s: char| #[trigger]
            alphabet.contains(s) ==> match numeral_of(alphabet, s) {
                Some(i) => symbol_of(alphabet, i) == Some(s),
                None => false,
            },
{
    assert forall|s: char| #[trigger] alphabet.contains(s) implies match numeral_of(alphabet, s) {
        Some(i) => symbol_of(alphabet, i) == Some(s),
        None => false,
    } by {
        alphabet.index_of_first_ensures(s);
    }
    if alphabet.no_duplicates() {
        assert forall|i: int| 0 <= i < alphabet.len() implies #[trigger] numeral_of(
            alphabet,
            alphabet[i],
        ) == Some(i as usize) by {
            alphabet.index_of_first_ensures(alphabet[i]);
        }
    }
}

/// The default alphabet has 77 symbols, none of them twice, so in its table
/// symbols and numerals correspond one to one.
pub proof fn lemma_default_correspondence_bijection()
    ensures
        DEFAULT_CORRESP@.len() == 77,
        DEFAULT_CORRESP@.no_duplicates(),
        forall|i: int|
            0 <= i < 77 ==> #[trigger] numeral_of(DEFAULT_CORRESP@, DEFAULT_CORRESP@[i]) == Some(
                i as usize,
            ),
        forall|s: char| #[trigger]
            DEFAULT_CORRESP@.contains(s) ==> match numeral_of(DEFAULT_CORRESP@, s) {
                Some(i) => symbol_of(DEFAULT_CORRESP@, i) == Some(s),
                None => false,
            },
{
    lemma_correspondence_bijection(DEFAULT_CORRESP@);
}

} // verus!

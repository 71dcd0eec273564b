//! Alphabets: ordered, duplicate-free symbol sets that define a positional
//! number system.

use std::collections::HashMap;
use crate::text::chars_of;
use vstd::prelude::*;

verus! {

/// The failure to build an alphabet: fewer than two symbols were given, or
/// one of them was given twice.
#[derive(Debug, Clone, Copy, PartialEq, Eq)]
pub struct InvalidAlphabet;

/// What makes a symbol sequence an alphabet: at least two symbols, no symbol
/// twice. The position of a symbol is its digit value; the symbol at position
/// zero is the zero symbol.
pub open spec fn valid_alphabet(symbols: Seq<char>) -> bool {
    symbols.len() >= 2 && symbols.no_duplicates()
}

/// The character that stands for the byte symbol `b` in text: the scalar
/// value with the byte's number as its code point.
pub open spec fn byte_symbol(b: u8) -> char {
    b as char
}

/// The text form of a sequence of byte symbols.
pub open spec fn byte_symbols(bytes: Seq<u8>) -> Seq<char> {
    bytes.map_values(|b: u8| byte_symbol(b))
}

/// Pairwise distinct integers from `0` up to `bound` are at most `bound` many.
pub proof fn lemma_distinct_codes_bounded(codes: Seq<int>, bound: int)
    requires
        0 <= bound,
        codes.no_duplicates(),
        forall|i: int| 0 <= i < codes.len() ==> 0 <= #[trigger] codes[i] < bound,
    ensures
        codes.len() <= bound,
{
    let range = vstd::set_lib::set_int_range(0, bound);
    codes.unique_seq_to_set();
    vstd::set_lib::lemma_int_range(0, bound);
    assert(codes.to_set().subset_of(range)) by {
        assert forall|x: int| codes.to_set().contains(x) implies range.contains(x) by {
            let i = choose|i: int| 0 <= i < codes.len() && codes[i] == x;
            assert(0 <= codes[i] < bound);
        }
    }
    vstd::set_lib::lemma_len_subset(codes.to_set(), range);
}

/// The code point of a scalar value.
pub open spec fn code_point(c: char) -> u32 {
    c as u32
}

/// Different scalar values have different code points.
pub proof fn lemma_code_point_injective(a: char, b: char)
    ensures
        code_point(a) == code_point(b) ==> a == b,
{
}

/// Every scalar value lies below the end of the code space.
pub proof fn lemma_code_point_range(c: char)
    ensures
        0 <= (c as int) < 0x11_0000,
{
}

/// Pairwise distinct scalar values are at most as many as there are code
/// points.
pub proof fn lemma_distinct_symbols_bounded(symbols: Seq<char>)
    requires
        symbols.no_duplicates(),
    ensures
        symbols.len() <= 0x11_0000,
{
    let codes = symbols.map_values(|c: char| c as int);
    assert(codes.no_duplicates()) by {
        assert forall|i: int, j: int|
            0 <= i < codes.len() && 0 <= j < codes.len() && i != j implies codes[i] != codes[j] by {
            assert(symbols[i] != symbols[j]);
        }
    }
    assert forall|i: int| 0 <= i < codes.len() implies 0 <= #[trigger] codes[i] < 0x11_0000 by {
        lemma_code_point_range(symbols[i]);
    }
    lemma_distinct_codes_bounded(codes, 0x11_0000);
}

/// Pairwise distinct bytes are at most 256 many.
pub proof fn lemma_distinct_bytes_bounded(bytes: Seq<u8>)
    requires
        bytes.no_duplicates(),
    ensures
        bytes.len() <= 256,
{
    let codes = bytes.map_values(|b: u8| b as int);
    lemma_distinct_codes_bounded(codes, 256);
}

/// Byte symbols are distinct exactly when their text forms are.
pub proof fn lemma_byte_symbols_distinct(bytes: Seq<u8>)
    ensures
        byte_symbols(bytes).no_duplicates() <==> bytes.no_duplicates(),
{
    let text = byte_symbols(bytes);
    if bytes.no_duplicates() {
        assert forall|i: int, j: int|
            0 <= i < text.len() && 0 <= j < text.len() && i != j implies text[i] != text[j] by {
            assert(bytes[i] != bytes[j]);
            assert(text[i] as int == bytes[i] as int);
            assert(text[j] as int == bytes[j] as int);
        }
    }
    if text.no_duplicates() {
        assert forall|i: int, j: int|
            0 <= i < bytes.len() && 0 <= j < bytes.len() && i != j implies bytes[i] != bytes[j] by {
            assert(text[i] != text[j]);
        }
    }
}

/// The entry of a byte alphabet's lookup table for a byte that is no symbol.
const ABSENT: u16 = 256;

/// An alphabet whose symbols are single bytes.
///
/// In text a byte symbol is written as the scalar value with the same
/// number; for an alphabet of ASCII bytes that is the byte itself.
pub struct ByteAlphabet {
    symbols: Vec<u8>,
    positions: Vec<u16>,
}

impl View for ByteAlphabet {
    type V = Seq<char>;

    /// The symbols in text form, in the order of their digit values.
    closed spec fn view(&self) -> Seq<char> {
        byte_symbols(self.symbols@)
    }
}

impl ByteAlphabet {
    /// The representation invariant: at least two symbols, and a lookup
    /// table that holds the position of every symbol and of nothing else.
    pub closed spec fn wf(&self) -> bool {
        &&& 2 <= self.symbols@.len() <= 256
        &&& self.positions@.len() == 256
        &&& forall|i: int|
            0 <= i < self.symbols@.len() ==> self.positions@[(#[trigger] self.symbols@[i]) as int]
                == i
        &&& forall|b: int|
            0 <= b < 256 && #[trigger] self.positions@[b] != ABSENT ==> {
                &&& self.positions@[b] < self.symbols@.len()
                &&& self.symbols@[self.positions@[b] as int] == b
            }
    }

    /// The byte symbols themselves, in the order of their digit values.
    pub closed spec fn bytes(&self) -> Seq<u8> {
        self.symbols@
    }

    /// A well-formed byte alphabet is a valid alphabet, and its text form is
    /// that of its bytes.
    pub proof fn lemma_valid(&self)
        requires
            self.wf(),
        ensures
            valid_alphabet(self@),
            self@ == byte_symbols(self.bytes()),
            self@.len() <= 256,
    {
        assert forall|i: int, j: int|
            0 <= i < self.symbols@.len() && 0 <= j < self.symbols@.len() && i != j implies self.symbols@[i]
            != self.symbols@[j] by {
            assert(self.positions@[self.symbols@[i] as int] == i);
            assert(self.positions@[self.symbols@[j] as int] == j);
        }
        lemma_byte_symbols_distinct(self.symbols@);
    }

    /// Builds the alphabet whose symbols are `symbols`, in this order.
    ///
    /// Fails when there are fewer than two symbols or one occurs twice.
    pub fn new(symbols: &[u8]) -> (r: Result<ByteAlphabet, InvalidAlphabet>)
        ensures
            r is Ok <==> valid_alphabet(byte_symbols(symbols@)),
            r matches Ok(a) ==> a.wf() && a@ == byte_symbols(symbols@) && a.bytes() == symbols@,
    {
        proof {
            lemma_byte_symbols_distinct(symbols@);
        }
        if symbols.len() < 2 {
            return Err(InvalidAlphabet);
        }
        let mut positions: Vec<u16> = Vec::new();
        let mut b: usize = 0;
        while b < 256
            invariant
                b <= 256,
                positions@.len() == b,
                forall|k: int| 0 <= k < b ==> positions@[k] == ABSENT,
            decreases 256 - b,
        {
            positions.push(ABSENT);
            b += 1;
        }
        let mut kept: Vec<u8> = Vec::new();
        let mut i: usize = 0;
        while i < symbols.len()
            invariant
                i <= symbols.len(),
                i <= 256,
                kept@ == symbols@.take(i as int),
                positions@.len() == 256,
                forall|j: int| 0 <= j < i ==> positions@[(#[trigger] kept@[j]) as int] == j,
                forall|k: int|
                    0 <= k < 256 && #[trigger] positions@[k] != ABSENT ==> {
                        &&& positions@[k] < i
                        &&& kept@[positions@[k] as int] == k
                    },
            decreases symbols.len() - i,
        {
            let symbol: u8 = symbols[i];
            if positions[symbol as usize] != ABSENT {
                proof {
                    let j = positions@[symbol as int] as int;
                    assert(kept@[j] == symbols@[j]);
                    assert(symbols@[j] == symbols@[i as int] && j != i);
                    assert(!symbols@.no_duplicates());
                    lemma_byte_symbols_distinct(symbols@);
                }
                return Err(InvalidAlphabet);
            }
            proof {
                let grown = kept@.push(symbol);
                assert forall|x: int, y: int|
                    0 <= x < grown.len() && 0 <= y < grown.len() && x != y implies grown[x]
                    != grown[y] by {
                    if x < i {
                        assert(positions@[kept@[x] as int] == x);
                    }
                    if y < i {
                        assert(positions@[kept@[y] as int] == y);
                    }
                }
                lemma_distinct_bytes_bounded(grown);
                assert(grown =~= symbols@.take(i + 1));
            }
            positions.set(symbol as usize, i as u16);
            kept.push(symbol);
            i += 1;
        }
        proof {
            assert(symbols@.take(symbols.len() as int) =~= symbols@);
        }
        let alphabet = ByteAlphabet { symbols: kept, positions };
        proof {
            alphabet.lemma_valid();
        }
        Ok(alphabet)
    }

    /// The number of symbols: the base of the number system.
    pub fn size(&self) -> (r: u32)
        requires
            self.wf(),
        ensures
            r == self@.len(),
            r >= 2,
    {
        self.symbols.len() as u32
    }

    /// The digit value of `symbol`, or `None` when it is not in the alphabet.
    pub fn digit_of(&self, symbol: char) -> (r: Option<u32>)
        requires
            self.wf(),
        ensures
            match r {
                Some(d) => d < self@.len() && self@[d as int] == symbol,
                None => !self@.contains(symbol),
            },
    {
        let code: u32 = symbol as u32;
        if code >= 256 {
            assert forall|i: int| 0 <= i < self@.len() implies self@[i] != symbol by {
                assert(self@[i] as int == self.symbols@[i] as int);
            }
            return None;
        }
        let position: u16 = self.positions[code as usize];
        if position == ABSENT {
            assert forall|i: int| 0 <= i < self@.len() implies self@[i] != symbol by {
                assert(self@[i] as int == self.symbols@[i] as int);
                assert(self.positions@[self.symbols@[i] as int] == i);
            }
            None
        } else {
            assert(self@[position as int] as int == self.symbols@[position as int] as int);
            Some(position as u32)
        }
    }

    /// The symbol whose digit value is `digit`.
    pub fn symbol_at(&self, digit: u32) -> (r: char)
        requires
            self.wf(),
            digit < self@.len(),
        ensures
            r == self@[digit as int],
    {
        self.symbols[digit as usize] as char
    }
}

/// An alphabet whose symbols are Unicode scalar values. A symbol may take
/// several bytes in encoded text and still is one digit.
pub struct ScalarAlphabet {
    symbols: Vec<char>,
    positions: HashMap<u32, u32>,
}

impl View for ScalarAlphabet {
    type V = Seq<char>;

    /// The symbols, in the order of their digit values.
    closed spec fn view(&self) -> Seq<char> {
        self.symbols@
    }
}

impl ScalarAlphabet {
    /// The representation invariant: at least two symbols, and a lookup map
    /// from the code point of every symbol, and of nothing else, to its
    /// position.
    pub closed spec fn wf(&self) -> bool {
        &&& 2 <= self.symbols@.len() <= 0x11_0000
        &&& forall|i: int|
            0 <= i < self.symbols@.len() ==> {
                &&& self.positions@.contains_key(code_point(#[trigger] self.symbols@[i]))
                &&& self.positions@[code_point(self.symbols@[i])] == i
            }
        &&& forall|k: u32| #[trigger]
            self.positions@.contains_key(k) ==> {
                &&& self.positions@[k] < self.symbols@.len()
                &&& code_point(self.symbols@[self.positions@[k] as int]) == k
            }
    }

    /// A well-formed scalar alphabet is a valid alphabet.
    pub proof fn lemma_valid(&self)
        requires
            self.wf(),
        ensures
            valid_alphabet(self@),
            self@.len() <= 0x11_0000,
    {
        assert forall|i: int, j: int|
            0 <= i < self.symbols@.len() && 0 <= j < self.symbols@.len() && i != j implies self.symbols@[i]
            != self.symbols@[j] by {
            assert(self.positions@[code_point(self.symbols@[i])] == i);
            assert(self.positions@[code_point(self.symbols@[j])] == j);
        }
    }

    /// Builds the alphabet whose symbols are `symbols`, in this order.
    ///
    /// Fails when there are fewer than two symbols or one occurs twice.
    pub fn new(symbols: &[char]) -> (r: Result<ScalarAlphabet, InvalidAlphabet>)
        ensures
            r is Ok <==> valid_alphabet(symbols@),
            r matches Ok(a) ==> a.wf() && a@ == symbols@,
    {
        broadcast use vstd::std_specs::hash::group_hash_axioms;

        if symbols.len() < 2 {
            return Err(InvalidAlphabet);
        }
        let mut positions: HashMap<u32, u32> = HashMap::new();
        let mut kept: Vec<char> = Vec::new();
        let mut i: usize = 0;
        while i < symbols.len()
            invariant
                i <= symbols.len(),
                i <= 0x11_0000,
                kept@ == symbols@.take(i as int),
                forall|j: int|
                    0 <= j < i ==> {
                        &&& positions@.contains_key(code_point(#[trigger] kept@[j]))
                        &&& positions@[code_point(kept@[j])] == j
                    },
                forall|k: u32| #[trigger]
                    positions@.contains_key(k) ==> {
                        &&& positions@[k] < i
                        &&& code_point(kept@[positions@[k] as int]) == k
                    },
            decreases symbols.len() - i,
        {
            let symbol: char = symbols[i];
            let code: u32 = symbol as u32;
            if positions.contains_key(&code) {
                proof {
                    let j = positions@[code] as int;
                    assert(kept@[j] == symbols@[j]);
                    lemma_code_point_injective(symbols@[j], symbol);
                    assert(symbols@[j] == symbols@[i as int] && j != i);
                    assert(!symbols@.no_duplicates());
                }
                return Err(InvalidAlphabet);
            }
            proof {
                let grown = kept@.push(symbol);
                assert forall|x: int, y: int|
                    0 <= x < grown.len() && 0 <= y < grown.len() && x != y implies grown[x]
                    != grown[y] by {
                    if x < i {
                        assert(positions@.contains_key(code_point(kept@[x])));
                    }
                    if y < i {
                        assert(positions@.contains_key(code_point(kept@[y])));
                    }
                }
                lemma_distinct_symbols_bounded(grown);
                assert(grown =~= symbols@.take(i + 1));
            }
            positions.insert(code, i as u32);
            kept.push(symbol);
            i += 1;
        }
        proof {
            assert(symbols@.take(symbols.len() as int) =~= symbols@);
        }
        let alphabet = ScalarAlphabet { symbols: kept, positions };
        proof {
            alphabet.lemma_valid();
        }
        Ok(alphabet)
    }

    /// The number of symbols: the base of the number system.
    pub fn size(&self) -> (r: u32)
        requires
            self.wf(),
        ensures
            r == self@.len(),
            r >= 2,
    {
        self.symbols.len() as u32
    }

    /// The digit value of `symbol`, or `None` when it is not in the alphabet.
    pub fn digit_of(&self, symbol: char) -> (r: Option<u32>)
        requires
            self.wf(),
        ensures
            match r {
                Some(d) => d < self@.len() && self@[d as int] == symbol,
                None => !self@.contains(symbol),
            },
    {
        broadcast use vstd::std_specs::hash::group_hash_axioms;

        let code: u32 = symbol as u32;
        match self.positions.get(&code) {
            Some(position) => {
                proof {
                    lemma_code_point_injective(self.symbols@[*position as int], symbol);
                }
                Some(*position)
            },
            None => {
                assert forall|i: int| 0 <= i < self@.len() implies self@[i] != symbol by {
                    assert(self.positions@.contains_key(code_point(self.symbols@[i])));
                }
                None
            },
        }
    }

    /// The symbol whose digit value is `digit`.
    pub fn symbol_at(&self, digit: u32) -> (r: char)
        requires
            self.wf(),
            digit < self@.len(),
        ensures
            r == self@[digit as int],
    {
        self.symbols[digit as usize]
    }
}

/// An alphabet of either kind. Both kinds answer the same questions: how
/// many symbols there are, which digit a symbol stands for, and which symbol
/// stands for a digit.
pub enum Alphabet {
    /// Symbols that are single bytes.
    Bytes(ByteAlphabet),
    /// Symbols that are Unicode scalar values.
    Scalars(ScalarAlphabet),
}

impl View for Alphabet {
    type V = Seq<char>;

    /// The symbols in text form, in the order of their digit values.
    open spec fn view(&self) -> Seq<char> {
        match self {
            Alphabet::Bytes(a) => a@,
            Alphabet::Scalars(a) => a@,
        }
    }
}

impl Alphabet {
    /// The representation invariant of the kind at hand.
    pub open spec fn wf(&self) -> bool {
        match self {
            Alphabet::Bytes(a) => a.wf(),
            Alphabet::Scalars(a) => a.wf(),
        }
    }

    /// A well-formed alphabet is a valid alphabet whose size fits in 32 bits.
    pub proof fn lemma_valid(&self)
        requires
            self.wf(),
        ensures
            valid_alphabet(self@),
            self@.len() <= 0x11_0000,
    {
        match self {
            Alphabet::Bytes(a) => a.lemma_valid(),
            Alphabet::Scalars(a) => a.lemma_valid(),
        }
    }

    /// The byte alphabet with the symbols `symbols`, in this order.
    ///
    /// Fails when there are fewer than two symbols or one occurs twice.
    pub fn from_bytes(symbols: &[u8]) -> (r: Result<Alphabet, InvalidAlphabet>)
        ensures
            r is Ok <==> valid_alphabet(byte_symbols(symbols@)),
            r matches Ok(a) ==> a.wf() && a@ == byte_symbols(symbols@),
    {
        match ByteAlphabet::new(symbols) {
            Ok(a) => Ok(Alphabet::Bytes(a)),
            Err(e) => Err(e),
        }
    }

    /// The scalar alphabet with the scalar values of `symbols` as its
    /// symbols, in this order.
    ///
    /// Fails when there are fewer than two symbols or one occurs twice.
    pub fn from_text(symbols: &str) -> (r: Result<Alphabet, InvalidAlphabet>)
        ensures
            r is Ok <==> valid_alphabet(symbols@),
            r matches Ok(a) ==> a.wf() && a@ == symbols@,
    {
        let chars = chars_of(symbols);
        match ScalarAlphabet::new(chars.as_slice()) {
            Ok(a) => Ok(Alphabet::Scalars(a)),
            Err(e) => Err(e),
        }
    }

    /// The number of symbols: the base of the number system.
    pub fn size(&self) -> (r: u32)
        requires
            self.wf(),
        ensures
            r == self@.len(),
            r >= 2,
    {
        match self {
            Alphabet::Bytes(a) => a.size(),
            Alphabet::Scalars(a) => a.size(),
        }
    }

    /// The digit value of `symbol`, or `None` when it is not in the alphabet.
    pub fn digit_of(&self, symbol: char) -> (r: Option<u32>)
        requires
            self.wf(),
        ensures
            match r {
                Some(d) => d < self@.len() && self@[d as int] == symbol,
                None => !self@.contains(symbol),
            },
    {
        match self {
            Alphabet::Bytes(a) => a.digit_of(symbol),
            Alphabet::Scalars(a) => a.digit_of(symbol),
        }
    }

    /// The symbol whose digit value is `digit`.
    pub fn symbol_at(&self, digit: u32) -> (r: char)
        requires
            self.wf(),
            digit < self@.len(),
        ensures
            r == self@[digit as int],
    {
        match self {
            Alphabet::Bytes(a) => a.symbol_at(digit),
            Alphabet::Scalars(a) => a.symbol_at(digit),
        }
    }
}

/// Where an alphabet can come from: a byte string, each byte one symbol, or
/// text, each scalar value one symbol.
pub trait AlphabetSource {
    /// The symbols that the source lists, in text form.
    spec fn symbols(&self) -> Seq<char>;

    /// Builds the alphabet that the source lists.
    ///
    /// Fails when there are fewer than two symbols or one occurs twice.
    fn to_alphabet(&self) -> (r: Result<Alphabet, InvalidAlphabet>)
        ensures
            r is Ok <==> valid_alphabet(self.symbols()),
            r matches Ok(a) ==> a.wf() && a@ == self.symbols(),
    ;
}

impl<'a> AlphabetSource for &'a [u8] {
    open spec fn symbols(&self) -> Seq<char> {
        byte_symbols(self@)
    }

    fn to_alphabet(&self) -> (r: Result<Alphabet, InvalidAlphabet>) {
        Alphabet::from_bytes(*self)
    }
}

impl<'a> AlphabetSource for &'a str {
    open spec fn symbols(&self) -> Seq<char> {
        self@
    }

    fn to_alphabet(&self) -> (r: Result<Alphabet, InvalidAlphabet>) {
        Alphabet::from_text(*self)
    }
}

} // verus!

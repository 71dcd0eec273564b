//! Conversion between byte strings and text over an arbitrary symbol alphabet.
//!
//! A byte string is read as a big-endian natural number and written in the
//! positional system whose digits are the alphabet's symbols; leading zero
//! bytes, which carry no magnitude, are kept as a run of the alphabet's first
//! symbol.

use vstd::prelude::*;

pub mod alphabet;
pub mod bigint;
pub mod decoder;
pub mod encoder;
pub mod notation;
pub mod roundtrip;
pub mod text;

use crate::alphabet::{valid_alphabet, AlphabetSource};
use crate::decoder::{all_symbols_known, decode_with, spec_decode};
use crate::encoder::{encode_with, spec_encode};

verus! {

/// The failure to decode: the input holds a symbol that the alphabet does
/// not have.
#[derive(Debug, Clone, Copy, PartialEq, Eq)]
pub struct DecodeError;

impl DecodeError {
    /// A short description of the failure.
    pub fn description(&self) -> (r: &'static str)
        ensures
            r@ == "Can not decode the provided data"@,
    {
        "Can not decode the provided data"
    }

    /// The message shown to a user for the failure.
    pub fn message(&self) -> (r: String)
        ensures
            r@ == "Failed to decode the given data"@,
    {
        "Failed to decode the given data".to_owned()
    }
}

/// Encode an input vector using the given alphabet.
///
/// The alphabet has to be valid: at least two symbols, none of them twice.
/// Where that is not known, build the alphabet with
/// [`AlphabetSource::to_alphabet`], which says so, and encode with
/// [`encode_with`].
pub fn encode<A: AlphabetSource>(alphabet: A, input: &[u8]) -> (text: String)
    requires
        valid_alphabet(alphabet.symbols()),
    ensures
        text@ == spec_encode(alphabet.symbols(), input@),
{
    match alphabet.to_alphabet() {
        Ok(table) => encode_with(&table, input),
        Err(_) => vstd::pervasive::unreached(),
    }
}

/// Decode an input vector using the given alphabet.
///
/// Fails exactly when the input holds a symbol that is not in the alphabet.
///
/// The alphabet has to be valid: at least two symbols, none of them twice.
/// Where that is not known, build the alphabet with
/// [`AlphabetSource::to_alphabet`], which says so, and decode with
/// [`decode_with`].
pub fn decode<A: AlphabetSource>(alphabet: A, input: &str) -> (r: Result<Vec<u8>, DecodeError>)
    requires
        valid_alphabet(alphabet.symbols()),
    ensures
        r is Ok <==> all_symbols_known(alphabet.symbols(), input@),
        match r {
            Ok(bytes) => spec_decode(alphabet.symbols(), input@) == Some(bytes@),
            Err(_) => spec_decode(alphabet.symbols(), input@) is None,
        },
{
    match alphabet.to_alphabet() {
        Ok(table) => decode_with(&table, input),
        Err(_) => vstd::pervasive::unreached(),
    }
}

} // verus!

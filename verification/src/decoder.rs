//! From text back to bytes.

use crate::alphabet::Alphabet;
use crate::bigint::{min_bytes, BigUint};
use crate::notation::{leading_run, lemma_leading_run_is, value_of};
use crate::text::chars_of;
use crate::DecodeError;
use vstd::prelude::*;

verus! {

/// Whether every symbol of `text` is a symbol of `alphabet`.
pub open spec fn all_symbols_known(alphabet: Seq<char>, text: Seq<char>) -> bool {
    forall|i: int| 0 <= i < text.len() ==> alphabet.contains(#[trigger] text[i])
}

/// The bytes that `text` writes over `alphabet`, or `None` when `text`
/// holds a symbol that the alphabet does not have: one zero byte for each
/// leading zero symbol, then the shortest big-endian writing of the number
/// that the remaining symbols write.
pub open spec fn spec_decode(alphabet: Seq<char>, text: Seq<char>) -> Option<Seq<u8>> {
    if all_symbols_known(alphabet, text) {
        let zeros = leading_run(text, alphabet[0]);
        Some(
            Seq::new(zeros, |i: int| 0u8) + min_bytes(value_of(alphabet, text.skip(zeros as int))),
        )
    } else {
        None
    }
}

/// Reads `input` over `alphabet`.
///
/// Fails exactly when `input` holds a symbol that is not in the alphabet;
/// nothing of the input is returned then.
pub fn decode_with(alphabet: &Alphabet, input: &str) -> (r: Result<Vec<u8>, DecodeError>)
    requires
        alphabet.wf(),
    ensures
        r is Ok <==> all_symbols_known(alphabet@, input@),
        match r {
            Ok(bytes) => spec_decode(alphabet@, input@) == Some(bytes@),
            Err(_) => spec_decode(alphabet@, input@) is None,
        },
{
    let symbols: Vec<char> = chars_of(input);
    let base: u32 = alphabet.size();
    let zero: char = alphabet.symbol_at(0);
    let mut zeros: usize = 0;
    while zeros < symbols.len() && symbols[zeros] == zero
        invariant
            zeros <= symbols.len(),
            forall|i: int| 0 <= i < zeros ==> symbols@[i] == zero,
        decreases symbols.len() - zeros,
    {
        zeros += 1;
    }
    proof {
        lemma_leading_run_is(symbols@, zero, zeros as int);
        assert(alphabet@.contains(alphabet@[0]));
    }
    let mut value: BigUint = BigUint::zero();
    let mut i: usize = zeros;
    assert(symbols@.subrange(zeros as int, i as int) =~= Seq::<char>::empty());
    while i < symbols.len()
        invariant
            zeros <= i <= symbols.len(),
            alphabet.wf(),
            base == alphabet@.len(),
            symbols@ == input@,
            value.wf(),
            value@ == value_of(alphabet@, symbols@.subrange(zeros as int, i as int)),
            forall|k: int| 0 <= k < i ==> alphabet@.contains(#[trigger] symbols@[k]),
        decreases symbols.len() - i,
    {
        let symbol: char = symbols[i];
        match alphabet.digit_of(symbol) {
            None => {
                assert(!alphabet@.contains(input@[i as int]));
                return Err(DecodeError);
            },
            Some(digit) => {
                proof {
                    alphabet.lemma_valid();
                    crate::notation::lemma_index_of_unique(alphabet@, digit as int);
                    let read = symbols@.subrange(zeros as int, i + 1);
                    assert(read.drop_last() =~= symbols@.subrange(zeros as int, i as int));
                    assert(read.last() == symbol);
                    assert(alphabet@.contains(symbol));
                }
                value = value.mul_add_small(base, digit);
            },
        }
        i += 1;
    }
    let tail: Vec<u8> = value.to_bytes();
    let mut bytes: Vec<u8> = Vec::new();
    let mut k: usize = 0;
    while k < zeros
        invariant
            k <= zeros,
            bytes@ == Seq::new(k as nat, |i: int| 0u8),
        decreases zeros - k,
    {
        bytes.push(0u8);
        assert(Seq::new(k as nat, |i: int| 0u8).push(0u8) =~= Seq::new(
            (k + 1) as nat,
            |i: int| 0u8,
        ));
        k += 1;
    }
    let ghost prefix = bytes@;
    let mut j: usize = 0;
    while j < tail.len()
        invariant
            j <= tail.len(),
            bytes@ == prefix + tail@.take(j as int),
        decreases tail.len() - j,
    {
        bytes.push(tail[j]);
        proof {
            let done = tail@.take(j as int);
            assert(done.push(tail@[j as int]) =~= tail@.take(j + 1));
            assert((prefix + done).push(tail@[j as int]) =~= prefix + done.push(tail@[j as int]));
        }
        j += 1;
    }
    proof {
        assert(tail@.take(tail.len() as int) =~= tail@);
        assert(symbols@.subrange(zeros as int, symbols.len() as int) =~= input@.skip(zeros as int));
    }
    Ok(bytes)
}

} // verus!

//! Encoding and decoding undo each other.

use crate::alphabet::valid_alphabet;
use crate::bigint::{
    be_value, lemma_be_value_of_min_bytes, lemma_be_value_skip_zeros,
    lemma_min_bytes_of_normalized, min_bytes, normalized,
};
use crate::decoder::{all_symbols_known, spec_decode};
use crate::encoder::spec_encode;
use crate::notation::{
    leading_run, lemma_leading_run_bounds, lemma_leading_run_is, lemma_symbols_of_canonical,
    lemma_symbols_of_value_of, lemma_value_of_symbols_of, symbols_of, value_of,
};
use vstd::prelude::*;

verus! {

/// Encoded text consists of symbols of the alphabet. It starts with exactly
/// as many zero symbols as the bytes start with zero bytes, and what follows
/// them writes the magnitude of the bytes.
pub proof fn lemma_encode_keeps_zero_run(alphabet: Seq<char>, bytes: Seq<u8>)
    requires
        valid_alphabet(alphabet),
    ensures
        all_symbols_known(alphabet, spec_encode(alphabet, bytes)),
        leading_run(spec_encode(alphabet, bytes), alphabet[0]) == leading_run(bytes, 0u8),
        spec_encode(alphabet, bytes).skip(leading_run(bytes, 0u8) as int) == symbols_of(
            alphabet,
            be_value(bytes),
        ),
{
    let zeros = leading_run(bytes, 0u8);
    let magnitude = be_value(bytes);
    let digits = symbols_of(alphabet, magnitude);
    let text = spec_encode(alphabet, bytes);
    lemma_symbols_of_canonical(alphabet, magnitude);
    assert(alphabet.contains(alphabet[0]));
    assert forall|i: int| 0 <= i < text.len() implies alphabet.contains(#[trigger] text[i]) by {
        if i >= zeros {
            assert(text[i] == digits[i - zeros]);
        }
    }
    if zeros < text.len() {
        assert(text[zeros as int] == digits[0]);
    }
    lemma_leading_run_is(text, alphabet[0], zeros as int);
    assert(text.skip(zeros as int) =~= digits);
}

/// Decoding what was encoded gives the bytes back, whatever the bytes and
/// whatever the alphabet.
pub proof fn lemma_decode_encode(alphabet: Seq<char>, bytes: Seq<u8>)
    requires
        valid_alphabet(alphabet),
    ensures
        spec_decode(alphabet, spec_encode(alphabet, bytes)) == Some(bytes),
{
    let zeros = leading_run(bytes, 0u8);
    let magnitude = be_value(bytes);
    let tail = bytes.skip(zeros as int);
    lemma_encode_keeps_zero_run(alphabet, bytes);
    lemma_value_of_symbols_of(alphabet, magnitude);
    lemma_leading_run_bounds(bytes, 0u8);
    lemma_be_value_skip_zeros(bytes, zeros as int);
    assert(normalized(tail)) by {
        if tail.len() > 0 {
            assert(tail[0] == bytes[zeros as int]);
        }
    }
    lemma_min_bytes_of_normalized(tail);
    assert(Seq::new(zeros, |i: int| 0u8) + tail =~= bytes);
}

/// Encoding what a text decodes to gives the text back, whatever the text, as
/// long as it decodes: no two texts decode to the same bytes.
pub proof fn lemma_encode_decode(alphabet: Seq<char>, text: Seq<char>)
    requires
        valid_alphabet(alphabet),
        all_symbols_known(alphabet, text),
    ensures
        spec_decode(alphabet, text) is Some,
        spec_encode(alphabet, spec_decode(alphabet, text).unwrap()) == text,
{
    let zeros = leading_run(text, alphabet[0]);
    let digits = text.skip(zeros as int);
    let magnitude = value_of(alphabet, digits);
    let tail = min_bytes(magnitude);
    let bytes = Seq::new(zeros, |i: int| 0u8) + tail;
    lemma_leading_run_bounds(text, alphabet[0]);
    assert forall|i: int| 0 <= i < digits.len() implies alphabet.contains(#[trigger] digits[i]) by {
        assert(digits[i] == text[i + zeros]);
    }
    if digits.len() > 0 {
        assert(digits[0] == text[zeros as int]);
    }
    lemma_symbols_of_value_of(alphabet, digits);
    lemma_be_value_of_min_bytes(magnitude);
    if zeros < bytes.len() {
        assert(bytes[zeros as int] == tail[0]);
    }
    lemma_leading_run_is(bytes, 0u8, zeros as int);
    lemma_be_value_skip_zeros(bytes, zeros as int);
    assert(bytes.skip(zeros as int) =~= tail);
    assert(Seq::new(zeros, |i: int| alphabet[0]) + digits =~= text);
}

/// Encoding what an encoded text decodes to gives the text back: encoded
/// text is canonical.
pub proof fn lemma_encode_decode_canonical(alphabet: Seq<char>, text: Seq<char>)
    requires
        valid_alphabet(alphabet),
        exists|bytes: Seq<u8>| text == spec_encode(alphabet, bytes),
    ensures
        spec_decode(alphabet, text) is Some,
        spec_encode(alphabet, spec_decode(alphabet, text).unwrap()) == text,
{
    let bytes = choose|bytes: Seq<u8>| text == spec_encode(alphabet, bytes);
    lemma_decode_encode(alphabet, bytes);
}

/// Nothing encodes to nothing, and nothing decodes to nothing.
pub proof fn lemma_empty(alphabet: Seq<char>)
    requires
        valid_alphabet(alphabet),
    ensures
        spec_encode(alphabet, Seq::empty()) == Seq::<char>::empty(),
        spec_decode(alphabet, Seq::empty()) == Some(Seq::<u8>::empty()),
{
    let no_bytes = Seq::<u8>::empty();
    let no_text = Seq::<char>::empty();
    assert(be_value(no_bytes) == 0);
    assert(spec_encode(alphabet, no_bytes) =~= no_text);
    assert(no_text.skip(0) =~= no_text);
    assert(value_of(alphabet, no_text) == 0);
    assert(Seq::new(0, |i: int| 0u8) + min_bytes(0) =~= no_bytes);
}

/// Text with a symbol that the alphabet does not have does not decode.
pub proof fn lemma_unknown_symbol_fails(alphabet: Seq<char>, text: Seq<char>, at: int)
    requires
        0 <= at < text.len(),
        !alphabet.contains(text[at]),
    ensures
        spec_decode(alphabet, text) is None,
{
}

} // verus!

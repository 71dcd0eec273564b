//! From bytes to text.

use crate::alphabet::Alphabet;
use crate::bigint::{be_value, BigUint};
use crate::notation::{leading_run, lemma_leading_run_is, lemma_quotient_smaller, symbols_of};
use vstd::prelude::*;

verus! {

/// The text that writes `bytes` over `alphabet`: one zero symbol for each
/// leading zero byte, then the magnitude of `bytes` in the alphabet's
/// base, most significant symbol first.
pub open spec fn spec_encode(alphabet: Seq<char>, bytes: Seq<u8>) -> Seq<char> {
    Seq::new(leading_run(bytes, 0u8), |i: int| alphabet[0]) + symbols_of(
        alphabet,
        be_value(bytes),
    )
}

/// Writes `input` over `alphabet`.
pub fn encode_with(alphabet: &Alphabet, input: &[u8]) -> (text: String)
    requires
        alphabet.wf(),
    ensures
        text@ == spec_encode(alphabet@, input@),
{
    let base: u32 = alphabet.size();
    let zero: char = alphabet.symbol_at(0);
    let mut zeros: usize = 0;
    while zeros < input.len() && input[zeros] == 0
        invariant
            zeros <= input.len(),
            forall|i: int| 0 <= i < zeros ==> input@[i] == 0u8,
        decreases input.len() - zeros,
    {
        zeros += 1;
    }
    proof {
        lemma_leading_run_is(input@, 0u8, zeros as int);
    }
    let mut rest: BigUint = BigUint::from_bytes(input);
    let mut low: Vec<char> = Vec::new();
    assert(symbols_of(alphabet@, rest@) + low@.reverse() =~= symbols_of(alphabet@, rest@));
    while !rest.is_zero()
        invariant
            alphabet.wf(),
            base == alphabet@.len(),
            base >= 2,
            rest.wf(),
            symbols_of(alphabet@, be_value(input@)) == symbols_of(alphabet@, rest@)
                + low@.reverse(),
        decreases rest@,
    {
        let (quotient, digit) = rest.divmod_small(base);
        let symbol: char = alphabet.symbol_at(digit);
        proof {
            lemma_quotient_smaller(rest@, base as nat);
            let front = symbols_of(alphabet@, quotient@);
            assert(front.push(symbol) + low@.reverse() =~= front + low@.push(symbol).reverse());
        }
        low.push(symbol);
        rest = quotient;
    }
    let mut text: String = String::new();
    let mut k: usize = 0;
    while k < zeros
        invariant
            k <= zeros,
            text@ == Seq::new(k as nat, |i: int| zero),
        decreases zeros - k,
    {
        text.push(zero);
        assert(Seq::new(k as nat, |i: int| zero).push(zero) =~= Seq::new(
            (k + 1) as nat,
            |i: int| zero,
        ));
        k += 1;
    }
    let ghost prefix = text@;
    let mut j: usize = low.len();
    while j > 0
        invariant
            j <= low.len(),
            text@ == prefix + low@.reverse().take(low.len() - j),
        decreases j,
    {
        text.push(low[j - 1]);
        proof {
            let done = low@.reverse().take(low.len() - j);
            assert(done.push(low@[j - 1]) =~= low@.reverse().take(low.len() - j + 1));
            assert((prefix + done).push(low@[j - 1]) =~= prefix + done.push(low@[j - 1]));
        }
        j -= 1;
    }
    proof {
        assert(low@.reverse().take(low.len() as int) =~= low@.reverse());
        assert(symbols_of(alphabet@, rest@) =~= Seq::<char>::empty());
        assert(symbols_of(alphabet@, rest@) + low@.reverse() =~= low@.reverse());
    }
    text
}

} // verus!

//! Positional notation over an alphabet: the symbols that write a number,
//! and the number that symbols write.

use crate::alphabet::valid_alphabet;
use vstd::prelude::*;

verus! {

/// How many copies of `x` the sequence `s` starts with.
pub open spec fn leading_run<T>(s: Seq<T>, x: T) -> nat
    decreases s.len(),
{
    if s.len() > 0 && s[0] == x {
        1 + leading_run(s.drop_first(), x)
    } else {
        0
    }
}

/// The symbols that write `n` in the base of `alphabet`, most significant
/// first: no leading zero symbol, and no symbol at all for zero.
pub open spec fn symbols_of(alphabet: Seq<char>, n: nat) -> Seq<char>
    decreases n,
    via symbols_of_terminates
{
    if n == 0 || alphabet.len() < 2 {
        Seq::empty()
    } else {
        symbols_of(alphabet, n / alphabet.len()).push(alphabet[(n % alphabet.len()) as int])
    }
}

#[via_fn]
proof fn symbols_of_terminates(alphabet: Seq<char>, n: nat) {
    if n != 0 && alphabet.len() >= 2 {
        lemma_quotient_smaller(n, alphabet.len());
    }
}

/// Dividing a positive number by a base of two or more makes it smaller.
pub proof fn lemma_quotient_smaller(n: nat, base: nat)
    requires
        n > 0,
        base >= 2,
    ensures
        n / base < n,
{
    assert(n / base < n) by (nonlinear_arith)
        requires
            n > 0,
            base >= 2,
    ;
}

/// The number that `symbols` write in the base of `alphabet`, most
/// significant first, each symbol counting as its position in the alphabet.
pub open spec fn value_of(alphabet: Seq<char>, symbols: Seq<char>) -> nat
    decreases symbols.len(),
{
    if symbols.len() == 0 {
        0
    } else {
        value_of(alphabet, symbols.drop_last()) * alphabet.len() + alphabet.index_of(
            symbols.last(),
        ) as nat
    }
}

/// The run at the start of `s` is within `s`, consists of `x` alone, and is
/// followed by something else.
pub proof fn lemma_leading_run_bounds<T>(s: Seq<T>, x: T)
    ensures
        leading_run(s, x) <= s.len(),
        forall|i: int| 0 <= i < leading_run(s, x) ==> s[i] == x,
        leading_run(s, x) < s.len() ==> s[leading_run(s, x) as int] != x,
    decreases s.len(),
{
    if s.len() > 0 && s[0] == x {
        let rest = s.drop_first();
        lemma_leading_run_bounds(rest, x);
        assert forall|i: int| 0 <= i < leading_run(s, x) implies s[i] == x by {
            if i > 0 {
                assert(rest[i - 1] == s[i]);
            }
        }
        if leading_run(s, x) < s.len() {
            assert(rest[leading_run(rest, x) as int] == s[leading_run(s, x) as int]);
        }
    }
}

/// A prefix of `k` copies of `x` that is followed by something else, or by
/// nothing, is the run at the start of `s`.
pub proof fn lemma_leading_run_is<T>(s: Seq<T>, x: T, k: int)
    requires
        0 <= k <= s.len(),
        forall|i: int| 0 <= i < k ==> s[i] == x,
        k < s.len() ==> s[k] != x,
    ensures
        leading_run(s, x) == k,
    decreases k,
{
    if k > 0 {
        let rest = s.drop_first();
        assert forall|i: int| 0 <= i < k - 1 implies rest[i] == x by {
            assert(rest[i] == s[i + 1]);
        }
        lemma_leading_run_is(rest, x, k - 1);
    }
}

/// In a sequence without duplicates an element is found where it stands.
pub proof fn lemma_index_of_unique(alphabet: Seq<char>, d: int)
    requires
        alphabet.no_duplicates(),
        0 <= d < alphabet.len(),
    ensures
        alphabet.index_of(alphabet[d]) == d,
{
    let found = alphabet.index_of(alphabet[d]);
    assert(0 <= found < alphabet.len() && alphabet[found] == alphabet[d]);
}

/// The writing of a number consists of symbols of the alphabet, and that of
/// a positive number starts with a symbol other than the zero symbol.
pub proof fn lemma_symbols_of_canonical(alphabet: Seq<char>, n: nat)
    requires
        valid_alphabet(alphabet),
    ensures
        forall|i: int|
            0 <= i < symbols_of(alphabet, n).len() ==> alphabet.contains(
                #[trigger] symbols_of(alphabet, n)[i],
            ),
        n > 0 ==> symbols_of(alphabet, n).len() > 0 && symbols_of(alphabet, n)[0] != alphabet[0],
    decreases n,
{
    if n > 0 {
        let base = alphabet.len();
        let front = symbols_of(alphabet, n / base);
        let digit = (n % base) as int;
        lemma_quotient_smaller(n, base);
        lemma_symbols_of_canonical(alphabet, n / base);
        assert(0 <= digit < base) by (nonlinear_arith)
            requires
                digit == n % base,
                base >= 2,
        ;
        assert(alphabet.contains(alphabet[digit]));
        assert forall|i: int| 0 <= i < front.push(alphabet[digit]).len() implies alphabet.contains(
            #[trigger] front.push(alphabet[digit])[i],
        ) by {
            if i < front.len() {
                assert(front.push(alphabet[digit])[i] == front[i]);
            }
        }
        if n / base == 0 {
            assert(digit == n) by (nonlinear_arith)
                requires
                    n / base == 0,
                    digit == n % base,
                    base >= 2,
            ;
            assert(front.len() == 0);
            assert(alphabet[digit] != alphabet[0]);
        } else {
            assert(front.push(alphabet[digit])[0] == front[0]);
        }
    }
}

/// Reading the writing of a number gives the number back.
pub proof fn lemma_value_of_symbols_of(alphabet: Seq<char>, n: nat)
    requires
        valid_alphabet(alphabet),
    ensures
        value_of(alphabet, symbols_of(alphabet, n)) == n,
    decreases n,
{
    if n > 0 {
        let base = alphabet.len();
        let front = symbols_of(alphabet, n / base);
        let digit = (n % base) as int;
        lemma_quotient_smaller(n, base);
        lemma_value_of_symbols_of(alphabet, n / base);
        assert(0 <= digit < base && n == (n / base) * base + digit) by (nonlinear_arith)
            requires
                digit == n % base,
                base >= 2,
        ;
        lemma_index_of_unique(alphabet, digit);
        assert(front.push(alphabet[digit]).drop_last() =~= front);
    }
}

/// Writing the number that symbols write gives the symbols back, as long as
/// they are symbols of the alphabet and do not start with the zero symbol.
/// Such symbols, if there are any, write a positive number.
pub proof fn lemma_symbols_of_value_of(alphabet: Seq<char>, symbols: Seq<char>)
    requires
        valid_alphabet(alphabet),
        forall|i: int| 0 <= i < symbols.len() ==> alphabet.contains(#[trigger] symbols[i]),
        symbols.len() > 0 ==> symbols[0] != alphabet[0],
    ensures
        symbols_of(alphabet, value_of(alphabet, symbols)) == symbols,
        symbols.len() > 0 ==> value_of(alphabet, symbols) > 0,
    decreases symbols.len(),
{
    if symbols.len() > 0 {
        let base = alphabet.len();
        let front = symbols.drop_last();
        let digit = alphabet.index_of(symbols.last());
        let high = value_of(alphabet, front);
        let n = value_of(alphabet, symbols);
        assert(alphabet.contains(symbols.last()));
        assert(0 <= digit < base && alphabet[digit] == symbols.last());
        assert forall|i: int| 0 <= i < front.len() implies alphabet.contains(
            #[trigger] front[i],
        ) by {
            assert(front[i] == symbols[i]);
        }
        if front.len() > 0 {
            assert(front[0] == symbols[0]);
        }
        lemma_symbols_of_value_of(alphabet, front);
        assert(n == high * base + digit);
        assert(n / base == high && n % base == digit as nat) by {
            assert(high * base == base * high) by (nonlinear_arith);
            vstd::arithmetic::div_mod::lemma_fundamental_div_mod_converse(
                n as int,
                base as int,
                high as int,
                digit,
            );
        }
        if front.len() == 0 {
            assert(symbols.last() == symbols[0]);
            assert(digit != 0);
        } else {
            assert(n > 0) by (nonlinear_arith)
                requires
                    n == high * base + digit,
                    high > 0,
                    base >= 2,
                    digit >= 0,
            ;
        }
        assert(front.push(symbols.last()) =~= symbols);
    }
}

} // verus!

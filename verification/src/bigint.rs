//! Unsigned integers of unbounded size, held as base-256 digits.

use vstd::prelude::*;

verus! {

/// The number that results from appending the base-256 `digits`, most
/// significant first, to the number `acc`.
pub open spec fn be_value_from(acc: nat, digits: Seq<u8>) -> nat
    decreases digits.len(),
{
    if digits.len() == 0 {
        acc
    } else {
        be_value_from(acc, digits.drop_last()) * 256 + digits.last() as nat
    }
}

/// The number written by the base-256 `digits`, most significant first.
pub open spec fn be_value(digits: Seq<u8>) -> nat {
    be_value_from(0, digits)
}

/// The shortest big-endian base-256 writing of `n`: no leading zero digit,
/// and no digit at all for zero.
pub open spec fn min_bytes(n: nat) -> Seq<u8>
    decreases n,
{
    if n == 0 {
        Seq::empty()
    } else {
        min_bytes(n / 256).push((n % 256) as u8)
    }
}

/// A digit sequence is normalized when it does not start with a zero digit.
pub open spec fn normalized(digits: Seq<u8>) -> bool {
    digits.len() > 0 ==> digits[0] != 0
}

/// Putting a digit in front of a sequence is the same as folding it into the
/// number the sequence is appended to.
pub proof fn lemma_be_value_from_prepend(acc: nat, d: u8, digits: Seq<u8>)
    ensures
        be_value_from(acc, seq![d] + digits) == be_value_from(acc * 256 + d as nat, digits),
    decreases digits.len(),
{
    let whole = seq![d] + digits;
    if digits.len() == 0 {
        assert(whole.drop_last() =~= Seq::<u8>::empty());
        assert(be_value_from(acc, whole.drop_last()) == acc);
    } else {
        assert(whole.drop_last() =~= seq![d] + digits.drop_last());
        lemma_be_value_from_prepend(acc, d, digits.drop_last());
    }
}

/// Appending digits to a number never makes it smaller.
pub proof fn lemma_be_value_from_lower_bound(acc: nat, digits: Seq<u8>)
    ensures
        be_value_from(acc, digits) >= acc,
    decreases digits.len(),
{
    if digits.len() > 0 {
        lemma_be_value_from_lower_bound(acc, digits.drop_last());
    }
}

/// Zero digits in front of a sequence do not change its value.
pub proof fn lemma_be_value_skip_zeros(digits: Seq<u8>, k: int)
    requires
        0 <= k <= digits.len(),
        forall|i: int| 0 <= i < k ==> digits[i] == 0,
    ensures
        be_value(digits.skip(k)) == be_value(digits),
    decreases k,
{
    if k == 0 {
        assert(digits.skip(0) =~= digits);
    } else {
        let rest = digits.skip(1);
        assert(digits =~= seq![0u8] + rest);
        lemma_be_value_from_prepend(0, 0u8, rest);
        assert(rest.skip(k - 1) =~= digits.skip(k));
        lemma_be_value_skip_zeros(rest, k - 1);
    }
}

/// A non-empty normalized sequence writes a positive number.
pub proof fn lemma_be_value_positive(digits: Seq<u8>)
    requires
        digits.len() > 0,
        normalized(digits),
    ensures
        be_value(digits) > 0,
{
    let rest = digits.skip(1);
    assert(digits =~= seq![digits[0]] + rest);
    lemma_be_value_from_prepend(0, digits[0], rest);
    lemma_be_value_from_lower_bound(digits[0] as nat, rest);
}

/// A normalized sequence is the shortest writing of its own value.
pub proof fn lemma_min_bytes_of_normalized(digits: Seq<u8>)
    requires
        normalized(digits),
    ensures
        min_bytes(be_value(digits)) == digits,
    decreases digits.len(),
{
    if digits.len() == 0 {
    } else {
        let front = digits.drop_last();
        lemma_be_value_positive(digits);
        lemma_min_bytes_of_normalized(front);
        let n = be_value(digits);
        assert(n == be_value(front) * 256 + digits.last() as nat);
        assert(n / 256 == be_value(front) && n % 256 == digits.last() as nat) by {
            vstd::arithmetic::div_mod::lemma_fundamental_div_mod_converse(
                n as int,
                256,
                be_value(front) as int,
                digits.last() as int,
            );
        }
        assert(front.push(digits.last()) =~= digits);
    }
}

/// The shortest writing of `n` is normalized and writes `n`.
pub proof fn lemma_be_value_of_min_bytes(n: nat)
    ensures
        normalized(min_bytes(n)),
        be_value(min_bytes(n)) == n,
        n > 0 ==> min_bytes(n).len() > 0,
    decreases n,
{
    if n > 0 {
        let front = min_bytes(n / 256);
        let last = (n % 256) as u8;
        lemma_be_value_of_min_bytes(n / 256);
        assert(front.push(last).drop_last() =~= front);
        assert(n == (n / 256) * 256 + n % 256) by {
            vstd::arithmetic::div_mod::lemma_fundamental_div_mod(n as int, 256);
        }
        if n / 256 == 0 {
            assert(front.len() == 0);
            assert(min_bytes(n)[0] == last);
        } else {
            assert(min_bytes(n)[0] == front[0]);
        }
    }
}

/// An unsigned integer of unbounded size.
///
/// The digits are base-256, most significant first, and normalized: zero is
/// the empty sequence, and every other number starts with a non-zero digit.
pub struct BigUint {
    digits: Vec<u8>,
}

impl View for BigUint {
    type V = nat;

    closed spec fn view(&self) -> nat {
        be_value(self.digits@)
    }
}

impl BigUint {
    /// The representation invariant: the digits are normalized.
    pub closed spec fn wf(&self) -> bool {
        normalized(self.digits@)
    }

    /// The number zero.
    pub fn zero() -> (r: BigUint)
        ensures
            r.wf(),
            r@ == 0,
    {
        BigUint { digits: Vec::new() }
    }

    /// Reads `bytes` as a big-endian magnitude. Leading zero bytes do not
    /// count towards it, and are not kept.
    pub fn from_bytes(bytes: &[u8]) -> (r: BigUint)
        ensures
            r.wf(),
            r@ == be_value(bytes@),
    {
        let mut start: usize = 0;
        while start < bytes.len() && bytes[start] == 0
            invariant
                start <= bytes.len(),
                forall|i: int| 0 <= i < start ==> bytes@[i] == 0,
            decreases bytes.len() - start,
        {
            start += 1;
        }
        let mut digits: Vec<u8> = Vec::new();
        let mut i: usize = start;
        while i < bytes.len()
            invariant
                start <= i <= bytes.len(),
                digits@ == bytes@.subrange(start as int, i as int),
            decreases bytes.len() - i,
        {
            digits.push(bytes[i]);
            assert(bytes@.subrange(start as int, i as int).push(bytes@[i as int])
                =~= bytes@.subrange(start as int, i + 1));
            i += 1;
        }
        proof {
            assert(digits@ =~= bytes@.skip(start as int));
            lemma_be_value_skip_zeros(bytes@, start as int);
        }
        BigUint { digits }
    }

    /// Whether the number is zero.
    pub fn is_zero(&self) -> (r: bool)
        requires
            self.wf(),
        ensures
            r == (self@ == 0),
    {
        proof {
            if self.digits@.len() > 0 {
                lemma_be_value_positive(self.digits@);
            }
        }
        self.digits.len() == 0
    }

    /// Divides by `divisor`: the quotient, and the remainder below `divisor`.
    ///
    /// One pass of long division from the most significant digit down,
    /// carrying the running remainder.
    pub fn divmod_small(&self, divisor: u32) -> (r: (BigUint, u32))
        requires
            self.wf(),
            divisor > 0,
        ensures
            r.0.wf(),
            r.0@ == self@ / (divisor as nat),
            r.1 as nat == self@ % (divisor as nat),
    {
        let d: u64 = divisor as u64;
        let mut out: Vec<u8> = Vec::new();
        let mut rem: u64 = 0;
        let mut i: usize = 0;
        assert(self.digits@.take(0) =~= Seq::<u8>::empty());
        assert(be_value(out@) == 0 && be_value(self.digits@.take(0)) == 0);
        while i < self.digits.len()
            invariant
                i <= self.digits.len(),
                d == divisor,
                d > 0,
                rem < d,
                normalized(out@),
                be_value(self.digits@.take(i as int)) == be_value(out@) * d + rem,
            decreases self.digits.len() - i,
        {
            let digit: u8 = self.digits[i];
            let cur: u64 = rem * 256 + digit as u64;
            let q: u64 = cur / d;
            let next_rem: u64 = cur % d;
            proof {
                assert(cur < d * 256);
                assert(q < 256) by (nonlinear_arith)
                    requires
                        cur < d * 256,
                        d > 0,
                        q == cur / d,
                ;
                assert(cur == q * d + next_rem) by (nonlinear_arith)
                    requires
                        d > 0,
                        q == cur / d,
                        next_rem == cur % d,
                ;
                let prefix = self.digits@.take(i + 1);
                assert(prefix.drop_last() =~= self.digits@.take(i as int));
                assert(prefix.last() == digit);
                let v = be_value(out@);
                assert((v * d + rem) * 256 + digit == (v * 256 + q) * d + next_rem)
                    by (nonlinear_arith)
                    requires
                        cur == rem * 256 + digit,
                        cur == q * d + next_rem,
                ;
            }
            if out.len() > 0 || q != 0 {
                proof {
                    assert(out@.push(q as u8).drop_last() =~= out@);
                }
                out.push(q as u8);
            }
            rem = next_rem;
            i += 1;
        }
        proof {
            assert(self.digits@.take(self.digits.len() as int) =~= self.digits@);
            let v = be_value(out@);
            assert(v * d == d * v) by (nonlinear_arith);
            vstd::arithmetic::div_mod::lemma_fundamental_div_mod_converse(
                self@ as int,
                d as int,
                v as int,
                rem as int,
            );
        }
        (BigUint { digits: out }, rem as u32)
    }

    /// Multiplies by `multiplier` and adds `addend`.
    ///
    /// One pass from the least significant digit up, carrying into as many new
    /// digits as the result needs.
    pub fn mul_add_small(&self, multiplier: u32, addend: u32) -> (r: BigUint)
        requires
            self.wf(),
        ensures
            r.wf(),
            r@ == self@ * (multiplier as nat) + addend as nat,
    {
        let m: u64 = multiplier as u64;
        let mut low: Vec<u8> = Vec::new();
        let mut carry: u64 = addend as u64;
        let mut i: usize = self.digits.len();
        assert(self.digits@.take(i as int) =~= self.digits@);
        assert(low@.reverse() =~= Seq::<u8>::empty());
        while i > 0
            invariant
                i <= self.digits.len(),
                m == multiplier,
                carry <= 0xffff_ffff,
                self@ * m + addend == be_value_from(
                    (be_value(self.digits@.take(i as int)) * m + carry) as nat,
                    low@.reverse(),
                ),
            decreases i,
        {
            let digit: u8 = self.digits[i - 1];
            assert(digit as u64 * m + carry <= 255 * 0xffff_ffff + 0xffff_ffff) by (nonlinear_arith)
                requires
                    digit <= 255,
                    m <= 0xffff_ffff,
                    carry <= 0xffff_ffff,
            ;
            let cur: u64 = digit as u64 * m + carry;
            let out: u8 = (cur % 256) as u8;
            let next_carry: u64 = cur / 256;
            proof {
                let prefix = self.digits@.take(i as int);
                assert(prefix.drop_last() =~= self.digits@.take(i - 1));
                assert(prefix.last() == digit);
                let hi = be_value(self.digits@.take(i - 1));
                assert((hi * 256 + digit) * m + carry == (hi * m + next_carry) * 256 + out)
                    by (nonlinear_arith)
                    requires
                        cur == digit * m + carry,
                        out == cur % 256,
                        next_carry == cur / 256,
                ;
                assert(low@.push(out).reverse() =~= seq![out] + low@.reverse());
                lemma_be_value_from_prepend((hi * m + next_carry) as nat, out, low@.reverse());
            }
            low.push(out);
            carry = next_carry;
            i -= 1;
        }
        proof {
            let hi = be_value(self.digits@.take(i as int));
            assert(self.digits@.take(0) =~= Seq::<u8>::empty());
            assert(hi == 0);
            assert(hi * m == 0) by (nonlinear_arith)
                requires
                    hi == 0,
            ;
        }
        while carry > 0
            invariant
                self@ * m + addend == be_value_from(carry as nat, low@.reverse()),
            decreases carry,
        {
            let out: u8 = (carry % 256) as u8;
            let next_carry: u64 = carry / 256;
            proof {
                assert(low@.push(out).reverse() =~= seq![out] + low@.reverse());
                lemma_be_value_from_prepend(next_carry as nat, out, low@.reverse());
            }
            low.push(out);
            carry = next_carry;
        }
        while low.len() > 0 && low[low.len() - 1] == 0
            invariant
                self@ * m + addend == be_value(low@.reverse()),
            decreases low.len(),
        {
            proof {
                let rest = low@.drop_last();
                assert(low@.reverse() =~= seq![0u8] + rest.reverse());
                lemma_be_value_from_prepend(0, 0u8, rest.reverse());
            }
            low.pop();
        }
        let mut digits: Vec<u8> = Vec::new();
        let mut j: usize = low.len();
        while j > 0
            invariant
                j <= low.len(),
                digits@.len() == low.len() - j,
                forall|t: int| 0 <= t < digits@.len() ==> digits@[t] == low@[low.len() - 1 - t],
            decreases j,
        {
            digits.push(low[j - 1]);
            j -= 1;
        }
        assert(digits@ =~= low@.reverse());
        BigUint { digits }
    }

    /// The shortest big-endian writing of the number; empty for zero.
    pub fn to_bytes(&self) -> (r: Vec<u8>)
        requires
            self.wf(),
        ensures
            r@ == min_bytes(self@),
    {
        proof {
            lemma_min_bytes_of_normalized(self.digits@);
        }
        self.digits.clone()
    }
}

} // verus!

//! Base conversion: a bijection between a `u64` and a digit sequence of a
//! given radix, left-padded with zero digits to a configured minimum length.

use crate::cascade::digits_in_range;
use crate::transform::BlockIdError;
use crate::transform::InvertableTransform;
use vstd::arithmetic::div_mod::lemma_div_is_strictly_smaller;
use vstd::arithmetic::div_mod::lemma_fundamental_div_mod;
use vstd::arithmetic::div_mod::lemma_mod_division_less_than_divisor;
use vstd::arithmetic::mul::lemma_mul_is_commutative;
use vstd::prelude::*;

verus! {

/// The number a digit sequence denotes, read most-significant digit first.
pub open spec fn spec_be_val(s: Seq<u8>, base: u8) -> nat
    decreases s.len(),
{
    if s.len() == 0 {
        0
    } else {
        spec_be_val(s.drop_last(), base) * (base as nat) + (s.last() as nat)
    }
}

/// The canonical (shortest, no leading zero) digit sequence of `n` in the
/// given base; the empty sequence for zero.
pub open spec fn spec_to_digits(n: nat, base: u8) -> Seq<u8>
    decreases n,
    when base >= 2
    via spec_to_digits_decreases
{
    if n == 0 {
        Seq::empty()
    } else {
        spec_to_digits(n / (base as nat), base).push((n % (base as nat)) as u8)
    }
}

#[via_fn]
proof fn spec_to_digits_decreases(n: nat, base: u8) {
    if n > 0 {
        lemma_div_is_strictly_smaller(n as int, base as int);
    }
}

/// `s` left-padded with zero digits up to `width`; unchanged when already at
/// least that long.
pub open spec fn spec_left_pad(s: Seq<u8>, width: nat) -> Seq<u8> {
    if s.len() >= width {
        s
    } else {
        Seq::new((width - s.len()) as nat, |i: int| 0u8) + s
    }
}

/// The digit sequence that the forward conversion produces for `n`.
pub open spec fn spec_base_digits(n: u64, base: u8, min_length: u8) -> Seq<u8> {
    spec_left_pad(spec_to_digits(n as nat, base), min_length as nat)
}

/// Every digit that the canonical conversion produces is below the base.
pub proof fn lemma_to_digits_in_range(n: nat, base: u8)
    requires
        base >= 2,
    ensures
        digits_in_range(spec_to_digits(n, base), base),
    decreases n,
{
    if n > 0 {
        lemma_div_is_strictly_smaller(n as int, base as int);
        lemma_to_digits_in_range(n / (base as nat), base);
        lemma_mod_division_less_than_divisor(n as int, base as int);
    }
}

/// Law: evaluating the canonical digits of `n` gives back `n`.
pub proof fn lemma_to_digits_val(n: nat, base: u8)
    requires
        base >= 2,
    ensures
        spec_be_val(spec_to_digits(n, base), base) == n,
    decreases n,
{
    if n > 0 {
        let b = base as nat;
        let q = n / b;
        let r = n % b;
        lemma_div_is_strictly_smaller(n as int, base as int);
        lemma_mod_division_less_than_divisor(n as int, base as int);
        lemma_to_digits_val(q, base);
        assert(spec_to_digits(n, base) == spec_to_digits(q, base).push((r as u8)));
        assert(spec_to_digits(q, base).push((r as u8)).drop_last() =~= spec_to_digits(q, base));
        assert(spec_to_digits(q, base).push((r as u8)).last() == (r as u8));
        assert(spec_be_val(spec_to_digits(n, base), base) == q * (base as nat) + r);
        assert(q * (base as nat) + r == n) by {
            lemma_fundamental_div_mod(n as int, base as int);
            lemma_mul_is_commutative(q as int, base as int);
        }
    }
}

proof fn lemma_be_val_zero_prepend(s: Seq<u8>, base: u8)
    ensures
        spec_be_val(seq![0u8] + s, base) == spec_be_val(s, base),
    decreases s.len(),
{
    if s.len() == 0 {
        assert((seq![0u8] + s) =~= seq![0u8]);
        let z = seq![0u8];
        assert(z.drop_last() =~= Seq::<u8>::empty());
        assert(spec_be_val(Seq::<u8>::empty(), base) == 0);
        assert(z.last() == 0u8);
        assert(spec_be_val(z, base) == spec_be_val(z.drop_last(), base) * (base as nat) + (
        z.last() as nat));
        assert(spec_be_val(z, base) == 0);
    } else {
        assert((seq![0u8] + s).drop_last() =~= seq![0u8] + s.drop_last());
        assert((seq![0u8] + s).last() == s.last());
        lemma_be_val_zero_prepend(s.drop_last(), base);
    }
}

/// Law: left-padding with zero digits does not change the denoted number.
pub proof fn lemma_be_val_left_pad(s: Seq<u8>, base: u8, width: nat)
    ensures
        spec_be_val(spec_left_pad(s, width), base) == spec_be_val(s, base),
    decreases width,
{
    if s.len() < width {
        assert(spec_left_pad(s, width) =~= seq![0u8] + spec_left_pad(s, (width - 1) as nat));
        lemma_be_val_left_pad(s, base, (width - 1) as nat);
        lemma_be_val_zero_prepend(spec_left_pad(s, (width - 1) as nat), base);
    }
}

/// Taking one more digit multiplies the denoted value by the base and adds
/// that digit.
pub proof fn lemma_be_val_take_succ(s: Seq<u8>, base: u8, i: int)
    requires
        0 <= i < s.len(),
    ensures
        spec_be_val(s.take(i + 1), base) == spec_be_val(s.take(i), base) * (base as nat) + (s[
            i
        ] as nat),
{
    assert(s.take(i + 1).drop_last() =~= s.take(i));
    assert(s.take(i + 1).last() == s[i]);
}

/// The value of a prefix never exceeds the value of the whole sequence.
pub proof fn lemma_be_val_take_le(s: Seq<u8>, base: u8, i: int)
    requires
        base >= 1,
        0 <= i <= s.len(),
    ensures
        spec_be_val(s.take(i), base) <= spec_be_val(s, base),
    decreases s.len() - i,
{
    if i == s.len() {
        assert(s.take(i) =~= s);
    } else {
        lemma_be_val_take_succ(s, base, i);
        let v = spec_be_val(s.take(i), base);
        assert(v * (base as nat) >= v) by (nonlinear_arith)
            requires
                base >= 1,
                v >= 0,
        ;
        lemma_be_val_take_le(s, base, i + 1);
    }
}

/// Converts between a `u64` and its fixed-minimum-length digit sequence in a
/// given radix.
#[derive(Clone)]
pub struct BaseConversion {
    pub radix: u8,
    pub min_length: u8,
}

impl BaseConversion {
    /// A conversion with no padding beyond a single digit.
    pub fn new(radix: u8) -> (r: Self)
        ensures
            r.radix == radix,
            r.min_length == 1,
    {
        Self::new_with_min_length(radix, 1)
    }

    pub fn new_with_min_length(radix: u8, min_length: u8) -> (r: Self)
        ensures
            r.radix == radix,
            r.min_length == min_length,
    {
        BaseConversion { radix, min_length }
    }

    /// Decomposes `input` into digits, most significant first, left-padded
    /// with zeros to the minimum length.  Total for every `u64` once the
    /// radix is at least two.
    pub fn forward(&self, input: u64) -> (r: Vec<u8>)
        requires
            self.radix >= 2,
        ensures
            r@ == spec_base_digits(input, self.radix, self.min_length),
            digits_in_range(r@, self.radix),
            r@.len() >= self.min_length,
    {
        let base = self.radix as u64;
        let mut rev: Vec<u8> = Vec::new();
        let mut n = input;
        while n > 0
            invariant
                self.radix >= 2,
                base == self.radix as u64,
                spec_to_digits(input as nat, self.radix) == spec_to_digits(n as nat, self.radix)
                    + rev@.reverse(),
                digits_in_range(rev@, self.radix),
            decreases n,
        {
            let d = (n % base) as u8;
            let ghost old_rev = rev@;
            let ghost old_n = n as nat;
            rev.push(d);
            n = n / base;
            proof {
                lemma_div_is_strictly_smaller(old_n as int, base as int);
                lemma_mod_division_less_than_divisor(old_n as int, base as int);
                assert(spec_to_digits(old_n, self.radix) == spec_to_digits(n as nat, self.radix)
                    + seq![d]);
                assert(rev@.reverse() =~= seq![d] + old_rev.reverse());
                assert(spec_to_digits(n as nat, self.radix) + (seq![d] + old_rev.reverse())
                    =~= (spec_to_digits(n as nat, self.radix) + seq![d]) + old_rev.reverse());
            }
        }
        proof {
            assert(spec_to_digits(input as nat, self.radix) =~= rev@.reverse());
        }
        let min_length = self.min_length as usize;
        let ghost digits = spec_to_digits(input as nat, self.radix);
        while rev.len() < min_length
            invariant
                min_length == self.min_length as usize,
                rev@.len() >= digits.reverse().len(),
                rev@.take(digits.reverse().len() as int) == digits.reverse(),
                forall|j: int| digits.reverse().len() <= j < rev@.len() ==> rev@[j] == 0u8,
                rev@.len() == digits.reverse().len() || rev@.len() <= min_length,
                digits_in_range(rev@, self.radix),
                self.radix >= 2,
            decreases min_length - rev@.len(),
        {
            let ghost old_rev = rev@;
            rev.push(0);
            proof {
                assert(rev@.take(digits.reverse().len() as int) =~= old_rev.take(
                    digits.reverse().len() as int,
                ));
            }
        }
        let mut out: Vec<u8> = Vec::new();
        let mut i = rev.len();
        while i > 0
            invariant
                i <= rev@.len(),
                out@ == rev@.skip(i as int).reverse(),
                digits_in_range(rev@, self.radix),
                digits_in_range(out@, self.radix),
            decreases i,
        {
            i = i - 1;
            let ghost old_out = out@;
            out.push(rev[i]);
            proof {
                assert(out@ =~= rev@.skip(i as int).reverse());
            }
        }
        proof {
            assert(out@ == rev@.reverse()) by {
                assert(rev@.skip(0) =~= rev@);
            }
            let dlen = digits.len() as int;
            assert(forall|j: int| 0 <= j < dlen ==> rev@[j] == digits.reverse()[j]) by {
                assert(forall|j: int|
                    0 <= j < dlen ==> rev@.take(dlen)[j] == rev@[j]);
            }
            assert(forall|j: int| 0 <= j < dlen ==> digits.reverse()[j] == digits[dlen - 1 - j]);
            assert(out@ =~= spec_left_pad(digits, self.min_length as nat));
        }
        out
    }

    /// Evaluates a digit sequence as a big-endian number.  Returns the value
    /// whenever it fits in a `u64`, and fails with `Overflow` exactly when it
    /// does not.
    pub fn backward(&self, data: Vec<u8>) -> (r: Result<u64, BlockIdError>)
        requires
            self.radix >= 2,
        ensures
            spec_be_val(data@, self.radix) <= u64::MAX ==> r == Ok::<u64, BlockIdError>(
                spec_be_val(data@, self.radix) as u64,
            ),
            spec_be_val(data@, self.radix) > u64::MAX ==> r == Err::<u64, BlockIdError>(
                BlockIdError::Overflow,
            ),
    {
        let base = self.radix as u64;
        let mut result: u64 = 0;
        let mut i: usize = 0;
        while i < data.len()
            invariant
                self.radix >= 2,
                base == self.radix as u64,
                i <= data@.len(),
                result == spec_be_val(data@.take(i as int), self.radix),
            decreases data@.len() - i,
        {
            let d = data[i];
            let m = match result.checked_mul(base) {
                Some(m) => m,
                None => {
                    proof {
                        lemma_be_val_take_succ(data@, self.radix, i as int);
                        lemma_be_val_take_le(data@, self.radix, i + 1);
                    }
                    return Err(BlockIdError::Overflow);
                },
            };
            let a = match m.checked_add(d as u64) {
                Some(a) => a,
                None => {
                    proof {
                        lemma_be_val_take_succ(data@, self.radix, i as int);
                        lemma_be_val_take_le(data@, self.radix, i + 1);
                    }
                    return Err(BlockIdError::Overflow);
                },
            };
            result = a;
            i += 1;
            proof {
                lemma_be_val_take_succ(data@, self.radix, i - 1);
            }
        }
        proof {
            assert(data@.take(data@.len() as int) =~= data@);
        }
        Ok(result)
    }
}

impl InvertableTransform for BaseConversion {
    type Input = u64;

    type Output = Vec<u8>;

    open spec fn forward_allowed(&self, input: &u64) -> bool {
        self.radix >= 2
    }

    open spec fn backward_allowed(&self, output: &Vec<u8>) -> bool {
        self.radix >= 2
    }

    fn forward(&self, input: u64) -> Result<Vec<u8>, BlockIdError> {
        Ok(BaseConversion::forward(self, input))
    }

    fn backward(&self, output: Vec<u8>) -> Result<u64, BlockIdError> {
        BaseConversion::backward(self, output)
    }
}

} // verus!

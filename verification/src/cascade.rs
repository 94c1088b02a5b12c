//! The diffusion stage: each digit absorbs the previous output digit by
//! modular addition, so a change in one digit propagates to every digit at or
//! after it.

use crate::add_mod::add_mod;
use crate::add_mod::sub_mod;
use crate::transform::BlockIdError;
use crate::transform::InvertableTransform;
use vstd::arithmetic::div_mod::lemma_mod_division_less_than_divisor;
use vstd::arithmetic::div_mod::lemma_small_mod;
use vstd::arithmetic::div_mod::lemma_sub_mod_noop;
use vstd::prelude::*;

verus! {

/// Every element of `s` is a digit of the given base.
pub open spec fn digits_in_range(s: Seq<u8>, base: u8) -> bool {
    forall|i: int| 0 <= i < s.len() ==> s[i] < base
}

/// The forward cascade of `s`, with `last` the running value carried in from
/// the left: every digit becomes itself plus the previous output digit,
/// modulo `base`.
pub open spec fn spec_cascade_forward(s: Seq<u8>, base: u8, last: u8) -> Seq<u8>
    decreases s.len(),
{
    if s.len() == 0 {
        Seq::empty()
    } else {
        let d = (((s[0] + last) % (base as int)) as u8);
        seq![d] + spec_cascade_forward(s.drop_first(), base, d)
    }
}

/// The running value after the forward cascade has consumed all of `s`.
pub open spec fn spec_cascade_carry(s: Seq<u8>, base: u8, last: u8) -> u8
    decreases s.len(),
{
    if s.len() == 0 {
        last
    } else {
        spec_cascade_carry(s.drop_first(), base, (((s[0] + last) % (base as int)) as u8))
    }
}

/// The backward cascade of `s`: every digit gives back what the forward pass
/// added, using the not-yet-decoded neighbour as the carry.
pub open spec fn spec_cascade_backward(s: Seq<u8>, base: u8, last: u8) -> Seq<u8>
    decreases s.len(),
{
    if s.len() == 0 {
        Seq::empty()
    } else {
        let d = (((s[0] - last) % (base as int)) as u8);
        seq![d] + spec_cascade_backward(s.drop_first(), base, s[0])
    }
}

proof fn lemma_cascade_forward_push(s: Seq<u8>, base: u8, last: u8, x: u8)
    requires
        base >= 1,
    ensures
        spec_cascade_forward(s.push(x), base, last) == spec_cascade_forward(s, base, last).push(
            (((x + spec_cascade_carry(s, base, last)) % (base as int)) as u8),
        ),
        spec_cascade_carry(s.push(x), base, last) == (((x + spec_cascade_carry(s, base, last)) % (
        base as int)) as u8),
    decreases s.len(),
{
    if s.len() == 0 {
        assert(s.push(x).drop_first() =~= Seq::<u8>::empty());
        assert(spec_cascade_forward(s.push(x), base, last) =~= spec_cascade_forward(
            s,
            base,
            last,
        ).push((((x + spec_cascade_carry(s, base, last)) % (base as int)) as u8))) by {
            reveal_with_fuel(spec_cascade_forward, 2);
            reveal_with_fuel(spec_cascade_carry, 2);
        }
        assert(spec_cascade_carry(s.push(x), base, last) == (((x + last) % (base as int)) as u8))
            by {
            reveal_with_fuel(spec_cascade_carry, 2);
            assert(s.push(x)[0] == x);
            assert(s.push(x).drop_first() =~= Seq::<u8>::empty());
        }
    } else {
        let d = (((s[0] + last) % (base as int)) as u8);
        assert(s.push(x).drop_first() =~= s.drop_first().push(x));
        lemma_cascade_forward_push(s.drop_first(), base, d, x);
        assert(s.push(x)[0] == s[0]);
        assert(spec_cascade_carry(s.push(x), base, last) == spec_cascade_carry(
            s.drop_first().push(x),
            base,
            d,
        ));
        assert(spec_cascade_carry(s, base, last) == spec_cascade_carry(s.drop_first(), base, d));
        assert(spec_cascade_forward(s.push(x), base, last) =~= spec_cascade_forward(
            s,
            base,
            last,
        ).push((((x + spec_cascade_carry(s, base, last)) % (base as int)) as u8)));
    }
}

proof fn lemma_cascade_backward_push(s: Seq<u8>, base: u8, last: u8, x: u8)
    requires
        base >= 1,
    ensures
        spec_cascade_backward(s.push(x), base, last) == spec_cascade_backward(
            s,
            base,
            last,
        ).push((((x - (if s.len() == 0 { last } else { s.last() })) % (base as int)) as u8)),
    decreases s.len(),
{
    if s.len() == 0 {
        assert(s.push(x).drop_first() =~= Seq::<u8>::empty());
        assert(spec_cascade_backward(s.push(x), base, last) =~= spec_cascade_backward(
            s,
            base,
            last,
        ).push((((x - last) % (base as int)) as u8))) by {
            reveal_with_fuel(spec_cascade_backward, 2);
        }
    } else {
        assert(s.push(x).drop_first() =~= s.drop_first().push(x));
        lemma_cascade_backward_push(s.drop_first(), base, s[0], x);
        assert(s.drop_first().len() == 0 ==> s.last() == s[0]);
        assert(s.drop_first().len() != 0 ==> s.drop_first().last() == s.last());
        assert(spec_cascade_backward(s.push(x), base, last) =~= spec_cascade_backward(
            s,
            base,
            last,
        ).push((((x - s.last()) % (base as int)) as u8)));
    }
}

proof fn lemma_cascade_round_trip_from(s: Seq<u8>, base: u8, last: u8)
    requires
        digits_in_range(s, base),
        last < base,
    ensures
        spec_cascade_backward(spec_cascade_forward(s, base, last), base, last) == s,
    decreases s.len(),
{
    if s.len() > 0 {
        let b = base as int;
        let d = (((s[0] + last) % b) as u8);
        lemma_mod_division_less_than_divisor(s[0] + last, b);
        assert(spec_cascade_forward(s, base, last).drop_first() == spec_cascade_forward(
            s.drop_first(),
            base,
            d,
        ));
        lemma_cascade_round_trip_from(s.drop_first(), base, d);
        assert((d - last) % b == s[0] as int) by {
            lemma_sub_mod_noop(s[0] + last, last as int, b);
            lemma_small_mod(last as nat, base as nat);
            lemma_small_mod(s[0] as nat, base as nat);
        }
        assert(spec_cascade_backward(spec_cascade_forward(s, base, last), base, last) =~= s);
    }
}

/// Law: for every digit sequence of a radix of at least two, the backward
/// cascade undoes the forward cascade.
pub proof fn lemma_cascade_round_trip(s: Seq<u8>, base: u8)
    requires
        base >= 2,
        digits_in_range(s, base),
    ensures
        spec_cascade_backward(spec_cascade_forward(s, base, 0), base, 0) == s,
{
    lemma_cascade_round_trip_from(s, base, 0);
}

/// Folds every digit into the next with modular addition, and undoes it.
#[derive(Clone)]
pub struct Cascade {
    pub radix: u8,
}

impl Cascade {
    pub fn new(radix: u8) -> (r: Self)
        ensures
            r.radix == radix,
    {
        Cascade { radix }
    }

    /// Runs the diffusion pass left to right.  Fails with `OutOfRange` when
    /// some element is not a digit of the radix, and only then.
    pub fn forward(&self, input: Vec<u8>) -> (r: Result<Vec<u8>, BlockIdError>)
        ensures
            digits_in_range(input@, self.radix) ==> (r matches Ok(o) && o@
                == spec_cascade_forward(input@, self.radix, 0)),
            !digits_in_range(input@, self.radix) ==> r == Err::<Vec<u8>, BlockIdError>(
                BlockIdError::OutOfRange,
            ),
            r matches Ok(o) ==> o@.len() == input@.len() && digits_in_range(o@, self.radix),
    {
        let radix = self.radix;
        let ghost orig = input@;
        let mut out = input;
        let mut last: u8 = 0;
        let mut i: usize = 0;
        while i < out.len()
            invariant
                orig == input@,
                radix == self.radix,
                out@.len() == orig.len(),
                i <= orig.len(),
                forall|j: int| i <= j < orig.len() ==> out@[j] == orig[j],
                digits_in_range(orig.take(i as int), radix),
                out@.take(i as int) == spec_cascade_forward(orig.take(i as int), radix, 0),
                last == spec_cascade_carry(orig.take(i as int), radix, 0),
                i > 0 ==> last < radix,
                i == 0 ==> last == 0,
                digits_in_range(out@.take(i as int), radix),
            decreases orig.len() - i,
        {
            let d = out[i];
            if d >= radix {
                proof {
                    assert(orig[i as int] == out@[i as int]);
                    assert(!digits_in_range(orig, radix));
                }
                return Err(BlockIdError::OutOfRange);
            }
            let nd = add_mod(d, last, radix);
            out.set(i, nd);
            last = nd;
            i += 1;
            proof {
                assert(orig.take(i as int) =~= orig.take(i - 1).push(d));
                lemma_cascade_forward_push(orig.take(i - 1), radix, 0, d);
                assert(out@.take(i as int) =~= out@.take(i - 1).push(nd));
                assert(out@.take(i - 1) =~= spec_cascade_forward(orig.take(i - 1), radix, 0));
            }
        }
        proof {
            assert(orig.take(orig.len() as int) =~= orig);
            assert(out@.take(orig.len() as int) =~= out@);
        }
        Ok(out)
    }

    /// Undoes the diffusion pass.  Fails with `OutOfRange` when some element
    /// is not a digit of the radix, and only then.
    pub fn backward(&self, output: Vec<u8>) -> (r: Result<Vec<u8>, BlockIdError>)
        ensures
            digits_in_range(output@, self.radix) ==> (r matches Ok(o) && o@
                == spec_cascade_backward(output@, self.radix, 0)),
            !digits_in_range(output@, self.radix) ==> r == Err::<Vec<u8>, BlockIdError>(
                BlockIdError::OutOfRange,
            ),
            r matches Ok(o) ==> o@.len() == output@.len() && digits_in_range(o@, self.radix),
    {
        let radix = self.radix;
        let ghost orig = output@;
        let mut out = output;
        let mut last: u8 = 0;
        let mut i: usize = 0;
        while i < out.len()
            invariant
                orig == output@,
                radix == self.radix,
                out@.len() == orig.len(),
                i <= orig.len(),
                forall|j: int| i <= j < orig.len() ==> out@[j] == orig[j],
                digits_in_range(orig.take(i as int), radix),
                out@.take(i as int) == spec_cascade_backward(orig.take(i as int), radix, 0),
                i > 0 ==> last == orig[i - 1] && last < radix,
                i == 0 ==> last == 0,
                digits_in_range(out@.take(i as int), radix),
            decreases orig.len() - i,
        {
            let d = out[i];
            if d >= radix {
                proof {
                    assert(orig[i as int] == out@[i as int]);
                    assert(!digits_in_range(orig, radix));
                }
                return Err(BlockIdError::OutOfRange);
            }
            let nd = sub_mod(d, last, radix);
            out.set(i, nd);
            last = d;
            i += 1;
            proof {
                assert(orig.take(i as int) =~= orig.take(i - 1).push(d));
                lemma_cascade_backward_push(orig.take(i - 1), radix, 0, d);
                assert(out@.take(i as int) =~= out@.take(i - 1).push(nd));
                assert(out@.take(i - 1) =~= spec_cascade_backward(orig.take(i - 1), radix, 0));
            }
        }
        proof {
            assert(orig.take(orig.len() as int) =~= orig);
            assert(out@.take(orig.len() as int) =~= out@);
        }
        Ok(out)
    }
}

impl InvertableTransform for Cascade {
    type Input = Vec<u8>;

    type Output = Vec<u8>;

    open spec fn forward_allowed(&self, input: &Vec<u8>) -> bool {
        true
    }

    open spec fn backward_allowed(&self, output: &Vec<u8>) -> bool {
        true
    }

    fn forward(&self, input: Vec<u8>) -> Result<Vec<u8>, BlockIdError> {
        Cascade::forward(self, input)
    }

    fn backward(&self, output: Vec<u8>) -> Result<Vec<u8>, BlockIdError> {
        Cascade::backward(self, output)
    }
}

} // verus!

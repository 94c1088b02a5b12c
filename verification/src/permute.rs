//! Lifts the single-digit permutation to whole digit sequences, applying it
//! to every element independently and stopping at the first failure.

use crate::permutation::Permutation;
use crate::permutation::spec_seeded_table;
use crate::transform::BlockIdError;
use crate::transform::InvertableTransform;
use vstd::prelude::*;

verus! {

/// Every element of `s` is below `n`.
pub open spec fn below(s: Seq<u8>, n: int) -> bool {
    forall|i: int| 0 <= i < s.len() ==> (#[trigger] s[i] as int) < n
}

/// `s` mapped elementwise through the lookup table `t`.
pub open spec fn spec_apply_table(s: Seq<u8>, t: Seq<u8>) -> Seq<u8> {
    Seq::new(s.len(), |i: int| t[s[i] as int])
}

/// Law: mapping through a well-formed permutation's table and then through
/// its inverse gives back the original sequence, for every in-range
/// sequence.
pub proof fn lemma_permute_round_trip(p: Permutation, s: Seq<u8>)
    requires
        p.wf(),
        below(s, p.table@.len() as int),
    ensures
        spec_apply_table(spec_apply_table(s, p.table@), p.inverse@) == s,
{
    assert(spec_apply_table(spec_apply_table(s, p.table@), p.inverse@) =~= s);
}

/// Applies a digit permutation to every element of a sequence.
#[derive(Clone)]
pub struct Permute {
    pub permutation: Permutation,
}

impl Permute {
    pub fn new(permutation: Permutation) -> (r: Self)
        ensures
            r.permutation == permutation,
    {
        Self { permutation }
    }

    /// Builds the elementwise stage from the deterministic seeded shuffle;
    /// the derived table is a pure function of `length` and `seed`.
    pub fn new_from_seed(length: u8, seed: u128) -> (r: Self)
        ensures
            r.permutation.wf(),
            r.permutation.table@ == spec_seeded_table(length, seed),
            r.permutation.table@.len() == length as nat,
    {
        let perm = Permutation::new_from_seed(length, seed);
        Self::new(perm)
    }

    /// Maps every digit through the forward table.  Fails with `OutOfRange`
    /// when some digit is not below the table's length, and only then.
    pub fn forward(&self, input: Vec<u8>) -> (r: Result<Vec<u8>, BlockIdError>)
        ensures
            below(input@, self.permutation.table@.len() as int) ==> (r matches Ok(o) && o@
                == spec_apply_table(input@, self.permutation.table@)),
            !below(input@, self.permutation.table@.len() as int) ==> r == Err::<
                Vec<u8>,
                BlockIdError,
            >(BlockIdError::OutOfRange),
            r matches Ok(o) ==> o@.len() == input@.len(),
            self.permutation.wf() ==> (r matches Ok(o) ==> below(
                o@,
                self.permutation.table@.len() as int,
            )),
    {
        let ghost orig = input@;
        let ghost t = self.permutation.table@;
        let mut out = input;
        let mut i: usize = 0;
        while i < out.len()
            invariant
                orig == input@,
                t == self.permutation.table@,
                out@.len() == orig.len(),
                i <= orig.len(),
                forall|j: int| i <= j < orig.len() ==> out@[j] == orig[j],
                forall|j: int| 0 <= j < i as int ==> (#[trigger] orig[j] as int) < t.len(),
                forall|j: int| 0 <= j < i as int ==> out@[j] == t[orig[j] as int],
            decreases orig.len() - i,
        {
            let d = out[i];
            match self.permutation.forward(d) {
                Ok(nd) => {
                    out.set(i, nd);
                },
                Err(e) => {
                    proof {
                        assert(orig[i as int] == d);
                        assert(!below(orig, t.len() as int));
                    }
                    return Err(e);
                },
            }
            i += 1;
        }
        proof {
            assert(below(orig, t.len() as int));
            assert(out@ =~= spec_apply_table(orig, t));
        }
        Ok(out)
    }

    /// Maps every digit through the inverse table.  Fails with `OutOfRange`
    /// when some digit is not below the table's length, and only then.
    pub fn backward(&self, output: Vec<u8>) -> (r: Result<Vec<u8>, BlockIdError>)
        ensures
            below(output@, self.permutation.inverse@.len() as int) ==> (r matches Ok(o) && o@
                == spec_apply_table(output@, self.permutation.inverse@)),
            !below(output@, self.permutation.inverse@.len() as int) ==> r == Err::<
                Vec<u8>,
                BlockIdError,
            >(BlockIdError::OutOfRange),
            r matches Ok(o) ==> o@.len() == output@.len(),
            self.permutation.wf() ==> (r matches Ok(o) ==> below(
                o@,
                self.permutation.inverse@.len() as int,
            )),
    {
        let ghost orig = output@;
        let ghost t = self.permutation.inverse@;
        let mut out = output;
        let mut i: usize = 0;
        while i < out.len()
            invariant
                orig == output@,
                t == self.permutation.inverse@,
                out@.len() == orig.len(),
                i <= orig.len(),
                forall|j: int| i <= j < orig.len() ==> out@[j] == orig[j],
                forall|j: int| 0 <= j < i as int ==> (#[trigger] orig[j] as int) < t.len(),
                forall|j: int| 0 <= j < i as int ==> out@[j] == t[orig[j] as int],
            decreases orig.len() - i,
        {
            let d = out[i];
            match self.permutation.backward(d) {
                Ok(nd) => {
                    out.set(i, nd);
                },
                Err(e) => {
                    proof {
                        assert(orig[i as int] == d);
                        assert(!below(orig, t.len() as int));
                    }
                    return Err(e);
                },
            }
            i += 1;
        }
        proof {
            assert(below(orig, t.len() as int));
            assert(out@ =~= spec_apply_table(orig, t));
        }
        Ok(out)
    }
}

impl InvertableTransform for Permute {
    type Input = Vec<u8>;

    type Output = Vec<u8>;

    open spec fn forward_allowed(&self, input: &Vec<u8>) -> bool {
        true
    }

    open spec fn backward_allowed(&self, output: &Vec<u8>) -> bool {
        true
    }

    fn forward(&self, input: Vec<u8>) -> Result<Vec<u8>, BlockIdError> {
        Permute::forward(self, input)
    }

    fn backward(&self, output: Vec<u8>) -> Result<Vec<u8>, BlockIdError> {
        Permute::backward(self, output)
    }
}

} // verus!

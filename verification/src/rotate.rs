//! Cyclic rotation of a digit sequence by one position: a total stage that
//! never fails and works for any element type.

use crate::transform::BlockIdError;
use crate::transform::InvertableTransform;
use core::marker::PhantomData;
use vstd::prelude::*;

verus! {

/// What a left rotation by one produces: the first element moves to the end.
/// The empty and the single-element sequence are unchanged.
pub open spec fn spec_rotate_left<T>(s: Seq<T>) -> Seq<T> {
    if s.len() <= 1 {
        s
    } else {
        s.drop_first().push(s[0])
    }
}

/// What a right rotation by one produces: the last element moves to the front.
/// The empty and the single-element sequence are unchanged.
pub open spec fn spec_rotate_right<T>(s: Seq<T>) -> Seq<T> {
    if s.len() <= 1 {
        s
    } else {
        seq![s.last()] + s.drop_last()
    }
}

/// Law: rotating right undoes rotating left, for every sequence; the empty
/// and the single-element sequence are left unchanged by both directions.
pub proof fn lemma_rotate_round_trip<T>(s: Seq<T>)
    ensures
        spec_rotate_right(spec_rotate_left(s)) == s,
        s.len() <= 1 ==> spec_rotate_left(s) == s && spec_rotate_right(s) == s,
{
    if s.len() > 1 {
        assert(spec_rotate_left(s).drop_last() =~= s.drop_first());
        assert(spec_rotate_right(spec_rotate_left(s)) =~= s);
    }
}

/// Rotates a sequence cyclically by one position, in either direction.
pub struct Rotate<T> {
    _ph: PhantomData<T>,
}

impl<T> Clone for Rotate<T> {
    fn clone(&self) -> Self {
        Rotate { _ph: PhantomData }
    }
}

impl<T> Rotate<T> {
    pub fn new() -> (r: Self) {
        Rotate { _ph: PhantomData }
    }

    /// Moves the first element to the end.
    pub fn forward(&self, value: Vec<T>) -> (r: Vec<T>)
        ensures
            r@ == spec_rotate_left(value@),
    {
        let ghost orig = value@;
        let mut value = value;
        if value.len() > 1 {
            let first = value.remove(0);
            value.push(first);
            proof {
                assert(value@ =~= spec_rotate_left(orig));
            }
        }
        value
    }

    /// Moves the last element to the front.
    pub fn backward(&self, value: Vec<T>) -> (r: Vec<T>)
        ensures
            r@ == spec_rotate_right(value@),
    {
        let mut value = value;
        if value.len() > 1 {
            let last = match value.pop() {
                Some(l) => l,
                None => unreached(),
            };
            value.insert(0, last);
        }
        value
    }
}

impl<T> InvertableTransform for Rotate<T> {
    type Input = Vec<T>;

    type Output = Vec<T>;

    open spec fn forward_allowed(&self, input: &Vec<T>) -> bool {
        true
    }

    open spec fn backward_allowed(&self, output: &Vec<T>) -> bool {
        true
    }

    fn forward(&self, input: Vec<T>) -> Result<Vec<T>, BlockIdError> {
        Ok(Rotate::forward(self, input))
    }

    fn backward(&self, output: Vec<T>) -> Result<Vec<T>, BlockIdError> {
        Ok(Rotate::backward(self, output))
    }
}

} // verus!

//! The two-way transform capability that every pipeline stage implements,
//! together with the error type shared by all partial stages.

use vstd::prelude::*;

verus! {

/// Everything that can go wrong while building or running a pipeline stage.
#[derive(Debug, Clone, Copy, PartialEq, Eq, Structural)]
pub enum BlockIdError {
    /// An alphabet was given the same symbol twice.
    DuplicateSymbol,
    /// An alphabet was given more than 255 symbols.
    AlphabetTooLarge,
    /// An explicit permutation table repeats an output value.
    DuplicateValue,
    /// An explicit permutation table holds a value not below its length.
    ValueOutOfRange,
    /// A decoded symbol is absent from the alphabet.
    UnknownSymbol,
    /// A digit is not below the configured radix.
    OutOfRange,
    /// A digit sequence denotes a number too large for `u64`.
    Overflow,
}

/// A reversible transform: `backward` undoes `forward` on every value the
/// stage accepts.  Stages that can fail report a definite [`BlockIdError`]
/// instead of producing partial output.
pub trait InvertableTransform {
    type Input;

    type Output;

    /// When the stage may be run forwards.
    spec fn forward_allowed(&self, input: &Self::Input) -> bool;

    /// When the stage may be run backwards.
    spec fn backward_allowed(&self, output: &Self::Output) -> bool;

    fn forward(&self, input: Self::Input) -> Result<Self::Output, BlockIdError>
        requires
            self.forward_allowed(&input),
    ;

    fn backward(&self, output: Self::Output) -> Result<Self::Input, BlockIdError>
        requires
            self.backward_allowed(&output),
    ;
}

} // verus!

//! What can go wrong while a circuit is lowered to polynomials.

use vstd::prelude::*;

verus! {

#[derive(Clone, Copy, Debug, PartialEq, Eq, Structural)]
pub enum ArithmetizationError {
    /// The circuit has more gates than the largest evaluation domain has
    /// elements, or more cells than can be indexed.
    Configuration,
    /// A value that must be inverted is zero.
    Arithmetic,
    /// The random source was drawn from as often as can be counted without
    /// yielding a usable value.
    Sampling,
}

} // verus!

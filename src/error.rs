use vstd::prelude::*;

verus! {

/// The ways in which an operation of this library can refuse its input.
#[derive(Copy, Clone, Debug, PartialEq, Eq, Structural)]
pub enum StarkError {
    /// A size that is not a power of two, lengths that do not match, or a root of the wrong order.
    InvalidInput,
    /// An element without a multiplicative inverse.
    NonInvertible,
    /// Two interpolation points share an abscissa.
    DuplicateAbscissa,
    /// A polynomial would need more coefficients than its fixed capacity.
    CapacityExceeded,
}

} // verus!

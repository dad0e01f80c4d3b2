use vstd::prelude::*;

verus! {

/// Why an analysis or a transform was refused.
#[derive(Clone, Copy, Debug, PartialEq, Eq, Structural)]
pub enum SpectrumError {
    /// The transform width is not a power of two.
    WidthNotPowerOfTwo,
    /// The window holds more samples than the transform width.
    TooManySamples,
    /// Two amplitudes that are both NaN were compared.
    BothNaN,
}

} // verus!

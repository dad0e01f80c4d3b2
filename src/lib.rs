//! Spectral analysis of sampled signals: window functions, a radix-2 transform
//! driver, and a spectrum type with bucket/frequency mapping and circular shift.
//!
//! Everything here is exact: window scale factors are described as affine
//! cosine terms with integer coefficients, frequencies as fractions, and the
//! transform and spectrum code is generic over the bucket type, so that the
//! arithmetic on complex numbers is supplied by the caller as a butterfly.

mod error;
mod spectrum;
mod transform;
mod window;

pub use error::SpectrumError;
pub use spectrum::{amplitude_order, Frequency, Spectrum};
pub use transform::{bit_reverse_permutation, exact_log2, reverse_index, transform_in_place};
pub use window::{ScaleFactor, Window, WindowIter};

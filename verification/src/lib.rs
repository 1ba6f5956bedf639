//! Signal-processing building blocks of the Enigma firmware whose logic does
//! not depend on floating point: the rolling rank filter that debounces the
//! control-voltage inputs, the selection of the strongest resonator of a bank,
//! and the two-stage processing chain.

pub mod debounce;
pub mod dsp;

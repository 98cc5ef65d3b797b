//! A forward-error-correction codec in the systematic Raptor family:
//! parameter derivation, the triple generator, the pre-code and its solver,
//! the encoder and decoder, and the wire format with its rate limiter.
use vstd::prelude::*;

pub mod block;
pub mod decoder;
pub mod distribution;
pub mod fountain;
pub mod gf2;
pub mod linear_algebra;
pub mod precode;
pub mod session;
pub mod systematic;
pub mod tables;
pub mod transport;

pub use crate::decoder::Decoder;
pub use crate::fountain::Encoder;

verus! {

} // verus!

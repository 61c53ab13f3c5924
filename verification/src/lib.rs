//! An adaptive arithmetic coder: a lossless byte-stream compressor built on a
//! continuously updated order-0 frequency model, together with a family of
//! universal integer codes (Elias gamma/delta/omega, Fibonacci) over an LZW
//! front end, and a few small image-coding utilities (predictors, quantizers,
//! a diagonal scan, and a Hamming(8,4) code).

use vstd::prelude::*;

pub mod bits;
pub mod colour;
pub mod colour_dict;
pub mod compress;
pub mod correction;
pub mod decoder;
pub mod diagonal;
pub mod elias_code;
pub mod encoder;
pub mod entropy;
pub mod fibonacci_code;
pub mod frame;
pub mod interval;
pub mod laws;
pub mod lzw;
pub mod model;
pub mod predictor;
pub mod quantization;

verus! {

/// Number of distinct byte values; the coder's alphabet size.
pub const BYTES_RANGE: usize = 256;

} // verus!

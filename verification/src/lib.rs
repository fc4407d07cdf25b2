//! Exact integer convolution of audio samples over two NTT-friendly primes,
//! and the loss search that locates reference voices inside a mixture.

pub mod arith;
pub mod audio_vec;
pub mod fermat;
pub mod precalc;
pub mod request;
pub mod solve;

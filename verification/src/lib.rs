//! An adaptive binary arithmetic coder.
//!
//! A [`Model`] keeps per-symbol occurrence counts and their cumulative
//! distribution, a [`Range`] holds the current coding interval at a fixed
//! bit precision, and [`Encoder`] / [`Decoder`] drive the interval with the
//! model's probabilities, emitting and consuming renormalization bits so
//! that the decoder reproduces the encoder's symbol sequence exactly.
//!
//! All interval arithmetic is exact integer arithmetic: the bounds are
//! scaled by `width * cumulative_count / total` in 128-bit intermediate
//! precision, so encoder and decoder agree bit for bit.

pub mod bits;
pub mod codec;
pub mod decoder;
pub mod encoder;
pub mod model;
pub mod range;

pub use crate::decoder::Decoder;
pub use crate::encoder::Encoder;
pub use crate::model::Model;
pub use crate::model::EOF;
pub use crate::range::Range;

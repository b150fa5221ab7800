//! Image-classification preprocessing and result ranking.
//!
//! The library turns encoded image bytes into the planar `float32` tensor a
//! classification model reads, and turns the model's per-class probabilities
//! into a ranked, labelled top-K list. Decoding and resampling are delegated to
//! the `image` crate; the data layout and the ranking are verified here.

pub mod error;
pub mod grid;
pub mod tensor;
pub mod ranking;

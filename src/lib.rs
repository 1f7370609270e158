//! Adaptive arithmetic coding of byte sequences into bit sequences and back.
//!
//! The coder works on a fixed-point interval of 17 bits and a cumulative
//! frequency model over the 256 byte values. Both the encoder and the decoder
//! are small state machines whose arithmetic is proved free of overflow and
//! whose interval invariants are proved to be preserved on every step; their
//! whole-stream behaviour is stated by the spec functions `spec_encode` and
//! `spec_decode`, and `roundtrip::lemma_round_trip` proves that decoding what
//! was encoded gives the symbols back. Streaming stages (`Transform`)
//! compose into pull-based pipelines.
pub mod bits;
pub mod codes;
pub mod compressor;
pub mod decoder;
pub mod encoder;
pub mod frequency;
pub mod interval;
pub mod roundtrip;
pub mod transforms;

pub use bits::{BitConverter, FromBits, IntFromBits, IntIntoBits, IntoBits};
pub use compressor::{ArithmeticCompressor, Compressor};
pub use decoder::ArithmeticDecoder;
pub use encoder::ArithmeticEncoder;
pub use frequency::{FreqTable, SymbolFreq};
pub use transforms::{
    Chain, IteratorTransforms, ResultWrap, Source, Transform, TransformIterator, VecSource,
};

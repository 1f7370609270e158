//! The arithmetic compressor: one model shared by the encoder and the decoder.
use vstd::prelude::*;
use crate::decoder::{decode, initial_rest, initial_value, spec_decode, ArithmeticDecoder};
use crate::encoder::{encodable, encode, spec_encode, ArithmeticEncoder};
use crate::frequency::FreqTable;
use crate::transforms::Transform;

verus! {

/// A compression algorithm: a stage that encodes items into data and a
/// stage that decodes that data back into items.
pub trait Compressor {
    /// What is compressed.
    type Item;

    /// What it is compressed into.
    type Data;

    /// The encoding stage.
    /// Each call takes one item and returns the data it resolves.
    type Encoder: Transform<Self::Item, Out = Vec<Self::Data>>;

    /// The decoding stage.
    type Decoder: Transform<Self::Data, Out = Self::Item>;

    /// A fresh encoding stage.
    fn encoder(&self) -> Self::Encoder;

    /// A fresh decoding stage.
    fn decoder(&self) -> Self::Decoder;
}

/// The starting model of a stream, from which both ends set out.
#[derive(Clone, Copy)]
pub struct ArithmeticCompressor {
    frequencies: FreqTable,
}

impl ArithmeticCompressor {
    /// The starting model.
    pub closed spec fn model(&self) -> FreqTable {
        self.frequencies
    }

    /// A compressor whose streams start from the model `frequencies`.
    pub fn new(frequencies: FreqTable) -> (r: ArithmeticCompressor)
        requires
            frequencies.wf(),
        ensures
            r.model() == frequencies,
    {
        ArithmeticCompressor { frequencies }
    }

    /// The model is well formed.
    pub open spec fn wf(&self) -> bool {
        self.model().wf()
    }

    /// An encoder at the start of a stream.
    pub fn new_encoder(&self) -> (r: ArithmeticEncoder)
        requires
            self.wf(),
        ensures
            r.wf(),
            !r.finished(),
            r.model() == self.model(),
            r.low() == 0,
            r.high() == crate::codes::CODE_MAX,
            r.pending() == 0,
    {
        ArithmeticEncoder::new(self.frequencies)
    }

    /// A decoder at the start of a stream.
    pub fn new_decoder(&self) -> (r: ArithmeticDecoder)
        requires
            self.wf(),
        ensures
            r.low() == 0,
            r.high() == crate::codes::CODE_MAX,
            r.wf(),
            r.model() == self.model(),
            !r.started(),
            forall|b: Seq<bool>| #[trigger] r.point_from(b) == initial_value(b),
            forall|b: Seq<bool>| #[trigger] r.stream_from(b) == initial_rest(b),
    {
        ArithmeticDecoder::new(self.frequencies)
    }

    /// Encodes `symbols` with the starting model held fixed.
    pub fn encode(&self, symbols: &Vec<u8>) -> (r: Option<Vec<bool>>)
        requires
            self.wf(),
        ensures
            r is Some <==> encodable(self.model(), symbols@),
            r matches Some(bits) ==> bits@ == spec_encode(self.model(), symbols@),
    {
        encode(&self.frequencies, symbols)
    }

    /// Decodes `n` symbols from `bits` with the starting model held fixed.
    pub fn decode(&self, bits: Vec<bool>, n: usize) -> (r: Option<Vec<u8>>)
        requires
            self.wf(),
        ensures
            match spec_decode(self.model(), bits@, n as nat) {
                None => r is None,
                Some(s) => r matches Some(v) && v@ == s,
            },
    {
        decode(&self.frequencies, bits, n)
    }
}

impl Default for ArithmeticCompressor {
    /// The compressor with the uniform model.
    fn default() -> (r: ArithmeticCompressor)
        ensures
            r.wf(),
            forall|i: int| 0 <= i < 256 ==> #[trigger] r.model().cum(i) == i + 1,
    {
        ArithmeticCompressor { frequencies: FreqTable::uniform() }
    }
}

impl Compressor for ArithmeticCompressor {
    type Item = u8;

    type Data = bool;

    type Encoder = ArithmeticEncoder;

    type Decoder = ArithmeticDecoder;

    fn encoder(&self) -> (r: ArithmeticEncoder)
        ensures
            self.wf() ==> r.wf(),
            r.model() == self.model(),
            r.low() == 0,
            r.high() == crate::codes::CODE_MAX,
            r.pending() == 0,
            !r.finished(),
    {
        ArithmeticEncoder::new(self.frequencies)
    }

    fn decoder(&self) -> (r: ArithmeticDecoder)
        ensures
            self.wf() ==> r.wf(),
            r.model() == self.model(),
            r.low() == 0,
            r.high() == crate::codes::CODE_MAX,
            !r.started(),
            forall|b: Seq<bool>| #[trigger] r.point_from(b) == initial_value(b),
            forall|b: Seq<bool>| #[trigger] r.stream_from(b) == initial_rest(b),
    {
        ArithmeticDecoder::new(self.frequencies)
    }
}


} // verus!

//! The arithmetic encoder: a state machine from symbols to bits.
use vstd::prelude::*;
use crate::codes::{CODE_1_2, CODE_1_4, CODE_MAX, FREQ_MAX};
use crate::frequency::FreqTable;
use crate::transforms::{Source, Transform, VecSource};
use crate::interval::{
    drop_quarter, in_lower_half, in_upper_half, interval_wf, ready, scale, scaled, shift_in,
    straddles,
};

verus! {

/// The count of deferred bits after one more underflow step; it stays at
/// `usize::MAX` once there.
pub open spec fn bumped(pending: int) -> int {
    if pending < usize::MAX {
        pending + 1
    } else {
        pending
    }
}

/// A resolved bit followed by the deferred bits, which take the opposite value.
pub open spec fn emitted(bit: bool, pending: int) -> Seq<bool> {
    seq![bit] + Seq::new(pending as nat, |_i: int| !bit)
}

/// Renormalises the interval `[low, high]` with `pending` deferred bits
/// until it is ready for the next symbol. Returns the new interval, the new
/// count of deferred bits and the bits that were emitted.
pub open spec fn enc_renorm(low: int, high: int, pending: int) -> (int, int, int, Seq<bool>)
    decreases CODE_MAX - (high - low),
{
    if !interval_wf(low, high) {
        (low, high, pending, seq![])
    } else if in_lower_half(low, high) {
        let r = enc_renorm(2 * low, 2 * high + 1, 0);
        (r.0, r.1, r.2, emitted(false, pending) + r.3)
    } else if in_upper_half(low, high) {
        let r = enc_renorm(2 * (low - CODE_1_2), 2 * (high - CODE_1_2) + 1, 0);
        (r.0, r.1, r.2, emitted(true, pending) + r.3)
    } else if straddles(low, high) {
        enc_renorm(2 * (low - CODE_1_4), 2 * (high - CODE_1_4) + 1, bumped(pending))
    } else {
        (low, high, pending, seq![])
    }
}

/// The bits that end a stream from a ready interval whose low bound is
/// `low`, with `pending` deferred bits: one more deferred bit, resolved by
/// the quarter in which `low` lies.
pub open spec fn enc_flush(low: int, pending: int) -> Seq<bool> {
    emitted(low >= CODE_1_4, bumped(pending))
}

/// The bits of the whole stream that encodes `s` with the fixed model `t`,
/// from the interval `[low, high]` with `pending` deferred bits.
pub open spec fn encode_from(t: FreqTable, low: int, high: int, pending: int, s: Seq<u8>) -> Seq<bool>
    decreases s.len(),
{
    let r = enc_renorm(low, high, pending);
    if s.len() == 0 {
        r.3 + enc_flush(r.0, r.2)
    } else {
        let (l, h) = t.spec_range(s[0] as int);
        let n = scaled(r.0, r.1, l, h, t.total());
        r.3 + encode_from(t, n.0, n.1, r.2, s.drop_first())
    }
}

/// The bits that encode `s` with the fixed model `t`, from the initial state.
pub open spec fn spec_encode(t: FreqTable, s: Seq<u8>) -> Seq<bool> {
    encode_from(t, 0, CODE_MAX as int, 0, s)
}

/// An empty stream encodes to the two bits of the flush alone: `0`, then `1`.
pub proof fn lemma_empty_stream(t: FreqTable)
    ensures
        spec_encode(t, seq![]) == seq![false, true],
{
    let r = enc_renorm(0, CODE_MAX as int, 0);
    assert(r == (0int, CODE_MAX as int, 0int, Seq::<bool>::empty()));
    assert(enc_flush(0, 0) == seq![false, true]);
    assert(r.3 + enc_flush(r.0, r.2) == seq![false, true]);
}

/// Every symbol of `s` has a non-empty range in `t`.
pub open spec fn encodable(t: FreqTable, s: Seq<u8>) -> bool {
    forall|i: int| 0 <= i < s.len() ==> t.freq(#[trigger] s[i] as int) > 0
}

/// Encodes `symbols` with the fixed model `frequencies`, flush included, by
/// running the encoding stage over them.
/// Fails when a symbol has frequency zero in the model.
pub fn encode(frequencies: &FreqTable, symbols: &Vec<u8>) -> (r: Option<Vec<bool>>)
    requires
        frequencies.wf(),
    ensures
        r is Some <==> encodable(*frequencies, symbols@),
        r matches Some(bits) ==> bits@ == spec_encode(*frequencies, symbols@),
{
    let mut k: usize = 0;
    while k < symbols.len()
        invariant
            0 <= k <= symbols.len(),
            frequencies.wf(),
            forall|j: int| 0 <= j < k ==> frequencies.freq(#[trigger] symbols@[j] as int) > 0,
        decreases symbols.len() - k,
    {
        let (l, h) = frequencies.range(symbols[k]);
        if l == h {
            return None;
        }
        proof {
            let c = symbols@[k as int] as int;
            if c > 0 {
                assert(frequencies.cum(c - 1) <= frequencies.cum(c));
            }
        }
        k = k + 1;
    }
    let mut copy: Vec<u8> = Vec::new();
    let mut k: usize = 0;
    while k < symbols.len()
        invariant
            0 <= k <= symbols.len(),
            copy@ == symbols@.subrange(0, k as int),
        decreases symbols.len() - k,
    {
        copy.push(symbols[k]);
        k = k + 1;
    }
    assert(copy@ == symbols@);
    let mut src = VecSource::new(copy);
    let mut encoder = ArithmeticEncoder::new(*frequencies);
    let mut out: Vec<bool> = Vec::new();
    let mut i: usize = 0;
    assert(symbols@.subrange(0, symbols@.len() as int) == symbols@);
    assert(out@ + spec_encode(*frequencies, symbols@) == spec_encode(*frequencies, symbols@));
    while i < symbols.len()
        invariant
            0 <= i <= symbols.len(),
            encodable(*frequencies, symbols@),
            encoder.wf(),
            !encoder.finished(),
            encoder.model() == *frequencies,
            src.known() == Some(symbols@.subrange(i as int, symbols@.len() as int)),
            out@ + encode_from(
                *frequencies,
                encoder.low(),
                encoder.high(),
                encoder.pending(),
                symbols@.subrange(i as int, symbols@.len() as int),
            ) == spec_encode(*frequencies, symbols@),
        decreases symbols.len() - i,
    {
        let ghost rest = symbols@.subrange(i as int, symbols@.len() as int);
        let ghost before = out@;
        let ghost r = enc_renorm(encoder.low(), encoder.high(), encoder.pending());
        assert(rest.drop_first() == symbols@.subrange(i + 1, symbols@.len() as int));
        assert(rest[0] == symbols@[i as int]);
        let mut chunk = match encoder.next_bits(&mut src) {
            Some(bits) => bits,
            None => return None,
        };
        out.append(&mut chunk);
        proof {
            vstd::seq_lib::lemma_concat_associative(
                before,
                r.3,
                encode_from(
                    *frequencies,
                    encoder.low(),
                    encoder.high(),
                    encoder.pending(),
                    rest.drop_first(),
                ),
            );
        }
        i = i + 1;
    }
    let ghost before = out@;
    let ghost r = enc_renorm(encoder.low(), encoder.high(), encoder.pending());
    assert(symbols@.subrange(i as int, symbols@.len() as int).len() == 0);
    let mut chunk = match encoder.next_bits(&mut src) {
        Some(bits) => bits,
        None => return None,
    };
    out.append(&mut chunk);
    proof {
        vstd::seq_lib::lemma_concat_associative(before, r.3, enc_flush(r.0, r.2));
    }
    Some(out)
}

/// Arithmetic encoding state: the model, the interval and the count of
/// deferred bits.
pub struct ArithmeticEncoder {
    frequencies: FreqTable,
    range: (u32, u32),
    pending_num: usize,
    finished: bool,
}

impl ArithmeticEncoder {
    /// The model in use.
    pub closed spec fn model(&self) -> FreqTable {
        self.frequencies
    }

    /// The low bound of the interval.
    pub closed spec fn low(&self) -> int {
        self.range.0 as int
    }

    /// The high bound of the interval.
    pub closed spec fn high(&self) -> int {
        self.range.1 as int
    }

    /// The count of deferred bits.
    pub closed spec fn pending(&self) -> int {
        self.pending_num as int
    }

    /// Whether the end of the stream has been encoded by the stage.
    pub closed spec fn finished(&self) -> bool {
        self.finished
    }

    /// The interval lies in the code space.
    pub open spec fn sane(&self) -> bool {
        &&& interval_wf(self.low(), self.high())
        &&& 0 <= self.pending() <= usize::MAX
    }

    /// The model is well formed and the interval lies in the code space.
    pub open spec fn wf(&self) -> bool {
        &&& self.model().wf()
        &&& self.sane()
    }

    /// An encoder at the start of a stream, with the model `frequencies`.
    pub fn new(frequencies: FreqTable) -> (r: ArithmeticEncoder)
        ensures
            r.sane(),
            frequencies.wf() ==> r.wf(),
            r.model() == frequencies,
            r.low() == 0,
            r.high() == CODE_MAX,
            r.pending() == 0,
            !r.finished(),
    {
        ArithmeticEncoder { frequencies, range: (0, CODE_MAX), pending_num: 0, finished: false }
    }

    /// Appends `bit`, then the deferred bits with the opposite value, and
    /// clears the count of deferred bits.
    fn emit(&mut self, bit: bool, out: &mut Vec<bool>)
        requires
            old(self).sane(),
        ensures
            final(self).sane(),
            final(self).finished() == old(self).finished(),
            final(out)@ == old(out)@ + emitted(bit, old(self).pending()),
            final(self).pending() == 0,
            final(self).model() == old(self).model(),
            final(self).low() == old(self).low(),
            final(self).high() == old(self).high(),
    {
        let ghost start = out@;
        out.push(bit);
        let mut i: usize = 0;
        while i < self.pending_num
            invariant
                0 <= i <= self.pending_num,
                out@ == start + seq![bit] + Seq::new(i as nat, |_j: int| !bit),
            decreases self.pending_num - i,
        {
            out.push(!bit);
            i = i + 1;
            assert(out@ == start + seq![bit] + Seq::new(i as nat, |_j: int| !bit));
        }
        assert(start + seq![bit] + Seq::new(i as nat, |_j: int| !bit) == start + emitted(
            bit,
            self.pending_num as int,
        ));
        self.pending_num = 0;
    }

    /// Shifts both bounds left one bit: `0` enters the low bound and `1` the high bound.
    fn advance(&mut self)
        requires
            old(self).sane(),
        ensures
            final(self).finished() == old(self).finished(),
            final(self).model() == old(self).model(),
            final(self).pending() == old(self).pending(),
            final(self).range.0 as int == (2 * old(self).low()) % (CODE_MAX as int + 1),
            final(self).range.1 as int == (2 * old(self).high() + 1) % (CODE_MAX as int + 1),
    {
        let (low, high) = self.range;
        self.range = (shift_in(low, 0), shift_in(high, 1));
    }

    /// Renormalises the interval until it is ready for the next symbol,
    /// appending the bits that this resolves.
    fn renormalize(&mut self, out: &mut Vec<bool>)
        requires
            old(self).sane(),
        ensures
            final(self).sane(),
            final(self).finished() == old(self).finished(),
            final(self).model() == old(self).model(),
            ready(final(self).low(), final(self).high()),
            ({
                let r = enc_renorm(old(self).low(), old(self).high(), old(self).pending());
                &&& final(self).low() == r.0
                &&& final(self).high() == r.1
                &&& final(self).pending() == r.2
                &&& final(out)@ == old(out)@ + r.3
            }),
    {
        let ghost target = enc_renorm(self.low(), self.high(), self.pending());
        let ghost start = out@;
        let ghost model = self.model();
        loop
            invariant
                self.sane(),
                self.finished() == old(self).finished(),
                self.model() == model,
                enc_renorm(self.low(), self.high(), self.pending()).0 == target.0,
                enc_renorm(self.low(), self.high(), self.pending()).1 == target.1,
                enc_renorm(self.low(), self.high(), self.pending()).2 == target.2,
                start + target.3 == out@ + enc_renorm(self.low(), self.high(), self.pending()).3,
            ensures
                self.sane(),
                self.finished() == old(self).finished(),
                self.model() == model,
                ready(self.low(), self.high()),
                self.low() == target.0,
                self.high() == target.1,
                self.pending() == target.2,
                out@ == start + target.3,
            decreases CODE_MAX - (self.high() - self.low()),
        {
            let ghost cur = enc_renorm(self.low(), self.high(), self.pending());
            let ghost before = out@;
            let ghost p0 = self.pending();
            let (low, high) = self.range;
            if high < CODE_1_2 {
                self.emit(false, out);
                self.advance();
                proof {
                    vstd::seq_lib::lemma_concat_associative(
                        before,
                        emitted(false, p0),
                        enc_renorm(self.low(), self.high(), self.pending()).3,
                    );
                }
            } else if low >= CODE_1_2 {
                self.emit(true, out);
                self.advance();
                proof {
                    vstd::seq_lib::lemma_concat_associative(
                        before,
                        emitted(true, p0),
                        enc_renorm(self.low(), self.high(), self.pending()).3,
                    );
                }
            } else if low >= CODE_1_4 && high < crate::codes::CODE_3_4 {
                self.range = (drop_quarter(low), drop_quarter(high));
                self.advance();
                if self.pending_num < usize::MAX {
                    self.pending_num = self.pending_num + 1;
                }
            } else {
                assert(ready(self.low(), self.high()));
                assert(out@ + cur.3 == out@);
                break;
            }
        }
    }

    /// The model in use.
    pub fn frequencies(&self) -> (r: FreqTable)
        ensures
            r == self.model(),
    {
        self.frequencies
    }

    /// Replaces the model, as an adaptive policy does between two symbols.
    /// The interval and the deferred bits are kept.
    pub fn set_frequencies(&mut self, frequencies: FreqTable)
        requires
            old(self).wf(),
            frequencies.wf(),
        ensures
            final(self).wf(),
            final(self).model() == frequencies,
            final(self).low() == old(self).low(),
            final(self).high() == old(self).high(),
            final(self).pending() == old(self).pending(),
    {
        self.frequencies = frequencies;
    }

    /// Encodes `symbol`: appends to `out` the bits that renormalisation
    /// resolves, then narrows the interval to the symbol's range.
    pub fn push(&mut self, symbol: u8, out: &mut Vec<bool>)
        requires
            old(self).wf(),
            old(self).model().freq(symbol as int) > 0,
        ensures
            final(self).wf(),
            final(self).model() == old(self).model(),
            ({
                let r = enc_renorm(old(self).low(), old(self).high(), old(self).pending());
                let (l, h) = old(self).model().spec_range(symbol as int);
                let n = scaled(r.0, r.1, l, h, old(self).model().total());
                &&& final(self).low() == n.0
                &&& final(self).high() == n.1
                &&& final(self).pending() == r.2
                &&& final(out)@ == old(out)@ + r.3
            }),
    {
        self.renormalize(out);
        let (l, h) = self.frequencies.range(symbol);
        let total = self.frequencies.len();
        proof {
            assert(self.model().cum(symbol as int) <= self.model().total());
        }
        let (low, high) = self.range;
        self.range = scale(low, high, l, h, total);
    }

    /// Appends the bits that end the stream: those that renormalisation
    /// resolves, then those that single out the final interval.
    fn flush(&mut self, out: &mut Vec<bool>)
        requires
            old(self).sane(),
        ensures
            final(self).sane(),
            final(self).model() == old(self).model(),
            final(self).finished() == old(self).finished(),
            ({
                let r = enc_renorm(old(self).low(), old(self).high(), old(self).pending());
                final(out)@ == old(out)@ + r.3 + enc_flush(r.0, r.2)
            }),
    {
        self.renormalize(out);
        if self.pending_num < usize::MAX {
            self.pending_num = self.pending_num + 1;
        }
        let bit = self.range.0 >= CODE_1_4;
        self.emit(bit, out);
    }

    /// Ends the stream: appends the bits that renormalisation resolves, then
    /// the bits that single out the final interval.
    pub fn finish(self, out: &mut Vec<bool>)
        requires
            self.wf(),
        ensures
            ({
                let r = enc_renorm(self.low(), self.high(), self.pending());
                final(out)@ == old(out)@ + r.3 + enc_flush(r.0, r.2)
            }),
    {
        let mut state = self;
        state.flush(out);
    }

    /// Takes the next symbol from `src` and returns the bits that it
    /// resolves; at the end of `src`, returns the bits that end the stream,
    /// once. A symbol of frequency zero cannot be encoded and ends the output.
    pub fn next_bits<S: Source<Item = u8>>(&mut self, src: &mut S) -> (r: Option<Vec<bool>>)
        ensures
            final(self).model() == old(self).model(),
            old(self).wf() ==> final(self).wf(),
            old(self).wf() && !old(self).finished() ==> (old(src).known() matches Some(s)
                ==> final(src).known() == Some(if s.len() == 0 { s } else { s.drop_first() })),
            old(self).wf() ==> (old(src).known() matches Some(s) ==> final(src).known() is Some && ({
                let e = enc_renorm(old(self).low(), old(self).high(), old(self).pending());
                if old(self).finished() {
                    r is None
                } else if s.len() == 0 {
                    r matches Some(bits) && bits@ == e.3 + enc_flush(e.0, e.2) && final(self).finished()
                } else if old(self).model().freq(s[0] as int) == 0 {
                    r is None && final(self).finished()
                } else {
                    let (l, h) = old(self).model().spec_range(s[0] as int);
                    let n = scaled(e.0, e.1, l, h, old(self).model().total());
                    &&& r matches Some(bits) && bits@ == e.3
                    &&& final(self).low() == n.0
                    &&& final(self).high() == n.1
                    &&& final(self).pending() == e.2
                    &&& !final(self).finished()
                }
            })),
    {
        if self.finished {
            return None;
        }
        let (low0, high0) = self.range;
        if !(low0 <= high0 && high0 <= CODE_MAX) {
            return None;
        }
        let total = self.frequencies.len();
        if total == 0 || total >= FREQ_MAX {
            return None;
        }
        let mut out: Vec<bool> = Vec::new();
        match src.pull() {
            Some(c) => {
                let (l, h) = self.frequencies.range(c);
                if !(l < h && h <= total) {
                    proof {
                        if self.model().wf() {
                            assert(self.model().cum(c as int) <= self.model().total());
                        }
                    }
                    self.finished = true;
                    return None;
                }
                self.renormalize(&mut out);
                let (low, high) = self.range;
                self.range = scale(low, high, l, h, total);
            },
            None => {
                self.flush(&mut out);
                self.finished = true;
            },
        }
        assert(Seq::<bool>::empty() + out@ == out@);
        Some(out)
    }
}

impl Transform<u8> for ArithmeticEncoder {
    type Out = Vec<bool>;

    /// Takes the next symbol and returns the bits it resolves, as
    /// `next_bits` does.
    fn next<S: Source<Item = u8>>(&mut self, src: &mut S) -> (r: Option<Vec<bool>>)
        ensures
            final(self).model() == old(self).model(),
            old(self).wf() ==> final(self).wf(),
            old(self).wf() && !old(self).finished() ==> (old(src).known() matches Some(s)
                ==> final(src).known() == Some(if s.len() == 0 { s } else { s.drop_first() })),
            old(self).wf() ==> (old(src).known() matches Some(s) ==> final(src).known() is Some && ({
                let e = enc_renorm(old(self).low(), old(self).high(), old(self).pending());
                if old(self).finished() {
                    r is None
                } else if s.len() == 0 {
                    r matches Some(bits) && bits@ == e.3 + enc_flush(e.0, e.2) && final(self).finished()
                } else if old(self).model().freq(s[0] as int) == 0 {
                    r is None && final(self).finished()
                } else {
                    let (l, h) = old(self).model().spec_range(s[0] as int);
                    let n = scaled(e.0, e.1, l, h, old(self).model().total());
                    &&& r matches Some(bits) && bits@ == e.3
                    &&& final(self).low() == n.0
                    &&& final(self).high() == n.1
                    &&& final(self).pending() == e.2
                    &&& !final(self).finished()
                }
            })),
    {
        self.next_bits(src)
    }
}

} // verus!

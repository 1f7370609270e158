//! The arithmetic decoder: a state machine from bits to symbols.
use vstd::prelude::*;
use crate::codes::{CODE_1_2, CODE_1_4, CODE_3_4, CODE_BITS, CODE_MAX, FREQ_MAX};
use crate::frequency::FreqTable;
use crate::transforms::{Source, Transform, VecSource};
use crate::interval::{
    doubled, drop_quarter, in_lower_half, in_upper_half, interval_wf, ready, scale, scaled,
    shift_in, straddles,
};

verus! {

/// `n` zero bits.
pub open spec fn zeros(n: nat) -> Seq<bool> {
    Seq::new(n, |_i: int| false)
}

/// A bit as a number.
pub open spec fn bit_value(b: bool) -> int {
    if b {
        1
    } else {
        0
    }
}

/// The code whose binary digits, most significant first, are the first `n`
/// bits of `s` (only the last `CODE_BITS` of them count).
pub open spec fn prefix_value(s: Seq<bool>, n: int) -> int
    decreases n,
{
    if n <= 0 {
        0
    } else {
        doubled(prefix_value(s, n - 1), bit_value(s[n - 1]))
    }
}

/// Renormalises the decoder's interval `[low, high]` and its point `value`,
/// shifting in bits from `bits`, until the interval is ready for the next
/// symbol. Returns the new interval, point and remaining bits, or `None`
/// when `bits` runs out first.
#[verifier::opaque]
pub open spec fn dec_renorm(low: int, high: int, value: int, bits: Seq<bool>) -> Option<(int, int, int, Seq<bool>)>
    decreases CODE_MAX - (high - low),
{
    if !interval_wf(low, high) {
        Some((low, high, value, bits))
    } else if in_lower_half(low, high) || in_upper_half(low, high) {
        if bits.len() == 0 {
            None
        } else {
            dec_renorm(
                doubled(low, 0),
                doubled(high, 1),
                doubled(value, bit_value(bits[0])),
                bits.drop_first(),
            )
        }
    } else if straddles(low, high) {
        if bits.len() == 0 {
            None
        } else {
            dec_renorm(
                2 * (low - CODE_1_4),
                2 * (high - CODE_1_4) + 1,
                doubled(value - CODE_1_4, bit_value(bits[0])),
                bits.drop_first(),
            )
        }
    } else {
        Some((low, high, value, bits))
    }
}

/// One step of renormalisation: when the interval is not ready and a bit
/// is at hand, renormalising equals renormalising the shifted state.
pub(crate) proof fn lemma_dec_renorm_step(low: int, high: int, value: int, bits: Seq<bool>)
    requires
        interval_wf(low, high),
        !ready(low, high),
        bits.len() > 0,
    ensures
        (in_lower_half(low, high) || in_upper_half(low, high)) ==> dec_renorm(low, high, value, bits)
            == dec_renorm(
            doubled(low, 0),
            doubled(high, 1),
            doubled(value, bit_value(bits[0])),
            bits.drop_first(),
        ),
        !(in_lower_half(low, high) || in_upper_half(low, high)) ==> dec_renorm(low, high, value, bits)
            == dec_renorm(
            2 * (low - CODE_1_4),
            2 * (high - CODE_1_4) + 1,
            doubled(value - CODE_1_4, bit_value(bits[0])),
            bits.drop_first(),
        ),
        dec_renorm(low, high, value, seq![]) is None,
{
    reveal(dec_renorm);
}

/// A ready interval needs no renormalisation.
pub(crate) proof fn lemma_dec_renorm_ready(low: int, high: int, value: int, bits: Seq<bool>)
    requires
        interval_wf(low, high),
        ready(low, high),
    ensures
        dec_renorm(low, high, value, bits) == Some((low, high, value, bits)),
{
    reveal(dec_renorm);
}

/// The cumulative value that the point `value` of the interval `[low, high]`
/// stands for, in a model whose total is `total`.
pub open spec fn dec_target(low: int, high: int, value: int, total: int) -> int {
    ((value - low + 1) * total - 1) / (high - low + 1)
}

/// Decodes `n` symbols with the fixed model `t` from the interval
/// `[low, high]`, the point `value` and the bits still to come.
pub open spec fn decode_from(t: FreqTable, low: int, high: int, value: int, bits: Seq<bool>, n: nat) -> Option<Seq<u8>>
    decreases n,
{
    if n == 0 {
        Some(seq![])
    } else {
        match dec_renorm(low, high, value, bits) {
            None => None,
            Some(r) => match t.spec_lookup(dec_target(r.0, r.1, r.2, t.total())) {
                None => None,
                Some(found) => {
                    let s = scaled(r.0, r.1, found.0.0, found.0.1, t.total());
                    match decode_from(t, s.0, s.1, r.2, r.3, (n - 1) as nat) {
                        None => None,
                        Some(rest) => Some(seq![found.1 as u8] + rest),
                    }
                },
            },
        }
    }
}

/// The bits that the decoder reads after its initial point: those of the
/// input beyond the first `CODE_BITS`, then `CODE_BITS` zeros.
pub open spec fn initial_rest(bits: Seq<bool>) -> Seq<bool> {
    let start = if bits.len() < CODE_BITS { bits.len() as int } else { CODE_BITS as int };
    bits.subrange(start, bits.len() as int) + zeros(CODE_BITS as nat)
}

/// The decoder's initial point: the first `CODE_BITS` bits of the input,
/// padded with zeros.
pub open spec fn initial_value(bits: Seq<bool>) -> int {
    prefix_value(bits + zeros(CODE_BITS as nat), CODE_BITS as int)
}

/// Decodes `n` symbols from `bits` with the fixed model `t`.
pub open spec fn spec_decode(t: FreqTable, bits: Seq<bool>, n: nat) -> Option<Seq<u8>> {
    decode_from(t, 0, CODE_MAX as int, initial_value(bits), initial_rest(bits), n)
}

/// The target of a point inside a ready interval lies below the total, and
/// the range that holds it narrows the interval around the point.
pub proof fn lemma_target(low: int, high: int, value: int, l: int, h: int, total: int)
    requires
        interval_wf(low, high),
        low <= value <= high,
        0 < total,
        l <= dec_target(low, high, value, total) < h,
    ensures
        scaled(low, high, l, h, total).0 <= value <= scaled(low, high, l, h, total).1,
{
    let w = high - low + 1;
    let a = value - low + 1;
    let x = a * total - 1;
    let q = x / w;
    assert(x >= 0) by (nonlinear_arith)
        requires
            a >= 1,
            total >= 1,
            x == a * total - 1,
    ;
    vstd::arithmetic::div_mod::lemma_fundamental_div_mod(x, w);
    vstd::arithmetic::div_mod::lemma_mod_pos_bound(x, w);
    let u = w * l / total;
    let z = w * h / total;
    vstd::arithmetic::div_mod::lemma_fundamental_div_mod(w * l, total);
    vstd::arithmetic::div_mod::lemma_fundamental_div_mod(w * h, total);
    if l >= 0 {
        vstd::arithmetic::div_mod::lemma_mod_pos_bound(w * l, total);
    } else {
        vstd::arithmetic::div_mod::lemma_mod_bound(w * l, total);
    }
    vstd::arithmetic::div_mod::lemma_mod_bound(w * h, total);
    assert(w * l <= w * q) by (nonlinear_arith)
        requires
            l <= q,
            w > 0,
    ;
    assert(u < a) by (nonlinear_arith)
        requires
            w * l == total * u + (w * l) % total,
            (w * l) % total >= 0,
            w * l <= w * q,
            x == w * q + x % w,
            x % w >= 0,
            x == a * total - 1,
            total > 0,
    ;
    assert(w * (q + 1) <= w * h) by (nonlinear_arith)
        requires
            q + 1 <= h,
            w > 0,
    ;
    assert(a <= z) by (nonlinear_arith)
        requires
            w * h == total * z + (w * h) % total,
            (w * h) % total < total,
            w * (q + 1) <= w * h,
            x == w * q + x % w,
            x % w < w,
            x == a * total - 1,
            total > 0,
    ;
}

/// One decoding step inverts one encoding step: when the point lies in the
/// interval that encoding symbol `c` narrows a ready interval to, the
/// decoder's lookup finds `c` and its range.
pub proof fn lemma_decode_step_inverts_encode_step(t: FreqTable, low: int, high: int, value: int, c: int)
    requires
        t.wf(),
        interval_wf(low, high),
        0 <= c < 256,
        t.freq(c) > 0,
        scaled(low, high, t.below(c), t.cum(c), t.total()).0 <= value,
        value <= scaled(low, high, t.below(c), t.cum(c), t.total()).1,
    ensures
        t.spec_lookup(dec_target(low, high, value, t.total())) == Some((t.spec_range(c), c)),
{
    let total = t.total();
    let l = t.below(c);
    let h = t.cum(c);
    let w = high - low + 1;
    let a = value - low + 1;
    let x = a * total - 1;
    assert(0 <= l) by {
        if c > 0 {
            assert(t.cum(0) <= t.cum(c - 1));
        }
    }
    assert(h <= total) by {
        assert(t.cum(c) <= t.cum(255));
    }
    let u = w * l / total;
    let z = w * h / total;
    vstd::arithmetic::div_mod::lemma_fundamental_div_mod(w * l, total);
    vstd::arithmetic::div_mod::lemma_fundamental_div_mod(w * h, total);
    assert(w * l >= 0) by (nonlinear_arith)
        requires
            w > 0,
            l >= 0,
    ;
    vstd::arithmetic::div_mod::lemma_mod_pos_bound(w * l, total);
    vstd::arithmetic::div_mod::lemma_mod_pos_bound(w * h, total);
    assert(a >= u + 1);
    assert(a <= z);
    assert(a * total > w * l) by (nonlinear_arith)
        requires
            a >= u + 1,
            w * l == total * u + (w * l) % total,
            (w * l) % total < total,
            total > 0,
    ;
    assert(a * total <= w * h) by (nonlinear_arith)
        requires
            a <= z,
            w * h == total * z + (w * h) % total,
            (w * h) % total >= 0,
            total > 0,
    ;
    let q = x / w;
    vstd::arithmetic::div_mod::lemma_fundamental_div_mod(x, w);
    assert(x >= 0) by (nonlinear_arith)
        requires
            a >= 1,
            total >= 1,
            x == a * total - 1,
    ;
    vstd::arithmetic::div_mod::lemma_mod_pos_bound(x, w);
    assert(l <= q) by (nonlinear_arith)
        requires
            x >= w * l,
            x == w * q + x % w,
            x % w < w,
            w > 0,
    ;
    assert(q < h) by (nonlinear_arith)
        requires
            x < w * h,
            x == w * q + x % w,
            x % w >= 0,
            w > 0,
    ;
    assert(dec_target(low, high, value, total) == q);
    t.lemma_lookup_inverts_range(c, q);
}

/// Decodes `n` symbols from `bits` with the fixed model `frequencies`;
/// `None` when the bits, with the zeros past their end, run out first.
pub fn decode(frequencies: &FreqTable, bits: Vec<bool>, n: usize) -> (r: Option<Vec<u8>>)
    requires
        frequencies.wf(),
    ensures
        match spec_decode(*frequencies, bits@, n as nat) {
            None => r is None,
            Some(s) => r matches Some(v) && v@ == s,
        },
{
    let ghost target = spec_decode(*frequencies, bits@, n as nat);
    let mut src = VecSource::new(bits);
    let mut decoder = ArithmeticDecoder::new(*frequencies);
    let mut out: Vec<u8> = Vec::new();
    let mut i: usize = 0;
    while i < n
        invariant
            0 <= i <= n,
            decoder.wf(),
            decoder.model() == *frequencies,
            src.known() is Some,
            target == spec_decode(*frequencies, bits@, n as nat),
            target == match decode_from(
                *frequencies,
                decoder.low(),
                decoder.high(),
                decoder.point_from(src.known()->0),
                decoder.stream_from(src.known()->0),
                (n - i) as nat,
            ) {
                None => None,
                Some(rest) => Some(out@ + rest),
            },
        decreases n - i,
    {
        let ghost before = out@;
        let ghost prev = decoder;
        let ghost k = src.known()->0;
        match decoder.next_symbol(&mut src) {
            Some(c) => {
                out.push(c);
                proof {
                    match decode_from(
                        *frequencies,
                        decoder.low(),
                        decoder.high(),
                        decoder.point_from(src.known()->0),
                        decoder.stream_from(src.known()->0),
                        (n - i - 1) as nat,
                    ) {
                        None => {},
                        Some(rest) => {
                            vstd::seq_lib::lemma_concat_associative(before, seq![c], rest);
                        },
                    }
                }
            },
            None => {
                assert(decode_from(
                    *frequencies,
                    prev.low(),
                    prev.high(),
                    prev.point_from(k),
                    prev.stream_from(k),
                    (n - i) as nat,
                ) is None);
                return None;
            },
        }
        i = i + 1;
    }
    assert(out@ + seq![] == out@);
    Some(out)
}

/// Arithmetic decoding state: the model, the interval, the point inside it
/// and the count of zero bits still to supply past the end of the input.
pub struct ArithmeticDecoder {
    frequencies: FreqTable,
    range: (u32, u32),
    value: u32,
    pending: u32,
    started: bool,
}

impl ArithmeticDecoder {
    /// The model in use.
    pub closed spec fn model(&self) -> FreqTable {
        self.frequencies
    }

    /// The low bound of the interval.
    pub closed spec fn low(&self) -> int {
        self.range.0 as int
    }

    /// The high bound of the interval.
    pub closed spec fn high(&self) -> int {
        self.range.1 as int
    }

    /// Whether the initial point has been read.
    pub closed spec fn started(&self) -> bool {
        self.started
    }

    /// The point inside the interval, once read from the input `s`.
    pub closed spec fn point_from(&self, s: Seq<bool>) -> int {
        if self.started {
            self.value as int
        } else {
            initial_value(s)
        }
    }

    /// The bits still to be read when the rest of the input is `s`: `s`
    /// itself, then the zeros past its end.
    pub closed spec fn stream_from(&self, s: Seq<bool>) -> Seq<bool> {
        if self.started {
            s + zeros(self.pending as nat)
        } else {
            initial_rest(s)
        }
    }

    /// The interval lies in the code space and holds the point.
    pub open spec fn sane(&self) -> bool {
        &&& interval_wf(self.low(), self.high())
        &&& self.low() <= self.point() <= self.high()
        &&& !self.started() ==> self.low() == 0 && self.high() == CODE_MAX
    }

    /// The point inside the interval, as last read.
    pub closed spec fn point(&self) -> int {
        self.value as int
    }

    /// The model is well formed and the point lies inside the interval.
    pub open spec fn wf(&self) -> bool {
        &&& self.model().wf()
        &&& self.sane()
    }

    /// A decoder at the start of a stream, with the model `frequencies`.
    pub fn new(frequencies: FreqTable) -> (r: ArithmeticDecoder)
        ensures
            r.sane(),
            frequencies.wf() ==> r.wf(),
            forall|b: Seq<bool>| #[trigger] r.point_from(b) == initial_value(b),
            forall|b: Seq<bool>| #[trigger] r.stream_from(b) == initial_rest(b),
            r.model() == frequencies,
            r.low() == 0,
            r.high() == CODE_MAX,
            !r.started(),
    {
        ArithmeticDecoder { frequencies, range: (0, CODE_MAX), value: 0, pending: 0, started: false }
    }

    /// The model in use.
    pub fn frequencies(&self) -> (r: FreqTable)
        ensures
            r == self.model(),
    {
        self.frequencies
    }

    /// Replaces the model, as an adaptive policy does between two symbols.
    pub fn set_frequencies(&mut self, frequencies: FreqTable)
        requires
            old(self).wf(),
            frequencies.wf(),
        ensures
            final(self).wf(),
            final(self).model() == frequencies,
            final(self).low() == old(self).low(),
            final(self).high() == old(self).high(),
            forall|s: Seq<bool>| #[trigger] final(self).point_from(s) == old(self).point_from(s),
            forall|s: Seq<bool>| #[trigger] final(self).stream_from(s) == old(self).stream_from(s),
    {
        self.frequencies = frequencies;
    }

    /// Reads the initial point: the first `CODE_BITS` bits of `src`,
    /// completed with zeros when it runs out.
    fn fetch_value<S: Source<Item = bool>>(src: &mut S) -> (r: u32)
        ensures
            r <= CODE_MAX,
            old(src).known() matches Some(s) ==> r == initial_value(s) && final(src).known() == Some(
                initial_rest(s).subrange(0, initial_rest(s).len() - CODE_BITS),
            ),
    {
        let ghost s0 = src.known();
        let mut value: u32 = 0;
        let mut k: usize = 0;
        let mut ended = false;
        while k < CODE_BITS as usize
            invariant
                0 <= k <= CODE_BITS,
                value <= CODE_MAX,
                s0 matches Some(s) ==> (ended ==> s.len() <= k),
                s0 matches Some(s) ==> value == prefix_value(s + zeros(CODE_BITS as nat), k as int)
                    && src.known() == Some(
                    s.subrange(if k < s.len() { k as int } else { s.len() as int }, s.len() as int),
                ),
            decreases CODE_BITS - k,
        {
            let ghost before = src.known();
            let bit = if ended {
                false
            } else {
                match src.pull() {
                    Some(b) => b,
                    None => {
                        ended = true;
                        false
                    },
                }
            };
            proof {
                if let Some(s) = s0 {
                    let padded = s + zeros(CODE_BITS as nat);
                    let rest = before->0;
                    if k < s.len() {
                        assert(rest[0] == s[k as int]);
                        assert(rest.drop_first() == s.subrange(k + 1, s.len() as int));
                    }
                    assert(bit == padded[k as int]);
                }
            }
            value = shift_in(value, if bit { 1 } else { 0 });
            k = k + 1;
        }
        proof {
            if let Some(s) = s0 {
                let start = if s.len() < CODE_BITS { s.len() as int } else { CODE_BITS as int };
                assert(initial_rest(s).subrange(0, initial_rest(s).len() - CODE_BITS) == s.subrange(
                    start,
                    s.len() as int,
                ));
            }
        }
        value
    }

    /// Reads the initial point from `src` on first use.
    fn start<S: Source<Item = bool>>(&mut self, src: &mut S)
        requires
            old(self).sane(),
        ensures
            final(self).sane(),
            final(self).started(),
            final(self).model() == old(self).model(),
            final(self).low() == old(self).low(),
            final(self).high() == old(self).high(),
            old(src).known() matches Some(s) ==> final(src).known() matches Some(s2)
                && final(self).point_from(s2) == old(self).point_from(s) && final(self).stream_from(
                s2,
            ) == old(self).stream_from(s),
    {
        if !self.started {
            self.value = Self::fetch_value(src);
            self.pending = CODE_BITS;
            self.started = true;
        }
    }


    /// Fetches the next bit: from `src`, then from the zeros past its end.
    fn next_bit<S: Source<Item = bool>>(&mut self, src: &mut S) -> (r: Option<u32>)
        requires
            old(self).sane(),
            old(self).started(),
        ensures
            final(self).sane(),
            final(self).started(),
            final(self).model() == old(self).model(),
            final(self).low() == old(self).low(),
            final(self).high() == old(self).high(),
            final(self).value == old(self).value,
            r matches Some(b) ==> b <= 1,
            r is None ==> *final(self) == *old(self),
            old(src).known() matches Some(s) ==> final(src).known() matches Some(s2) && ({
                let a = old(self).stream_from(s);
                &&& a.len() == 0 ==> r is None
                &&& a.len() > 0 ==> r == Some(bit_value(a[0]) as u32) && final(self).stream_from(s2)
                    == a.drop_first()
            }),
    {
        let ghost k = src.known();
        match src.pull() {
            Some(bit) => {
                proof {
                    if let Some(s) = k {
                        let z = zeros(self.pending as nat);
                        assert((s + z)[0] == s[0]);
                        assert((s + z).drop_first() == s.drop_first() + z);
                    }
                }
                return Some(if bit { 1 } else { 0 });
            },
            None => {},
        }
        proof {
            if let Some(s) = k {
                assert(s.len() == 0);
                assert(s + zeros(self.pending as nat) == zeros(self.pending as nat));
            }
        }
        if self.pending > 0 {
            self.pending = self.pending - 1;
            proof {
                if let Some(s) = k {
                    assert(s + zeros(self.pending as nat) == zeros((self.pending + 1) as nat).drop_first());
                }
            }
            return Some(0);
        }
        None
    }

    /// Shifts one bit from `src` into the interval and the point, first
    /// removing the first-quarter offset when `quarter` holds.
    fn advance<S: Source<Item = bool>>(&mut self, src: &mut S, quarter: bool) -> (r: Option<()>)
        requires
            old(self).sane(),
            old(self).started(),
            !ready(old(self).low(), old(self).high()),
            quarter == (!in_lower_half(old(self).low(), old(self).high()) && !in_upper_half(
                old(self).low(),
                old(self).high(),
            )),
        ensures
            final(self).sane(),
            final(self).started(),
            final(self).model() == old(self).model(),
            r is Some ==> final(self).high() - final(self).low() == 2 * (old(self).high()
                - old(self).low()) + 1,
            r is Some && !quarter ==> final(self).low() == doubled(old(self).low(), 0) && final(self).high()
                == doubled(old(self).high(), 1),
            r is Some && quarter ==> final(self).low() == 2 * (old(self).low() - CODE_1_4)
                && final(self).high() == 2 * (old(self).high() - CODE_1_4) + 1,
            r is Some && !quarter ==> final(self).point() == doubled(old(self).point(), 0)
                || final(self).point() == doubled(old(self).point(), 1),
            r is Some && quarter ==> final(self).point() == doubled(old(self).point() - CODE_1_4, 0)
                || final(self).point() == doubled(old(self).point() - CODE_1_4, 1),
            r is None ==> *final(self) == *old(self),
            old(src).known() matches Some(s) ==> final(src).known() matches Some(s2) && ({
                let a = old(self).stream_from(s);
                &&& r is None <==> a.len() == 0
                &&& r is Some && !quarter ==> final(self).point() == doubled(old(self).point(), bit_value(a[0]))
                &&& r is Some && quarter ==> final(self).point() == doubled(old(self).point() - CODE_1_4, bit_value(a[0]))
            }),
            old(src).known() matches Some(s) ==> final(src).known() matches Some(s2) && ({
                let before = dec_renorm(old(self).low(), old(self).high(), old(self).value as int, old(self).stream_from(s));
                &&& r is None ==> before is None
                &&& r is Some ==> dec_renorm(
                    final(self).low(),
                    final(self).high(),
                    final(self).value as int,
                    final(self).stream_from(s2),
                ) == before
            }),
    {
        let (low, high) = self.range;
        proof {
            if let Some(s) = src.known() {
                let a = self.stream_from(s);
                if a.len() > 0 {
                    lemma_dec_renorm_step(self.low(), self.high(), self.value as int, a);
                } else {
                    lemma_dec_renorm_step(self.low(), self.high(), self.value as int, seq![false]);
                    assert(a == Seq::<bool>::empty());
                }
            }
        }
        let bit = match self.next_bit(src) {
            Some(b) => b,
            None => return None,
        };
        if quarter {
            self.range = (shift_in(drop_quarter(low), 0), shift_in(drop_quarter(high), 1));
            self.value = shift_in(self.value - CODE_1_4, bit);
        } else {
            self.range = (shift_in(low, 0), shift_in(high, 1));
            self.value = shift_in(self.value, bit);
        }
        Some(())
    }

    /// Renormalises the interval and the point until the interval is ready
    /// for the next symbol; `None` when the bits run out first.
    fn renormalize<S: Source<Item = bool>>(&mut self, src: &mut S) -> (r: Option<()>)
        requires
            old(self).sane(),
            old(self).started(),
        ensures
            final(self).sane(),
            final(self).started(),
            final(self).model() == old(self).model(),
            r is Some ==> ready(final(self).low(), final(self).high()),
            old(src).known() matches Some(s) ==> final(src).known() matches Some(s2) && match dec_renorm(
                old(self).low(),
                old(self).high(),
                old(self).value as int,
                old(self).stream_from(s),
            ) {
                None => r is None,
                Some(x) => r is Some && final(self).low() == x.0 && final(self).high() == x.1
                    && final(self).value == x.2 && final(self).stream_from(s2) == x.3,
            },
    {
        let ghost known0 = src.known();
        let ghost target = match known0 {
            Some(s) => dec_renorm(self.low(), self.high(), self.value as int, self.stream_from(s)),
            None => None,
        };
        loop
            invariant
                self.sane(),
                self.started(),
                self.model() == old(self).model(),
                known0 == old(src).known(),
                known0 is Some ==> src.known() is Some,
                known0 matches Some(s) ==> target == dec_renorm(
                    old(self).low(),
                    old(self).high(),
                    old(self).value as int,
                    old(self).stream_from(s),
                ),
                known0 is Some ==> dec_renorm(
                    self.low(),
                    self.high(),
                    self.value as int,
                    self.stream_from(src.known()->0),
                ) == target,
            decreases CODE_MAX - (self.high() - self.low()),
        {
            let (low, high) = self.range;
            if low >= CODE_1_2 || high < CODE_1_2 {
                if self.advance(src, false).is_none() {
                    return None;
                }
            } else if low >= CODE_1_4 && high < CODE_3_4 {
                if self.advance(src, true).is_none() {
                    return None;
                }
            } else {
                proof {
                    if let Some(s) = src.known() {
                        lemma_dec_renorm_ready(self.low(), self.high(), self.value as int, self.stream_from(s));
                    }
                }
                return Some(());
            }
        }
    }

    /// Decodes the next symbol, pulling bits from `src`; `None` once the
    /// bits and the zeros past their end run out.
    pub fn next_symbol<S: Source<Item = bool>>(&mut self, src: &mut S) -> (r: Option<u8>)
        ensures
            final(self).model() == old(self).model(),
            old(self).wf() ==> final(self).wf() && final(self).started(),
            old(self).wf() ==> (old(src).known() matches Some(s) ==> final(src).known() matches Some(s2)
                && match dec_renorm(old(self).low(), old(self).high(), old(self).point_from(s), old(self).stream_from(s)) {
                None => r is None,
                Some(x) => match old(self).model().spec_lookup(
                    dec_target(x.0, x.1, x.2, old(self).model().total()),
                ) {
                    None => false,
                    Some(found) => {
                        let n = scaled(x.0, x.1, found.0.0, found.0.1, old(self).model().total());
                        &&& r == Some(found.1 as u8)
                        &&& final(self).low() == n.0
                        &&& final(self).high() == n.1
                        &&& final(self).point_from(s2) == x.2
                        &&& final(self).stream_from(s2) == x.3
                    },
                },
            }),
    {
        let (low0, high0) = self.range;
        if !(low0 <= self.value && self.value <= high0 && high0 <= CODE_MAX) {
            return None;
        }
        if !self.started && !(low0 == 0 && high0 == CODE_MAX) {
            return None;
        }
        let total = self.frequencies.len();
        if total == 0 || total >= FREQ_MAX {
            return None;
        }
        self.start(src);
        match self.renormalize(src) {
            Some(()) => {},
            None => return None,
        }
        let (low, high) = self.range;
        let value = self.value;
        let width: u32 = high - low + 1;
        proof {
            assert((value - low + 1) as int * total as int <= 131072 * 32767) by (nonlinear_arith)
                requires
                    value - low + 1 <= 131072,
                    total < 32767,
            ;
            assert((value - low + 1) as int * total as int >= 1) by (nonlinear_arith)
                requires
                    value - low + 1 >= 1,
                    total >= 1,
            ;
        }
        let i = ((value - low + 1) * total - 1) / width;
        proof {
            let a = (value - low + 1) as int;
            let x = a * total - 1;
            assert(x / (width as int) < total as int) by (nonlinear_arith)
                requires
                    1 <= a <= width,
                    total >= 1,
                    x == a * total - 1,
                    width >= 1,
            {
                assert(x < width * total) by (nonlinear_arith)
                    requires
                        a <= width,
                        x == a * total - 1,
                        total >= 1,
                ;
                vstd::arithmetic::div_mod::lemma_multiply_divide_lt(x, width as int, total as int);
            }
            if self.frequencies.wf() {
                self.frequencies.lemma_lookup_contains(i as int);
            }
        }
        match self.frequencies.lookup(i) {
            Some(((l, h), c)) => {
                if !(l <= i && i < h && h <= total) {
                    return None;
                }
                proof {
                    lemma_target(low as int, high as int, value as int, l as int, h as int, total as int);
                }
                self.range = scale(low, high, l, h, total);
                Some(c)
            },
            None => None,
        }
    }

}

impl Transform<bool> for ArithmeticDecoder {
    type Out = u8;

    /// Decodes the next symbol, as `next_symbol` does.
    fn next<S: Source<Item = bool>>(&mut self, src: &mut S) -> (r: Option<u8>)
        ensures
            final(self).model() == old(self).model(),
            old(self).wf() ==> final(self).wf() && final(self).started(),
            old(self).wf() ==> (old(src).known() matches Some(s) ==> final(src).known() matches Some(s2)
                && match dec_renorm(old(self).low(), old(self).high(), old(self).point_from(s), old(self).stream_from(s)) {
                None => r is None,
                Some(x) => match old(self).model().spec_lookup(
                    dec_target(x.0, x.1, x.2, old(self).model().total()),
                ) {
                    None => false,
                    Some(found) => {
                        let n = scaled(x.0, x.1, found.0.0, found.0.1, old(self).model().total());
                        &&& r == Some(found.1 as u8)
                        &&& final(self).low() == n.0
                        &&& final(self).high() == n.1
                        &&& final(self).point_from(s2) == x.2
                        &&& final(self).stream_from(s2) == x.3
                    },
                },
            }),
    {
        self.next_symbol(src)
    }
}

} // verus!

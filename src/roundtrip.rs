//! Decoding what the encoder produced gives back the symbols.
use vstd::prelude::*;
use crate::codes::{CODE_1_2, CODE_1_4, CODE_3_4, CODE_MAX};
use crate::decoder::{
    bit_value, dec_renorm, decode_from, initial_rest, initial_value, lemma_dec_renorm_ready,
    lemma_dec_renorm_step, lemma_decode_step_inverts_encode_step, prefix_value, spec_decode,
    zeros,
};
use crate::encoder::{emitted, enc_flush, enc_renorm, encodable, encode_from, spec_encode};
use crate::frequency::FreqTable;
use crate::interval::{
    doubled, in_lower_half, in_upper_half, interval_wf, lemma_scaled_wf, ready, scaled, straddles,
};

verus! {

/// Two to the power `n`.
pub open spec fn two_to(n: nat) -> int
    decreases n,
{
    if n == 0 {
        1
    } else {
        2 * two_to((n - 1) as nat)
    }
}

/// The number whose binary digits, most significant first, are the first
/// `n` bits of `s`.
pub open spec fn bits_value(s: Seq<bool>, n: nat) -> int
    decreases n,
{
    if n == 0 {
        0
    } else {
        2 * bits_value(s, (n - 1) as nat) + bit_value(s[n - 1])
    }
}

/// The value of the first `n` bits depends only on those bits.
proof fn lemma_bits_value_prefix(s: Seq<bool>, t: Seq<bool>, n: nat)
    requires
        n <= s.len(),
        n <= t.len(),
        s.subrange(0, n as int) == t.subrange(0, n as int),
    ensures
        bits_value(s, n) == bits_value(t, n),
    decreases n,
{
    if n > 0 {
        assert(s[n - 1] == s.subrange(0, n as int)[n - 1]);
        assert(t[n - 1] == t.subrange(0, n as int)[n - 1]);
        assert(s.subrange(0, n - 1) == s.subrange(0, n as int).subrange(0, n - 1));
        assert(t.subrange(0, n - 1) == t.subrange(0, n as int).subrange(0, n - 1));
        lemma_bits_value_prefix(s, t, (n - 1) as nat);
    }
}

/// The value of the first `a.len() + n` bits of `a + g` is the value of `a`
/// followed by the value of the first `n` bits of `g`.
proof fn lemma_bits_value_concat(a: Seq<bool>, g: Seq<bool>, n: nat)
    requires
        n <= g.len(),
    ensures
        bits_value(a + g, (a.len() + n) as nat) == bits_value(a, a.len()) * two_to(n) + bits_value(g, n),
    decreases n,
{
    if n == 0 {
        assert((a + g).subrange(0, a.len() as int) == a.subrange(0, a.len() as int));
        lemma_bits_value_prefix(a + g, a, a.len());
    } else {
        lemma_bits_value_concat(a, g, (n - 1) as nat);
        assert((a + g)[a.len() + n - 1] == g[n - 1]);
        let x = bits_value(a, a.len());
        let y = two_to((n - 1) as nat);
        assert(2 * (x * y) == x * (2 * y)) by (nonlinear_arith);
    }
}

/// The value of the bits `emitted(b, p)`: `2^p - 1` after a `0`, `2^p` after a `1`.
proof fn lemma_emitted_value(b: bool, p: nat)
    ensures
        emitted(b, p as int).len() == p + 1,
        bits_value(emitted(b, p as int), (p + 1) as nat) == if b {
            two_to(p)
        } else {
            two_to(p) - 1
        },
    decreases p,
{
    let e = emitted(b, p as int);
    assert(e[0] == b);
    if p == 0 {
        assert(bits_value(e, 1) == 2 * bits_value(e, 0) + bit_value(e[0]));
    } else {
        lemma_emitted_value(b, (p - 1) as nat);
        let e1 = emitted(b, p - 1);
        assert(e.subrange(0, p as int) == e1.subrange(0, p as int));
        lemma_bits_value_prefix(e, e1, p);
        assert(e[p as int] == !b);
        assert(bits_value(e, (p + 1) as nat) == 2 * bits_value(e, p) + bit_value(e[p as int]));
    }
}

/// `2^32`.
pub proof fn lemma_two_to_32()
    ensures
        two_to(32) == 4294967296,
{
    reveal_with_fuel(two_to, 33);
}

/// `2^16` and `2^17`.
proof fn lemma_two_to_16()
    ensures
        two_to(15) == 32768,
        two_to(16) == 65536,
        two_to(17) == 131072,
{
    reveal_with_fuel(two_to, 18);
}

/// Zeros are worth zero.
proof fn lemma_zeros_value(m: nat, n: nat)
    requires
        n <= m,
    ensures
        bits_value(zeros(m), n) == 0,
    decreases n,
{
    if n > 0 {
        lemma_zeros_value(m, (n - 1) as nat);
    }
}

/// The offset that `p` deferred bits add to the code, in units of the code space.
pub open spec fn offset(p: nat) -> int {
    CODE_1_2 * (two_to(p) - 1)
}

/// The point that the bits `r`, followed by `m` zeros, single out in an
/// interval whose encoder defers `p` bits.
pub open spec fn code_point(r: Seq<bool>, p: nat, m: nat) -> int {
    bits_value(r + zeros(m), p + 17) - offset(p)
}

/// What renormalisation leaves: a ready interval, and a count of deferred
/// bits that grew by at most one per step; the bits it emits and defers
/// together make up at least those deferred before.
proof fn lemma_renorm_facts(low: int, high: int, p: int)
    requires
        interval_wf(low, high),
        0 <= p,
        p + (CODE_MAX - (high - low)) < usize::MAX,
    ensures
        interval_wf(enc_renorm(low, high, p).0, enc_renorm(low, high, p).1),
        ready(enc_renorm(low, high, p).0, enc_renorm(low, high, p).1),
        0 <= enc_renorm(low, high, p).2 <= p + (CODE_MAX - (high - low)),
        enc_renorm(low, high, p).3.len() + enc_renorm(low, high, p).2 >= p,
    decreases CODE_MAX - (high - low),
{
    if in_lower_half(low, high) {
        lemma_renorm_facts(2 * low, 2 * high + 1, 0);
    } else if in_upper_half(low, high) {
        lemma_renorm_facts(2 * (low - CODE_1_2), 2 * (high - CODE_1_2) + 1, 0);
    } else if straddles(low, high) {
        lemma_renorm_facts(2 * (low - CODE_1_4), 2 * (high - CODE_1_4) + 1, p + 1);
    }
}

/// How many symbols' worth of deferred bits the count can still take.
pub open spec fn room(p: int, n: int) -> bool {
    p + (n + 1) * (CODE_MAX + 1) < usize::MAX
}

/// The stream from a state with `p` deferred bits is at least `p + 2` bits long.
proof fn lemma_encode_len(t: FreqTable, low: int, high: int, p: int, s: Seq<u8>)
    requires
        t.wf(),
        interval_wf(low, high),
        encodable(t, s),
        0 <= p,
        room(p, s.len() as int),
    ensures
        encode_from(t, low, high, p, s).len() >= p + 2,
    decreases s.len(),
{
    let r = enc_renorm(low, high, p);
    lemma_renorm_facts(low, high, p);
    if s.len() > 0 {
        let (l, h) = t.spec_range(s[0] as int);
        lemma_symbol_range(t, s[0] as int);
        lemma_scaled_wf(r.0, r.1, l, h, t.total());
        let n = scaled(r.0, r.1, l, h, t.total());
        assert(encodable(t, s.drop_first())) by {
            assert forall|i: int| 0 <= i < s.drop_first().len() implies t.freq(#[trigger] s.drop_first()[i] as int) > 0 by {
                assert(s.drop_first()[i] == s[i + 1]);
            }
        }
        assert(s.len() * (CODE_MAX + 1) == (s.len() - 1) * (CODE_MAX + 1) + (CODE_MAX + 1)) by (nonlinear_arith);
        lemma_encode_len(t, n.0, n.1, r.2, s.drop_first());
    }
}

/// The range of a symbol of non-zero frequency is non-empty and within the total.
proof fn lemma_symbol_range(t: FreqTable, c: int)
    requires
        t.wf(),
        0 <= c < 256,
    ensures
        0 <= t.below(c) <= t.cum(c) <= t.total(),
{
    assert(t.cum(c) <= t.cum(255));
    if c > 0 {
        assert(t.cum(0) <= t.cum(c - 1));
        assert(t.cum(c - 1) <= t.cum(c));
    }
    assert(t.cum(0) >= 0);
}

/// A renormalisation step keeps the point inside the interval: if the
/// bits that follow renormalisation single out a point of the interval it
/// leaves, the bits it emits followed by them single out a point of the
/// interval it started from.
proof fn lemma_point_through_renorm(low: int, high: int, p: int, rest: Seq<bool>, m: nat)
    requires
        interval_wf(low, high),
        0 <= p,
        p + (CODE_MAX - (high - low)) < usize::MAX,
        m >= 17,
        rest.len() >= enc_renorm(low, high, p).2 + 2,
        enc_renorm(low, high, p).0 <= code_point(rest, enc_renorm(low, high, p).2 as nat, m),
        code_point(rest, enc_renorm(low, high, p).2 as nat, m) <= enc_renorm(low, high, p).1,
    ensures
        low <= code_point(enc_renorm(low, high, p).3 + rest, p as nat, m) <= high,
    decreases CODE_MAX - (high - low),
{
    lemma_two_to_16();
    let r = enc_renorm(low, high, p);
    if in_lower_half(low, high) || in_upper_half(low, high) {
        let b = !in_lower_half(low, high);
        let nl = if b { 2 * (low - CODE_1_2) } else { 2 * low };
        let nh = if b { 2 * (high - CODE_1_2) + 1 } else { 2 * high + 1 };
        let r1 = enc_renorm(nl, nh, 0);
        lemma_renorm_facts(nl, nh, 0);
        lemma_point_through_renorm(nl, nh, 0, rest, m);
        let e = emitted(b, p);
        lemma_emitted_value(b, p as nat);
        let g = r1.3 + rest + zeros(m);
        assert(r.3 + rest + zeros(m) == e + g);
        lemma_bits_value_concat(e, g, 16);
        assert(bits_value(g, 17) == 2 * bits_value(g, 16) + bit_value(g[16]));
        assert(code_point(r1.3 + rest, 0, m) == bits_value(g, 17));
    } else if straddles(low, high) {
        let r1 = enc_renorm(2 * (low - CODE_1_4), 2 * (high - CODE_1_4) + 1, p + 1);
        lemma_point_through_renorm(2 * (low - CODE_1_4), 2 * (high - CODE_1_4) + 1, p + 1, rest, m);
        let f = r.3 + rest + zeros(m);
        assert(bits_value(f, (p + 18) as nat) == 2 * bits_value(f, (p + 17) as nat) + bit_value(f[p + 17]));
        assert(two_to((p + 1) as nat) == 2 * two_to(p as nat));
    } else {
        assert(r.3 + rest == rest);
    }
}

/// The bits that end a stream single out a point of the final interval.
proof fn lemma_point_of_flush(low: int, high: int, p: int, m: nat)
    requires
        interval_wf(low, high),
        ready(low, high),
        0 <= p < usize::MAX,
        m >= 17,
    ensures
        low <= code_point(enc_flush(low, p), p as nat, m) <= high,
        enc_flush(low, p).len() == p + 2,
{
    lemma_two_to_16();
    let b = low >= CODE_1_4;
    let e = emitted(b, p + 1);
    lemma_emitted_value(b, (p + 1) as nat);
    lemma_bits_value_concat(e, zeros(m), 15);
    lemma_zeros_value(m, 15);
    assert(two_to((p + 1) as nat) == 2 * two_to(p as nat));
}

/// The whole stream from any state singles out a point of that state's interval.
proof fn lemma_point_in_interval(t: FreqTable, low: int, high: int, p: int, s: Seq<u8>, m: nat)
    requires
        t.wf(),
        interval_wf(low, high),
        encodable(t, s),
        0 <= p,
        room(p, s.len() as int),
        m >= 17,
    ensures
        low <= code_point(encode_from(t, low, high, p, s), p as nat, m) <= high,
    decreases s.len(),
{
    let r = enc_renorm(low, high, p);
    lemma_renorm_facts(low, high, p);
    if s.len() == 0 {
        lemma_point_of_flush(r.0, r.1, r.2, m);
        lemma_point_through_renorm(low, high, p, enc_flush(r.0, r.2), m);
    } else {
        let (l, h) = t.spec_range(s[0] as int);
        lemma_symbol_range(t, s[0] as int);
        lemma_scaled_wf(r.0, r.1, l, h, t.total());
        let n = scaled(r.0, r.1, l, h, t.total());
        assert(encodable(t, s.drop_first())) by {
            assert forall|i: int| 0 <= i < s.drop_first().len() implies t.freq(#[trigger] s.drop_first()[i] as int) > 0 by {
                assert(s.drop_first()[i] == s[i + 1]);
            }
        }
        assert(s.len() * (CODE_MAX + 1) == (s.len() - 1) * (CODE_MAX + 1) + (CODE_MAX + 1)) by (nonlinear_arith);
        let rest = encode_from(t, n.0, n.1, r.2, s.drop_first());
        lemma_point_in_interval(t, n.0, n.1, r.2, s.drop_first(), m);
        lemma_encode_len(t, n.0, n.1, r.2, s.drop_first());
        lemma_point_through_renorm(low, high, p, rest, m);
    }
}

/// A value of `n` bits lies below `2^n`.
proof fn lemma_bits_value_bound(s: Seq<bool>, n: nat)
    ensures
        0 <= bits_value(s, n) < two_to(n),
    decreases n,
{
    if n > 0 {
        lemma_bits_value_bound(s, (n - 1) as nat);
    }
}

/// The bits that a decoder still has to read, when the encoder's stream
/// from here is `r`, followed by `m` zeros, and the encoder defers `p` bits.
pub open spec fn bits_after(r: Seq<bool>, p: nat, m: nat) -> Seq<bool> {
    (r + zeros(m)).subrange(p + 17 as int, r.len() + m as int)
}

/// The decoder renormalises in step with the encoder: from the point and
/// bits that the encoder's stream gives, it reaches the same interval, and
/// the point and bits that the rest of the stream gives.
proof fn lemma_decoder_follows_renorm(low: int, high: int, p: int, rest: Seq<bool>, m: nat)
    requires
        interval_wf(low, high),
        0 <= p,
        p + (CODE_MAX - (high - low)) < usize::MAX,
        m >= 17,
        rest.len() >= enc_renorm(low, high, p).2 + 2,
        enc_renorm(low, high, p).0 <= code_point(rest, enc_renorm(low, high, p).2 as nat, m),
        code_point(rest, enc_renorm(low, high, p).2 as nat, m) <= enc_renorm(low, high, p).1,
    ensures
        ({
            let r = enc_renorm(low, high, p);
            let whole = r.3 + rest;
            dec_renorm(low, high, code_point(whole, p as nat, m), bits_after(whole, p as nat, m))
                == Some((r.0, r.1, code_point(rest, r.2 as nat, m), bits_after(rest, r.2 as nat, m)))
        }),
    decreases CODE_MAX - (high - low),
{
    lemma_renorm_facts(low, high, p);
    let r = enc_renorm(low, high, p);
    let whole = r.3 + rest;
    let d = bits_after(whole, p as nat, m);
    let v = code_point(whole, p as nat, m);
    if in_lower_half(low, high) || in_upper_half(low, high) {
        let b = !in_lower_half(low, high);
        let nl = if b { 2 * (low - CODE_1_2) } else { 2 * low };
        let nh = if b { 2 * (high - CODE_1_2) + 1 } else { 2 * high + 1 };
        let r1 = enc_renorm(nl, nh, 0);
        lemma_renorm_facts(nl, nh, 0);
        lemma_decoder_follows_renorm(nl, nh, 0, rest, m);
        let r1w = r1.3 + rest;
        assert(r.3 == emitted(b, p) + r1.3);
        assert(whole == emitted(b, p) + r1w);
        lemma_emitting_step(b, p, r1w, m);
        lemma_dec_renorm_step(low, high, v, d);
        assert(doubled(low, 0) == nl);
        assert(doubled(high, 1) == nh);
        assert(dec_renorm(low, high, v, d) == dec_renorm(nl, nh, code_point(r1w, 0, m), bits_after(r1w, 0, m)));
    } else if straddles(low, high) {
        lemma_decoder_follows_renorm(2 * (low - CODE_1_4), 2 * (high - CODE_1_4) + 1, p + 1, rest, m);
        lemma_point_through_renorm(low, high, p, rest, m);
        assert(r == enc_renorm(2 * (low - CODE_1_4), 2 * (high - CODE_1_4) + 1, p + 1));
        lemma_straddling_step(p, whole, m);
        lemma_dec_renorm_step(low, high, v, d);
        assert(dec_renorm(low, high, v, d) == dec_renorm(
            2 * (low - CODE_1_4),
            2 * (high - CODE_1_4) + 1,
            code_point(whole, (p + 1) as nat, m),
            bits_after(whole, (p + 1) as nat, m),
        ));
    } else {
        assert(whole == rest);
        lemma_dec_renorm_ready(low, high, v, d);
    }
}

/// The decoder's view of a step that emits `b` and the `p` deferred bits:
/// its next point and bits are those of the stream after them.
proof fn lemma_emitting_step(b: bool, p: int, r1w: Seq<bool>, m: nat)
    requires
        0 <= p,
        m >= 17,
        r1w.len() >= 2,
    ensures
        ({
            let whole = emitted(b, p) + r1w;
            let d = bits_after(whole, p as nat, m);
            &&& d.len() > 0
            &&& doubled(code_point(whole, p as nat, m), bit_value(d[0])) == code_point(r1w, 0, m)
            &&& d.drop_first() == bits_after(r1w, 0, m)
            &&& code_point(whole, p as nat, m) == if b { CODE_1_2 + bits_value(r1w + zeros(m), 16) } else { bits_value(r1w + zeros(m), 16) }
        }),
{
    lemma_two_to_16();
    let e = emitted(b, p);
    let whole = e + r1w;
    let d = bits_after(whole, p as nat, m);
    lemma_emitted_value(b, p as nat);
    let g = r1w + zeros(m);
    assert(whole + zeros(m) == e + g);
    lemma_bits_value_concat(e, g, 16);
    lemma_bits_value_bound(g, 16);
    assert(bits_value(g, 17) == 2 * bits_value(g, 16) + bit_value(g[16]));
    assert(d[0] == g[16]);
    assert(d.drop_first() == bits_after(r1w, 0, m));
}

/// The decoder's view of a step that defers one more bit: its next point
/// and bits are those of the same stream with one more deferred bit.
proof fn lemma_straddling_step(p: int, whole: Seq<bool>, m: nat)
    requires
        0 <= p,
        m >= 17,
        whole.len() >= p + 2,
        CODE_1_4 <= code_point(whole, p as nat, m) < CODE_3_4,
    ensures
        ({
            let d = bits_after(whole, p as nat, m);
            &&& d.len() > 0
            &&& doubled(code_point(whole, p as nat, m) - CODE_1_4, bit_value(d[0])) == code_point(
                whole,
                (p + 1) as nat,
                m,
            )
            &&& d.drop_first() == bits_after(whole, (p + 1) as nat, m)
        }),
{
    let f = whole + zeros(m);
    let d = bits_after(whole, p as nat, m);
    assert(bits_value(f, (p + 18) as nat) == 2 * bits_value(f, (p + 17) as nat) + bit_value(f[p + 17]));
    assert(two_to((p + 1) as nat) == 2 * two_to(p as nat));
    assert(d[0] == f[p + 17]);
    assert(d.drop_first() == bits_after(whole, (p + 1) as nat, m));
}

/// The decoder, started from the point and bits that the encoder's stream
/// gives, decodes the symbols that the encoder encoded.
proof fn lemma_decoder_follows_encoder(t: FreqTable, low: int, high: int, p: int, s: Seq<u8>, m: nat)
    requires
        t.wf(),
        interval_wf(low, high),
        encodable(t, s),
        0 <= p,
        room(p, s.len() as int),
        m >= 17,
    ensures
        ({
            let whole = encode_from(t, low, high, p, s);
            decode_from(t, low, high, code_point(whole, p as nat, m), bits_after(whole, p as nat, m), s.len())
                == Some(s)
        }),
    decreases s.len(),
{
    if s.len() > 0 {
        let r = enc_renorm(low, high, p);
        lemma_renorm_facts(low, high, p);
        let c = s[0] as int;
        let (l, h) = t.spec_range(c);
        lemma_symbol_range(t, c);
        lemma_scaled_wf(r.0, r.1, l, h, t.total());
        let n = scaled(r.0, r.1, l, h, t.total());
        let tail = s.drop_first();
        assert(encodable(t, tail)) by {
            assert forall|i: int| 0 <= i < tail.len() implies t.freq(#[trigger] tail[i] as int) > 0 by {
                assert(tail[i] == s[i + 1]);
            }
        }
        assert(s.len() * (CODE_MAX + 1) == (s.len() - 1) * (CODE_MAX + 1) + (CODE_MAX + 1)) by (nonlinear_arith);
        let rest = encode_from(t, n.0, n.1, r.2, tail);
        lemma_point_in_interval(t, n.0, n.1, r.2, tail, m);
        lemma_encode_len(t, n.0, n.1, r.2, tail);
        lemma_decoder_follows_renorm(low, high, p, rest, m);
        let v = code_point(rest, r.2 as nat, m);
        assert(t.freq(s[0] as int) > 0);
        lemma_decode_step_inverts_encode_step(t, r.0, r.1, v, c);
        lemma_decoder_follows_encoder(t, n.0, n.1, r.2, tail, m);
        assert(seq![s[0]] + tail == s);
    }
}

/// Up to `CODE_BITS` bits, masking to the code width changes nothing.
proof fn lemma_prefix_value_exact(s: Seq<bool>, n: nat)
    requires
        n <= 17,
    ensures
        prefix_value(s, n as int) == bits_value(s, n),
    decreases n,
{
    if n > 0 {
        lemma_prefix_value_exact(s, (n - 1) as nat);
        lemma_bits_value_bound(s, (n - 1) as nat);
        lemma_two_to_mono((n - 1) as nat, 16);
        lemma_two_to_16();
    }
}

/// Powers of two grow with the exponent.
pub proof fn lemma_two_to_mono(a: nat, b: nat)
    requires
        a <= b,
    ensures
        1 <= two_to(a) <= two_to(b),
    decreases b,
{
    if a < b {
        lemma_two_to_mono(a, (b - 1) as nat);
    } else if b > 0 {
        lemma_two_to_mono((b - 1) as nat, (b - 1) as nat);
    }
}

/// Round trip: decoding, with the same fixed model, as many symbols as were
/// encoded gives back exactly the encoded symbols. It holds for every
/// sequence of symbols of non-zero frequency that is short enough for the
/// count of deferred bits never to reach `usize::MAX`.
pub proof fn lemma_round_trip(t: FreqTable, s: Seq<u8>)
    requires
        t.wf(),
        encodable(t, s),
        room(0, s.len() as int),
    ensures
        spec_decode(t, spec_encode(t, s), s.len()) == Some(s),
{
    let b = spec_encode(t, s);
    let m: nat = if b.len() >= 17 { 17 } else { (34 - b.len()) as nat };
    lemma_decoder_follows_encoder(t, 0, CODE_MAX as int, 0, s, m);
    assert(offset(0) == 0);
    let padded = b + zeros(17);
    let longer = b + zeros(m);
    assert(padded.subrange(0, 17) == longer.subrange(0, 17));
    lemma_bits_value_prefix(padded, longer, 17);
    lemma_prefix_value_exact(padded, 17);
    assert(initial_value(b) == code_point(b, 0, m));
    assert(initial_rest(b) == bits_after(b, 0, m));
}

} // verus!

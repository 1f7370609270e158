//! The interval arithmetic shared by the encoder and the decoder.
use vstd::prelude::*;
use crate::codes::{CODE_1_2, CODE_1_4, CODE_3_4, CODE_MAX, FREQ_MAX};

verus! {

/// Doubling a code: shift left one bit and drop the bit beyond the width.
pub open spec fn doubled(x: int, fill: int) -> int {
    (2 * x + fill) % (CODE_MAX as int + 1)
}

/// The interval `[low, high]` is a well-formed code interval.
pub open spec fn interval_wf(low: int, high: int) -> bool {
    0 <= low <= high <= CODE_MAX
}

/// Both bounds lie in the lower half: the next bit is known to be `0`.
pub open spec fn in_lower_half(low: int, high: int) -> bool {
    high < CODE_1_2
}

/// Both bounds lie in the upper half: the next bit is known to be `1`.
pub open spec fn in_upper_half(low: int, high: int) -> bool {
    low >= CODE_1_2
}

/// The interval straddles the midpoint inside the two middle quarters.
pub open spec fn straddles(low: int, high: int) -> bool {
    CODE_1_4 <= low && high < CODE_3_4
}

/// The interval is wide enough to take the next symbol.
pub open spec fn ready(low: int, high: int) -> bool {
    !in_lower_half(low, high) && !in_upper_half(low, high) && !straddles(low, high)
}

/// The interval after taking a symbol with cumulative range `[l, h)` out of `total`.
pub open spec fn scaled(low: int, high: int, l: int, h: int, total: int) -> (int, int) {
    let width = high - low + 1;
    (low + width * l / total, low + width * h / total - 1)
}

/// Shifts `x` left one bit, fills the new low bit with `fill` and masks to the code width.
pub fn shift_in(x: u32, fill: u32) -> (r: u32)
    requires
        x <= CODE_MAX,
        fill <= 1,
    ensures
        r == doubled(x as int, fill as int),
        r <= CODE_MAX,
{
    let r = ((x << 1u32) | fill) & CODE_MAX;
    assert(r == ((x << 1u32) | fill) & 0x1ffffu32);
    assert(((x << 1u32) | fill) & 0x1ffffu32 == (2 * x + fill) % 131072) by (bit_vector)
        requires
            x <= 0x1ffffu32,
            fill <= 1u32,
    ;
    r
}

/// Removes the first-quarter offset from a bound of an interval that straddles the midpoint.
pub fn drop_quarter(x: u32) -> (r: u32)
    requires
        CODE_1_4 <= x < CODE_3_4,
    ensures
        r == x - CODE_1_4,
{
    x - CODE_1_4
}

/// Scaling a ready interval by a non-empty symbol range of a model whose
/// total is below `FREQ_MAX` gives a well-formed interval inside it.
pub proof fn lemma_scaled_wf(low: int, high: int, l: int, h: int, total: int)
    requires
        interval_wf(low, high),
        ready(low, high),
        0 <= l < h <= total,
        0 < total < FREQ_MAX,
    ensures
        interval_wf(scaled(low, high, l, h, total).0, scaled(low, high, l, h, total).1),
        low <= scaled(low, high, l, h, total).0,
        scaled(low, high, l, h, total).1 <= high,
{
    let width = high - low + 1;
    assert(width > total);
    assert(width * l / total + 1 <= width * h / total) by (nonlinear_arith)
        requires
            width > total,
            0 <= l < h,
            total > 0,
    {
        assert(width * h >= width * l + width) by (nonlinear_arith)
            requires
                width > 0,
                h >= l + 1,
        ;
        assert(width * l / total + 1 == (width * l + total) / total) by (nonlinear_arith)
            requires
                total > 0,
        ;
        assert((width * l + total) / total <= (width * h) / total) by (nonlinear_arith)
            requires
                total > 0,
                width * l + total <= width * h,
        ;
    }
    assert(width * h / total <= width) by (nonlinear_arith)
        requires
            h <= total,
            total > 0,
            width > 0,
    {
        assert(width * h <= width * total) by (nonlinear_arith)
            requires
                h <= total,
                width > 0,
        ;
    }
    assert(0 <= width * l / total) by (nonlinear_arith)
        requires
            width > 0,
            l >= 0,
            total > 0,
    ;
}

/// Narrows a ready interval to the cumulative range `[l, h)` of a symbol,
/// out of a total `total`.
pub fn scale(low: u32, high: u32, l: u32, h: u32, total: u32) -> (r: (u32, u32))
    requires
        interval_wf(low as int, high as int),
        ready(low as int, high as int),
        l < h <= total,
        0 < total < FREQ_MAX,
    ensures
        r.0 as int == scaled(low as int, high as int, l as int, h as int, total as int).0,
        r.1 as int == scaled(low as int, high as int, l as int, h as int, total as int).1,
        interval_wf(r.0 as int, r.1 as int),
        low <= r.0,
        r.1 <= high,
{
    proof {
        lemma_scaled_wf(low as int, high as int, l as int, h as int, total as int);
    }
    let width: u32 = high - low + 1;
    assert(width as int * h as int <= 131072 * 32767) by (nonlinear_arith)
        requires
            width <= 131072,
            h < 32767,
    ;
    assert(width as int * l as int <= width as int * h as int) by (nonlinear_arith)
        requires
            l <= h,
    ;
    (low + (width * l) / total, low + (width * h) / total - 1)
}

} // verus!

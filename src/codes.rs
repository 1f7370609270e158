//! Fixed-point constants shared by the encoder, the decoder and the model.
use vstd::prelude::*;

verus! {

/// The largest code value: the interval lives in `[0, CODE_MAX]`.
pub const CODE_MAX: u32 = 131071;

/// `CODE_MAX / 2 + 1`: the first code of the upper half.
pub const CODE_1_2: u32 = 65536;

/// `CODE_1_2 / 2`: the first code of the second quarter.
pub const CODE_1_4: u32 = 32768;

/// `CODE_1_4 * 3`: the first code of the last quarter.
pub const CODE_3_4: u32 = 98304;

/// `u32::MAX / (CODE_MAX + 1)`: the total frequency must stay below this.
pub const FREQ_MAX: u32 = 32767;

/// The number of bits in a code value.
pub const CODE_BITS: u32 = 17;

} // verus!

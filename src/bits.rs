//! Packing of fixed-width unsigned integers into bits, most significant
//! bit first, and back.
use vstd::prelude::*;
use crate::decoder::{bit_value, zeros};
use crate::roundtrip::{bits_value, lemma_two_to_32, lemma_two_to_mono, two_to};
use crate::transforms::{Source, Transform};

verus! {

/// An unsigned integer type that can be split into bits.
pub trait IntIntoBits: Copy {
    /// The number of bits of the type.
    spec fn width() -> u32;

    /// The value, widened to `u32`.
    spec fn word_of(self) -> u32;

    /// The number of bits of the type.
    fn bit_width() -> (r: u32)
        ensures
            r == Self::width(),
            1 <= r <= 32,
    ;

    /// The value, widened to `u32`.
    fn to_word(self) -> (r: u32)
        ensures
            r == self.word_of(),
    ;
}

/// An unsigned integer type that can be assembled from bits.
pub trait IntFromBits: Sized {
    /// The number of bits of the type.
    spec fn width() -> u32;

    /// The low bits of `w` as a value of the type.
    spec fn of_word(w: u32) -> Self;

    /// The number of bits of the type.
    fn bit_width() -> (r: u32)
        ensures
            r == Self::width(),
            1 <= r <= 32,
    ;

    /// The low bits of `w` as a value of the type.
    fn from_word(w: u32) -> (r: Self)
        ensures
            r == Self::of_word(w),
    ;
}

impl IntIntoBits for u8 {
    open spec fn width() -> u32 {
        8
    }

    open spec fn word_of(self) -> u32 {
        self as u32
    }

    fn bit_width() -> u32 {
        8
    }

    fn to_word(self) -> u32 {
        self as u32
    }
}

impl IntIntoBits for u16 {
    open spec fn width() -> u32 {
        16
    }

    open spec fn word_of(self) -> u32 {
        self as u32
    }

    fn bit_width() -> u32 {
        16
    }

    fn to_word(self) -> u32 {
        self as u32
    }
}

impl IntIntoBits for u32 {
    open spec fn width() -> u32 {
        32
    }

    open spec fn word_of(self) -> u32 {
        self
    }

    fn bit_width() -> u32 {
        32
    }

    fn to_word(self) -> u32 {
        self
    }
}

impl IntFromBits for u8 {
    open spec fn width() -> u32 {
        8
    }

    open spec fn of_word(w: u32) -> u8 {
        w as u8
    }

    fn bit_width() -> u32 {
        8
    }

    fn from_word(w: u32) -> u8 {
        w as u8
    }
}

impl IntFromBits for u16 {
    open spec fn width() -> u32 {
        16
    }

    open spec fn of_word(w: u32) -> u16 {
        w as u16
    }

    fn bit_width() -> u32 {
        16
    }

    fn from_word(w: u32) -> u16 {
        w as u16
    }
}

impl IntFromBits for u32 {
    open spec fn width() -> u32 {
        32
    }

    open spec fn of_word(w: u32) -> u32 {
        w
    }

    fn bit_width() -> u32 {
        32
    }

    fn from_word(w: u32) -> u32 {
        w
    }
}

/// Bit `i` of `w` (bit 0 is the least significant).
pub open spec fn bit_of(w: u32, i: u32) -> bool {
    (w >> i) & 1 == 1
}

/// A stage that splits each value into its bits, most significant first.
pub struct IntoBits<D> {
    data: u32,
    idx: u32,
    marker: std::marker::PhantomData<D>,
}

impl<D: IntIntoBits> IntoBits<D> {
    /// The word being split.
    pub closed spec fn word(&self) -> u32 {
        self.data
    }

    /// How many of its bits are still to be handed out.
    pub closed spec fn left(&self) -> u32 {
        self.idx
    }

    /// A stage with nothing pending.
    pub fn new() -> (r: IntoBits<D>)
        ensures
            r.left() == 0,
    {
        IntoBits { data: 0, idx: 0, marker: std::marker::PhantomData }
    }

    /// The next bit of the current value, or `None` once all are out.
    pub fn next_bit(&mut self) -> (r: Option<bool>)
        ensures
            final(self).word() == old(self).word(),
            final(self).left() <= 32,
            old(self).left() == 0 || old(self).left() > 32 ==> r is None && final(self).left() == 0,
            0 < old(self).left() <= 32 ==> final(self).left() == old(self).left() - 1 && r == Some(
                bit_of(old(self).word(), (old(self).left() - 1) as u32),
            ),
    {
        if self.idx == 0 || self.idx > 32 {
            self.idx = 0;
            return None;
        }
        self.idx = self.idx - 1;
        Some((self.data >> self.idx) & 1 == 1)
    }
}

impl<D: IntIntoBits> Transform<D> for IntoBits<D> {
    type Out = bool;

    /// The next bit of the current value, most significant first; a new
    /// value is pulled once all bits of the current one are out.
    fn next<S: Source<Item = D>>(&mut self, src: &mut S) -> (r: Option<bool>)
        ensures
            final(self).left() <= 32,
            0 < old(self).left() <= 32 ==> r == Some(bit_of(old(self).word(), (old(self).left() - 1) as u32))
                && final(self).left() == old(self).left() - 1 && final(self).word() == old(self).word()
                && *final(src) == *old(src),
            (old(self).left() == 0 || old(self).left() > 32) ==> (old(src).known() matches Some(s) ==> (
            s.len() == 0 ==> r is None) && (s.len() > 0 ==> r == Some(
                bit_of(s[0].word_of(), (D::width() - 1) as u32),
            ) && final(self).word() == s[0].word_of() && final(self).left() == D::width() - 1
                && final(src).known() == Some(s.drop_first()))),
    {
        if self.idx == 0 || self.idx > 32 {
            self.idx = 0;
            match src.pull() {
                Some(d) => {
                    self.data = d.to_word();
                    self.idx = D::bit_width();
                },
                None => return None,
            }
        }
        self.next_bit()
    }
}

/// A stage that assembles values from bits, most significant first; a value
/// cut short by the end of the bits is completed with zeros.
pub struct FromBits<D> {
    marker: std::marker::PhantomData<D>,
}

impl<D: IntFromBits> FromBits<D> {
    /// The stage.
    pub fn new() -> FromBits<D> {
        FromBits { marker: std::marker::PhantomData }
    }
}

impl<D: IntFromBits> Transform<bool> for FromBits<D> {
    type Out = D;

    /// Assembles the next value from up to `D::width()` bits; `None` when
    /// no bit is left.
    fn next<S: Source<Item = bool>>(&mut self, src: &mut S) -> (r: Option<D>)
        ensures
            old(src).known() matches Some(s) ==> final(src).known() matches Some(s2) && (s.len() == 0
                ==> r is None && s2 == s) && (s.len() > 0 ==> r == Some(
                D::of_word(bits_value(s + zeros(D::width() as nat), D::width() as nat) as u32),
            ) && s2 == s.subrange(
                if s.len() < D::width() { s.len() as int } else { D::width() as int },
                s.len() as int,
            )),
    {
        let width = D::bit_width();
        let ghost s0 = src.known();
        let ghost padded = match s0 {
            Some(s) => s + zeros(width as nat),
            None => Seq::<bool>::empty(),
        };
        let mut word: u32 = match src.pull() {
            Some(true) => 1,
            Some(false) => 0,
            None => return None,
        };
        proof {
            if let Some(s) = s0 {
                assert(padded[0] == s[0]);
                assert(bits_value(padded, 1) == 2 * bits_value(padded, 0) + bit_value(padded[0]));
                assert(s.drop_first() == s.subrange(1, s.len() as int));
            }
            lemma_two_to_32();
            reveal_with_fuel(two_to, 2);
        }
        let mut k: u32 = 1;
        let mut ended = false;
        while k < width
            invariant
                1 <= k <= width <= 32,
                width == D::width(),
                (word as int) < two_to(k as nat),
                two_to(32) == 4294967296,
                s0 matches Some(s) ==> padded == s + zeros(width as nat) && word == bits_value(padded, k as nat)
                    && (ended ==> s.len() <= k) && src.known() == Some(
                    s.subrange(if k < s.len() { k as int } else { s.len() as int }, s.len() as int),
                ),
            decreases width - k,
        {
            let ghost before = src.known();
            let bit: bool = if ended {
                false
            } else {
                match src.pull() {
                    Some(b) => b,
                    None => {
                        ended = true;
                        false
                    },
                }
            };
            proof {
                if let Some(s) = s0 {
                    if k < s.len() {
                        assert(before->0[0] == s[k as int]);
                        assert(before->0.drop_first() == s.subrange(k + 1, s.len() as int));
                    }
                    assert(bit == padded[k as int]);
                    assert(bits_value(padded, (k + 1) as nat) == 2 * bits_value(padded, k as nat) + bit_value(padded[k as int]));
                }
                lemma_two_to_mono((k + 1) as nat, 32);
            }
            word = word * 2 + if bit { 1 } else { 0 };
            k = k + 1;
        }
        Some(D::from_word(word))
    }
}

/// Both directions of the bit packing of values of type `D`.
pub struct BitConverter<D> {
    marker: std::marker::PhantomData<D>,
}

impl<D: IntIntoBits + IntFromBits> BitConverter<D> {
    /// The converter.
    pub fn new() -> BitConverter<D> {
        BitConverter { marker: std::marker::PhantomData }
    }

    /// The stage from values to bits.
    pub fn encoder(&self) -> (r: IntoBits<D>)
        ensures
            r.left() == 0,
    {
        IntoBits::new()
    }

    /// The stage from bits to values.
    pub fn decoder(&self) -> FromBits<D> {
        FromBits::new()
    }
}

} // verus!

//! Sub-field access on 8-bit and 32-bit units.
//!
//! Indices count from the most significant sub-field: nibble 0 of a word is
//! bits 31..28, octet 3 of a word is bits 7..0.
use vstd::prelude::*;

verus! {

/// All ones in the low `width` bits of a word.
pub open spec fn low_mask32(width: u32) -> u32 {
    0xFFFF_FFFFu32 >> ((32 - width) as u32)
}

/// The `width` bits of `w` that start `shift` bits above the least significant one.
pub open spec fn get_field32(w: u32, shift: u32, width: u32) -> u32 {
    (w >> shift) & low_mask32(width)
}

/// `w` with the field at (`shift`, `width`) replaced by the low bits of `v`.
pub open spec fn set_field32(w: u32, shift: u32, width: u32, v: u32) -> u32 {
    (w & !(low_mask32(width) << shift)) | ((v & low_mask32(width)) << shift)
}

/// All ones in the low `width` bits of a byte.
pub open spec fn low_mask8(width: u8) -> u8 {
    0xFFu8 >> ((8 - width) as u8)
}

pub open spec fn get_field8(b: u8, shift: u8, width: u8) -> u8 {
    (b >> shift) & low_mask8(width)
}

pub open spec fn set_field8(b: u8, shift: u8, width: u8, v: u8) -> u8 {
    (b & !(low_mask8(width) << shift)) | ((v & low_mask8(width)) << shift)
}

/// A field of a word reads back what was written into it, and writing it
/// leaves every field that does not overlap it as it was.
pub proof fn lemma_field32(w: u32, s1: u32, n1: u32, v: u32, s2: u32, n2: u32)
    by (bit_vector)
    requires
        1 <= n1,
        s1 + n1 <= 32,
        1 <= n2,
        s2 + n2 <= 32,
    ensures
        get_field32(set_field32(w, s1, n1, v), s1, n1) == v & low_mask32(n1),
        s1 + n1 <= s2 || s2 + n2 <= s1 ==> get_field32(set_field32(w, s1, n1, v), s2, n2)
            == get_field32(w, s2, n2),
        get_field32(w, s2, n2) <= low_mask32(n2),
        v <= low_mask32(n1) ==> v & low_mask32(n1) == v,
{
}

/// The byte counterpart of [`lemma_field32`].
pub proof fn lemma_field8(b: u8, s1: u8, n1: u8, v: u8, s2: u8, n2: u8)
    by (bit_vector)
    requires
        1 <= n1,
        s1 + n1 <= 8,
        1 <= n2,
        s2 + n2 <= 8,
    ensures
        get_field8(set_field8(b, s1, n1, v), s1, n1) == v & low_mask8(n1),
        s1 + n1 <= s2 || s2 + n2 <= s1 ==> get_field8(set_field8(b, s1, n1, v), s2, n2)
            == get_field8(b, s2, n2),
        get_field8(b, s2, n2) <= low_mask8(n2),
        v <= low_mask8(n1) ==> v & low_mask8(n1) == v,
{
}

/// The masks of the widths in use, and what masking a value that fits does.
pub proof fn lemma_masks(v: u32, b: u8)
    by (bit_vector)
    ensures
        low_mask32(1) == 1,
        low_mask32(4) == 0xF,
        low_mask32(7) == 0x7F,
        low_mask32(8) == 0xFF,
        low_mask32(16) == 0xFFFF,
        low_mask32(32) == 0xFFFF_FFFF,
        low_mask8(1) == 1,
        low_mask8(4) == 0xF,
        low_mask8(8) == 0xFF,
        v <= 1 ==> v & 1 == v,
        v <= 0xF ==> v & 0xF == v,
        v <= 0x7F ==> v & 0x7F == v,
        v <= 0xFF ==> v & 0xFF == v,
        v <= 0xFFFF ==> v & 0xFFFF == v,
        v & 0xFFFF_FFFF == v,
        b <= 1 ==> b & 1 == b,
        b <= 0xF ==> b & 0xF == b,
        b & 0xFF == b,
{
}

pub fn get_field32_exec(w: u32, shift: u32, width: u32) -> (r: u32)
    requires
        1 <= width,
        shift + width <= 32,
    ensures
        r == get_field32(w, shift, width),
        r <= low_mask32(width),
{
    proof {
        lemma_field32(w, shift, width, 0, shift, width);
    }
    (w >> shift) & (0xFFFF_FFFFu32 >> (32 - width))
}

pub fn set_field32_exec(w: u32, shift: u32, width: u32, v: u32) -> (r: u32)
    requires
        1 <= width,
        shift + width <= 32,
    ensures
        r == set_field32(w, shift, width, v),
{
    let mask: u32 = 0xFFFF_FFFFu32 >> (32 - width);
    (w & !(mask << shift)) | ((v & mask) << shift)
}

pub fn get_field8_exec(b: u8, shift: u8, width: u8) -> (r: u8)
    requires
        1 <= width,
        shift + width <= 8,
    ensures
        r == get_field8(b, shift, width),
        r <= low_mask8(width),
{
    proof {
        lemma_field8(b, shift, width, 0, shift, width);
    }
    (b >> shift) & (0xFFu8 >> (8 - width))
}

pub fn set_field8_exec(b: u8, shift: u8, width: u8, v: u8) -> (r: u8)
    requires
        1 <= width,
        shift + width <= 8,
    ensures
        r == set_field8(b, shift, width, v),
{
    let mask: u8 = 0xFFu8 >> (8 - width);
    (b & !(mask << shift)) | ((v & mask) << shift)
}

/// Nibble `i` of a word (0 is the most significant).
pub open spec fn nibble32(w: u32, i: int) -> u8 {
    get_field32(w, (28 - 4 * i) as u32, 4) as u8
}

/// Octet `i` of a word (0 is the most significant).
pub open spec fn octet32(w: u32, i: int) -> u8 {
    get_field32(w, (24 - 8 * i) as u32, 8) as u8
}

/// 16-bit half `i` of a word (0 is the most significant).
pub open spec fn word32(w: u32, i: int) -> u16 {
    get_field32(w, (16 - 16 * i) as u32, 16) as u16
}

/// Bit `i` of a word (0 is the most significant).
pub open spec fn bit32(w: u32, i: int) -> bool {
    get_field32(w, (31 - i) as u32, 1) == 1
}

pub open spec fn nibble8(b: u8, i: int) -> u8 {
    get_field8(b, (4 - 4 * i) as u8, 4)
}

pub open spec fn bit8(b: u8, i: int) -> bool {
    get_field8(b, (7 - i) as u8, 1) == 1
}

/// Bit, nibble, octet and 16-bit access on a storage unit. An index out of
/// range for the unit is excluded by the contracts: every call site names a
/// fixed position.
pub trait BitOps: Sized {
    spec fn bit_count() -> nat;

    spec fn nibble_count() -> nat;

    spec fn octet_count() -> nat;

    spec fn word_count() -> nat;

    spec fn spec_bit(&self, i: int) -> bool;

    spec fn spec_nibble(&self, i: int) -> u8;

    spec fn spec_octet(&self, i: int) -> u8;

    spec fn spec_word(&self, i: int) -> u16;

    fn bit(&self, index: usize) -> (r: bool)
        requires
            index < Self::bit_count(),
        ensures
            r == self.spec_bit(index as int),
    ;

    fn set_bit(&mut self, index: usize, v: bool)
        requires
            index < Self::bit_count(),
        ensures
            final(self).spec_bit(index as int) == v,
            forall|j: int|
                0 <= j < Self::bit_count() && j != index ==> #[trigger] final(self).spec_bit(j)
                    == old(self).spec_bit(j),
    ;

    fn nibble(&self, index: usize) -> (r: u8)
        requires
            index < Self::nibble_count(),
        ensures
            r == self.spec_nibble(index as int),
            r < 16,
    ;

    fn set_nibble(&mut self, index: usize, v: u8)
        requires
            index < Self::nibble_count(),
            v < 16,
        ensures
            final(self).spec_nibble(index as int) == v,
            forall|j: int|
                0 <= j < Self::nibble_count() && j != index ==> #[trigger] final(self).spec_nibble(
                    j,
                ) == old(self).spec_nibble(j),
    ;

    fn octet(&self, index: usize) -> (r: u8)
        requires
            index < Self::octet_count(),
        ensures
            r == self.spec_octet(index as int),
    ;

    fn set_octet(&mut self, index: usize, v: u8)
        requires
            index < Self::octet_count(),
        ensures
            final(self).spec_octet(index as int) == v,
            forall|j: int|
                0 <= j < Self::octet_count() && j != index ==> #[trigger] final(self).spec_octet(j)
                    == old(self).spec_octet(j),
    ;

    fn word(&self, index: usize) -> (r: u16)
        requires
            index < Self::word_count(),
        ensures
            r == self.spec_word(index as int),
    ;

    fn set_word(&mut self, index: usize, v: u16)
        requires
            index < Self::word_count(),
        ensures
            final(self).spec_word(index as int) == v,
            forall|j: int|
                0 <= j < Self::word_count() && j != index ==> #[trigger] final(self).spec_word(j)
                    == old(self).spec_word(j),
    ;
}

impl BitOps for u32 {
    open spec fn bit_count() -> nat {
        32
    }

    open spec fn nibble_count() -> nat {
        8
    }

    open spec fn octet_count() -> nat {
        4
    }

    open spec fn word_count() -> nat {
        2
    }

    open spec fn spec_bit(&self, i: int) -> bool {
        bit32(*self, i)
    }

    open spec fn spec_nibble(&self, i: int) -> u8 {
        nibble32(*self, i)
    }

    open spec fn spec_octet(&self, i: int) -> u8 {
        octet32(*self, i)
    }

    open spec fn spec_word(&self, i: int) -> u16 {
        word32(*self, i)
    }

    fn bit(&self, index: usize) -> (r: bool) {
        get_field32_exec(*self, (31 - index) as u32, 1) == 1
    }

    fn set_bit(&mut self, index: usize, v: bool) {
        let s: u32 = (31 - index) as u32;
        let ghost w = *self;
        let x: u32 = if v {
            1
        } else {
            0
        };
        *self = set_field32_exec(*self, s, 1, x);
        proof {
            lemma_masks(x, 0);
            lemma_field32(w, s, 1, x, s, 1);
            assert forall|j: int| 0 <= j < 32 && j != index implies #[trigger] bit32(*self, j)
                == bit32(w, j) by {
                lemma_field32(w, s, 1, x, (31 - j) as u32, 1);
            }
        }
    }

    fn nibble(&self, index: usize) -> (r: u8) {
        proof {
            lemma_masks(0, 0);
        }
        get_field32_exec(*self, (28 - index * 4) as u32, 4) as u8
    }

    fn set_nibble(&mut self, index: usize, v: u8) {
        let s: u32 = (28 - index * 4) as u32;
        let ghost w = *self;
        *self = set_field32_exec(*self, s, 4, v as u32);
        proof {
            lemma_masks(v as u32, 0);
            lemma_field32(w, s, 4, v as u32, s, 4);
            assert forall|j: int| 0 <= j < 8 && j != index implies #[trigger] nibble32(*self, j)
                == nibble32(w, j) by {
                lemma_field32(w, s, 4, v as u32, (28 - 4 * j) as u32, 4);
            }
        }
    }

    fn octet(&self, index: usize) -> (r: u8) {
        proof {
            lemma_masks(0, 0);
        }
        get_field32_exec(*self, (24 - index * 8) as u32, 8) as u8
    }

    fn set_octet(&mut self, index: usize, v: u8) {
        let s: u32 = (24 - index * 8) as u32;
        let ghost w = *self;
        *self = set_field32_exec(*self, s, 8, v as u32);
        proof {
            lemma_masks(v as u32, 0);
            lemma_field32(w, s, 8, v as u32, s, 8);
            assert forall|j: int| 0 <= j < 4 && j != index implies #[trigger] octet32(*self, j)
                == octet32(w, j) by {
                lemma_field32(w, s, 8, v as u32, (24 - 8 * j) as u32, 8);
            }
        }
    }

    fn word(&self, index: usize) -> (r: u16) {
        proof {
            lemma_masks(0, 0);
        }
        get_field32_exec(*self, (16 - index * 16) as u32, 16) as u16
    }

    fn set_word(&mut self, index: usize, v: u16) {
        let s: u32 = (16 - index * 16) as u32;
        let ghost w = *self;
        *self = set_field32_exec(*self, s, 16, v as u32);
        proof {
            lemma_masks(v as u32, 0);
            lemma_field32(w, s, 16, v as u32, s, 16);
            assert forall|j: int| 0 <= j < 2 && j != index implies #[trigger] word32(*self, j)
                == word32(w, j) by {
                lemma_field32(w, s, 16, v as u32, (16 - 16 * j) as u32, 16);
            }
        }
    }
}

impl BitOps for u8 {
    open spec fn bit_count() -> nat {
        8
    }

    open spec fn nibble_count() -> nat {
        2
    }

    open spec fn octet_count() -> nat {
        1
    }

    /// A byte has no 16-bit sub-field.
    open spec fn word_count() -> nat {
        0
    }

    open spec fn spec_bit(&self, i: int) -> bool {
        bit8(*self, i)
    }

    open spec fn spec_nibble(&self, i: int) -> u8 {
        nibble8(*self, i)
    }

    open spec fn spec_octet(&self, i: int) -> u8 {
        *self
    }

    open spec fn spec_word(&self, i: int) -> u16 {
        0
    }

    fn bit(&self, index: usize) -> (r: bool) {
        get_field8_exec(*self, (7 - index) as u8, 1) == 1
    }

    fn set_bit(&mut self, index: usize, v: bool) {
        let s: u8 = (7 - index) as u8;
        let ghost b = *self;
        let x: u8 = if v {
            1
        } else {
            0
        };
        *self = set_field8_exec(*self, s, 1, x);
        proof {
            lemma_masks(0, x);
            lemma_field8(b, s, 1, x, s, 1);
            assert forall|j: int| 0 <= j < 8 && j != index implies #[trigger] bit8(*self, j)
                == bit8(b, j) by {
                lemma_field8(b, s, 1, x, (7 - j) as u8, 1);
            }
        }
    }

    fn nibble(&self, index: usize) -> (r: u8) {
        proof {
            lemma_masks(0, 0);
        }
        get_field8_exec(*self, (4 - index * 4) as u8, 4)
    }

    fn set_nibble(&mut self, index: usize, v: u8) {
        let s: u8 = (4 - index * 4) as u8;
        let ghost b = *self;
        *self = set_field8_exec(*self, s, 4, v);
        proof {
            lemma_masks(0, v);
            lemma_field8(b, s, 4, v, s, 4);
            assert forall|j: int| 0 <= j < 2 && j != index implies #[trigger] nibble8(*self, j)
                == nibble8(b, j) by {
                lemma_field8(b, s, 4, v, (4 - 4 * j) as u8, 4);
            }
        }
    }

    fn octet(&self, index: usize) -> (r: u8) {
        *self
    }

    fn set_octet(&mut self, index: usize, v: u8) {
        *self = v;
    }

    fn word(&self, index: usize) -> (r: u16) {
        0
    }

    fn set_word(&mut self, index: usize, v: u16) {
    }
}

/// Every field of the zero word is zero.
pub proof fn lemma_zero_fields()
    by (bit_vector)
    ensures
        forall|s: u32, n: u32| #[trigger] get_field32(0, s, n) == 0,
{
}

/// An octet of a word is its two nibbles.
pub proof fn lemma_octet_nibbles(w: u32)
    by (bit_vector)
    ensures
        get_field32(w, 24, 8) == get_field32(w, 28, 4) * 16 + get_field32(w, 24, 4),
        get_field32(w, 16, 8) == get_field32(w, 20, 4) * 16 + get_field32(w, 16, 4),
{
}

} // verus!

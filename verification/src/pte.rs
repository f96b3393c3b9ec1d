//! Bit-level codec for one page-table entry: flags in bits [0,8),
//! physical page number in bits [10,54), matching the hardware MMU layout.
//! Entry words, page numbers and tokens are 64-bit hardware quantities.
use vstd::prelude::*;
use crate::PPN_MASK;

verus! {

/// Valid bit: the entry points to a live next level or frame.
pub const FLAG_V: u8 = 0b0000_0001;
/// Readable.
pub const FLAG_R: u8 = 0b0000_0010;
/// Writable.
pub const FLAG_W: u8 = 0b0000_0100;
/// Executable.
pub const FLAG_X: u8 = 0b0000_1000;
/// User-accessible.
pub const FLAG_U: u8 = 0b0001_0000;
/// Global mapping.
pub const FLAG_G: u8 = 0b0010_0000;
/// Accessed (hardware-maintained).
pub const FLAG_A: u8 = 0b0100_0000;
/// Dirty (hardware-maintained).
pub const FLAG_D: u8 = 0b1000_0000;

/// The three permission bits `set_flags` is allowed to touch: R, W, X.
pub const PERM_MASK: u64 = 0b1110;

/// The set of flag bits of one entry, packed into the low byte.
#[derive(Clone, Copy, PartialEq, Eq, Structural, Debug)]
pub struct PteFlags {
    pub bits: u8,
}

impl PteFlags {
    /// No flag set.
    pub fn empty() -> (r: Self)
        ensures
            r.bits == 0,
    {
        PteFlags { bits: 0 }
    }

    /// The flag set with exactly the given bits; every bit position is meaningful,
    /// so no byte is rejected.
    pub fn from_bits(bits: u8) -> (r: Self)
        ensures
            r.bits == bits,
    {
        PteFlags { bits }
    }

    /// Union of two flag sets.
    pub fn union(self, other: Self) -> (r: Self)
        ensures
            r.bits == self.bits | other.bits,
    {
        PteFlags { bits: self.bits | other.bits }
    }

    /// Whether every bit of `other` is set in `self`.
    pub fn contains(self, other: Self) -> (r: bool)
        ensures
            r == (self.bits & other.bits == other.bits),
    {
        self.bits & other.bits == other.bits
    }
}

/// One page-table entry: a raw machine word.
#[derive(Clone, Copy, PartialEq, Eq, Structural, Debug)]
pub struct PageTableEntry {
    pub bits: u64,
}

/// The physical page number held in bits [10,54) of an entry word.
pub open spec fn bits_ppn(bits: u64) -> u64 {
    (bits >> 10) & PPN_MASK
}

/// The flag byte held in bits [0,8) of an entry word.
pub open spec fn bits_flags(bits: u64) -> u8 {
    bits as u8
}

/// Whether the valid bit of an entry word is set.
pub open spec fn bits_valid(bits: u64) -> bool {
    bits & (FLAG_V as u64) == (FLAG_V as u64)
}

impl PageTableEntry {
    pub open spec fn spec_ppn(self) -> u64 {
        bits_ppn(self.bits)
    }

    pub open spec fn spec_flags(self) -> u8 {
        bits_flags(self.bits)
    }

    pub open spec fn spec_valid(self) -> bool {
        bits_valid(self.bits)
    }

    /// Encode a physical page number together with a flag set.
    pub fn new(ppn: u64, flags: PteFlags) -> (r: Self)
        requires
            ppn <= PPN_MASK,
        ensures
            r.bits == (ppn << 10) | (flags.bits as u64),
            r.spec_ppn() == ppn,
            r.spec_flags() == flags.bits,
            r.spec_valid() == (flags.bits & FLAG_V == FLAG_V),
    {
        let bits: u64 = (ppn << 10) | (flags.bits as u64);
        proof {
            let f = flags.bits;
            assert(ppn <= 0xFFF_FFFF_FFFF ==> (((ppn << 10) | (f as u64)) >> 10)
                & 0xFFF_FFFF_FFFF == ppn) by (bit_vector);
            assert((((ppn << 10) | (f as u64)) as u8) == f) by (bit_vector);
            assert(ppn <= 0xFFF_FFFF_FFFF ==> ((((ppn << 10) | (f as u64)) & 1u64 == 1u64)
                == (f & 1u8 == 1u8))) by (bit_vector);
        }
        PageTableEntry { bits }
    }

    /// The all-zero entry: invalid, no permissions, page number zero.
    pub fn empty() -> (r: Self)
        ensures
            r.bits == 0,
            !r.spec_valid(),
    {
        proof {
            assert(0u64 & 1u64 != 1u64) by (bit_vector);
        }
        PageTableEntry { bits: 0 }
    }

    /// The physical page number this entry points at.
    pub fn ppn(&self) -> (r: u64)
        ensures
            r == self.spec_ppn(),
    {
        (self.bits >> 10) & PPN_MASK
    }

    /// The flag byte of this entry.
    pub fn flags(&self) -> (r: PteFlags)
        ensures
            r.bits == self.spec_flags(),
    {
        PteFlags { bits: self.bits as u8 }
    }

    pub fn is_valid(&self) -> (r: bool)
        ensures
            r == self.spec_valid(),
    {
        self.bits & (FLAG_V as u64) == (FLAG_V as u64)
    }

    pub fn readable(&self) -> (r: bool)
        ensures
            r == (self.spec_flags() & FLAG_R == FLAG_R),
    {
        proof {
            let b = self.bits;
            assert((b & 2u64 == 2u64) == ((b as u8) & 2u8 == 2u8)) by (bit_vector);
        }
        self.bits & (FLAG_R as u64) == (FLAG_R as u64)
    }

    pub fn writable(&self) -> (r: bool)
        ensures
            r == (self.spec_flags() & FLAG_W == FLAG_W),
    {
        proof {
            let b = self.bits;
            assert((b & 4u64 == 4u64) == ((b as u8) & 4u8 == 4u8)) by (bit_vector);
        }
        self.bits & (FLAG_W as u64) == (FLAG_W as u64)
    }

    pub fn executable(&self) -> (r: bool)
        ensures
            r == (self.spec_flags() & FLAG_X == FLAG_X),
    {
        proof {
            let b = self.bits;
            assert((b & 8u64 == 8u64) == ((b as u8) & 8u8 == 8u8)) by (bit_vector);
        }
        self.bits & (FLAG_X as u64) == (FLAG_X as u64)
    }

    /// Overwrite only the R/W/X permission bits from the low byte of `flags`;
    /// the valid bit, the high flag bits and the page number are untouched.
    pub fn set_flags(&mut self, flags: u64)
        ensures
            final(self).bits == (old(self).bits & !PERM_MASK) | (flags & PERM_MASK),
    {
        self.bits = (self.bits & !PERM_MASK) | (flags & PERM_MASK);
    }
}

/// An entry freshly encoded from a page number and flags decodes back to the
/// same page number and the same flag byte: the codec is lossless for every
/// representable pair.
pub proof fn lemma_pte_round_trip(ppn: u64, flags: u8)
    requires
        ppn <= PPN_MASK,
    ensures
        bits_ppn((ppn << 10) | (flags as u64)) == ppn,
        bits_flags((ppn << 10) | (flags as u64)) == flags,
{
    assert(ppn <= 0xFFF_FFFF_FFFF ==> (((ppn << 10) | (flags as u64)) >> 10)
        & 0xFFF_FFFF_FFFF == ppn) by (bit_vector);
    assert((((ppn << 10) | (flags as u64)) as u8) == flags) by (bit_vector);
}

/// `set_flags` rewrites only the bits selected by `PERM_MASK`: outside the
/// mask the new word is bit-identical to the old one, and inside the mask it
/// is bit-identical to the requested flags, for any input word.
pub proof fn lemma_set_flags_narrow(old_bits: u64, flags: u64)
    ensures
        ((old_bits & !PERM_MASK) | (flags & PERM_MASK)) & !PERM_MASK == old_bits & !PERM_MASK,
        ((old_bits & !PERM_MASK) | (flags & PERM_MASK)) & PERM_MASK == flags & PERM_MASK,
        bits_ppn((old_bits & !PERM_MASK) | (flags & PERM_MASK)) == bits_ppn(old_bits),
        bits_valid((old_bits & !PERM_MASK) | (flags & PERM_MASK)) == bits_valid(old_bits),
{
    assert(((old_bits & !0b1110u64) | (flags & 0b1110u64)) & !0b1110u64 == old_bits
        & !0b1110u64) by (bit_vector);
    assert(((old_bits & !0b1110u64) | (flags & 0b1110u64)) & 0b1110u64 == flags
        & 0b1110u64) by (bit_vector);
    assert((((old_bits & !0b1110u64) | (flags & 0b1110u64)) >> 10) & 0xFFF_FFFF_FFFF
        == (old_bits >> 10) & 0xFFF_FFFF_FFFF) by (bit_vector);
    assert((((old_bits & !0b1110u64) | (flags & 0b1110u64)) & 1u64 == 1u64) == (old_bits
        & 1u64 == 1u64)) by (bit_vector);
}

} // verus!

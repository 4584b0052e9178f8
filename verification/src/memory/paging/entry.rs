use vstd::prelude::*;

use crate::memory::{Frame, MAX_FRAME_COUNT, PAGE_SIZE};

use super::PhysicalAddress;

verus! {

/// Bits 12 through 51 of an entry: the physical address it points to.
pub const PHYSICAL_ADDRESS_MASK: u64 = 0xF_FFFF_FFFF_F000;

/// The flag bits that [`EntryFlags`] knows: bits 0 through 8 and bit 63.
pub const KNOWN_FLAGS_MASK: u64 = 0x8000_0000_0000_01FF;

/// Flag bits of a page-table entry. The associated constants are the bits of
/// the single flags: `EntryFlags(EntryFlags::PRESENT | EntryFlags::WRITABLE)`.
#[derive(Debug, Clone, Copy, PartialEq, Eq)]
pub struct EntryFlags(pub u64);

impl EntryFlags {
    pub const PRESENT: u64 = 0x1;
    pub const WRITABLE: u64 = 0x2;
    pub const USER_ACCESSIBLE: u64 = 0x4;
    pub const WRITE_THROUGH: u64 = 0x8;
    pub const CACHE_DISABLE: u64 = 0x10;
    pub const ACCESSED: u64 = 0x20;
    pub const DIRTY: u64 = 0x40;
    pub const HUGE_PAGE: u64 = 0x80;
    pub const GLOBAL: u64 = 0x100;
    pub const NO_EXECUTE: u64 = 0x8000_0000_0000_0000;

    /// The raw bits.
    pub fn bits(&self) -> (r: u64)
        ensures
            r == self.0,
    {
        self.0
    }

    /// Keeps the known flag bits of `bits` and drops the others.
    pub fn from_bits_truncate(bits: u64) -> (r: EntryFlags)
        ensures
            r.0 == bits & KNOWN_FLAGS_MASK,
    {
        EntryFlags(bits & KNOWN_FLAGS_MASK)
    }

    /// Whether every bit of `other` is set in `self`.
    pub fn contains(&self, other: EntryFlags) -> (r: bool)
        ensures
            r == (self.0 & other.0 == other.0),
    {
        self.0 & other.0 == other.0
    }

    /// The flags set in either `self` or `other`.
    pub fn union(self, other: EntryFlags) -> (r: EntryFlags)
        ensures
            r.0 == self.0 | other.0,
    {
        EntryFlags(self.0 | other.0)
    }
}

/// Whether a raw entry has its present bit set.
pub open spec fn entry_present(e: u64) -> bool {
    e & 1 == 1
}

/// Whether a raw entry has its huge-page bit set.
pub open spec fn entry_huge(e: u64) -> bool {
    e & 0x80 == 0x80
}

/// The physical address held in a raw entry.
pub open spec fn entry_address(e: u64) -> u64 {
    e & PHYSICAL_ADDRESS_MASK
}

/// The frame a raw entry points to.
pub open spec fn entry_frame(e: u64) -> u64 {
    entry_address(e) / 4096
}

/// The raw value that points an entry at `frame` with `flags`.
pub open spec fn entry_value(frame: Frame, flags: EntryFlags) -> u64 {
    ((frame.0 * 4096) as u64) | flags.0
}

/// Facts about entries built by [`entry_value`] from a frame below
/// [`MAX_FRAME_COUNT`] and flags that lie in [`KNOWN_FLAGS_MASK`].
pub proof fn lemma_entry_value(frame: Frame, flags: EntryFlags)
    requires
        frame.0 < MAX_FRAME_COUNT,
        flags.0 & KNOWN_FLAGS_MASK == flags.0,
    ensures
        entry_frame(entry_value(frame, flags)) == frame.0,
        entry_address(entry_value(frame, flags)) == frame.0 * 4096,
        entry_present(entry_value(frame, flags)) == (flags.0 & 1 == 1),
        entry_huge(entry_value(frame, flags)) == (flags.0 & 0x80 == 0x80),
        entry_value(frame, flags) & KNOWN_FLAGS_MASK == flags.0,
{
    lemma_packed_entry(frame.0 as u64, flags.0);
}

/// Bit facts of an entry packed from a frame `f` below 2^40 and flags `b`
/// inside the known flag bits.
proof fn lemma_packed_entry(f: u64, b: u64)
    by (bit_vector)
    requires
        f < 0x100_0000_0000u64,
        b & 0x8000_0000_0000_01FFu64 == b,
    ensures
        f * 4096 == f << 12u64,
        ((f << 12u64) | b) & 0xF_FFFF_FFFF_F000u64 == f << 12u64,
        ((f << 12u64) | b) & 1u64 == b & 1u64,
        ((f << 12u64) | b) & 0x80u64 == b & 0x80u64,
        ((f << 12u64) | b) & 0x8000_0000_0000_01FFu64 == b,
        (f << 12u64) / 4096 == f,
{
}

/// Bit facts that reading any entry `e` relies on.
pub proof fn lemma_entry_bits(e: u64)
    by (bit_vector)
    ensures
        (e & 1 != 0) == (e & 1 == 1),
        (e & 0x80 != 0) == (e & 0x80 == 0x80),
        (e & 0xF_FFFF_FFFF_F000u64) / 4096 < 0x100_0000_0000u64,
        (e & 0x8000_0000_0000_01FFu64) & 1u64 == 1u64 <==> e & 1u64 == 1u64,
        (e & 0x8000_0000_0000_01FFu64) & 0x80u64 == 0x80u64 <==> e & 0x80u64 == 0x80u64,
{
}

/// An all-zero entry is neither present nor huge.
pub proof fn lemma_zero_entry()
    by (bit_vector)
    ensures
        !entry_present(0u64),
        !entry_huge(0u64),
        entry_address(0u64) == 0,
{
}

/// An entry of a page table: a physical address and flags packed in 64 bits.
#[derive(Debug, Clone, Copy, PartialEq, Eq)]
pub struct PageTableEntry(pub u64);

impl PageTableEntry {
    /// An unused entry.
    pub fn new() -> (r: Self)
        ensures
            r.0 == 0,
    {
        PageTableEntry(0)
    }

    /// Points the entry at `frame` with `flags`.
    pub fn set(&mut self, frame: Frame, flags: EntryFlags)
        requires
            frame.0 < MAX_FRAME_COUNT,
        ensures
            final(self).0 == entry_value(frame, flags),
    {
        let f: u64 = frame.0 as u64;
        self.0 = (f * 4096) | flags.bits();
    }

    /// The known flag bits of the entry.
    pub fn flags(&self) -> (r: EntryFlags)
        ensures
            r.0 == self.0 & KNOWN_FLAGS_MASK,
    {
        EntryFlags::from_bits_truncate(self.0)
    }

    /// Marks the entry unused.
    pub fn set_unused(&mut self)
        ensures
            final(self).0 == 0,
    {
        self.0 = 0;
    }

    /// Whether the entry is unused (all zero).
    pub fn is_unused(&self) -> (r: bool)
        ensures
            r == (self.0 == 0),
    {
        self.0 == 0
    }

    /// Sets the bits of `flags`, keeping the others.
    pub fn set_flags(&mut self, flags: EntryFlags)
        ensures
            final(self).0 == old(self).0 | flags.0,
    {
        self.0 = self.0 | flags.bits();
    }

    /// Clears the bits of `flags`, keeping the others.
    pub fn clear_flags(&mut self, flags: EntryFlags)
        ensures
            final(self).0 == old(self).0 & !flags.0,
    {
        self.0 = self.0 & !flags.bits();
    }

    /// Whether the present bit is set.
    pub fn is_present(&self) -> (r: bool)
        ensures
            r == entry_present(self.0),
    {
        proof {
            lemma_entry_bits(self.0);
        }
        (self.0 & EntryFlags::PRESENT) != 0
    }

    /// Whether the huge-page bit is set.
    pub fn is_huge(&self) -> (r: bool)
        ensures
            r == entry_huge(self.0),
    {
        proof {
            lemma_entry_bits(self.0);
        }
        (self.0 & EntryFlags::HUGE_PAGE) != 0
    }

    /// The physical address the entry holds.
    pub fn get_physical_address(&self) -> (r: PhysicalAddress)
        ensures
            r.0 == entry_address(self.0),
    {
        PhysicalAddress(self.0 & PHYSICAL_ADDRESS_MASK)
    }

    /// The frame the entry points to, if the entry is present.
    pub fn get_pointed_frame(&self) -> (r: Option<Frame>)
        ensures
            r == (if entry_present(self.0) {
                Some(Frame(entry_frame(self.0) as usize))
            } else {
                None
            }),
            r matches Some(f) ==> f.0 < MAX_FRAME_COUNT,
    {
        proof {
            lemma_entry_bits(self.0);
        }
        if self.flags().contains(EntryFlags(EntryFlags::PRESENT)) {
            Some(Frame(((self.0 & PHYSICAL_ADDRESS_MASK) / 4096) as usize))
        } else {
            None
        }
    }
}

} // verus!

use vstd::prelude::*;

use crate::bits::{fits_bits_u16, set_bits_u16, u16_set_bit, u16_set_bits};

verus! {

/// A CPU privilege level.
#[derive(Debug, Clone, Copy, PartialEq, Eq)]
pub enum PrivilegeLevel {
    Ring0,
    Ring1,
    Ring2,
    Ring3,
}

impl PrivilegeLevel {
    /// The level's number.
    pub open spec fn spec_bits(self) -> u16 {
        match self {
            PrivilegeLevel::Ring0 => 0,
            PrivilegeLevel::Ring1 => 1,
            PrivilegeLevel::Ring2 => 2,
            PrivilegeLevel::Ring3 => 3,
        }
    }

    /// The level's number.
    pub fn bits(&self) -> (r: u16)
        ensures
            r == self.spec_bits(),
    {
        match self {
            PrivilegeLevel::Ring0 => 0,
            PrivilegeLevel::Ring1 => 1,
            PrivilegeLevel::Ring2 => 2,
            PrivilegeLevel::Ring3 => 3,
        }
    }
}

/// A segment selector: a descriptor index and a requested privilege level.
#[derive(Debug, Clone, Copy, PartialEq, Eq)]
pub struct SegmentSelector(pub u16);

impl SegmentSelector {
    /// The selector of descriptor `index` at privilege `rpl`.
    pub fn new(index: u16, rpl: PrivilegeLevel) -> (r: SegmentSelector)
        ensures
            r.0 == (index << 3u16) | rpl.spec_bits(),
    {
        SegmentSelector((index << 3u16) | rpl.bits())
    }
}

/// What `lidt` loads: the table's size in bytes minus one, and its address.
#[derive(Debug, Clone, Copy, PartialEq, Eq)]
pub struct DescriptorTablePointer {
    pub limit: u16,
    pub base: u64,
}

/// The options word of an interrupt gate.
#[derive(Debug, Clone, Copy, PartialEq, Eq)]
pub struct EntryOptions(pub u16);

/// Bits 9 through 11 set: the bits an interrupt gate must have set.
pub open spec fn minimal_options() -> u16 {
    set_bits_u16(0, 9, 12, 7)
}

/// The bit facts that the options word relies on, for a word `x`, a
/// privilege level `dpl` and a stack index `index`.
proof fn lemma_option_bits(x: u16, dpl: u16, index: u16)
    by (bit_vector)
    requires
        dpl < 4,
        index < 8,
    ensures
        fits_bits_u16(9, 12, 7),
        set_bits_u16(0, 9, 12, 7) == 0x0E00u16,
        (0x0E00u16 | 0x8000u16) & 0xFEFFu16 == 0x8E00u16,
        1u16 << 15u16 == 0x8000u16,
        x & !(1u16 << 15u16) == x & 0x7FFFu16,
        1u16 << 8u16 == 0x0100u16,
        x & !(1u16 << 8u16) == x & 0xFEFFu16,
        fits_bits_u16(13, 15, dpl),
        set_bits_u16(x, 13, 15, dpl) == (x & 0x9FFFu16) | (dpl << 13u16),
        fits_bits_u16(0, 3, index),
        set_bits_u16(x, 0, 3, index) == (x & 0xFFF8u16) | index,
        (0u16 << 3u16) | 0u16 == 0u16,
        (0x8E00u16 & 0x9FFFu16) | (0u16 << 13u16) == 0x8E00u16,
        0u16 as u64 | ((0u16 as u64) << 16u64) | ((0u32 as u64) << 32u64) == 0u64,
{
}

/// A handler address is the three pieces a descriptor holds, put back
/// together.
proof fn lemma_handler_split(ptr: u64)
    by (bit_vector)
    ensures
        (ptr as u16) as u64 | ((((ptr >> 16u64) as u16) as u64) << 16u64) | ((((ptr >> 32u64) as u32) as u64)
            << 32u64) == ptr,
{
}

impl EntryOptions {
    /// Options with only the must-be-one bits set: not present, interrupts
    /// enabled, ring 0, no stack switch.
    pub fn minimal() -> (r: EntryOptions)
        ensures
            r.0 == minimal_options(),
            r.0 == 0x0E00,
    {
        let mut options: u16 = 0;
        proof {
            lemma_option_bits(0, 0, 0);
        }
        u16_set_bits(&mut options, 9, 12, 7);
        EntryOptions(options)
    }

    /// Options of a present gate that disables interrupts.
    pub fn new() -> (r: EntryOptions)
        ensures
            r.0 == 0x8E00,
    {
        let mut options = Self::minimal();
        options.set_present(true).disable_interrupts(true);
        proof {
            lemma_option_bits(0, 0, 0);
        }
        options
    }

    /// Sets or clears the present bit (bit 15).
    pub fn set_present(&mut self, present: bool) -> (r: &mut Self)
        ensures
            *r == EntryOptions(if present {
                old(self).0 | 0x8000u16
            } else {
                old(self).0 & 0x7FFFu16
            }),
            *final(self) == *final(r),
    {
        proof {
            lemma_option_bits(self.0, 0, 0);
        }
        u16_set_bit(&mut self.0, 15, present);
        self
    }

    /// Bit 8 clear: interrupts are disabled on entry through this entry; set:
    /// they stay enabled.
    pub fn disable_interrupts(&mut self, disable: bool) -> (r: &mut Self)
        ensures
            *r == EntryOptions(if disable {
                old(self).0 & 0xFEFFu16
            } else {
                old(self).0 | 0x0100u16
            }),
            *final(self) == *final(r),
    {
        proof {
            lemma_option_bits(self.0, 0, 0);
        }
        u16_set_bit(&mut self.0, 8, !disable);
        self
    }

    /// Sets the descriptor privilege level (bits 13 and 14).
    pub fn set_privilege_level(&mut self, dpl: u16) -> (r: &mut Self)
        requires
            dpl < 4,
        ensures
            *r == EntryOptions((old(self).0 & 0x9FFFu16) | (dpl << 13u16)),
            *final(self) == *final(r),
    {
        proof {
            lemma_option_bits(self.0, dpl, 0);
        }
        u16_set_bits(&mut self.0, 13, 15, dpl);
        self
    }

    /// Sets the interrupt stack table index (bits 0 through 2).
    pub fn set_stack_index(&mut self, index: u16) -> (r: &mut Self)
        requires
            index < 8,
        ensures
            *r == EntryOptions((old(self).0 & 0xFFF8u16) | index),
            *final(self) == *final(r),
    {
        proof {
            lemma_option_bits(self.0, 0, index);
        }
        u16_set_bits(&mut self.0, 0, 3, index);
        self
    }
}

/// A gate that is not present: all zero but the must-be-one option bits.
pub open spec fn missing_entry() -> Entry {
    Entry {
        pointer_low: 0,
        gdt_selector: SegmentSelector(0),
        options: EntryOptions(0x0E00),
        pointer_middle: 0,
        pointer_high: 0,
        reserved: 0,
    }
}

/// An interrupt gate: the handler's address split in three, the code segment
/// to run it in, and the options.
#[derive(Debug, Clone, Copy, PartialEq, Eq)]
pub struct Entry {
    pub pointer_low: u16,
    pub gdt_selector: SegmentSelector,
    pub options: EntryOptions,
    pub pointer_middle: u16,
    pub pointer_high: u32,
    pub reserved: u32,
}

impl Entry {
    /// The entry for `handler_addr` in segment `gdt_selector`.
    pub open spec fn new_spec(gdt_selector: SegmentSelector, handler_addr: u64) -> Entry {
        Entry {
            pointer_low: handler_addr as u16,
            gdt_selector,
            options: EntryOptions(0x8E00),
            pointer_middle: (handler_addr >> 16u64) as u16,
            pointer_high: (handler_addr >> 32u64) as u32,
            reserved: 0,
        }
    }

    /// The handler address an entry holds.
    pub open spec fn handler_address(self) -> u64 {
        self.pointer_low as u64 | ((self.pointer_middle as u64) << 16u64) | ((self.pointer_high as u64) << 32u64)
    }

    /// A present gate to the handler at `handler_addr` in segment
    /// `gdt_selector`, with interrupts disabled.
    pub fn new(gdt_selector: SegmentSelector, handler_addr: u64) -> (r: Entry)
        ensures
            r == Entry::new_spec(gdt_selector, handler_addr),
            r.handler_address() == handler_addr,
    {
        let ptr = handler_addr;
        proof {
            lemma_handler_split(ptr);
        }
        Entry {
            pointer_low: ptr as u16,
            gdt_selector,
            options: EntryOptions::new(),
            pointer_middle: (ptr >> 16u64) as u16,
            pointer_high: (ptr >> 32u64) as u32,
            reserved: 0,
        }
    }

    /// A gate that is not present.
    pub fn missing() -> (r: Entry)
        ensures
            r == missing_entry(),
            r.handler_address() == 0,
    {
        let e = Entry {
            pointer_low: 0,
            gdt_selector: SegmentSelector::new(0, PrivilegeLevel::Ring0),
            options: EntryOptions::minimal(),
            pointer_middle: 0,
            pointer_high: 0,
            reserved: 0,
        };
        proof {
            lemma_option_bits(0, 0, 0);
        }
        e
    }

    /// A mutable reference to the entry's options.
    pub fn options_mut(&mut self) -> (r: &mut EntryOptions)
        ensures
            *r == old(self).options,
            *final(self) == (Entry { options: *final(r), ..*old(self) }),
    {
        &mut self.options
    }
}

/// The interrupt descriptor table: one gate per vector.
pub struct Idt(pub [Entry; 256]);

impl Idt {
    /// A table of missing gates.
    pub fn new() -> (r: Idt)
        ensures
            forall|i: int| 0 <= i < 256 ==> #[trigger] r.0[i] == missing_entry(),
    {
        Idt([Entry::missing(); 256])
    }

    /// Points gate `entry` at the handler at `handler_addr`, in the code
    /// segment `cs` (the one running now), at privilege level 0; returns the
    /// gate for further changes.
    pub fn set_handler(&mut self, entry: u8, cs: u16, handler_addr: u64) -> (r: &mut Entry)
        ensures
            *r == Entry::new_spec(SegmentSelector(cs), handler_addr),
            forall|i: int| 0 <= i < 256 && i != entry ==> #[trigger] final(self).0[i] == old(self).0[i],
            final(self).0[entry as int] == *final(r),
    {
        let mut e = Entry::new(SegmentSelector(cs), handler_addr);
        e.options_mut().set_privilege_level(PrivilegeLevel::Ring0.bits());
        proof {
            lemma_option_bits(0, 0, 0);
        }
        self.0[entry as usize] = e;
        &mut self.0[entry as usize]
    }
}

} // verus!

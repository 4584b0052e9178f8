use vstd::prelude::*;

use crate::bits::{fits_bits_u64, get_bits_u64, set_bits_u64, u64_get_bits, u64_set_bits};

verus! {

/// Selector of the kernel code segment.
pub const KERNEL_CODE_SELECTOR: u16 = 8;
/// Selector of the kernel data segment.
pub const KERNEL_DATA_SELECTOR: u16 = 16;
/// Selector of the task state segment.
pub const TSS_SELECTOR: u16 = 24;
/// Number of descriptors in the table.
pub const GDT_SIZE: usize = 5;

/// Size of the task state segment in bytes.
pub const TSS_SIZE: u64 = 104;

/// Descriptor bit: code segment, conforming.
pub const CONFORMING: u64 = 0x0400_0000_0000;
/// Descriptor bit: executable (code) segment.
pub const EXECUTABLE: u64 = 0x0800_0000_0000;
/// Descriptor bit: code or data segment, not a system segment.
pub const USER_SEGMENT: u64 = 0x1000_0000_0000;
/// Descriptor bit: present.
pub const PRESENT: u64 = 0x8000_0000_0000;
/// Descriptor bit: 64-bit code segment.
pub const LONG_MODE: u64 = 0x0020_0000_0000_0000;
/// Descriptor bit: code segment readable.
pub const CS_READABLE: u64 = 0x0200_0000_0000;
/// Descriptor bit: data segment writable.
pub const DS_WRITABLE: u64 = 0x0200_0000_0000;

/// A descriptor of the global descriptor table.
#[derive(Debug, Clone, Copy, PartialEq, Eq)]
pub struct GdtEntry(pub u64);

/// The low half of the descriptor of a task state segment at `addr`: limit
/// `TSS_SIZE - 1` in bits 0..16, the address's bits 0..24 in bits 16..40,
/// type 0b1001 (available 64-bit TSS) in bits 40..44, present, and the
/// address's bits 24..32 in bits 56..64.
pub open spec fn tss_low(addr: u64) -> u64 {
    103u64 | ((addr & 0xFF_FFFFu64) << 16u64) | (9u64 << 40u64) | 0x8000_0000_0000u64 | (((addr >> 24u64) & 0xFFu64) << 56u64)
}

impl GdtEntry {
    /// The null descriptor.
    pub fn empty() -> (r: GdtEntry)
        ensures
            r.0 == 0,
    {
        GdtEntry(0)
    }

    /// The 64-bit kernel code segment: user segment, present, readable,
    /// executable, long mode.
    pub fn kernel_code_seg() -> (r: GdtEntry)
        ensures
            r.0 == USER_SEGMENT | PRESENT | CS_READABLE | EXECUTABLE | LONG_MODE,
            r.0 == 0x0020_9A00_0000_0000,
    {
        assert(0x1000_0000_0000u64 | 0x8000_0000_0000u64 | 0x0200_0000_0000u64 | 0x0800_0000_0000u64
            | 0x0020_0000_0000_0000u64 == 0x0020_9A00_0000_0000u64) by (bit_vector);
        GdtEntry(USER_SEGMENT | PRESENT | CS_READABLE | EXECUTABLE | LONG_MODE)
    }

    /// The kernel data segment: user segment, present, writable.
    pub fn new_data() -> (r: GdtEntry)
        ensures
            r.0 == USER_SEGMENT | PRESENT | DS_WRITABLE,
            r.0 == 0x0000_9200_0000_0000,
    {
        assert(0x1000_0000_0000u64 | 0x8000_0000_0000u64 | 0x0200_0000_0000u64 == 0x0000_9200_0000_0000u64)
            by (bit_vector);
        GdtEntry(USER_SEGMENT | PRESENT | DS_WRITABLE)
    }

    /// The two descriptors of the task state segment at `tss_addr`.
    pub fn tss_seg(tss_addr: u64) -> (r: (GdtEntry, GdtEntry))
        ensures
            r.0.0 == tss_low(tss_addr),
            r.1.0 == tss_addr >> 32u64,
    {
        let ptr = tss_addr;
        let mut low: u64 = PRESENT;
        let a = u64_get_bits(ptr, 0, 24);
        assert(fits_bits_u64(16, 40, get_bits_u64(ptr, 0, 24))) by (bit_vector);
        u64_set_bits(&mut low, 16, 40, a);
        let b = u64_get_bits(ptr, 24, 32);
        assert(fits_bits_u64(56, 64, get_bits_u64(ptr, 24, 32))) by (bit_vector);
        u64_set_bits(&mut low, 56, 64, b);
        assert(fits_bits_u64(0, 16, 103u64)) by (bit_vector);
        u64_set_bits(&mut low, 0, 16, TSS_SIZE - 1);
        assert(fits_bits_u64(40, 44, 9u64)) by (bit_vector);
        u64_set_bits(&mut low, 40, 44, 0b1001);
        assert(set_bits_u64(
            set_bits_u64(
                set_bits_u64(
                    set_bits_u64(0x8000_0000_0000u64, 16, 40, get_bits_u64(ptr, 0, 24)),
                    56,
                    64,
                    get_bits_u64(ptr, 24, 32),
                ),
                0,
                16,
                103u64,
            ),
            40,
            44,
            9u64,
        ) == tss_low(ptr)) by (bit_vector);
        let mut high: u64 = 0;
        let c = u64_get_bits(ptr, 32, 64);
        assert(fits_bits_u64(0, 32, get_bits_u64(ptr, 32, 64))) by (bit_vector);
        u64_set_bits(&mut high, 0, 32, c);
        assert(set_bits_u64(0u64, 0, 32, get_bits_u64(ptr, 32, 64)) == ptr >> 32u64) by (bit_vector);
        (GdtEntry(low), GdtEntry(high))
    }
}

/// The descriptor table: null, kernel code, kernel data, and the two halves
/// of the descriptor of the task state segment at `tss_addr`.
pub fn gdt(tss_addr: u64) -> (r: [GdtEntry; 5])
    ensures
        r[0].0 == 0,
        r[1].0 == 0x0020_9A00_0000_0000,
        r[2].0 == 0x0000_9200_0000_0000,
        r[3].0 == tss_low(tss_addr),
        r[4].0 == tss_addr >> 32u64,
{
    let (tss_low_entry, tss_high_entry) = GdtEntry::tss_seg(tss_addr);
    [GdtEntry::empty(), GdtEntry::kernel_code_seg(), GdtEntry::new_data(), tss_low_entry, tss_high_entry]
}

} // verus!

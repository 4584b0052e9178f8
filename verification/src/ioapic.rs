use vstd::prelude::*;

use crate::memory::paging::entry::EntryFlags;
use crate::memory::paging::mapper::{
    can_map, free_frames_off_walk, mapped_address, mapped_effect, tables_missing, walk_distinct, MapError, Mapper,
};
use crate::memory::paging::VirtualAddress;
use crate::memory::{Frame, FrameAllocator, PAGE_SIZE};

verus! {

/// Register select register offset.
pub const IOREGSEL: usize = 0x00;
/// Register window offset.
pub const IOWIN: usize = 0x10;
/// Index of the identification register.
pub const IOAPICID_INDEX: u8 = 0x00;
/// Index of the version register: version in bits 0..8, the highest
/// redirection entry (entries minus one) in bits 16..24.
pub const IOAPICVER_INDEX: u8 = 0x01;
/// Index of the arbitration register.
pub const IOAPICARB_INDEX: u8 = 0x02;

/// Register index of redirection entry `n`.
pub fn ioapic_redirection_table_offset(n: usize) -> (r: usize)
    requires
        0x10 + 2 * n <= usize::MAX,
    ensures
        r == 0x10 + 2 * n,
{
    0x10 + 2 * n
}

/// How an interrupt is delivered.
#[derive(Debug, Clone, Copy, PartialEq, Eq)]
pub enum DeliveryMode {
    Fixed,
    LowestPriority,
    Smi,
    Nmi,
    Init,
    ExtInt,
}

impl DeliveryMode {
    /// The mode's encoding.
    pub open spec fn spec_bits(self) -> u32 {
        match self {
            DeliveryMode::Fixed => 0b000,
            DeliveryMode::LowestPriority => 0b001,
            DeliveryMode::Smi => 0b010,
            DeliveryMode::Nmi => 0b100,
            DeliveryMode::Init => 0b101,
            DeliveryMode::ExtInt => 0b111,
        }
    }

    /// The mode's encoding.
    pub fn bits(&self) -> (r: u32)
        ensures
            r == self.spec_bits(),
    {
        match self {
            DeliveryMode::Fixed => 0b000,
            DeliveryMode::LowestPriority => 0b001,
            DeliveryMode::Smi => 0b010,
            DeliveryMode::Nmi => 0b100,
            DeliveryMode::Init => 0b101,
            DeliveryMode::ExtInt => 0b111,
        }
    }
}

/// The delivery modes carry the I/O APIC's codes: fixed 0b000, lowest
/// priority 0b001, SMI 0b010, NMI 0b100, INIT 0b101 and ExtINT 0b111; no two
/// modes share a code, and none takes a reserved code (0b011, 0b110) or
/// more than the three bits of the field.
pub proof fn lemma_delivery_mode_codes(m: DeliveryMode, n: DeliveryMode)
    ensures
        m.spec_bits() < 8,
        m.spec_bits() != 0b011,
        m.spec_bits() != 0b110,
        m != n ==> m.spec_bits() != n.spec_bits(),
        (m.spec_bits() == 0b000) == (m == DeliveryMode::Fixed),
        (m.spec_bits() == 0b001) == (m == DeliveryMode::LowestPriority),
        (m.spec_bits() == 0b010) == (m == DeliveryMode::Smi),
        (m.spec_bits() == 0b100) == (m == DeliveryMode::Nmi),
        (m.spec_bits() == 0b101) == (m == DeliveryMode::Init),
        (m.spec_bits() == 0b111) == (m == DeliveryMode::ExtInt),
{
}

proof fn lemma_entry_field_bits(v: u64, m: u64, d: u64)
    by (bit_vector)
    requires
        v < 256,
        m < 8,
        d < 2,
    ensures
        (v | (m << 8u64) | (d << 11u64)) & 0xFFu64 == v,
        ((v | (m << 8u64) | (d << 11u64)) >> 8u64) & 7u64 == m,
        ((v | (m << 8u64) | (d << 11u64)) >> 11u64) & 1u64 == d,
        (v | (m << 8u64) | (d << 11u64)) >> 12u64 == 0,
{
}

/// The entry that [`RedirectionEntry::new`] builds reads back what it was
/// given: the vector in bits 0 to 7, the delivery mode's I/O APIC code in
/// bits 8 to 10 (NMI, for instance, sets bit 10 alone: `v | 0x400`), the
/// destination mode in bit 11, and nothing above.
pub proof fn lemma_redirection_entry_fields(v: u8, m: DeliveryMode, d: DestinationMode)
    ensures
        ({
            let e = (v as u64) | ((m.spec_bits() as u64) << 8u64) | ((d.spec_bits() as u64) << 11u64);
            &&& e & 0xFF == v
            &&& (e >> 8u64) & 7 == m.spec_bits()
            &&& (e >> 11u64) & 1 == d.spec_bits()
            &&& e >> 12u64 == 0
            &&& m == DeliveryMode::Nmi && d == DestinationMode::Physical ==> e == (v as u64) | 0x400
        }),
{
    lemma_delivery_mode_codes(m, m);
    lemma_entry_field_bits(v as u64, m.spec_bits() as u64, d.spec_bits() as u64);
    if m == DeliveryMode::Nmi && d == DestinationMode::Physical {
        assert(4u64 << 8u64 == 0x400u64) by (bit_vector);
        assert(0u64 << 11u64 == 0u64) by (bit_vector);
        let vv = v as u64;
        assert(vv | 0x400u64 | 0u64 == vv | 0x400u64) by (bit_vector);
    }
}

/// How the destination field is read.
#[derive(Debug, Clone, Copy, PartialEq, Eq)]
pub enum DestinationMode {
    Physical,
    Logical,
}

impl DestinationMode {
    /// The mode's encoding.
    pub open spec fn spec_bits(self) -> u32 {
        match self {
            DestinationMode::Physical => 0,
            DestinationMode::Logical => 1,
        }
    }

    /// The mode's encoding.
    pub fn bits(&self) -> (r: u32)
        ensures
            r == self.spec_bits(),
    {
        match self {
            DestinationMode::Physical => 0,
            DestinationMode::Logical => 1,
        }
    }
}

/// An entry of the redirection table.
#[derive(Debug, Clone, Copy, PartialEq, Eq)]
pub struct RedirectionEntry(pub u64);

impl RedirectionEntry {
    /// An entry delivering `vector` in `delivery_mode` with
    /// `destination_mode`, unmasked, to destination 0.
    pub fn new(vector: u8, delivery_mode: DeliveryMode, destination_mode: DestinationMode) -> (r: Self)
        ensures
            r.0 == (vector as u64) | ((delivery_mode.spec_bits() as u64) << 8u64) | ((
            destination_mode.spec_bits() as u64) << 11u64),
    {
        let mut entry: u64 = 0;
        entry = entry | vector as u64;
        entry = entry | ((delivery_mode.bits() as u64) << 8u64);
        entry = entry | ((destination_mode.bits() as u64) << 11u64);
        let v = vector as u64;
        assert(0u64 | v == v) by (bit_vector);
        RedirectionEntry(entry)
    }

    /// Sets (masked) or clears (unmasked) the mask bit, bit 16.
    pub fn set_masked(&mut self, masked: bool)
        ensures
            final(self).0 == (if masked {
                old(self).0 | 0x1_0000u64
            } else {
                old(self).0 & !0x1_0000u64
            }),
    {
        assert(1u64 << 16u64 == 0x1_0000u64) by (bit_vector);
        if masked {
            self.0 = self.0 | (1u64 << 16u64);
        } else {
            self.0 = self.0 & !(1u64 << 16u64);
        }
    }

    /// Sets the destination field, bits 56..64, to `apic_id`.
    pub fn set_destination(&mut self, apic_id: u8)
        ensures
            final(self).0 == (old(self).0 & 0x00FF_FFFF_FFFF_FFFFu64) | ((apic_id as u64) << 56u64),
    {
        let x = self.0;
        assert(x & !(0xFFu64 << 56u64) == x & 0x00FF_FFFF_FFFF_FFFFu64) by (bit_vector);
        self.0 = self.0 & !(0xFFu64 << 56u64);
        self.0 = self.0 | ((apic_id as u64) << 56u64);
    }
}

/// The high and low 32 bits of `e` put back together are `e`.
proof fn lemma_halves(e: u64)
    by (bit_vector)
    ensures
        ((((e >> 32u64) as u32) as u64) << 32u64) | ((e as u32) as u64) == e,
{
}

/// An I/O APIC: where its registers are, and the interrupts it serves.
#[derive(Debug, Clone, Copy, PartialEq, Eq)]
pub struct IoApic {
    pub base_addr: usize,
    pub gsi_base: usize,
    pub max_entires: u8,
    pub apic_id: u8,
}

impl IoApic {
    /// The I/O APIC with registers at `physical_addr`, serving interrupts
    /// from `gsi_base` on, with identifier `apic_id`, whose version register
    /// reads `version_register`.
    pub fn new(physical_addr: usize, gsi_base: usize, apic_id: u8, version_register: u32) -> (r: Self)
        requires
            ((version_register >> 16u32) as u8) < 255,
        ensures
            r.base_addr == physical_addr,
            r.gsi_base == gsi_base,
            r.apic_id == apic_id,
            r.max_entires == ((version_register >> 16u32) as u8) + 1,
    {
        IoApic {
            base_addr: physical_addr,
            gsi_base,
            max_entires: ((version_register >> 16u32) as u8) + 1,
            apic_id,
        }
    }

    /// Maps the page of the registers at `physical_addr` to the same virtual
    /// address, uncached and write-through.
    pub fn map_registers<A: FrameAllocator>(physical_addr: usize, mapper: &mut Mapper, allocator: &mut A) -> (r: Result<(), MapError>)
        requires
            old(mapper).memory.wf(),
            old(allocator).wf(),
            (physical_addr / PAGE_SIZE) < crate::memory::MAX_FRAME_COUNT,
            can_map(old(mapper).memory, old(mapper).p4, physical_addr as u64),
            walk_distinct(old(mapper).memory, old(mapper).p4, physical_addr as u64),
            free_frames_off_walk(old(mapper).memory, old(mapper).p4, physical_addr as u64, old(allocator).free_frames()),
        ensures
            final(mapper).memory.wf(),
            final(allocator).wf(),
            r is Ok ==> mapped_address(
                final(mapper).memory,
                final(mapper).p4,
                physical_addr as u64,
            ) == Some(((physical_addr / PAGE_SIZE) * 4096) as u64),
            r is Ok ==> mapped_effect(
                old(mapper).memory,
                final(mapper).memory,
                final(mapper).p4,
                physical_addr as u64,
                Frame((physical_addr / PAGE_SIZE) as usize),
                EntryFlags(EntryFlags::PRESENT | EntryFlags::WRITABLE | EntryFlags::CACHE_DISABLE
                    | EntryFlags::WRITE_THROUGH),
                old(allocator).free_frames(),
                final(allocator).free_frames(),
            ),
            r is Err ==> final(allocator).free_frames() == Set::<usize>::empty(),
            old(allocator).free_frames().finite() ==> (r is Ok <==> tables_missing(
                old(mapper).memory,
                old(mapper).p4,
                physical_addr as u64,
            ) <= old(allocator).free_frames().len()),
    {
        let frame = Frame::from_addr(physical_addr - physical_addr % PAGE_SIZE);
        let flags = EntryFlags(EntryFlags::PRESENT | EntryFlags::WRITABLE | EntryFlags::CACHE_DISABLE
            | EntryFlags::WRITE_THROUGH);
        assert(0x1u64 | 0x2u64 | 0x10u64 | 0x8u64 == 0x1Bu64) by (bit_vector);
        assert(0x1Bu64 & 0x8000_0000_0000_01FFu64 == 0x1Bu64) by (bit_vector);
        assert((physical_addr - physical_addr % 4096) / 4096 == physical_addr / 4096) by (nonlinear_arith);
        mapper.map_to(VirtualAddress(physical_addr as u64), frame, flags, allocator)
    }

    /// The two register writes that store `entry` as redirection entry
    /// `index`: its low half at the entry's first register, its high half at
    /// the register after it.
    pub fn write_redirection_entry(&self, index: usize, entry: &RedirectionEntry) -> (r: [(u8, u32); 2])
        requires
            0x10 + 2 * index + 1 <= usize::MAX,
        ensures
            r[0] == ((0x10 + 2 * index) as u8, entry.0 as u32),
            r[1] == ((0x10 + 2 * index + 1) as u8, (entry.0 >> 32u64) as u32),
            ((r[1].1 as u64) << 32u64) | (r[0].1 as u64) == entry.0,
    {
        proof {
            lemma_halves(entry.0);
        }
        let offset = ioapic_redirection_table_offset(index);
        [(offset as u8, entry.0 as u32), ((offset + 1) as u8, (entry.0 >> 32u64) as u32)]
    }
}

/// Adds `ioapic` to the known I/O APICs.
pub fn register(ioapics: &mut Vec<IoApic>, ioapic: IoApic)
    ensures
        final(ioapics)@ == old(ioapics)@.push(ioapic),
{
    ioapics.push(ioapic);
}

/// Whether `ioapic` serves global system interrupt `gsi`.
pub open spec fn serves(ioapic: IoApic, gsi: usize) -> bool {
    ioapic.gsi_base <= gsi < ioapic.gsi_base + ioapic.max_entires
}

impl IoApic {
    /// Whether this I/O APIC serves global system interrupt `gsi`: the test
    /// to make before [`enable_irq`].
    pub fn serves_gsi(&self, gsi: usize) -> (r: bool)
        ensures
            r == serves(*self, gsi),
    {
        gsi >= self.gsi_base && gsi - self.gsi_base < self.max_entires as usize
    }
}

/// Routes global system interrupt `gsi` to `vector` on the local APIC
/// `apic_id`: finds the first I/O APIC that serves `gsi` (one must) and
/// returns its position and the register writes that set its entry (fixed
/// delivery, physical destination, unmasked).
pub fn enable_irq(ioapics: &Vec<IoApic>, gsi: usize, vector: u8, apic_id: u8) -> (r: (usize, [(u8, u32); 2]))
    requires
        forall|k: int| 0 <= k < ioapics.len() ==> #[trigger] ioapics[k].gsi_base + ioapics[k].max_entires <= usize::MAX,
        exists|k: int| 0 <= k < ioapics.len() && serves(#[trigger] ioapics[k], gsi),
    ensures
        ({
            let (k, writes) = r;
            let entry = (vector as u64) | ((apic_id as u64) << 56u64);
            &&& k < ioapics.len()
            &&& serves(ioapics[k as int], gsi)
            &&& forall|j: int| 0 <= j < k ==> !serves(#[trigger] ioapics[j], gsi)
            &&& writes[0] == ((0x10 + 2 * (gsi - ioapics[k as int].gsi_base)) as u8, entry as u32)
            &&& writes[1] == ((0x10 + 2 * (gsi - ioapics[k as int].gsi_base) + 1) as u8, (entry >> 32u64) as u32)
        }),
{
    let mut k: usize = 0;
    while k < ioapics.len()
        invariant
            k <= ioapics.len(),
            forall|j: int| 0 <= j < ioapics.len() ==> #[trigger] ioapics[j].gsi_base + ioapics[j].max_entires <= usize::MAX,
            forall|j: int| 0 <= j < k ==> !serves(#[trigger] ioapics[j], gsi),
        decreases ioapics.len() - k,
    {
        let ioapic = &ioapics[k];
        if gsi >= ioapic.gsi_base && gsi < ioapic.gsi_base + (ioapic.max_entires as usize) {
            let local_index = gsi - ioapic.gsi_base;
            let mut entry = RedirectionEntry::new(vector, DeliveryMode::Fixed, DestinationMode::Physical);
            entry.set_destination(apic_id);
            entry.set_masked(false);
            let v = vector as u64;
            let id = apic_id as u64;
            assert((((v | (0u64 << 8u64) | (0u64 << 11u64)) & 0x00FF_FFFF_FFFF_FFFFu64) | (id << 56u64))
                & !0x1_0000u64 == v | (id << 56u64)) by (bit_vector)
                requires v < 256, id < 256;
            let writes = ioapic.write_redirection_entry(local_index, &entry);
            return (k, writes);
        }
        k = k + 1;
    }
    proof {
        let j = choose|j: int| 0 <= j < ioapics.len() && serves(#[trigger] ioapics[j], gsi);
        assert(!serves(ioapics[j], gsi));
    }
    (0, [(0, 0), (0, 0)])
}

} // verus!

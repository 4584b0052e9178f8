use vstd::prelude::*;

pub mod entry;
pub mod table;
pub mod mapper;

verus! {

/// A physical address.
#[derive(Debug, Clone, Copy, PartialEq, Eq)]
pub struct PhysicalAddress(pub u64);

/// A virtual address.
#[derive(Debug, Clone, Copy, PartialEq, Eq)]
pub struct VirtualAddress(pub u64);

/// Index into the level-`level` table selected by bits `12 + 9 * (level - 1)`
/// through `20 + 9 * (level - 1)` of a virtual address.
pub open spec fn table_index(addr: u64, level: nat) -> usize {
    ((addr >> (12 + 9 * (level - 1)) as u64) & 0o777u64) as usize
}

/// Each table index of an address is below 512.
proof fn lemma_index_bits(a: u64)
    by (bit_vector)
    ensures
        (a >> 39u64) & 0o777u64 < 512,
        (a >> 30u64) & 0o777u64 < 512,
        (a >> 21u64) & 0o777u64 < 512,
        (a >> 12u64) & 0o777u64 < 512,
{
}

impl VirtualAddress {
    /// Index into the level-4 table.
    pub fn p4_idx(&self) -> (r: usize)
        ensures
            r == table_index(self.0, 4),
            r < 512,
    {
        proof {
            lemma_index_bits(self.0);
        }
        ((self.0 >> 39u64) & 0o777u64) as usize
    }

    /// Index into the level-3 table.
    pub fn p3_idx(&self) -> (r: usize)
        ensures
            r == table_index(self.0, 3),
            r < 512,
    {
        proof {
            lemma_index_bits(self.0);
        }
        ((self.0 >> 30u64) & 0o777u64) as usize
    }

    /// Index into the level-2 table.
    pub fn p2_idx(&self) -> (r: usize)
        ensures
            r == table_index(self.0, 2),
            r < 512,
    {
        proof {
            lemma_index_bits(self.0);
        }
        ((self.0 >> 21u64) & 0o777u64) as usize
    }

    /// Index into the level-1 table.
    pub fn p1_idx(&self) -> (r: usize)
        ensures
            r == table_index(self.0, 1),
            r < 512,
    {
        proof {
            lemma_index_bits(self.0);
        }
        ((self.0 >> 12u64) & 0o777u64) as usize
    }
}

} // verus!

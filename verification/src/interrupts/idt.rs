use vstd::prelude::*;

use crate::memory::PAGE_SIZE;

verus! {

/// Vector of the divide-error exception.
pub const DIVIDE_BY_ZERO: u8 = 0;
/// Vector of the page-fault exception.
pub const PAGE_FAULT: u8 = 14;
/// Vector of the breakpoint exception.
pub const BREAKPOINT: u8 = 3;
/// Vector of the double-fault exception.
pub const DOUBLE_FAULT: u8 = 8;
/// Vector of the spurious interrupt.
pub const SPURIOUS_INTERRUPT: u8 = 255;
/// Vector of the local APIC timer interrupt.
pub const APIC_TIMER: u8 = 32;
/// Vector of the keyboard interrupt.
pub const KEYBOARD: u8 = 33;

/// Size of each interrupt stack.
pub const IST_STACK_SIZE: usize = PAGE_SIZE;
/// Interrupt stack table slot of the double-fault stack.
pub const DOUBLE_FAULT_IST_INDEX: u16 = 0;
/// Number of interrupt stack table slots.
pub const IST_TABLE_SIZE: usize = 7;

/// The task state segment: the stacks the CPU switches to.
#[derive(Debug, Clone, Copy, PartialEq, Eq)]
pub struct Tss {
    pub reserved1: u32,
    pub privilege_stack_table: [u64; 3],
    pub reserved2: u64,
    pub interrupt_stack_table: [u64; 7],
    pub reserved3: u64,
    pub reserved4: u16,
    pub io_map_base_addr: u16,
}

impl Tss {
    /// Points the double-fault stack slot at `double_fault_stack_top`.
    pub fn init(self, double_fault_stack_top: u64) -> (r: Tss)
        ensures
            r.interrupt_stack_table@ == self.interrupt_stack_table@.update(
                DOUBLE_FAULT_IST_INDEX as int,
                double_fault_stack_top,
            ),
            r == (Tss { interrupt_stack_table: r.interrupt_stack_table, ..self }),
    {
        let mut tss = self;
        tss.interrupt_stack_table[DOUBLE_FAULT_IST_INDEX as usize] = double_fault_stack_top;
        tss
    }
}

impl Default for Tss {
    fn default() -> (r: Tss)
        ensures
            r.reserved1 == 0,
            r.privilege_stack_table@ == seq![0u64, 0u64, 0u64],
            r.reserved2 == 0,
            r.interrupt_stack_table@ == Seq::new(7, |i: int| 0u64),
            r.reserved3 == 0,
            r.reserved4 == 0,
            r.io_map_base_addr == 0,
    {
        let r = Tss {
            reserved1: 0,
            privilege_stack_table: [0u64; 3],
            reserved2: 0,
            interrupt_stack_table: [0u64; 7],
            reserved3: 0,
            reserved4: 0,
            io_map_base_addr: 0,
        };
        assert(r.privilege_stack_table@ =~= seq![0u64, 0u64, 0u64]);
        assert(r.interrupt_stack_table@ =~= Seq::new(7, |i: int| 0u64));
        r
    }
}

} // verus!

use kernel::gdt::{gdt, GdtEntry, KERNEL_CODE_SELECTOR, KERNEL_DATA_SELECTOR, TSS_SELECTOR};
use kernel::interrupts::idt::{Tss, DOUBLE_FAULT_IST_INDEX};
use kernel::interrupts::table::{Entry, EntryOptions, Idt, PrivilegeLevel, SegmentSelector};
use kernel::ioapic::{
    enable_irq, ioapic_redirection_table_offset, register, DeliveryMode, DestinationMode, IoApic,
    RedirectionEntry,
};

#[test]
fn segment_selectors() {
    assert_eq!(SegmentSelector::new(1, PrivilegeLevel::Ring0).0, 8);
    assert_eq!(SegmentSelector::new(2, PrivilegeLevel::Ring3).0, 19);
    assert_eq!(KERNEL_CODE_SELECTOR, 8);
    assert_eq!(KERNEL_DATA_SELECTOR, 16);
    assert_eq!(TSS_SELECTOR, 24);
}

#[test]
fn entry_options_bits() {
    assert_eq!(EntryOptions::minimal().0, 0x0E00);
    assert_eq!(EntryOptions::new().0, 0x8E00);
    let mut o = EntryOptions::minimal();
    o.set_present(true).set_privilege_level(3).set_stack_index(5);
    assert_eq!(o.0, 0x8E00 | 0x6000 | 5);
    o.disable_interrupts(false);
    assert_eq!(o.0 & 0x0100, 0x0100);
    o.set_present(false);
    assert_eq!(o.0 & 0x8000, 0);
}

#[test]
fn gate_splits_the_handler_address() {
    let e = Entry::new(SegmentSelector(8), 0x1234_5678_9ABC_DEF0);
    assert_eq!(e.pointer_low, 0xDEF0);
    assert_eq!(e.pointer_middle, 0x9ABC);
    assert_eq!(e.pointer_high, 0x1234_5678);
    assert_eq!(e.options.0, 0x8E00);
    assert_eq!(e.gdt_selector.0, 8);
    let m = Entry::missing();
    assert_eq!(m.options.0, 0x0E00);
    assert_eq!(m.pointer_low, 0);
}

#[test]
fn idt_sets_one_gate() {
    let mut idt = Idt::new();
    {
        let gate = idt.set_handler(14, 8, 0xFFFF_8000_0000_1000);
        gate.options_mut().set_stack_index(1);
    }
    assert_eq!(idt.0[14].pointer_low, 0x1000);
    assert_eq!(idt.0[14].pointer_high, 0xFFFF_8000);
    assert_eq!(idt.0[14].options.0, 0x8E01);
    assert_eq!(idt.0[13], Entry::missing());
    assert_eq!(idt.0[15], Entry::missing());
}

#[test]
fn tss_double_fault_stack() {
    let tss = Tss::default().init(0xDEAD_B000);
    assert_eq!(tss.interrupt_stack_table[DOUBLE_FAULT_IST_INDEX as usize], 0xDEAD_B000);
    assert_eq!(tss.interrupt_stack_table[1], 0);
    assert_eq!(tss.privilege_stack_table, [0; 3]);
}

#[test]
fn gdt_descriptors() {
    let g = gdt(0x0000_1234_5678_9ABC);
    assert_eq!(g[0].0, 0);
    assert_eq!(g[1].0, 0x0020_9A00_0000_0000);
    assert_eq!(g[2].0, 0x0000_9200_0000_0000);
    assert_eq!(g[3].0, 0x5600_8978_9ABC_0067);
    assert_eq!(g[4].0, 0x1234);
    assert_eq!(GdtEntry::kernel_code_seg(), g[1]);
}

#[test]
fn redirection_entries() {
    let mut e = RedirectionEntry::new(0x21, DeliveryMode::Fixed, DestinationMode::Physical);
    assert_eq!(e.0, 0x21);
    e.set_destination(3);
    assert_eq!(e.0, 0x0300_0000_0000_0021);
    e.set_masked(true);
    assert_eq!(e.0, 0x0300_0000_0001_0021);
    e.set_masked(false);
    assert_eq!(e.0, 0x0300_0000_0000_0021);
    let l = RedirectionEntry::new(0x30, DeliveryMode::LowestPriority, DestinationMode::Logical);
    assert_eq!(l.0, 0x30 | (1 << 8) | (1 << 11));
}

#[test]
fn ioapic_routes_to_the_first_that_serves() {
    assert_eq!(ioapic_redirection_table_offset(3), 0x16);
    let a = IoApic::new(0xFEC0_0000, 0, 0, 0x0017_0011);
    assert_eq!(a.max_entires, 24);
    let b = IoApic::new(0xFEC1_0000, 24, 1, 0x0017_0011);
    let mut list = Vec::new();
    register(&mut list, a);
    register(&mut list, b);
    assert_eq!(list.len(), 2);
    let (k, writes) = enable_irq(&list, 1, 0x21, 0);
    assert_eq!(k, 0);
    assert_eq!(writes, [(0x12, 0x21), (0x13, 0)]);
    let (k, writes) = enable_irq(&list, 26, 0x40, 2);
    assert_eq!(k, 1);
    assert_eq!(writes, [(0x14, 0x40), (0x15, 0x0200_0000)]);
    assert!(list[0].serves_gsi(23) && !list[0].serves_gsi(24));
    assert!(list[1].serves_gsi(24) && !list.iter().any(|a| a.serves_gsi(48)));
    let w = a.write_redirection_entry(2, &RedirectionEntry(0x1122_3344_5566_7788));
    assert_eq!(w, [(0x14, 0x5566_7788), (0x15, 0x1122_3344)]);
    assert_eq!(((w[1].1 as u64) << 32) | w[0].1 as u64, 0x1122_3344_5566_7788);
}

# kernel

The core of a small x86_64 kernel, written in Verus: the functions in `src/`
carry contracts that Verus proves, except a few small wrappers around calls
into other crates and the standard library (`bit_field`'s bit accessors,
`crossbeam-queue`'s `ArrayQueue::push`, `core::str::from_utf8`,
`BTreeMap::first_key_value` and `BTreeMap::pop_first`), whose contracts are
taken from those crates' documentation and source and marked
`#[verifier::external_body]`.

- `memory`: physical frames (`Frame`, the `FrameAllocator` trait), the
  bitmap frame allocator built from the boot memory map, a fixed-size frame
  pool, the first-fit heap allocator and heap setup, and the four-level page
  tables: entries, table memory, and the mapper that walks, maps, unmaps and
  translates.
- `scheduler`, `thread`: the round-robin scheduler with sleeping threads and
  an idle thread.
- `task`: timer deadlines, kept in a `BTreeMap` by deadline (the scheduler's
  sleepers too), the decisions of the sleep and APIC-wait futures, and the
  scancode queue.
- `interrupts`, `gdt`, `ioapic`: interrupt descriptors, the task state
  segment, segment descriptors, and I/O APIC redirection entries.
- `graphics::psf2`: the PSF2 font parser, glyph lookup and reordering, and
  the pixel writes that draw a character.
- `volatile`: a cell meant for volatile access.

`app/` is the kernel around the library: boot, assembly, interrupt entry
points, memory-mapped registers, global state and the async tasks. `tests/`
runs the library on concrete values.

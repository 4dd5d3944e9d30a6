# corrosios

The memory manager, scheduler bookkeeping and firmware-facing decoders of a small x86-64
kernel, written in Verus and verified.

- `src/` is the verified library:
  - `mm`: frame numbers and addresses, the page table walker (`pt`), the buddy frame allocator
    (`pmm`), the boot heap, the physmap, early boot initialization (`early`, `init`), the slab
    heap (`heap`), virtual memory (`vm`: slice trees, VM objects, address spaces) and mappings
    into the kernel address space (`kmap`).
  - `sched`, `mp`, `sync`, `spin_once`: threads, run queues and context-switch hand-offs,
    per-processor data, interrupt and rescheduling control, spinlocks, one-time cells.
  - `uefi`, `minielf`, `image`: status codes, UCS-2 strings, memory maps, device paths, file
    information and console buffers as the firmware hands them over; ELF headers; the layout of
    the boot disk image.
  - `bitmap`, `num_utils`, `err`, `arch`, `collections`: shared helpers, error codes, the
    architecture's constants and page table entry format, and the outside collection types.
- `tests/` exercises the library on concrete values.
- `app/` is the host tool that builds the boot loader and writes the disk image, and the loops
  that drive firmware calls around the library's decisions.

Hardware state (page table memory, the interrupt flag, the rescheduling count) is modelled by
plain values that the operations read and update.

Slice trees, free lists and slab lists are held in vectors indexed by position rather than in
intrusive linked lists, which rest on raw pointers and unsafe adapters; state that would sit in
owner-checked cells is passed by `&mut` instead.

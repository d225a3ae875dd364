# os_x86

The logic of a small 32-bit x86 kernel, verified with Verus: frame
allocator, paging, kernel heap, round-robin scheduler, system calls, IPC
mailboxes, FAT12 reader, ELF loader, keyboard line editor, VGA text screen,
serial encoding, descriptor tables and the command shell.

- `src/` is the library. Each kernel structure is a plain value (the page
  tables are held as the words of their frames, the frame bitmap as bytes,
  the task table as a vector) with a well-formedness predicate and exact
  contracts; operations return what the hardware side must carry out (a
  context switch, register writes, text for the screen).
- `tests/` runs the library on concrete machines: memory maps, disk images,
  key sequences.
- `app/` is the kernel binary around the library: port I/O, control
  registers, interrupt entry points, copying page tables and screen cells to
  memory, and context switches.

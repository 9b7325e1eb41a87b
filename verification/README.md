# whiskey kernel library

The logic of a small RISC-V kernel, verified with Verus.

- `buddy_alloc`: the power-of-two buddy allocator. Its free lists are intrusive
  doubly linked lists whose links live in the free blocks' header words; the
  contracts state the allocator over the free lists and the set of free bytes.
  The header words are kept in a map inside the allocator rather than in the
  blocks, so the allocator cannot back the program's own heap: in `app/` the
  `BuddyHeap` is not the global allocator.
- `bump_alloc`: the bump allocator and the placement of one request.
- `drivers`: register addresses and values for the interrupt controller, the
  timer's tick and heartbeat bookkeeping, and the UART's status bits and colour
  escape sequences.
- `timer`: the early timer's deadline and tick arithmetic.
- `shell`: line editing of console input and the meaning of a command line.
- `tasks`: the round-robin task table.
- `trap`: decoding of machine trap causes.
- `abi`: decoding of system calls.

`app/` holds the kernel program around the library: boot flow, memory-mapped I/O,
the interrupt-masking spin lock, the `GlobalAlloc` impls and the trap and system
call entry points.

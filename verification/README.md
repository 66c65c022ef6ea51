# jos, verified core

The deciding and computing parts of jos, a small AArch64 teaching kernel
with an io_uring-style shared ring (`jring`) as its I/O surface, written in
Verus: every function carries a `requires`/`ensures` contract over a
mathematical model, and Verus proves the code against it.

## Layout

- `src/abi.rs`: the kernel/user ABI (syscall numbers, ring page layout, opcodes).
- `src/kernel/`: the kernel proper.
  - `phys.rs`: RAM as a sequence of 64-bit words; `frames.rs`: the intrusive
    free-list frame allocator.
  - `mmu.rs`: page tables built in RAM (`Machine`), with the walk (`leaf_entry`,
    `translation`) as the model; map, unmap, translate, address spaces.
  - `space.rs`: freeing an address space.
  - `elf.rs`: ELF64 validation and loading; `user.rs`: loading the user
    program, pointer validation, `copy_to_user`, teardown; `process.rs`: the
    process table.
  - `sched.rs`: round-robin scheduler with block/wake/sleep; `input.rs`: the
    console-input buffer; `ring.rs`: the kernel half of `jring`;
    `syscall.rs`: syscall dispatch; `gic.rs`, `uart.rs`: the computing parts
    of the interrupt controller and console drivers.
- `src/early/`: the first boot phase (exception classification, bump heap,
  `mem*` routines, timer, early scheduler and syscalls, EL0 entry).
- `src/ulib/`: the user-side runtime (`jring` submission and reaping, line
  editing, the `jsh` shell's command decoding).
- `src/laws.rs`: properties that span several operations.
- `app/`: the hosted program: boot sequence, self-checks, console output,
  reading the user program from disk, and the spinlock.

Hardware access (system registers, MMIO, `eret`, context switches) is not
here: the library returns what to do and the caller does it.

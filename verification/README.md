# Verified syscall layer of a teaching kernel

The library models the state a small RISC-V teaching kernel keeps — a flat
file system, the table of open files, the processes indexed by pid, the ready
queue and the console — and implements the kernel's syscalls as verified steps
of that state. Each syscall's contract equates the new state and the result
with a spec function over the state's view.

- `src/mm.rs`: virtual addresses (Sv39), page rounding, mmap rights, and the
  per-process map of user pages.
- `src/filesystem.rs`: inodes, the root directory, names and link counts,
  reading and writing at an offset, opening with flags.
- `src/task.rs`: task control block types.
- `src/kernel.rs`: processes, the kernel state, its well-formedness, and the
  scheduler's next-process step.
- `src/syscall/fs.rs`, `src/syscall/process.rs`: the syscalls.
- `src/laws.rs`: properties relating several syscalls.
- `app/main.rs`: a line-oriented console that drives the kernel from standard
  input; it reads the clock and prints the console output.

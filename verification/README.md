# Annwyn µKernel

An experimental capability-based microkernel for x86-64, written in Verus.

`src/` is the kernel's core, each function proved against its contract:

- `capabilities` — the capability table: issuing, checking, revoking and
  delegating (with attenuated rights and a bounded delegation depth);
- `ipc` — endpoints with bounded FIFO message queues, guarded by
  capabilities;
- `mm` — the physical frame bitmap, the physical-memory window, and the
  checks on pointers handed in by user code;
- `scheduler` — priority classes served round-robin, the timer tick, and
  the map from tasks to the processes they run for;
- `process` — the process table;
- `loader` — ABO (the native format) and ELF images, parsed into a plan of
  segments to map, pages to fill and an entry point;
- `syscall` — decoding system calls and what each handler decides;
- `debug`, `arch` — the serial console set-up and the per-CPU data.

Whatever touches the machine (port I/O, page tables, control registers,
interrupt and system-call entry, user memory) is done in `app/`, the kernel
binary, which carries out what the library decides.

`tests/` exercises the library on concrete values.

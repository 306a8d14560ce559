# rkernel

The process-facing logic of a small RISC-V teaching kernel, written in Verus
and verified against its contracts.

- `src/stride.rs` — stride scheduling: each step adds `BIG_STRIDE / prio`.
- `src/trap.rs` — the trap context and the `sstatus` bits a user program
  starts with.
- `src/memory.rs` — a page-granular model of a process's user address space:
  mapping and unmapping pages, reading and writing user bytes, page-bounded
  buffers, NUL-terminated strings.
- `src/elf.rs` — what the loader reads of an ELF file, obtained through
  `xmas_elf` behind two trusted wrappers (which hand `xmas_elf` an 8-aligned
  copy of the bytes, as it requires).
- `src/loader.rs` — the ELF loader: accepting 64-bit RISC-V files, copying
  loadable segments (file bytes, then zeroed BSS) and building the initial
  user stack.
- `src/init_info.rs` — the layout of the initial user stack (argc, argv,
  envp, auxiliary vector, random bytes, strings).
- `src/console.rs` — the character codes sent to the console.
- `src/syscall/` — system-call handlers: time, `mmap`/`munmap`, priority,
  `waitpid`, `fork`, `exec`/`spawn` decisions, `fstat`, `open`, `close`,
  the pieces `write` prints and the paths `linkat`/`unlinkat` hand to the
  file system.

`app/` is a host program that loads an ELF file into a fresh address space
with the library and prints the resulting trap context; it also holds the
console device and the kernel's BSS clearing. `tests/` exercises the library
on concrete values.

//! A teaching kernel's process-facing logic: stride scheduling, trap
//! contexts, a page-granular model of user memory, the ELF program loader
//! and the system-call handlers that sit on top of them.
pub mod config;
pub mod console;
pub mod elf;
pub mod init_info;
pub mod loader;
pub mod memory;
pub mod stride;
pub mod syscall;
pub mod trap;


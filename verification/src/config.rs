//! Constants shared by the memory model, the loader and the system calls.
use vstd::prelude::*;

verus! {

/// Size of a virtual memory page, in bytes.
pub const PAGE_SIZE: usize = 4096;

/// Auxiliary vector key: address of the program headers.
pub const AT_PHDR: usize = 3;

/// Auxiliary vector key: size of one program header entry.
pub const AT_PHENT: usize = 4;

/// Auxiliary vector key: number of program headers.
pub const AT_PHNUM: usize = 5;

/// Auxiliary vector key: system page size.
pub const AT_PAGESZ: usize = 6;

/// Auxiliary vector key: address of sixteen random bytes.
pub const AT_RANDOM: usize = 25;

} // verus!

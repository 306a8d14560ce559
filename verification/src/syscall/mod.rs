//! System-call handlers.
pub mod fs;
pub mod process;

//! Core of a small x86-64 microkernel: per-process address spaces built from
//! sparse mapping cards, and synchronous message passing between processes.
pub mod mapflag;
pub mod dict;
pub mod dlist;
pub mod mboot;
pub mod mem;
pub mod aspace;
pub mod con;
pub mod process;
pub mod kernel;
pub mod syscall;
pub mod boot;
pub mod start32;
pub mod util;
pub mod x86;

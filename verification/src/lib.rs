//! Kernel and user-space support logic of a small RISC-V teaching operating system:
//! a boundary-tag heap allocator, Sv39 address arithmetic, a stack frame allocator,
//! page-table entries, address-space areas, task scheduling and accounting.
use vstd::prelude::*;

pub mod allocator;
pub mod common;
pub mod config;
pub mod logging;
pub mod mm;
pub mod syscall;
pub mod task;
pub mod timer;
pub mod trap;
pub mod user;
pub mod utils;


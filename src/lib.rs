//! Bring-up core of a small x86-64 microkernel: physical frame allocation,
//! page-table construction, boot memory discovery and the register values
//! that install the CPU's protection and interrupt plumbing.
use vstd::prelude::*;

pub mod addr;
pub mod frame;
pub mod page;
pub mod fixed;
pub mod free_list;
pub mod allocator;
pub mod first_fit;
pub mod page_table;
pub mod arena;
pub mod region;
pub mod cpu;
pub mod log;
pub mod boot;
pub mod mapping;
pub mod apic;
pub mod stage;

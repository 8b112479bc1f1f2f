//! Attribution of heap allocations and anonymous memory mappings to the call
//! stacks of an interpreted host program, with live and peak totals per stack.

use vstd::prelude::*;

pub mod allocation;
pub mod callstack;
pub mod interner;
pub mod laws;
pub mod location;
pub mod memorytracking;
pub mod model;
pub mod rangemap;
pub mod report;
pub mod stack;
pub mod sums;
pub mod text;
pub mod tracker;
pub mod usage;


//! The core of a live heap profiler: everything between an intercepted allocation and a drawn
//! dashboard that can be decided on plain values.
//!
//! - Recording: [`injection`] (which allocator serves a call and what is recorded of it),
//!   [`bootstrap`] (the arena for the first allocations), [`stack_walk`] (call stacks) and
//!   [`ring_buffer`] (the queue to the analyzer).
//! - Accounting: [`tracker`] follows the events; [`ledger`] says what it knows, and [`views`] what
//!   its offender list, heatmap, leak list, flame graph and folded stacks show; [`history`] ties
//!   a ledger to all that has happened since the start.
//! - Names: [`maps`], [`paths`] and [`symbols`] lead from an address to a place in a file and to a label;
//!   [`resolver`] puts the two together.
//! - Showing: [`state`] (controls), [`snapshot`] (what one frame shows), [`dashboard`],
//!   [`layout`] and [`style`] (how it looks).
//! - Running: [`drain`], [`dump`] and [`launch`] decide what the programs do next.
//! - Promises: [`laws`] relates what goes into all of these to what comes out.
//!
//! Reading files, memory, clocks and keys, drawing, and whatever needs fractions is left to the
//! programs that use the library.

use vstd::prelude::*;

pub mod bootstrap;
pub mod dashboard;
pub mod drain;
pub mod dump;
pub mod flame;
pub mod history;
pub mod injection;
pub mod launch;
pub mod laws;
pub mod layout;
pub mod ledger;
pub mod maps;
pub mod order;
pub mod paths;
pub mod resolver;
pub mod ring_buffer;
pub mod sites;
pub mod snapshot;
pub mod stack_walk;
pub mod state;
pub mod style;
pub mod symbols;
pub mod tally;
pub mod text;
pub mod tracker;
pub mod views;

verus! {

} // verus!

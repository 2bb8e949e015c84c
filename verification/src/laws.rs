//! What the library promises as a whole, stated of what goes in and what comes out: of events and
//! the views that show them, of texts that are read back, of requests and what they leave behind.

use vstd::prelude::*;

pub mod folding;
pub mod naming;
pub mod numerals;
pub mod recording;
pub mod running;
pub mod screen;
pub mod tracking;
pub mod viewing;

verus! {

} // verus!

//! No gamepads, ever. What a native build without SDL3 gets: the API stays
//! callable, so a host can drop SDL from its link without touching any call
//! sites.

use crate::Event;
use vstd::prelude::*;

verus! {

/// Starts nothing.
pub fn init(_app_name: &str) {
}

/// There is no event.
pub fn next_event() -> (r: Option<Event>)
    ensures
        r is None,
{
    None
}

} // verus!

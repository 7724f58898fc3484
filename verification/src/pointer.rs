//! The walk of a pointer that moves diagonally across the screen and turns
//! back at its edges.

use vstd::prelude::*;

verus! {

/// The direction along one axis after the pointer was seen at `position`:
/// forwards from the near edge, backwards from the far edge at `limit`,
/// unchanged in between. Where the two edges meet, the near one decides.
pub open spec fn bounced(direction: int, position: int, limit: int) -> int {
    if position <= 1 {
        1
    } else if position >= limit {
        -1
    } else {
        direction
    }
}

/// Turns the pointer back at the edges of one axis.
pub fn bounce(direction: i32, position: i32, limit: i32) -> (next: i32)
    ensures
        next == bounced(direction as int, position as int, limit as int),
{
    let mut next = direction;
    if position >= limit {
        next = -1;
    }
    if position <= 1 {
        next = 1;
    }
    next
}

} // verus!

//! Grayscale shade of a pixel from the escape time of its point.

use vstd::prelude::*;

verus! {

/// Number of iterations of `z <- z * z + c` tried before a point is taken
/// to lie in the set.
pub const ESCAPE_LIMIT: u32 = 255;

/// Shade of a pixel: black for a point of the set, else `255 - i` for a
/// point that escaped at iteration `i`.
pub open spec fn shade_of(escape: Option<u32>) -> int {
    match escape {
        None => 0,
        Some(i) => 255 - i,
    }
}

/// What a classifier with limit `ESCAPE_LIMIT` can report.
pub open spec fn is_escape_time(escape: Option<u32>) -> bool {
    match escape {
        None => true,
        Some(i) => i < ESCAPE_LIMIT,
    }
}

/// The byte written for a pixel whose point escaped at `escape` (`None`: it
/// did not escape within `ESCAPE_LIMIT` iterations).
pub fn pixel_shade(escape: Option<u32>) -> (r: u8)
    requires
        is_escape_time(escape),
    ensures
        r == shade_of(escape),
        escape is Some <==> r > 0,
{
    match escape {
        None => 0,
        Some(i) => (255 - i) as u8,
    }
}

} // verus!

//! A spatial grid engine for tile-based worlds: dense 2-D storage, neighbor
//! enumeration, adjacency bitmasks, A* routing and recursive shadow-casting.
use vstd::prelude::*;

pub mod builders;
pub mod cardinality;
pub mod field_of_view;
pub mod map;
pub mod overlay;
pub mod rectangle;
pub mod spot;
pub mod tile;

pub use builders::RoomBuilder;
pub use cardinality::Cardinality;
pub use field_of_view::calculate_field_of_view;
pub use map::TileMap;
pub use overlay::Overlay;
pub use rectangle::{Rectangle, RectangleIteratorType};
pub use spot::Spot;
pub use tile::Tile;

verus! {

/// The error of an operation that has nothing more to say about why it failed.
#[derive(Debug)]
pub struct MyError {}

/// `x + d` as a mathematical integer, when it is a valid unsigned coordinate.
pub open spec fn offset_of(x: int, d: int) -> Option<usize> {
    if 0 <= x + d <= usize::MAX {
        Some((x + d) as usize)
    } else {
        None
    }
}

/// Offsets an unsigned coordinate by a signed delta; `None` when the result is
/// negative (or does not fit), never wrapping.
pub fn math_is_hard(x: usize, d: isize) -> (r: Option<usize>)
    ensures
        r == offset_of(x as int, d as int),
{
    if d < 0 {
        let back: usize = if d == isize::MIN {
            (isize::MAX as usize) + 1
        } else {
            (-d) as usize
        };
        if back > x {
            None
        } else {
            Some(x - back)
        }
    } else {
        let fwd: usize = d as usize;
        if fwd > usize::MAX - x {
            None
        } else {
            Some(x + fwd)
        }
    }
}

/// `loc + delta` on both axes, when both results are valid unsigned coordinates.
pub open spec fn shifted(loc: (usize, usize), delta: (int, int)) -> Option<(usize, usize)> {
    match (offset_of(loc.0 as int, delta.0), offset_of(loc.1 as int, delta.1)) {
        (Some(x), Some(y)) => Some((x, y)),
        _ => None,
    }
}

/// Offsets a coordinate pair by a signed delta pair; `None` when either axis
/// would leave the unsigned range.
pub fn add_delta(loc: &(usize, usize), delta: &(isize, isize)) -> (r: Option<(usize, usize)>)
    ensures
        r == shifted(*loc, (delta.0 as int, delta.1 as int)),
{
    if let Some(nx) = math_is_hard(loc.0, delta.0) {
        if let Some(ny) = math_is_hard(loc.1, delta.1) {
            return Some((nx, ny));
        }
    }
    None
}

/// What a caller-supplied function gives on `a`, for a function that gives
/// one answer per argument.
pub open spec fn result_of<A, R, F: Fn(A) -> R>(f: F, a: A) -> R {
    choose|r: R| call_ensures(f, (a,), r)
}

/// `f` accepts every argument and gives one answer for each.
pub open spec fn deterministic<A, R, F: Fn(A) -> R>(f: F) -> bool {
    &&& forall|a: A| call_requires(f, (a,))
    &&& forall|a: A, r1: R, r2: R|
        call_ensures(f, (a,), r1) && call_ensures(f, (a,), r2) ==> r1 == r2
}

/// A call's answer is the answer of the function.
pub proof fn lemma_result_of<A, R, F: Fn(A) -> R>(f: F, a: A, r: R)
    requires
        deterministic(f),
        call_ensures(f, (a,), r),
    ensures
        result_of(f, a) == r,
{
}

} // verus!

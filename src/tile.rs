use vstd::prelude::*;

verus! {

/// A cell payload: an identifier and the cost of moving onto the cell.
#[derive(Clone, Copy, Debug)]
pub struct Tile<T> {
    pub id: T,
    pub weight: usize,
}

impl<T> Tile<T> {
    pub fn new(id: T, weight: usize) -> (r: Self)
        ensures
            r.id == id,
            r.weight == weight,
    {
        Tile { id, weight }
    }
}

} // verus!

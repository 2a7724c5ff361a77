use vstd::prelude::*;

verus! {

/// How many of something there are: none, exactly one, or several.
#[derive(Debug, PartialEq)]
pub enum Cardinality<I> {
    Zero,
    One(I),
    Many(Vec<I>),
}

} // verus!

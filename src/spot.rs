use vstd::prelude::*;
use vstd::std_specs::cmp::PartialEqSpec;

verus! {

/// A cell's contents: what it is made of, and the stacks of items lying on it
/// (absent rather than empty when there are none).
#[derive(PartialEq)]
pub struct Spot<T: PartialEq, I: Default + PartialEq> {
    pub solid: T,
    pub items: Option<Vec<(I, usize)>>,
}

/// `i` is the first stack in `s` whose item equals `key`.
pub open spec fn first_match<I: PartialEq>(s: Seq<(I, usize)>, key: I, i: int) -> bool {
    &&& 0 <= i < s.len()
    &&& s[i].0.eq_spec(&key)
    &&& forall|j: int| 0 <= j < i ==> !(#[trigger] s[j].0.eq_spec(&key))
}

/// No stack in `s` holds an item equal to `key`.
pub open spec fn no_match<I: PartialEq>(s: Seq<(I, usize)>, key: I) -> bool {
    forall|j: int| 0 <= j < s.len() ==> !(#[trigger] s[j].0.eq_spec(&key))
}

/// The stacks of a spot as a sequence; absent and empty read alike.
pub open spec fn stacks<I>(items: Option<Vec<(I, usize)>>) -> Seq<(I, usize)> {
    match items {
        Some(v) => v@,
        None => Seq::empty(),
    }
}

/// Index of the first stack whose item equals `key`, if any.
fn position<I: PartialEq>(items: &Vec<(I, usize)>, key: &I) -> (r: Option<usize>)
    requires
        I::obeys_eq_spec(),
    ensures
        r matches Some(i) ==> first_match(items@, *key, i as int),
        r is None ==> no_match(items@, *key),
{
    let mut i: usize = 0;
    while i < items.len()
        invariant
            I::obeys_eq_spec(),
            i <= items@.len(),
            forall|j: int| 0 <= j < i ==> !(#[trigger] items@[j].0.eq_spec(key)),
        decreases items@.len() - i,
    {
        if items[i].0 == *key {
            return Some(i);
        }
        i = i + 1;
    }
    None
}

impl<T: PartialEq, I: Default + PartialEq> Spot<T, I> {
    pub fn new(solid: T, items: Option<Vec<(I, usize)>>) -> (r: Self)
        ensures
            r.solid == solid,
            r.items == items,
    {
        Self { solid, items }
    }

    /// Adds `item.1` units of `item.0`: onto the first stack of an equal item,
    /// else as a new stack at the end.
    pub fn add_item(&mut self, item: (I, usize))
        requires
            I::obeys_eq_spec(),
            forall|i: int|
                first_match(stacks(old(self).items), item.0, i) ==> stacks(old(self).items)[i].1
                    + item.1 <= usize::MAX,
        ensures
            final(self).solid == old(self).solid,
            final(self).items is Some,
            forall|i: int|
                first_match(stacks(old(self).items), item.0, i) ==> stacks(final(self).items)
                    == stacks(old(self).items).update(
                    i,
                    (stacks(old(self).items)[i].0, (stacks(old(self).items)[i].1 + item.1) as usize),
                ),
            no_match(stacks(old(self).items), item.0) ==> stacks(final(self).items) == stacks(
                old(self).items,
            ).push(item),
    {
        match &mut self.items {
            Some(items) => {
                match position(items, &item.0) {
                    Some(index) => {
                        assert(first_match(stacks(old(self).items), item.0, index as int));
                        let (key, count) = items.remove(index);
                        items.insert(index, (key, count + item.1));
                    },
                    None => {
                        items.push(item);
                    },
                }
            },
            None => {
                self.items = Some(vec![item]);
            },
        }
    }

    /// Takes up to `item.1` units of `item.0` off the first stack of an equal
    /// item and returns how many were taken; a stack that empties is removed, and
    /// the last one leaves the items absent.
    pub fn remove_item(&mut self, item: (I, usize)) -> (r: usize)
        requires
            I::obeys_eq_spec(),
        ensures
            final(self).solid == old(self).solid,
            no_match(stacks(old(self).items), item.0) ==> r == 0 && final(self).items == old(
                self,
            ).items,
            forall|i: int|
                #![trigger first_match(stacks(old(self).items), item.0, i)]
                first_match(stacks(old(self).items), item.0, i) ==> {
                    let s = stacks(old(self).items);
                    if s[i].1 > item.1 {
                        r == item.1 && final(self).items is Some && stacks(final(self).items)
                            == s.update(i, (s[i].0, (s[i].1 - item.1) as usize))
                    } else {
                        r == s[i].1 && stacks(final(self).items) == s.remove(i) && (
                        final(self).items is None <==> s.len() == 1)
                    }
                },
    {
        let mut emptied = false;
        let mut taken: usize = 0;
        match &mut self.items {
            Some(items) => {
                match position(items, &item.0) {
                    Some(index) => {
                        let size = items[index].1;
                        if size > item.1 {
                            let (key, _) = items.remove(index);
                            items.insert(index, (key, size - item.1));
                            taken = item.1;
                        } else {
                            if items.len() == 1 {
                                emptied = true;
                            } else {
                                items.remove(index);
                            }
                            taken = size;
                        }
                    },
                    None => {},
                }
            },
            None => {},
        }
        if emptied {
            self.items = None;
        }
        taken
    }
}

} // verus!

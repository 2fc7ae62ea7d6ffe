//! A slice read front to back, one element at a time.
use vstd::prelude::*;

verus! {

/// What a reference that was handed out points at, or nothing where none was.
pub open spec fn pointee<T>(item: Option<&T>) -> Option<T> {
    match item {
        Some(v) => Some(*v),
        None => None,
    }
}

/// A sequence that a merge draws from: a borrowed slice together with the
/// number of its elements that were taken already.
pub struct SliceSource<'a, T> {
    items: &'a [T],
    taken: usize,
}

impl<'a, T> Clone for SliceSource<'a, T> {
    fn clone(&self) -> (copy: Self)
        ensures
            copy == *self,
    {
        *self
    }
}

impl<'a, T> Copy for SliceSource<'a, T> {

}

impl<'a, T> View for SliceSource<'a, T> {
    type V = Seq<T>;

    /// The elements that are still to come, next one first.
    closed spec fn view(&self) -> Seq<T> {
        self.items@.skip(self.taken as int)
    }
}

impl<'a, T> SliceSource<'a, T> {
    #[verifier::type_invariant]
    spec fn within_bounds(self) -> bool {
        self.taken <= self.items@.len()
    }

    /// A source that will yield all of `items`, in their order.
    pub fn new(items: &'a [T]) -> (source: Self)
        ensures
            source@ == items@,
    {
        SliceSource { items, taken: 0 }
    }

    /// Takes the next element, or reports that none is left. An exhausted
    /// source stays exhausted.
    pub fn next(&mut self) -> (item: Option<&'a T>)
        ensures
            match item {
                Some(v) => {
                    &&& old(self)@.len() > 0
                    &&& *v == old(self)@[0]
                    &&& final(self)@ == old(self)@.drop_first()
                },
                None => old(self)@.len() == 0 && final(self)@ == old(self)@,
            },
    {
        proof {
            use_type_invariant(&*self);
        }
        if self.taken < self.items.len() {
            let v = &self.items[self.taken];
            self.taken = self.taken + 1;
            Some(v)
        } else {
            None
        }
    }
}

} // verus!

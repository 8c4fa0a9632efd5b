use vstd::prelude::*;

verus! {

/// Moves one element out of a vector by position.
pub trait VecTake<T>: Sized {
    spec fn items(&self) -> Seq<T>;

    /// The element at `index`, removed; `None`, with the vector unchanged,
    /// when `index` is out of range.
    fn take(&mut self, index: usize) -> (r: Option<T>)
        ensures
            index < old(self).items().len() ==> r == Some(old(self).items()[index as int])
                && final(self).items() == old(self).items().remove(index as int),
            index >= old(self).items().len() ==> r is None && final(self).items() == old(self).items(),
    ;
}

impl<T> VecTake<T> for Vec<T> {
    open spec fn items(&self) -> Seq<T> {
        self@
    }

    fn take(&mut self, index: usize) -> (r: Option<T>) {
        if index < self.len() {
            Some(self.remove(index))
        } else {
            None
        }
    }
}

} // verus!

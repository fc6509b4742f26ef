//! Changing a value on a condition, in a chain of calls.
use vstd::prelude::*;

verus! {

/// Values that can be changed on a condition.
pub trait When: Sized {
    /// The value, changed if the condition holds.
    fn when<F: FnOnce(Self) -> Self>(self, condition: bool, f: F) -> (r: Self)
        requires
            condition ==> f.requires((self,)),
        ensures
            condition ==> f.ensures((self,), r),
            !condition ==> r == self,
    {
        if condition {
            f(self)
        } else {
            self
        }
    }

    /// The value, changed with another one if there is one.
    fn when_some<T, F: FnOnce(Self, T) -> Self>(self, value: Option<T>, f: F) -> (r: Self)
        requires
            value matches Some(v) ==> f.requires((self, v)),
        ensures
            value matches Some(v) ==> f.ensures((self, v), r),
            value is None ==> r == self,
    {
        match value {
            Some(v) => f(self, v),
            None => self,
        }
    }
}

impl<S> When for S {

}

} // verus!

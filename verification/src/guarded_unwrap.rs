//! One way to look into an `Option` and into a `Result`: the value, if there
//! is one.

use vstd::prelude::*;

verus! {

/// Values that either hold a `T` or do not.
pub trait GuardedUnwrap<T>: Sized {
    /// The value held, if any.
    spec fn held(self) -> Option<T>;

    /// The value held, if any.
    fn guarded_unwrap_inner(self) -> (r: Option<T>)
        ensures
            r == self.held(),
    ;
}

impl<T> GuardedUnwrap<T> for Option<T> {
    open spec fn held(self) -> Option<T> {
        self
    }

    fn guarded_unwrap_inner(self) -> (r: Option<T>) {
        self
    }
}

impl<T, E> GuardedUnwrap<T> for Result<T, E> {
    open spec fn held(self) -> Option<T> {
        match self {
            Ok(value) => Some(value),
            Err(_) => None,
        }
    }

    fn guarded_unwrap_inner(self) -> (r: Option<T>) {
        match self {
            Ok(value) => Some(value),
            Err(_) => None,
        }
    }
}

impl<'a, T> GuardedUnwrap<&'a T> for &'a Option<T> {
    open spec fn held(self) -> Option<&'a T> {
        match *self {
            Some(value) => Some(&value),
            None => None,
        }
    }

    fn guarded_unwrap_inner(self) -> (r: Option<&'a T>) {
        match self {
            Some(value) => Some(value),
            None => None,
        }
    }
}

impl<'a, T, E> GuardedUnwrap<&'a T> for &'a Result<T, E> {
    open spec fn held(self) -> Option<&'a T> {
        match *self {
            Ok(value) => Some(&value),
            Err(_) => None,
        }
    }

    fn guarded_unwrap_inner(self) -> (r: Option<&'a T>) {
        match self {
            Ok(value) => Some(value),
            Err(_) => None,
        }
    }
}

} // verus!

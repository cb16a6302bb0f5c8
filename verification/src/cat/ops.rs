use vstd::prelude::*;

verus! {

/// Builds a new collection by applying `fun` to every element.
pub trait MapElems<S, T, R> {
    fn map<F>(&self, fun: F) -> R
        where
            F: Fn(&S) -> T,
        requires
            forall|s: S| call_requires(fun, (&s,)),
    ;
}

/// Applies `fun` to every element in place.
pub trait MapMut<T> {
    fn map_mut<F>(&mut self, fun: F)
        where
            F: Fn(T) -> T,
        requires
            forall|t: T| call_requires(fun, (t,)),
    ;
}

} // verus!

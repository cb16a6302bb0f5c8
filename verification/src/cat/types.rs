use vstd::prelude::*;

verus! {

/// A mapping from elements of type `T` to results.
///
/// `applies` relates an element to the results that `apply` may give for it;
/// for the deterministic mappings of this crate it is a function.
pub trait Mapping<T> {
    type Result;

    spec fn apply_requires(&self, elem: T) -> bool;

    spec fn applies(&self, elem: T, result: Self::Result) -> bool;

    fn apply(&self, elem: T) -> (r: Self::Result)
        requires
            self.apply_requires(elem),
        ensures
            self.applies(elem, r),
    ;
}

/// A mapping given by a function or closure.
pub struct FnMapping<F> {
    function: F,
}

impl<F> FnMapping<F> {
    pub closed spec fn function_spec(&self) -> F {
        self.function
    }

    pub fn new(function: F) -> (r: Self)
        ensures
            r.function_spec() == function,
    {
        FnMapping { function }
    }
}

impl<K, T, F> Mapping<K> for FnMapping<F> where F: Fn(K) -> T {
    type Result = T;

    open spec fn apply_requires(&self, elem: K) -> bool {
        call_requires(self.function_spec(), (elem,))
    }

    open spec fn applies(&self, elem: K, result: T) -> bool {
        call_ensures(self.function_spec(), (elem,), result)
    }

    fn apply(&self, elem: K) -> (r: T) {
        (self.function)(elem)
    }
}

/// A mutable borrow of a collection, to hand on where the collection itself cannot go.
pub struct BorrowedMut<'a, A> {
    a: &'a mut A,
}

impl<'a, A> BorrowedMut<'a, A> {
    /// The collection borrowed, as it is now.
    pub closed spec fn spec_inner(&self) -> A {
        *self.a
    }

    pub fn new(a: &'a mut A) -> (r: Self)
        ensures
            r.spec_inner() == *old(a),
    {
        BorrowedMut { a }
    }
}

impl<'a, D, T> BorrowedMut<'a, crate::cat::table::Table<D, T>> {
    /// The value the borrowed table stores for `num`.
    pub fn get(&self, num: crate::cat::num::Num<D>) -> (r: &T)
        requires
            num@ < self.spec_inner()@.len(),
        ensures
            *r == self.spec_inner()@[num@ as int],
    {
        self.a.get(num)
    }

    /// Replaces the value the borrowed table stores for `num`.
    pub fn set(&mut self, num: crate::cat::num::Num<D>, value: T)
        requires
            num@ < old(self).spec_inner()@.len(),
        ensures
            final(self).spec_inner()@ == old(self).spec_inner()@.update(num@ as int, value),
    {
        self.a.set(num, value);
    }
}

} // verus!

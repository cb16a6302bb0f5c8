use std::collections::HashMap;
use std::hash::Hash;
use std::marker::PhantomData;
use vstd::prelude::*;

verus! {

/// A kind of elements, described by their type.
pub trait ElemType {
    type Type;
}

/// A number identifying an element of kind `T`.
pub struct Num<T: ElemType> {
    num: usize,
    phantom: PhantomData<T>,
}

impl<T: ElemType> Clone for Num<T> {
    fn clone(&self) -> (r: Self)
        ensures
            r == *self,
    {
        Num { num: self.num, phantom: PhantomData }
    }
}

impl<T: ElemType> Copy for Num<T> {}

impl<T: ElemType> View for Num<T> {
    type V = usize;

    closed spec fn view(&self) -> usize {
        self.num
    }
}

/// The index that `num` denotes.
pub fn from_num<T: ElemType>(num: Num<T>) -> (r: usize)
    ensures
        r == num@,
{
    num.num
}

/// The number of kind `T` with index `num`.
pub fn to_num<T: ElemType>(num: usize) -> (r: Num<T>)
    ensures
        r@ == num,
{
    Num { num, phantom: PhantomData }
}

/// A mapping that may have no value for some elements.
pub trait PartialMapping<'a, S, T: 'a> {
    /// `r` is what `partial_map` may give for `s`.
    spec fn maps_to(&self, s: S, r: Option<T>) -> bool;

    fn partial_map(&'a self, s: S) -> (r: Option<T>)
        ensures
            self.maps_to(s, r),
    ;
}

impl<'a, S, T> PartialMapping<'a, S, T> for HashMap<S, T> where S: Hash + Eq, T: Copy + 'a {
    open spec fn maps_to(&self, s: S, r: Option<T>) -> bool {
        vstd::std_specs::hash::obeys_key_model::<S>() ==> r == self@.get(s)
    }

    fn partial_map(&'a self, s: S) -> (r: Option<T>) {
        match self.get(&s) {
            Some(e) => Some(*e),
            None => None,
        }
    }
}

/// A set whose elements are numbered.
pub trait NumberedSet<T: ElemType> {
    fn get<'a>(&'a self, num: Num<T>) -> &'a T::Type;
}

/// A numbered set, with the mapping that finds the number of an element.
pub struct Universe<'a, T, M, S> where
    T: ElemType + 'a,
    M: PartialMapping<'a, T::Type, Num<T>>,
    S: NumberedSet<T>,
 {
    pub mapping: M,
    pub set: S,
    pub phantom: PhantomData<&'a T>,
}

} // verus!

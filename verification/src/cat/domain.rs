use std::marker::PhantomData;
use vstd::prelude::*;

verus! {

/// A domain: a kind of values, described by the type of its elements.
pub trait Domain {
    type Type;
}

/// A domain with finitely many elements, which can therefore be numbered.
pub trait FiniteDomain: Domain {

}

/// A number identifying an element of the finite domain `D`.
pub struct Num<D: FiniteDomain> {
    num: usize,
    phantom: PhantomData<D>,
}

impl<D: FiniteDomain> Clone for Num<D> {
    fn clone(&self) -> (r: Self)
        ensures
            r == *self,
    {
        Num { num: self.num, phantom: PhantomData }
    }
}

impl<D: FiniteDomain> Copy for Num<D> {}

impl<D: FiniteDomain> View for Num<D> {
    type V = usize;

    closed spec fn view(&self) -> usize {
        self.num
    }
}

impl<D: FiniteDomain> Domain for Num<D> {
    type Type = Num<D>;
}

impl<D: FiniteDomain> FiniteDomain for Num<D> {}

impl<D: FiniteDomain> Num<D> {
    pub fn as_usize(&self) -> (r: usize)
        ensures
            r == self@,
    {
        self.num
    }
}

/// Builds the number `num` of domain `D`.
pub fn to_num<D: FiniteDomain>(num: usize) -> (r: Num<D>)
    ensures
        r@ == num,
{
    Num { num, phantom: PhantomData }
}

/// The number of elements of the finite domain `D`.
pub struct Count<D: FiniteDomain> {
    count: usize,
    phantom: PhantomData<D>,
}

impl<D: FiniteDomain> Clone for Count<D> {
    fn clone(&self) -> (r: Self)
        ensures
            r == *self,
    {
        Count { count: self.count, phantom: PhantomData }
    }
}

impl<D: FiniteDomain> Copy for Count<D> {}

impl<D: FiniteDomain> View for Count<D> {
    type V = usize;

    closed spec fn view(&self) -> usize {
        self.count
    }
}

impl<D: FiniteDomain> Count<D> {
    pub fn as_usize(&self) -> (r: usize)
        ensures
            r == self@,
    {
        self.count
    }
}

/// Builds the count `count` of domain `D`.
pub fn to_count<D: FiniteDomain>(count: usize) -> (r: Count<D>)
    ensures
        r@ == count,
{
    Count { count, phantom: PhantomData }
}

} // verus!

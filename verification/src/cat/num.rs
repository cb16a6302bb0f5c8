use std::cmp::Ordering;
use std::marker::PhantomData;
use vstd::std_specs::cmp::PartialOrdSpecImpl;
use vstd::prelude::*;

verus! {

/// A number identifying an element of the finite domain `D`.
#[derive(Debug)]
pub struct Num<D> {
    num: usize,
    phantom: PhantomData<D>,
}

impl<D> Clone for Num<D> {
    fn clone(&self) -> (r: Self)
        ensures
            r == *self,
    {
        Num { num: self.num, phantom: PhantomData }
    }
}

impl<D> Copy for Num<D> {}

impl<D> View for Num<D> {
    type V = usize;

    closed spec fn view(&self) -> usize {
        self.num
    }
}

impl<D> Num<D> {
    pub fn as_usize(&self) -> (r: usize)
        ensures
            r == self@,
    {
        self.num
    }
}

impl<D> PartialEq for Num<D> {
    fn eq(&self, other: &Num<D>) -> (r: bool) {
        self.num == other.num
    }
}

impl<D> vstd::std_specs::cmp::PartialEqSpecImpl for Num<D> {
    open spec fn obeys_eq_spec() -> bool {
        true
    }

    open spec fn eq_spec(&self, other: &Num<D>) -> bool {
        self@ == other@
    }
}

impl<D> Eq for Num<D> {}

impl<D> PartialOrd for Num<D> {
    fn partial_cmp(&self, other: &Num<D>) -> (r: Option<Ordering>) {
        if self.num < other.num {
            Some(Ordering::Less)
        } else if self.num == other.num {
            Some(Ordering::Equal)
        } else {
            Some(Ordering::Greater)
        }
    }
}

impl<D> PartialOrdSpecImpl for Num<D> {
    open spec fn obeys_partial_cmp_spec() -> bool {
        true
    }

    open spec fn partial_cmp_spec(&self, other: &Num<D>) -> Option<Ordering> {
        if self@ < other@ {
            Some(Ordering::Less)
        } else if self@ == other@ {
            Some(Ordering::Equal)
        } else {
            Some(Ordering::Greater)
        }
    }
}

/// The indices that a sequence of numbers denotes.
pub open spec fn nums_view<D>(s: Seq<Num<D>>) -> Seq<usize> {
    s.map_values(|x: Num<D>| x@)
}

/// The number `n` of domain `D`.
pub closed spec fn num_of<D>(n: usize) -> Num<D> {
    Num { num: n, phantom: PhantomData }
}

pub broadcast proof fn lemma_num_of_view<D>(n: usize)
    ensures
        #[trigger] num_of::<D>(n)@ == n,
{
}

/// Builds the number `num` of domain `D`.
pub fn to_num<D>(num: usize) -> (r: Num<D>)
    ensures
        r@ == num,
        r == num_of::<D>(num),
{
    Num { num, phantom: PhantomData }
}

/// Two numbers of the same domain are equal exactly when they denote the same index.
pub broadcast proof fn lemma_num_view_eq<D>(a: Num<D>, b: Num<D>)
    ensures
        #![trigger a@, b@]
        (a@ == b@) == (a == b),
{
}

} // verus!

use std::marker::PhantomData;
use vstd::prelude::*;

use crate::cat::num::{Num, num_of, to_num};
use crate::cat::table::Table;

verus! {

/// The number of elements of the finite domain `D`.
#[derive(Debug)]
pub struct Count<D> {
    count: usize,
    phantom: PhantomData<D>,
}

impl<D> Clone for Count<D> {
    fn clone(&self) -> (r: Self)
        ensures
            r == *self,
    {
        Count { count: self.count, phantom: PhantomData }
    }
}

impl<D> Copy for Count<D> {}

impl<D> View for Count<D> {
    type V = usize;

    closed spec fn view(&self) -> usize {
        self.count
    }
}

impl<D> Count<D> {
    pub fn as_usize(&self) -> (r: usize)
        ensures
            r == self@,
    {
        self.count
    }
}

/// Two counts of the same domain are equal exactly when they hold the same number.
pub broadcast proof fn lemma_count_view_eq<D>(a: Count<D>, b: Count<D>)
    ensures
        #![trigger a@, b@]
        (a@ == b@) == (a == b),
{
}

/// Builds the count `count` of domain `D`.
pub fn to_count<D>(count: usize) -> (r: Count<D>)
    ensures
        r@ == count,
{
    Count { count, phantom: PhantomData }
}

/// Something that knows how many elements the domain `D` has.
pub trait HasCount<D> {
    /// The number of elements, as the implementor sees it.
    spec fn count_spec(&self) -> nat;

    /// The count can be computed without overflow.
    spec fn count_requires(&self) -> bool;

    fn count(&self) -> (r: Count<D>)
        requires
            self.count_requires(),
        ensures
            r@ == self.count_spec(),
    ;

    /// Enumerates the numbers of the domain, from zero upwards.
    fn nums(&self) -> (r: Enumerator<D>)
        requires
            self.count_requires(),
        ensures
            r.count_spec() == self.count_spec(),
            r.pos_spec() == 0,
    {
        let count = self.count();
        Enumerator { count, pos: 0 }
    }

    /// A table holding, for every number of the domain, what `fun` gives for it.
    fn map_nums<T, F>(&self, fun: F) -> (r: Table<D, T>)
        where
            F: Fn(Num<D>) -> T,
        requires
            self.count_requires(),
            forall|n: Num<D>| call_requires(fun, (n,)),
        ensures
            r@.len() == self.count_spec(),
            forall|i: int| 0 <= i < r@.len() ==> call_ensures(fun, (num_of::<D>(i as usize),), #[trigger] r@[i]),
    {
        let n = self.count().as_usize();
        let mut elems: Vec<T> = Vec::with_capacity(n);
        let mut i: usize = 0;
        while i < n
            invariant
                i <= n,
                n == self.count_spec(),
                forall|n: Num<D>| call_requires(fun, (n,)),
                elems@.len() == i,
                forall|j: int| 0 <= j < i ==> call_ensures(fun, (num_of::<D>(j as usize),), #[trigger] elems@[j]),
            decreases n - i,
        {
            let value = fun(to_num(i));
            elems.push(value);
            i = i + 1;
        }
        Table::from_vec(elems)
    }
}

impl<A, B> HasCount<(A, B)> for (Count<A>, Count<B>) {
    open spec fn count_spec(&self) -> nat {
        (self.0@ * self.1@) as nat
    }

    open spec fn count_requires(&self) -> bool {
        self.0@ * self.1@ <= usize::MAX
    }

    fn count(&self) -> (r: Count<(A, B)>) {
        let (major_count, minor_count) = *self;
        proof {
            assert(0 <= major_count@ * minor_count@) by (nonlinear_arith);
        }
        to_count(major_count.as_usize() * minor_count.as_usize())
    }
}

impl<D> HasCount<D> for Count<D> {
    open spec fn count_spec(&self) -> nat {
        self@ as nat
    }

    open spec fn count_requires(&self) -> bool {
        true
    }

    fn count(&self) -> (r: Count<D>) {
        *self
    }
}

/// Enumerates `0, 1, ..., count - 1` as numbers of `D`.
#[derive(Debug)]
pub struct Enumerator<D> {
    count: Count<D>,
    pos: usize,
}

impl<D> Enumerator<D> {
    pub closed spec fn count_spec(&self) -> nat {
        self.count@ as nat
    }

    pub closed spec fn pos_spec(&self) -> nat {
        self.pos as nat
    }

    /// Yields the next number, or `None` once all numbers were yielded.
    pub fn next(&mut self) -> (r: Option<Num<D>>)
        ensures
            final(self).count_spec() == old(self).count_spec(),
            old(self).pos_spec() >= old(self).count_spec() ==> r is None && final(self).pos_spec()
                == old(self).pos_spec(),
            old(self).pos_spec() < old(self).count_spec() ==> r is Some && r->0@ == old(
                self,
            ).pos_spec() && final(self).pos_spec() == old(self).pos_spec() + 1,
    {
        if self.pos >= self.count.as_usize() {
            None
        } else {
            let num = to_num(self.pos);
            self.pos = self.pos + 1;
            Some(num)
        }
    }
}

/// Enumerates the numbers of a table together with the values stored for them.
pub struct ElemEnumerator<'t, D, T> {
    mapping: &'t Table<D, T>,
    enumerator: Enumerator<D>,
}

impl<'t, D, T> ElemEnumerator<'t, D, T> {
    pub closed spec fn table_spec(&self) -> Seq<T> {
        self.mapping@
    }

    pub closed spec fn pos_spec(&self) -> nat {
        self.enumerator.pos_spec()
    }

    pub closed spec fn wf(&self) -> bool {
        self.enumerator.count_spec() == self.mapping@.len()
    }

    /// Yields the next number and its value, or `None` once every number was yielded.
    pub fn next(&mut self) -> (r: Option<(Num<D>, &'t T)>)
        requires
            old(self).wf(),
        ensures
            final(self).wf(),
            final(self).table_spec() == old(self).table_spec(),
            old(self).pos_spec() >= old(self).table_spec().len() ==> r is None && final(self).pos_spec()
                == old(self).pos_spec(),
            old(self).pos_spec() < old(self).table_spec().len() ==> (r matches Some((n, v)) && n@
                == old(self).pos_spec() && *v == old(self).table_spec()[old(self).pos_spec() as int])
                && final(self).pos_spec() == old(self).pos_spec() + 1,
    {
        match self.enumerator.next() {
            Some(num) => Some((num, self.mapping.get(num))),
            None => None,
        }
    }
}

impl<D, T> Table<D, T> {
    /// Enumerates the numbers of the table with their values, from number zero upwards.
    pub fn enumerate<'t>(&'t self) -> (r: ElemEnumerator<'t, D, T>)
        ensures
            r.wf(),
            r.table_spec() == self@,
            r.pos_spec() == 0,
    {
        let enumerator = self.nums();
        ElemEnumerator { mapping: self, enumerator }
    }
}

} // verus!

use std::marker::PhantomData;
use vstd::prelude::*;

use crate::cat::has_count::{Count, HasCount, to_count};
use crate::cat::num::{Num, to_num, num_of};
use crate::cat::ops::{MapElems, MapMut};
use crate::cat::composed::Composed;

verus! {

broadcast use crate::cat::num::lemma_num_view_eq, crate::cat::num::lemma_num_of_view;

/// A total mapping from the numbers of domain `D` to values of type `T`,
/// stored as a vector indexed by number.
#[derive(Debug)]
pub struct Table<D, T> {
    elems: Vec<T>,
    phantom: PhantomData<D>,
}

impl<D, T> View for Table<D, T> {
    type V = Seq<T>;

    closed spec fn view(&self) -> Seq<T> {
        self.elems@
    }
}

impl<D, T: Clone> Clone for Table<D, T> {
    /// A table whose values are clones of these, number by number.
    fn clone(&self) -> (r: Self)
        ensures
            r@.len() == self@.len(),
            forall|i: int| 0 <= i < self@.len() ==> cloned::<T>(self@[i], #[trigger] r@[i]),
    {
        Table { elems: self.elems.clone(), phantom: PhantomData }
    }
}

/// A table holds at most `usize::MAX` values.
pub broadcast proof fn lemma_table_len<D, T>(t: Table<D, T>)
    ensures
        #[trigger] t@.len() <= usize::MAX,
{
    broadcast use vstd::std_specs::vec::axiom_spec_len;

    assert(t.elems.len() == t.elems@.len());
}

impl<D, T> Table<D, T> {
    pub fn from_vec(vec: Vec<T>) -> (r: Self)
        ensures
            r@ == vec@,
    {
        Table { elems: vec, phantom: PhantomData }
    }

    /// The values, in the order of their numbers.
    pub fn into_vec(self) -> (r: Vec<T>)
        ensures
            r@ == self@,
    {
        self.elems
    }

    pub fn len(&self) -> (r: usize)
        ensures
            r == self@.len(),
    {
        self.elems.len()
    }

    /// The value stored for `num`.
    pub fn get(&self, num: Num<D>) -> (r: &T)
        requires
            num@ < self@.len(),
        ensures
            *r == self@[num@ as int],
    {
        &self.elems[num.as_usize()]
    }

    /// A mutable reference to the value stored for `num`.
    pub fn get_mut(&mut self, num: Num<D>) -> (r: &mut T)
        requires
            num@ < old(self)@.len(),
        ensures
            *r == old(self)@[num@ as int],
            final(self)@ == old(self)@.update(num@ as int, *final(r)),
    {
        &mut self.elems[num.as_usize()]
    }

    /// Replaces the value stored for `num`.
    pub fn set(&mut self, num: Num<D>, value: T)
        requires
            num@ < old(self)@.len(),
        ensures
            final(self)@ == old(self)@.update(num@ as int, value),
    {
        self.elems.set(num.as_usize(), value);
    }

    pub fn compose<M>(self, mapping: M) -> (r: Composed<M, Self>)
        ensures
            r.fst_spec() == mapping,
            r.snd_spec() == self,
    {
        Composed::new(mapping, self)
    }

    /// Applies `fun` to every number and value, stopping at the first error.
    pub fn map_res_with_idx<F, R, E>(&self, fun: F) -> (r: Result<Table<D, R>, E>)
        where
            F: Fn(Num<D>, &T) -> Result<R, E>,
        requires
            forall|n: Num<D>, t: T| call_requires(fun, (n, &t)),
        ensures
            r is Ok ==> r->Ok_0@.len() == self@.len() && forall|i: int|
                0 <= i < self@.len() ==> call_ensures(
                    fun,
                    (num_of::<D>(i as usize), &self@[i]),
                    Ok(#[trigger] r->Ok_0@[i]),
                ),
            r is Err ==> exists|i: usize, done: Seq<R>|
                i < self@.len() && call_ensures(
                    fun,
                    (#[trigger] num_of::<D>(i), &self@[i as int]),
                    Err(r->Err_0),
                ) && #[trigger] done.len() == i && forall|j: int|
                    0 <= j < i ==> call_ensures(fun, (num_of::<D>(j as usize), &self@[j]), Ok(#[trigger] done[j])),
    {
        let mut elems: Vec<R> = Vec::with_capacity(self.elems.len());
        let mut i: usize = 0;
        while i < self.elems.len()
            invariant
                i <= self@.len(),
                elems@.len() == i,
                forall|n: Num<D>, t: T| call_requires(fun, (n, &t)),
                forall|j: int|
                    0 <= j < i ==> call_ensures(
                        fun,
                        (num_of::<D>(j as usize), &self@[j]),
                        Ok(#[trigger] elems@[j]),
                    ),
            decreases self@.len() - i,
        {
            let num: Num<D> = to_num(i);
            let res = fun(num, &self.elems[i]);
            match res {
                Ok(value) => {
                    elems.push(value);
                },
                Err(e) => {
                    assert(call_ensures(fun, (num_of::<D>(i), &self@[i as int]), Err(e)));
                    let ghost done = elems@;
                    assert(done.len() == i);
                    return Err(e);
                },
            }
            i = i + 1;
        }
        Ok(Table::from_vec(elems))
    }
}

impl<D, T> HasCount<D> for Table<D, T> {
    open spec fn count_spec(&self) -> nat {
        self@.len()
    }

    open spec fn count_requires(&self) -> bool {
        true
    }

    fn count(&self) -> (r: Count<D>) {
        to_count(self.elems.len())
    }
}

impl<D, T, V> MapElems<T, V, Table<D, V>> for Table<D, T> {
    fn map<F>(&self, fun: F) -> (r: Table<D, V>)
        where
            F: Fn(&T) -> V,
        ensures
            r@.len() == self@.len(),
            forall|i: int| 0 <= i < self@.len() ==> call_ensures(fun, (&self@[i],), #[trigger] r@[i]),
    {
        let mut elems: Vec<V> = Vec::with_capacity(self.elems.len());
        let mut i: usize = 0;
        while i < self.elems.len()
            invariant
                i <= self@.len(),
                elems@.len() == i,
                forall|s: T| call_requires(fun, (&s,)),
                forall|j: int| 0 <= j < i ==> call_ensures(fun, (&self@[j],), #[trigger] elems@[j]),
            decreases self@.len() - i,
        {
            let value = fun(&self.elems[i]);
            elems.push(value);
            i = i + 1;
        }
        Table::from_vec(elems)
    }
}

impl<D, T> MapMut<T> for Table<D, T> {
    fn map_mut<F>(&mut self, fun: F)
        where
            F: Fn(T) -> T,
        ensures
            final(self)@.len() == old(self)@.len(),
            forall|i: int|
                0 <= i < old(self)@.len() ==> call_ensures(fun, (old(self)@[i],), #[trigger] final(self)@[i]),
    {
        let ghost orig = old(self)@;
        let mut taken: Vec<T> = Vec::new();
        std::mem::swap(&mut taken, &mut self.elems);
        let mut reversed: Vec<T> = Vec::new();
        while taken.len() > 0
            invariant
                taken@.len() + reversed@.len() == orig.len(),
                forall|j: int| 0 <= j < taken@.len() ==> taken@[j] == orig[j],
                forall|j: int|
                    0 <= j < reversed@.len() ==> reversed@[j] == orig[orig.len() - 1 - j],
            decreases taken@.len(),
        {
            let x = taken.pop().unwrap();
            reversed.push(x);
        }
        while reversed.len() > 0
            invariant
                self.elems@.len() + reversed@.len() == orig.len(),
                forall|t: T| call_requires(fun, (t,)),
                forall|j: int|
                    0 <= j < reversed@.len() ==> reversed@[j] == orig[orig.len() - 1 - j],
                forall|j: int|
                    0 <= j < self.elems@.len() ==> call_ensures(fun, (orig[j],), #[trigger] self.elems@[j]),
            decreases reversed@.len(),
        {
            let x = reversed.pop().unwrap();
            let y = fun(x);
            self.elems.push(y);
        }
    }
}

impl<D, T> Table<D, T> {
    /// Replaces every value by what `fun` gives for its number and the value.
    pub fn map_mut_with_key<F>(&mut self, fun: F)
        where
            F: Fn(Num<D>, T) -> T,
        requires
            forall|n: Num<D>, t: T| call_requires(fun, (n, t)),
        ensures
            final(self)@.len() == old(self)@.len(),
            forall|i: int|
                0 <= i < old(self)@.len() ==> call_ensures(
                    fun,
                    (num_of::<D>(i as usize), old(self)@[i]),
                    #[trigger] final(self)@[i],
                ),
    {
        let ghost orig = old(self)@;
        proof {
            lemma_table_len(*old(self));
        }
        let mut taken: Vec<T> = Vec::new();
        std::mem::swap(&mut taken, &mut self.elems);
        let mut reversed: Vec<T> = Vec::new();
        while taken.len() > 0
            invariant
                taken@.len() + reversed@.len() == orig.len(),
                forall|j: int| 0 <= j < taken@.len() ==> taken@[j] == orig[j],
                forall|j: int|
                    0 <= j < reversed@.len() ==> reversed@[j] == orig[orig.len() - 1 - j],
            decreases taken@.len(),
        {
            let x = taken.pop().unwrap();
            reversed.push(x);
        }
        let mut i: usize = 0;
        while reversed.len() > 0
            invariant
                self.elems@.len() + reversed@.len() == orig.len(),
                orig.len() <= usize::MAX,
                i == self.elems@.len(),
                forall|n: Num<D>, t: T| call_requires(fun, (n, t)),
                forall|j: int|
                    0 <= j < reversed@.len() ==> reversed@[j] == orig[orig.len() - 1 - j],
                forall|j: int|
                    0 <= j < self.elems@.len() ==> call_ensures(
                        fun,
                        (num_of::<D>(j as usize), orig[j]),
                        #[trigger] self.elems@[j],
                    ),
            decreases reversed@.len(),
        {
            let x = reversed.pop().unwrap();
            let y = fun(to_num(i), x);
            self.elems.push(y);
            i = i + 1;
        }
    }

    /// The table of what `fun` gives for every value.
    pub fn map_into<R, F>(self, fun: F) -> (r: Table<D, R>)
        where
            F: Fn(T) -> R,
        requires
            forall|t: T| call_requires(fun, (t,)),
        ensures
            r@.len() == self@.len(),
            forall|i: int| 0 <= i < self@.len() ==> call_ensures(fun, (self@[i],), #[trigger] r@[i]),
    {
        let ghost orig = self@;
        let mut taken = self.elems;
        let mut reversed: Vec<T> = Vec::new();
        while taken.len() > 0
            invariant
                taken@.len() + reversed@.len() == orig.len(),
                forall|j: int| 0 <= j < taken@.len() ==> taken@[j] == orig[j],
                forall|j: int|
                    0 <= j < reversed@.len() ==> reversed@[j] == orig[orig.len() - 1 - j],
            decreases taken@.len(),
        {
            let x = taken.pop().unwrap();
            reversed.push(x);
        }
        let mut out: Vec<R> = Vec::new();
        while reversed.len() > 0
            invariant
                out@.len() + reversed@.len() == orig.len(),
                forall|t: T| call_requires(fun, (t,)),
                forall|j: int|
                    0 <= j < reversed@.len() ==> reversed@[j] == orig[orig.len() - 1 - j],
                forall|j: int| 0 <= j < out@.len() ==> call_ensures(fun, (orig[j],), #[trigger] out@[j]),
            decreases reversed@.len(),
        {
            let x = reversed.pop().unwrap();
            out.push(fun(x));
        }
        Table::from_vec(out)
    }

    /// This table behind the mapping given by `fun`.
    pub fn compose_fn<F>(self, fun: F) -> (r: Composed<crate::cat::types::FnMapping<F>, Self>)
        ensures
            r.fst_spec().function_spec() == fun,
            r.snd_spec() == self,
    {
        Composed::new(crate::cat::types::FnMapping::new(fun), self)
    }

    /// A mutable borrow of this table that can be handed on.
    pub fn borrow_mut<'a>(&'a mut self) -> (r: crate::cat::types::BorrowedMut<'a, Self>)
        ensures
            r.spec_inner() == *old(self),
    {
        crate::cat::types::BorrowedMut::new(self)
    }
}

/// A table read through a shared reference is a mapping from numbers to its values.
impl<'i, D, T> crate::cat::types::Mapping<Num<D>> for &'i Table<D, T> {
    type Result = &'i T;

    open spec fn apply_requires(&self, elem: Num<D>) -> bool {
        elem@ < (*self)@.len()
    }

    open spec fn applies(&self, elem: Num<D>, result: &'i T) -> bool {
        *result == (*self)@[elem@ as int]
    }

    fn apply(&self, elem: Num<D>) -> (r: &'i T) {
        let t: &'i Table<D, T> = *self;
        t.get(elem)
    }
}

} // verus!

use vstd::prelude::*;

use crate::cat::types::Mapping;
use crate::cat::table::Table;
use crate::cat::num::Num;

verus! {

/// The composition of two objects: `fst` maps a key into the domain of `snd`.
pub struct Composed<A, B> {
    fst: A,
    snd: B,
}

impl<A, B> Composed<A, B> {
    pub closed spec fn fst_spec(&self) -> A {
        self.fst
    }

    pub closed spec fn snd_spec(&self) -> B {
        self.snd
    }

    pub fn new(fst: A, snd: B) -> (r: Self)
        ensures
            r.fst_spec() == fst,
            r.snd_spec() == snd,
    {
        Composed { fst, snd }
    }

    pub fn fst(&self) -> (r: &A)
        ensures
            *r == self.fst_spec(),
    {
        &self.fst
    }

    pub fn snd(&self) -> (r: &B)
        ensures
            *r == self.snd_spec(),
    {
        &self.snd
    }

    pub fn into_parts(self) -> (r: (A, B))
        ensures
            r.0 == self.fst_spec(),
            r.1 == self.snd_spec(),
    {
        (self.fst, self.snd)
    }
}

impl<K, A, B> Mapping<K> for Composed<A, B> where A: Mapping<K>, B: Mapping<A::Result> {
    type Result = B::Result;

    open spec fn apply_requires(&self, elem: K) -> bool {
        &&& self.fst_spec().apply_requires(elem)
        &&& forall|m: A::Result|
            #[trigger] self.fst_spec().applies(elem, m) ==> self.snd_spec().apply_requires(m)
    }

    open spec fn applies(&self, elem: K, result: B::Result) -> bool {
        exists|m: A::Result| #[trigger]
            self.fst_spec().applies(elem, m) && self.snd_spec().applies(m, result)
    }

    fn apply(&self, elem: K) -> (r: B::Result) {
        let m = self.fst.apply(elem);
        self.snd.apply(m)
    }
}

impl<A, D, T> Composed<A, Table<D, T>> {
    /// The value of the table at the number that `fst` gives for `key`.
    pub fn get<K>(&self, key: K) -> (r: &T)
        where
            A: Mapping<K, Result = Num<D>>,
        requires
            self.fst_spec().apply_requires(key),
            forall|m: Num<D>| #[trigger]
                self.fst_spec().applies(key, m) ==> m@ < self.snd_spec()@.len(),
        ensures
            exists|m: Num<D>|
                #[trigger] self.fst_spec().applies(key, m) && *r == self.snd_spec()@[m@ as int],
    {
        let m = self.fst.apply(key);
        self.snd.get(m)
    }

    /// The same mapping in front of the table of what `fun` gives for every value.
    pub fn map_into<R, F>(self, fun: F) -> (r: Composed<A, Table<D, R>>)
        where
            F: Fn(T) -> R,
        requires
            forall|t: T| call_requires(fun, (t,)),
        ensures
            r.fst_spec() == self.fst_spec(),
            r.snd_spec()@.len() == self.snd_spec()@.len(),
            forall|i: int|
                0 <= i < self.snd_spec()@.len() ==> call_ensures(fun, (self.snd_spec()@[i],), #[trigger] r.snd_spec()@[i]),
    {
        Composed { fst: self.fst, snd: self.snd.map_into(fun) }
    }

    /// Replaces the value of the table at the number that `fst` gives for `key`.
    pub fn set<K>(&mut self, key: K, value: T)
        where
            A: Mapping<K, Result = Num<D>>,
        requires
            old(self).fst_spec().apply_requires(key),
            forall|m: Num<D>| #[trigger]
                old(self).fst_spec().applies(key, m) ==> m@ < old(self).snd_spec()@.len(),
        ensures
            final(self).fst_spec() == old(self).fst_spec(),
            exists|m: Num<D>| #[trigger]
                old(self).fst_spec().applies(key, m) && final(self).snd_spec()@ == old(
                    self,
                ).snd_spec()@.update(m@ as int, value),
    {
        let m = self.fst.apply(key);
        self.snd.set(m, value);
    }
}

} // verus!

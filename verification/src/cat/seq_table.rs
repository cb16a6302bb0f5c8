use std::marker::PhantomData;
use vstd::prelude::*;

use crate::cat::has_count::{Count, HasCount, to_count};
use crate::cat::num::Num;

verus! {

broadcast use vstd::std_specs::vec::axiom_spec_len;

/// A table whose entries are rows of `seq_len` values, stored one after another in a
/// single vector; row `num` holds the values at `num * seq_len .. (num + 1) * seq_len`.
#[derive(Debug)]
pub struct SeqTable<D, T> {
    elems: Vec<T>,
    seq_len: usize,
    phantom: PhantomData<D>,
}

impl<D, T> SeqTable<D, T> {
    /// All values, row after row.
    pub closed spec fn elems_spec(&self) -> Seq<T> {
        self.elems@
    }

    pub closed spec fn seq_len_spec(&self) -> nat {
        self.seq_len as nat
    }

    /// The values of row `num`.
    pub open spec fn row_spec(&self, num: int) -> Seq<T> {
        self.elems_spec().subrange(num * self.seq_len_spec(), (num + 1) * self.seq_len_spec())
    }

    /// Row `num` lies within the stored values.
    pub open spec fn has_row(&self, num: int) -> bool {
        0 <= num && (num + 1) * self.seq_len_spec() <= self.elems_spec().len()
    }

    pub fn from_elem_vec(elems: Vec<T>, len: usize) -> (r: Self)
        ensures
            r.elems_spec() == elems@,
            r.seq_len_spec() == len,
    {
        SeqTable { elems, seq_len: len, phantom: PhantomData }
    }

    pub fn seq_len(&self) -> (r: usize)
        ensures
            r == self.seq_len_spec(),
    {
        self.seq_len
    }

    /// The values of row `num`.
    pub fn row(&self, num: Num<D>) -> (r: &[T])
        requires
            self.has_row(num@ as int),
        ensures
            r@ == self.row_spec(num@ as int),
    {
        let n = num.as_usize();
        proof {
            assert(self.elems@.len() == self.elems.len());
            assert(n * self.seq_len + self.seq_len == (n + 1) * self.seq_len) by (nonlinear_arith);
        }
        let offset = n * self.seq_len;
        vstd::slice::slice_subrange(self.elems.as_slice(), offset, offset + self.seq_len)
    }

    /// Replaces the value at position `pos` of row `num`.
    pub fn set(&mut self, num: Num<D>, pos: usize, value: T)
        requires
            old(self).has_row(num@ as int),
            pos < old(self).seq_len_spec(),
        ensures
            final(self).seq_len_spec() == old(self).seq_len_spec(),
            final(self).elems_spec() == old(self).elems_spec().update(
                num@ * old(self).seq_len_spec() + pos,
                value,
            ),
    {
        let n = num.as_usize();
        proof {
            assert(self.elems@.len() == self.elems.len());
            assert(n * self.seq_len + self.seq_len == (n + 1) * self.seq_len) by (nonlinear_arith);
        }
        let offset = n * self.seq_len;
        self.elems.set(offset + pos, value);
    }
}

/// A table holds at most `usize::MAX` values.
pub proof fn lemma_seq_table_len<D, T>(t: SeqTable<D, T>)
    ensures
        t.elems_spec().len() <= usize::MAX,
{
    assert(t.elems.len() == t.elems@.len());
}

impl<D, T> HasCount<D> for SeqTable<D, T> {
    /// The number of whole rows.
    open spec fn count_spec(&self) -> nat {
        self.elems_spec().len() / self.seq_len_spec()
    }

    /// Rows of length zero leave the count undefined (a division by zero).
    open spec fn count_requires(&self) -> bool {
        self.seq_len_spec() > 0
    }

    fn count(&self) -> (r: Count<D>) {
        to_count(self.elems.len() / self.seq_len)
    }
}

} // verus!

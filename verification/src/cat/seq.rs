use std::marker::PhantomData;
use vstd::prelude::*;
use vstd::arithmetic::power::pow;

use crate::cat::domain::{Domain, FiniteDomain};
use crate::cat::has_count::{Count, HasCount, to_count};
use crate::cat::num::{Num, to_num, nums_view};
use crate::cat::types::Mapping;

verus! {

broadcast use crate::cat::num::lemma_num_view_eq, crate::cat::num::lemma_num_of_view;

/// The domain of sequences over `D`.
///
/// The length of the sequences is not part of the type; the numberings below fix one.
pub struct Sequence<D> {
    phantom: PhantomData<D>,
}

impl<D: Domain> Domain for Sequence<D> {
    type Type = Vec<D>;
}

impl<D: FiniteDomain> FiniteDomain for Sequence<D> {

}

/// The number that the digits `d` denote in base `c`, the most significant digit first.
pub open spec fn seq_value(d: Seq<usize>, c: int) -> int
    decreases d.len(),
{
    if d.len() == 0 {
        0
    } else {
        seq_value(d.drop_last(), c) * c + d.last()
    }
}

/// Every digit of `d` lies below `c`.
pub open spec fn digits_below(d: Seq<usize>, c: int) -> bool {
    forall|j: int| 0 <= j < d.len() ==> #[trigger] d[j] < c
}

/// Changing one digit changes the number by the difference times the digit's weight.
proof fn lemma_seq_value_update(d: Seq<usize>, c: int, i: int, x: usize)
    requires
        0 <= i < d.len(),
    ensures
        seq_value(d.update(i, x), c) == seq_value(d, c) + (x - d[i]) * pow(c, (d.len() - 1 - i) as nat),
    decreases d.len(),
{
    let e = d.update(i, x);
    if i == d.len() - 1 {
        assert(e.drop_last() =~= d.drop_last());
        assert(pow(c, 0) == 1) by {
            vstd::arithmetic::power::lemma_pow0(c);
        }
    } else {
        assert(e.drop_last() =~= d.drop_last().update(i, x));
        lemma_seq_value_update(d.drop_last(), c, i, x);
        let k = (d.len() - 2 - i) as nat;
        vstd::arithmetic::power::lemma_pow_adds(c, k, 1);
        vstd::arithmetic::power::lemma_pow1(c);
        let a = seq_value(d.drop_last(), c);
        let b = (x - d[i]) as int;
        let p = pow(c, k);
        assert((a + b * p) * c == a * c + b * (p * c)) by (nonlinear_arith);
        assert(pow(c, (k + 1) as nat) == p * c);
    }
}

/// Bounds on the number of digits whose digits after the first lie below `c`.
proof fn lemma_seq_value_bounds(d: Seq<usize>, c: int)
    requires
        d.len() >= 1,
        c >= 1,
        forall|j: int| 1 <= j < d.len() ==> #[trigger] d[j] < c,
    ensures
        d[0] * pow(c, (d.len() - 1) as nat) <= seq_value(d, c) < (d[0] + 1) * pow(c, (d.len() - 1) as nat),
    decreases d.len(),
{
    if d.len() == 1 {
        assert(d.drop_last() =~= Seq::<usize>::empty());
        assert(seq_value(d.drop_last(), c) == 0);
        assert(seq_value(d, c) == d[0]);
        vstd::arithmetic::power::lemma_pow0(c);
        assert(d[0] * 1 == d[0]);
    } else {
        let p = d.drop_last();
        lemma_seq_value_bounds(p, c);
        let k = (d.len() - 2) as nat;
        vstd::arithmetic::power::lemma_pow_adds(c, k, 1);
        vstd::arithmetic::power::lemma_pow1(c);
        let v = seq_value(p, c);
        let q = pow(c, k);
        let d0 = d[0] as int;
        let last = d.last() as int;
        assert(p[0] == d[0]);
        assert(d[d.len() - 1] < c);
        assert(d0 * q * c <= v * c + last < (d0 + 1) * q * c) by (nonlinear_arith)
            requires
                d0 * q <= v < (d0 + 1) * q,
                0 <= last < c,
                c >= 1,
        ;
        assert(pow(c, (k + 1) as nat) == q * c);
        assert(seq_value(d, c) == v * c + last);
        assert(d0 * q * c == d0 * (q * c)) by (nonlinear_arith);
        assert((d0 + 1) * q * c == (d0 + 1) * (q * c)) by (nonlinear_arith);
    }
}

/// Digits below `c` denote a number below `c` to the power of their count.
proof fn lemma_seq_value_below(d: Seq<usize>, c: int)
    requires
        c >= 1,
        digits_below(d, c),
    ensures
        0 <= seq_value(d, c) < pow(c, d.len()),
    decreases d.len(),
{
    if d.len() == 0 {
        vstd::arithmetic::power::lemma_pow0(c);
    } else {
        lemma_seq_value_bounds(d, c);
        let k = (d.len() - 1) as nat;
        vstd::arithmetic::power::lemma_pow_adds(c, 1, k);
        vstd::arithmetic::power::lemma_pow1(c);
        vstd::arithmetic::power::lemma_pow_positive(c, k);
        assert(d[0] < c);
        let q = pow(c, k);
        assert((d[0] + 1) * q <= c * q) by (nonlinear_arith)
            requires
                d[0] + 1 <= c,
                q > 0,
        ;
        assert(0 <= d[0] * q) by (nonlinear_arith)
            requires
                q > 0,
        ;
    }
}

/// Sequences of one length with digits below `c` that denote the same number are equal.
proof fn lemma_seq_value_injective(a: Seq<usize>, b: Seq<usize>, c: int)
    requires
        c >= 1,
        a.len() == b.len(),
        digits_below(a, c),
        digits_below(b, c),
        seq_value(a, c) == seq_value(b, c),
    ensures
        a == b,
    decreases a.len(),
{
    if a.len() > 0 {
        let pa = a.drop_last();
        let pb = b.drop_last();
        lemma_seq_value_below(pa, c);
        lemma_seq_value_below(pb, c);
        let va = seq_value(pa, c);
        let vb = seq_value(pb, c);
        assert(a.last() < c && b.last() < c);
        assert(va * c == c * va) by (nonlinear_arith);
        assert(vb * c == c * vb) by (nonlinear_arith);
        vstd::arithmetic::div_mod::lemma_fundamental_div_mod_converse(
            seq_value(a, c),
            c,
            va,
            a.last() as int,
        );
        vstd::arithmetic::div_mod::lemma_fundamental_div_mod_converse(
            seq_value(b, c),
            c,
            vb,
            b.last() as int,
        );
        lemma_seq_value_injective(pa, pb, c);
        assert(a =~= pa.push(a.last()));
        assert(b =~= pb.push(b.last()));
    }
}

/// Numbering sequences of one length by the number their elements denote as digits is a
/// bijection between the sequences of length `len` over `c` elements and the numbers below
/// `c` to the power `len`: every such sequence gets a number below that bound, and different
/// sequences get different numbers.
pub proof fn law_seq_num_bijection(a: Seq<usize>, b: Seq<usize>, c: int)
    requires
        c >= 1,
        a.len() == b.len(),
        digits_below(a, c),
        digits_below(b, c),
    ensures
        0 <= seq_value(a, c) < pow(c, a.len()),
        seq_value(a, c) == seq_value(b, c) <==> a == b,
{
    lemma_seq_value_below(a, c);
    if seq_value(a, c) == seq_value(b, c) {
        lemma_seq_value_injective(a, b, c);
    }
}

/// `base` to the power `exp`, by repeated multiplication.
fn usize_pow(base: usize, exp: u32) -> (r: usize)
    requires
        pow(base as int, exp as nat) <= usize::MAX,
    ensures
        r == pow(base as int, exp as nat),
{
    let mut r: usize = 1;
    let mut i: u32 = 0;
    proof {
        vstd::arithmetic::power::lemma_pow0(base as int);
    }
    while i < exp
        invariant
            i <= exp,
            r == pow(base as int, i as nat),
            pow(base as int, exp as nat) <= usize::MAX,
        decreases exp - i,
    {
        proof {
            vstd::arithmetic::power::lemma_pow_adds(base as int, i as nat, 1);
            vstd::arithmetic::power::lemma_pow1(base as int);
            assert(pow(base as int, (i + 1) as nat) == r * base);
            if base >= 1 {
                vstd::arithmetic::power::lemma_pow_increases(base as nat, (i + 1) as nat, exp as nat);
            } else {
                assert(r * base == 0) by (nonlinear_arith)
                    requires
                        base == 0,
                ;
            }
        }
        r = r * base;
        i = i + 1;
    }
    r
}

impl<D> Sequence<D> {
    /// Enumerates the sequences of length `len` over `count` elements.
    pub fn iter(count: Count<D>, len: usize) -> (r: SeqIter<D>)
        ensures
            r.wf(),
            r.idxs_spec().len() == len,
            r.count_spec() == count@,
            r.pos_spec() == 0,
    {
        SeqIter::new(count, len)
    }
}

/// Enumerates, in order, all sequences of a given length over the `count` elements of `D`:
/// the sequence yielded `k`-th (from zero) is the one whose elements, read as digits in
/// base `count`, denote `k`.
pub struct SeqIter<D> {
    idxs: Vec<usize>,
    count: Count<D>,
    /// For length zero, whether the one empty sequence was yielded.
    done: bool,
}

impl<D> SeqIter<D> {
    /// The digits of the next sequence.
    pub closed spec fn idxs_spec(&self) -> Seq<usize> {
        self.idxs@
    }

    pub closed spec fn count_spec(&self) -> int {
        self.count@ as int
    }

    /// For length zero, whether the one empty sequence was yielded.
    pub closed spec fn done_spec(&self) -> bool {
        self.done
    }

    /// How many sequences were yielded so far.
    pub open spec fn pos_spec(&self) -> int {
        seq_value(self.idxs_spec(), self.count_spec()) + if self.done_spec() {
            1int
        } else {
            0int
        }
    }

    /// The number of sequences in all.
    pub open spec fn total_spec(&self) -> int {
        pow(self.count_spec(), self.idxs_spec().len())
    }

    /// The first digit may reach `count` (once everything was yielded); the others lie
    /// below it.
    pub closed spec fn wf(&self) -> bool {
        &&& self.done ==> self.idxs@.len() == 0
        &&& self.idxs@.len() >= 1 ==> self.idxs@[0] <= self.count@
        &&& forall|j: int|
            1 <= j < self.idxs@.len() ==> #[trigger] self.idxs@[j] < self.count@ || (self.idxs@[j] == 0
                && self.count@ == 0)
    }

    pub fn new(count: Count<D>, len: usize) -> (r: Self)
        ensures
            r.wf(),
            r.idxs_spec().len() == len,
            r.count_spec() == count@,
            r.pos_spec() == 0,
    {
        let r = SeqIter { idxs: vec![0; len], count, done: false };
        proof {
            lemma_zero_value(r.idxs@, count@ as int);
        }
        r
    }

    /// Adds one to the digits, carrying into the digits before; the first digit never
    /// wraps around.
    fn increment(&mut self)
        requires
            old(self).wf(),
            old(self).idxs@.len() >= 1,
            old(self).idxs@[0] < old(self).count@,
        ensures
            final(self).wf(),
            final(self).count == old(self).count,
            final(self).done == old(self).done,
            final(self).idxs@.len() == old(self).idxs@.len(),
            final(self).pos_spec() == old(self).pos_spec() + 1,
    {
        let ghost orig = self.idxs@;
        let ghost c = self.count@ as int;
        let len = self.idxs.len();
        let mut i = len;
        proof {
            vstd::arithmetic::power::lemma_pow0(c);
            assert forall|j: int| 1 <= j < len implies #[trigger] orig[j] < c by {
                assert(orig[j] < c || (orig[j] == 0 && c == 0));
            }
        }
        while i > 0
            invariant
                1 <= len == orig.len() == self.idxs@.len(),
                1 <= i <= len,
                c == self.count@,
                self.count == old(self).count,
                self.done == old(self).done,
                !self.done,
                orig == old(self).idxs@,
                0 <= orig[0] < c,
                forall|j: int| 1 <= j < len ==> #[trigger] orig[j] < c,
                forall|j: int| 0 <= j < i ==> #[trigger] self.idxs@[j] == orig[j],
                forall|j: int| i <= j < len ==> #[trigger] self.idxs@[j] == 0,
                forall|j: int| i <= j < len ==> #[trigger] orig[j] == c - 1,
                seq_value(self.idxs@, c) + pow(c, (len - i) as nat) == seq_value(orig, c) + 1,
            decreases i,
        {
            i = i - 1;
            let ghost before = self.idxs@;
            let d = self.idxs[i];
            let ghost m = (len - 1 - i) as nat;
            let ghost p = pow(c, m);
            proof {
                assert(d < c);
                vstd::arithmetic::power::lemma_pow_adds(c, m, 1);
                vstd::arithmetic::power::lemma_pow1(c);
                assert(pow(c, (len - (i + 1)) as nat) == p);
                assert(pow(c, (len - i) as nat) == p * c);
            }
            if i > 0 && d + 1 >= self.count.as_usize() {
                self.idxs.set(i, 0);
                proof {
                    lemma_seq_value_update(before, c, i as int, 0);
                    assert(d == c - 1);
                    assert(seq_value(self.idxs@, c) + p * c == seq_value(before, c) + p) by (nonlinear_arith)
                        requires
                            seq_value(self.idxs@, c) == seq_value(before, c) + (0 - d) * p,
                            d == c - 1,
                    ;
                }
            } else {
                self.idxs.set(i, d + 1);
                proof {
                    lemma_seq_value_update(before, c, i as int, (d + 1) as usize);
                    assert(before[i as int] == d);
                    assert(((d + 1) - d) * p == p) by (nonlinear_arith);
                    assert(seq_value(self.idxs@, c) == seq_value(before, c) + p);
                    assert forall|j: int| 1 <= j < self.idxs@.len() implies #[trigger] self.idxs@[j]
                        < self.count@ || (self.idxs@[j] == 0 && self.count@ == 0) by {
                        if j < i {
                            assert(self.idxs@[j] == orig[j]);
                        } else if j > i {
                            assert(self.idxs@[j] == 0);
                        }
                    }
                }
                return;
            }
        }
        proof {
            assert(false);
        }
    }

    /// Yields the next sequence, or `None` once all sequences were yielded.
    pub fn next(&mut self) -> (r: Option<Vec<Num<D>>>)
        requires
            old(self).wf(),
        ensures
            final(self).wf(),
            final(self).count_spec() == old(self).count_spec(),
            final(self).idxs_spec().len() == old(self).idxs_spec().len(),
            old(self).pos_spec() >= old(self).total_spec() ==> r is None && final(self).pos_spec()
                == old(self).pos_spec(),
            old(self).pos_spec() < old(self).total_spec() ==> r is Some && nums_view(r->0@)
                == old(self).idxs_spec() && digits_below(old(self).idxs_spec(), old(self).count_spec())
                && seq_value(nums_view(r->0@), old(self).count_spec()) == old(self).pos_spec()
                && final(self).pos_spec() == old(self).pos_spec() + 1,
            seq_iter_step(*old(self), *final(self), r),
    {
        if self.idxs.len() == 0 {
            proof {
                vstd::arithmetic::power::lemma_pow0(self.count_spec());
                assert(seq_value(self.idxs@, self.count_spec()) == 0);
            }
            if self.done {
                return None;
            }
            self.done = true;
            let item: Vec<Num<D>> = Vec::new();
            proof {
                assert(nums_view(item@) =~= self.idxs@);
            }
            return Some(item);
        }
        proof {
            self.lemma_exhausted();
        }
        if self.idxs[0] >= self.count.as_usize() {
            return None;
        }
        let mut item: Vec<Num<D>> = Vec::with_capacity(self.idxs.len());
        let mut j: usize = 0;
        while j < self.idxs.len()
            invariant
                j <= self.idxs@.len(),
                item@.len() == j,
                forall|k: int| 0 <= k < j ==> (#[trigger] item@[k])@ == self.idxs@[k],
            decreases self.idxs@.len() - j,
        {
            item.push(to_num(self.idxs[j]));
            j = j + 1;
        }
        proof {
            assert(nums_view(item@) =~= self.idxs@);
            assert forall|k: int| 0 <= k < self.idxs@.len() implies #[trigger] self.idxs@[k] < self.count@ by {
                if k > 0 {
                    assert(self.idxs@[k] < self.count@ || (self.idxs@[k] == 0 && self.count@ == 0));
                }
            }
        }
        self.increment();
        Some(item)
    }

    /// Everything was yielded exactly when the first digit reached `count`.
    proof fn lemma_exhausted(&self)
        requires
            self.wf(),
            self.idxs@.len() >= 1,
        ensures
            (self.idxs@[0] >= self.count@) == (self.pos_spec() >= self.total_spec()),
    {
        let c = self.count@ as int;
        let d = self.idxs@;
        let k = (d.len() - 1) as nat;
        if c == 0 {
            lemma_zero_value(d, c);
            vstd::arithmetic::power::lemma_pow_adds(c, 1, k);
            vstd::arithmetic::power::lemma_pow1(c);
            assert(pow(c, d.len()) == 0 * pow(c, k));
        } else {
            lemma_seq_value_bounds(d, c);
            vstd::arithmetic::power::lemma_pow_adds(c, 1, k);
            vstd::arithmetic::power::lemma_pow1(c);
            vstd::arithmetic::power::lemma_pow_positive(c, k);
            let q = pow(c, k);
            if d[0] < c {
                assert((d[0] + 1) * q <= c * q) by (nonlinear_arith)
                    requires
                        d[0] + 1 <= c,
                        q > 0,
                ;
            }
        }
    }
}

/// A power of a non-negative base is non-negative.
proof fn lemma_pow_nonneg(b: int, e: nat)
    requires
        b >= 0,
    ensures
        pow(b, e) >= 0,
{
    if b > 0 {
        vstd::arithmetic::power::lemma_pow_positive(b, e);
    } else if e == 0 {
        vstd::arithmetic::power::lemma_pow0(b);
    } else {
        vstd::arithmetic::power::lemma0_pow(e);
    }
}

/// `b` is the iterator `a` after one call of `next`, which gave `r`.
pub open spec fn seq_iter_step<D>(a: SeqIter<D>, b: SeqIter<D>, r: Option<Vec<Num<D>>>) -> bool {
    &&& b.wf()
    &&& b.count_spec() == a.count_spec()
    &&& b.idxs_spec().len() == a.idxs_spec().len()
    &&& a.pos_spec() >= a.total_spec() ==> r is None && b.pos_spec() == a.pos_spec()
    &&& a.pos_spec() < a.total_spec() ==> r is Some && nums_view(r->0@) == a.idxs_spec() && digits_below(
        a.idxs_spec(),
        a.count_spec(),
    ) && seq_value(nums_view(r->0@), a.count_spec()) == a.pos_spec() && b.pos_spec() == a.pos_spec() + 1
}

/// After `i` calls from a fresh iterator, `min(i, total)` sequences were yielded.
proof fn lemma_seq_iter_pos<D>(its: Seq<SeqIter<D>>, rs: Seq<Option<Vec<Num<D>>>>, i: int)
    requires
        its.len() == rs.len() + 1,
        its[0].pos_spec() == 0,
        forall|j: int| 0 <= j < rs.len() ==> #[trigger] seq_iter_step(its[j], its[j + 1], rs[j]),
        0 <= i < its.len(),
    ensures
        its[i].count_spec() == its[0].count_spec(),
        its[i].idxs_spec().len() == its[0].idxs_spec().len(),
        its[i].total_spec() == its[0].total_spec(),
        its[i].pos_spec() == if i <= its[0].total_spec() {
            i
        } else {
            its[0].total_spec()
        },
    decreases i,
{
    lemma_pow_nonneg(its[0].count_spec(), its[0].idxs_spec().len());
    if i > 0 {
        lemma_seq_iter_pos(its, rs, i - 1);
        let j = i - 1;
        assert(seq_iter_step(its[j], its[j + 1], rs[j]));
        assert(j + 1 == i);
    }
}

/// Running a fresh iterator yields exactly the `count^len` sequences of its length, in
/// order: call `i` (from zero) yields a sequence exactly when `i` is below that number,
/// and then the sequence of digits below `count` that denotes `i`; by
/// `law_seq_num_bijection`, every such sequence is yielded once.
pub proof fn law_seq_iter_run<D>(its: Seq<SeqIter<D>>, rs: Seq<Option<Vec<Num<D>>>>)
    requires
        its.len() == rs.len() + 1,
        its[0].pos_spec() == 0,
        forall|j: int| 0 <= j < rs.len() ==> #[trigger] seq_iter_step(its[j], its[j + 1], rs[j]),
    ensures
        forall|i: int| 0 <= i < rs.len() ==> (#[trigger] rs[i] is Some) == (i < its[0].total_spec()),
        forall|i: int|
            0 <= i < rs.len() && #[trigger] rs[i] is Some ==> nums_view(rs[i]->0@).len() == its[0].idxs_spec().len()
                && digits_below(nums_view(rs[i]->0@), its[0].count_spec()) && seq_value(
                nums_view(rs[i]->0@),
                its[0].count_spec(),
            ) == i,
{
    assert forall|i: int| 0 <= i < rs.len() implies (#[trigger] rs[i] is Some) == (i < its[0].total_spec()) && (rs[i] is Some
        ==> nums_view(rs[i]->0@).len() == its[0].idxs_spec().len() && digits_below(nums_view(rs[i]->0@), its[0].count_spec())
        && seq_value(nums_view(rs[i]->0@), its[0].count_spec()) == i) by {
        lemma_seq_iter_pos(its, rs, i);
        assert(seq_iter_step(its[i], its[i + 1], rs[i]));
    }
}

/// A sequence of zero digits denotes zero.
proof fn lemma_zero_value(d: Seq<usize>, c: int)
    requires
        forall|j: int| 0 <= j < d.len() ==> #[trigger] d[j] == 0,
    ensures
        seq_value(d, c) == 0,
    decreases d.len(),
{
    if d.len() > 0 {
        lemma_zero_value(d.drop_last(), c);
    }
}

/// Maps a sequence of length `len` to its number among the sequences of that length:
/// the number that its elements denote as digits in base `count`.
pub struct SeqNum<D> {
    count: Count<D>,
    len: usize,
}

impl<D> SeqNum<D> {
    pub closed spec fn elem_count_spec(&self) -> int {
        self.count@ as int
    }

    /// The number of elements that the digits range over.
    pub fn elem_count(&self) -> (r: usize)
        ensures
            r == self.elem_count_spec(),
    {
        self.count.as_usize()
    }

    pub closed spec fn len_spec(&self) -> nat {
        self.len as nat
    }

    pub fn new(count: Count<D>, len: usize) -> (r: Self)
        ensures
            r.elem_count_spec() == count@,
            r.len_spec() == len,
    {
        SeqNum { count, len }
    }
}

impl<D> HasCount<Sequence<D>> for SeqNum<D> {
    /// `count` to the power `len`, where `len` is taken modulo `2^32`.
    open spec fn count_spec(&self) -> nat {
        pow(self.elem_count_spec(), (self.len_spec() as u32) as nat) as nat
    }

    open spec fn count_requires(&self) -> bool {
        pow(self.elem_count_spec(), (self.len_spec() as u32) as nat) <= usize::MAX
    }

    fn count(&self) -> (r: Count<Sequence<D>>) {
        proof {
            lemma_pow_nonneg(self.elem_count_spec(), (self.len as u32) as nat);
        }
        to_count(usize_pow(self.count.as_usize(), self.len as u32))
    }
}

impl<'a, D> Mapping<&'a [Num<D>]> for SeqNum<D> {
    type Result = Num<Sequence<D>>;

    open spec fn apply_requires(&self, seq: &'a [Num<D>]) -> bool {
        forall|k: int|
            0 <= k <= seq@.len() ==> #[trigger] seq_value(nums_view(seq@.subrange(0, k)), self.elem_count_spec())
                <= usize::MAX
    }

    open spec fn applies(&self, seq: &'a [Num<D>], result: Num<Sequence<D>>) -> bool {
        result@ == seq_value(nums_view(seq@), self.elem_count_spec())
    }

    fn apply(&self, seq: &'a [Num<D>]) -> (r: Num<Sequence<D>>) {
        let c = self.count.as_usize();
        let mut num: usize = 0;
        let mut i: usize = 0;
        proof {
            assert(nums_view(seq@.subrange(0, 0)) =~= Seq::<usize>::empty());
        }
        while i < seq.len()
            invariant
                i <= seq@.len(),
                c == self.elem_count_spec(),
                self.apply_requires(seq),
                num == seq_value(nums_view(seq@.subrange(0, i as int)), c as int),
            decreases seq@.len() - i,
        {
            proof {
                let next = nums_view(seq@.subrange(0, i + 1));
                assert(next.drop_last() =~= nums_view(seq@.subrange(0, i as int)));
                assert(seq_value(next, c as int) <= usize::MAX);
                assert(0 <= num * c) by (nonlinear_arith);
            }
            num = num * c + seq[i].as_usize();
            i = i + 1;
        }
        proof {
            assert(seq@.subrange(0, seq@.len() as int) =~= seq@);
        }
        to_num(num)
    }
}

} // verus!

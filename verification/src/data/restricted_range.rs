use vstd::prelude::*;

use rand::rngs::StdRng;

use crate::cat::has_count::Count;
use crate::cat::num::{Num, to_num, nums_view};
use crate::cat::table::Table;

verus! {

broadcast use crate::cat::num::lemma_num_view_eq, crate::cat::num::lemma_num_of_view;

/// A permutation of the numbers of `T`, together with the position of every number.
#[derive(Debug, Clone)]
pub struct Permutation<T> {
    items: Vec<Num<T>>,
    positions: Table<T, usize>,
}

impl<T> Permutation<T> {
    /// The number of items.
    pub closed spec fn n(&self) -> nat {
        self.items@.len()
    }

    /// The item at position `p`.
    pub closed spec fn item(&self, p: int) -> int {
        self.items@[p]@ as int
    }

    /// The position of item `v`.
    pub closed spec fn pos_of(&self, v: int) -> int {
        self.positions@[v] as int
    }

    /// `items` and `positions` are inverse bijections on `0..n`.
    pub closed spec fn wf(&self) -> bool {
        &&& self.positions@.len() == self.items@.len()
        &&& forall|p: int|
            0 <= p < self.n() ==> 0 <= #[trigger] self.item(p) < self.n() && self.pos_of(self.item(p))
                == p
        &&& forall|v: int|
            0 <= v < self.n() ==> 0 <= #[trigger] self.pos_of(v) < self.n() && self.item(self.pos_of(v))
                == v
    }

    /// The identity permutation on the `t_count` numbers of `T`.
    pub fn new(t_count: Count<T>) -> (r: Self)
        ensures
            r.wf(),
            r.n() == t_count@,
            forall|p: int| 0 <= p < r.n() ==> #[trigger] r.item(p) == p,
    {
        let n = t_count.as_usize();
        let mut items: Vec<Num<T>> = Vec::with_capacity(n);
        let mut positions: Vec<usize> = Vec::with_capacity(n);
        let mut i: usize = 0;
        while i < n
            invariant
                i <= n,
                items@.len() == i,
                positions@.len() == i,
                forall|j: int| 0 <= j < i ==> (#[trigger] items@[j])@ == j,
                forall|j: int| 0 <= j < i ==> #[trigger] positions@[j] == j,
            decreases n - i,
        {
            items.push(to_num(i));
            positions.push(i);
            i = i + 1;
        }
        Permutation { items, positions: Table::from_vec(positions) }
    }

    /// Exchanges the items at positions `a` and `b`.
    pub fn swap(&mut self, a: usize, b: usize)
        requires
            old(self).wf(),
            a < old(self).n(),
            b < old(self).n(),
        ensures
            final(self).wf(),
            final(self).n() == old(self).n(),
            forall|p: int|
                0 <= p < old(self).n() ==> #[trigger] final(self).item(p) == if p == a {
                    old(self).item(b as int)
                } else if p == b {
                    old(self).item(a as int)
                } else {
                    old(self).item(p)
                },
            forall|v: int|
                0 <= v < old(self).n() ==> #[trigger] final(self).pos_of(v) == if v == old(self).item(
                    a as int,
                ) {
                    b as int
                } else if v == old(self).item(b as int) {
                    a as int
                } else {
                    old(self).pos_of(v)
                },
    {
        proof {
            assert(0 <= old(self).item(a as int) < old(self).n());
            assert(0 <= old(self).item(b as int) < old(self).n());
        }
        let ia = self.items[a];
        let ib = self.items[b];
        self.items.set(a, ib);
        self.items.set(b, ia);
        self.positions.set(ib, a);
        self.positions.set(ia, b);
        assert forall|p: int| 0 <= p < self.n() implies 0 <= #[trigger] self.item(p) < self.n()
            && self.pos_of(self.item(p)) == p by {
            if p != a && p != b {
                assert(old(self).pos_of(old(self).item(p)) == p);
            }
        }
        assert forall|v: int| 0 <= v < self.n() implies 0 <= #[trigger] self.pos_of(v) < self.n()
            && self.item(self.pos_of(v)) == v by {
            if v != ia@ && v != ib@ {
                assert(old(self).item(old(self).pos_of(v)) == v);
            }
        }
    }

    /// Rearranges the items in an order drawn from `gen`.
    pub fn shuffle(&mut self, gen: &mut StdRng)
        requires
            old(self).wf(),
        ensures
            final(self).wf(),
            final(self).n() == old(self).n(),
    {
        let ghost o = *self;
        let ghost n = o.n();
        proof {
            assert forall|i: int, j: int|
                0 <= i < o.items@.len() && 0 <= j < o.items@.len() && i != j implies o.items@[i]
                != o.items@[j] by {
                assert(o.pos_of(o.item(i)) == i);
                assert(o.pos_of(o.item(j)) == j);
            }
            o.items@.lemma_multiset_has_no_duplicates();
        }
        shuffle_nums(&mut self.items, gen);
        proof {
            broadcast use vstd::seq_lib::to_multiset_contains;

            let s_old = o.items@;
            let s_new = self.items@;
            assert forall|x: Num<T>| s_new.to_multiset().contains(x) implies s_new.to_multiset().count(
                x,
            ) == 1 by {
                assert(s_old.to_multiset().count(x) == s_new.to_multiset().count(x));
            }
            s_new.lemma_multiset_has_no_duplicates_conv();
            assert forall|p: int| 0 <= p < n implies 0 <= #[trigger] self.item(p) < n by {
                assert(s_new.to_multiset().count(s_new[p]) > 0);
                assert(s_old.to_multiset().count(s_new[p]) > 0);
                let q = choose|q: int| 0 <= q < s_old.len() && s_old[q] == s_new[p];
                assert(o.item(q) < n);
            }
        }
        let ghost shuffled = self.items@;
        let mut i: usize = 0;
        while i < self.items.len()
            invariant
                self.items@ == shuffled,
                shuffled.to_multiset() == o.items@.to_multiset(),
                self.items@.len() == n,
                self.positions@.len() == n,
                self.items@.no_duplicates(),
                i <= n,
                forall|p: int| 0 <= p < n ==> 0 <= #[trigger] self.item(p) < n,
                forall|j: int| 0 <= j < i ==> #[trigger] self.pos_of(self.item(j)) == j,
            decreases n - i,
        {
            let ghost before = *self;
            self.update_pos(i);
            proof {
                assert forall|p: int| 0 <= p < n implies #[trigger] self.item(p) == before.item(p) by {}
                assert forall|j: int| 0 <= j < i + 1 implies #[trigger] self.pos_of(self.item(j)) == j by {
                    assert(self.item(j) == before.item(j));
                }
            }
            i = i + 1;
        }
        proof {
            broadcast use vstd::seq_lib::to_multiset_contains;

            assert forall|p: int| 0 <= p < self.n() implies 0 <= #[trigger] self.item(p) < self.n()
                && self.pos_of(self.item(p)) == p by {}
            assert forall|v: int| 0 <= v < self.n() implies 0 <= #[trigger] self.pos_of(v) < self.n()
                && self.item(self.pos_of(v)) == v by {
                let x = o.items@[o.pos_of(v)];
                assert(o.item(o.pos_of(v)) == v);
                assert(o.items@.to_multiset().count(x) > 0);
                assert(self.items@.to_multiset().count(x) > 0);
                let p = choose|p: int| 0 <= p < self.items@.len() && self.items@[p] == x;
                assert(self.item(p) == v);
                assert(self.pos_of(self.item(p)) == p);
            }
        }
    }

    /// Records that the item at `pos` sits at `pos`.
    fn update_pos(&mut self, pos: usize)
        requires
            pos < old(self).items@.len(),
            old(self).positions@.len() == old(self).items@.len(),
            old(self).items@.no_duplicates(),
            forall|p: int| 0 <= p < old(self).n() ==> 0 <= #[trigger] old(self).item(p) < old(self).n(),
        ensures
            final(self).items == old(self).items,
            final(self).positions@.len() == old(self).positions@.len(),
            final(self).pos_of(old(self).item(pos as int)) == pos,
            forall|j: int|
                0 <= j < old(self).n() && j != pos ==> #[trigger] final(self).pos_of(old(self).item(j))
                    == old(self).pos_of(old(self).item(j)),
    {
        proof {
            assert(0 <= old(self).item(pos as int) < old(self).n());
        }
        let item = self.items[pos];
        self.positions.set(item, pos);
        proof {
            assert forall|j: int| 0 <= j < old(self).n() && j != pos implies #[trigger] self.pos_of(
                old(self).item(j),
            ) == old(self).pos_of(old(self).item(j)) by {
                assert(old(self).items@[j] != old(self).items@[pos as int]);
            }
        }
    }

    /// The position of `value`.
    pub fn pos(&self, value: Num<T>) -> (r: usize)
        requires
            self.wf(),
            value@ < self.n(),
        ensures
            r == self.pos_of(value@ as int),
    {
        *self.positions.get(value)
    }

    pub fn len(&self) -> (r: usize)
        ensures
            r == self.n(),
    {
        self.items.len()
    }

    /// The item at position `idx`.
    pub fn get(&self, idx: usize) -> (r: Num<T>)
        requires
            idx < self.n(),
        ensures
            r@ == self.item(idx as int),
    {
        self.items[idx]
    }

    /// The items at positions `start..end`.
    pub fn slice(&self, start: usize, end: usize) -> (r: &[Num<T>])
        requires
            start <= end <= self.n(),
        ensures
            r@.len() == end - start,
            forall|i: int| 0 <= i < end - start ==> (#[trigger] r@[i])@ == self.item(start + i),
    {
        vstd::slice::slice_subrange(self.items.as_slice(), start, end)
    }
}

/// The generator that shuffles draw from (rand 0.5's standard generator).
#[verifier::external_type_specification]
#[verifier::external_body]
pub struct ExStdRng(rand::rngs::StdRng);

/// Shuffles `items` with `rand::Rng::shuffle` (rand 0.5), drawing from `gen`. That
/// function only swaps elements, so the result holds the same numbers, each as often as
/// before; the order it gives depends on the generator's state and is not stated, nor is
/// the generator's new state.
#[verifier::external_body]
#[allow(deprecated)]
fn shuffle_nums<T>(items: &mut Vec<Num<T>>, gen: &mut StdRng)
    ensures
        final(items)@.len() == old(items)@.len(),
        final(items)@.to_multiset() == old(items)@.to_multiset(),
{
    rand::Rng::shuffle(gen, items.as_mut_slice());
}

/// A segment of a segmented permutation: its positions start at `offset`,
/// and the first `num_rejected` of them hold rejected items.
#[derive(Debug, Clone, Copy)]
pub struct Segment {
    pub offset: usize,
    pub num_rejected: usize,
}

impl Segment {
    pub open spec fn frontier_spec(&self) -> int {
        self.offset + self.num_rejected
    }

    pub fn empty(offset: usize) -> (r: Self)
        ensures
            r.offset == offset,
            r.num_rejected == 0,
    {
        Segment { offset, num_rejected: 0 }
    }

    /// The first position that holds an accepted item.
    pub fn frontier(&self) -> (r: usize)
        requires
            self.frontier_spec() <= usize::MAX,
        ensures
            r == self.frontier_spec(),
    {
        self.offset + self.num_rejected
    }

    fn accepts(&self, pos: usize) -> (r: bool)
        requires
            self.frontier_spec() <= usize::MAX,
        ensures
            r == (pos >= self.frontier_spec()),
    {
        pos >= self.frontier()
    }
}

/// A permutation whose positions are split into consecutive segments; within each
/// segment, rejected items come before accepted ones.
#[derive(Debug, Clone)]
pub struct SegmentedPermutation<T> {
    items: Permutation<T>,
    segments: Vec<Segment>,
    item_segment: Table<T, usize>,
}

impl<T> SegmentedPermutation<T> {
    pub closed spec fn n(&self) -> nat {
        self.items.n()
    }

    /// The item at position `p`.
    pub closed spec fn item_at(&self, p: int) -> int {
        self.items.item(p)
    }

    /// The position of item `v`.
    pub closed spec fn pos_of(&self, v: int) -> int {
        self.items.pos_of(v)
    }

    pub closed spec fn nseg(&self) -> nat {
        self.segments@.len()
    }

    pub closed spec fn off(&self, s: int) -> int {
        self.segments@[s].offset as int
    }

    pub closed spec fn rej(&self, s: int) -> int {
        self.segments@[s].num_rejected as int
    }

    pub closed spec fn front(&self, s: int) -> int {
        self.off(s) + self.rej(s)
    }

    /// The first position after segment `s`.
    pub closed spec fn end(&self, s: int) -> int {
        if s + 1 < self.nseg() {
            self.off(s + 1)
        } else {
            self.n() as int
        }
    }

    /// The segment that item `v` belongs to.
    pub closed spec fn seg_of(&self, v: int) -> int {
        self.item_segment@[v] as int
    }

    /// Whether item `v` sits in the rejected part of its segment.
    pub closed spec fn is_rejected(&self, v: int) -> bool {
        self.pos_of(v) < self.front(self.seg_of(v))
    }

    /// Item `v` sits within the positions of segment `s`.
    pub closed spec fn placed(&self, v: int, s: int) -> bool {
        0 <= s < self.nseg() && self.off(s) <= self.pos_of(v) < self.end(s)
    }

    /// The segments tile `0..n`, in order, starting at position 0.
    pub closed spec fn structure_wf(&self) -> bool {
        &&& self.items.wf()
        &&& self.item_segment@.len() == self.n()
        &&& self.nseg() >= 1
        &&& self.off(0) == 0
        &&& forall|s: int| 0 <= s < self.nseg() ==> #[trigger] self.front(s) <= self.end(s)
        &&& forall|s: int, t: int|
            0 <= s <= t < self.nseg() ==> #[trigger] self.off(s) <= #[trigger] self.off(t)
    }

    pub closed spec fn wf(&self) -> bool {
        &&& self.structure_wf()
        &&& forall|v: int| 0 <= v < self.n() ==> self.placed(v, #[trigger] self.seg_of(v))
    }

    /// The item at a position within segment `s` belongs to `s`.
    proof fn lemma_seg_of_pos(&self, p: int, s: int)
        requires
            self.wf(),
            0 <= p < self.n(),
            0 <= s < self.nseg(),
            self.off(s) <= p < self.end(s),
        ensures
            self.seg_of(self.item_at(p)) == s,
    {
        let v = self.item_at(p);
        let t = self.seg_of(v);
        assert(self.placed(v, t));
        assert(self.pos_of(v) == p);
        if t < s {
            assert(self.off(t + 1) <= self.off(s));
        } else if t > s {
            assert(self.off(s + 1) <= self.off(t));
        }
    }

    /// A well-formed segmented permutation has at least one segment.
    pub proof fn lemma_has_segment(&self)
        requires
            self.wf(),
        ensures
            self.nseg() >= 1,
    {
    }

    /// The items and the segments each fit in a `usize`.
    proof fn lemma_lens(&self)
        ensures
            self.n() <= usize::MAX,
            self.nseg() <= usize::MAX,
    {
        assert(self.items.items.len() == self.items.items@.len());
        assert(self.segments.len() == self.segments@.len());
    }

    /// Every segment ends within `0..=n`.
    proof fn lemma_bounds(&self, s: int)
        requires
            self.structure_wf(),
            0 <= s < self.nseg(),
        ensures
            0 <= self.off(s) <= self.front(s) <= self.end(s) <= self.n(),
    {
        let last = self.nseg() - 1;
        assert(self.front(last) <= self.end(last));
        if s + 1 < self.nseg() {
            assert(self.off(s + 1) <= self.off(last));
        }
        assert(self.front(s) <= self.end(s));
    }

    /// One segment holding all numbers of `T`, none rejected.
    pub fn new(t_count: Count<T>) -> (r: Self)
        ensures
            r.wf(),
            r.n() == t_count@,
            r.nseg() == 1,
            forall|v: int| 0 <= v < r.n() ==> #[trigger] r.seg_of(v) == 0 && !r.is_rejected(v),
            forall|p: int| 0 <= p < r.n() ==> #[trigger] r.item_at(p) == p,
            r.front(0) == 0,
    {
        let items = Permutation::new(t_count);
        let n = t_count.as_usize();
        let mut segments: Vec<Segment> = Vec::new();
        segments.push(Segment::empty(0));
        let item_segment: Vec<usize> = vec![0; n];
        let r = SegmentedPermutation { items, segments, item_segment: Table::from_vec(item_segment) };
        assert forall|v: int| 0 <= v < r.n() implies r.placed(v, #[trigger] r.seg_of(v)) by {
            assert(r.pos_of(v) < r.n());
        }
        r
    }

    /// Moves the rejected item at `pos` of segment `segment` to the accepted part.
    fn accept_pos(&mut self, segment: usize, pos: usize) -> (r: usize)
        requires
            old(self).structure_wf(),
            segment < old(self).nseg(),
            old(self).off(segment as int) <= pos < old(self).front(segment as int),
        ensures
            r == old(self).front(segment as int) - 1,
            final(self).items.wf(),
            final(self).items.n() == old(self).items.n(),
            final(self).item_segment == old(self).item_segment,
            final(self).segments@ == old(self).segments@.update(
                segment as int,
                Segment {
                    offset: old(self).segments@[segment as int].offset,
                    num_rejected: (old(self).segments@[segment as int].num_rejected - 1) as usize,
                },
            ),
            forall|p: int|
                0 <= p < old(self).n() ==> #[trigger] final(self).item_at(p) == if p == pos {
                    old(self).item_at(r as int)
                } else if p == r {
                    old(self).item_at(pos as int)
                } else {
                    old(self).item_at(p)
                },
            forall|v: int|
                0 <= v < old(self).n() ==> #[trigger] final(self).pos_of(v) == if v
                    == old(self).item_at(pos as int) {
                    r as int
                } else if v == old(self).item_at(r as int) {
                    pos as int
                } else {
                    old(self).pos_of(v)
                },
    {
        proof {
            self.lemma_bounds(segment as int);
        }
        proof {
            self.lemma_lens();
        }
        let seg = self.segments[segment];
        let new_seg = Segment { offset: seg.offset, num_rejected: seg.num_rejected - 1 };
        self.segments.set(segment, new_seg);
        let frontier = new_seg.frontier();
        self.items.swap(pos, frontier);
        frontier
    }

    /// Moves the accepted item at `pos` of segment `segment` to the rejected part.
    fn reject_pos(&mut self, segment: usize, pos: usize) -> (r: usize)
        requires
            old(self).structure_wf(),
            segment < old(self).nseg(),
            old(self).front(segment as int) <= pos < old(self).end(segment as int),
        ensures
            r == old(self).front(segment as int),
            final(self).items.wf(),
            final(self).items.n() == old(self).items.n(),
            final(self).item_segment == old(self).item_segment,
            final(self).segments@ == old(self).segments@.update(
                segment as int,
                Segment {
                    offset: old(self).segments@[segment as int].offset,
                    num_rejected: (old(self).segments@[segment as int].num_rejected + 1) as usize,
                },
            ),
            forall|p: int|
                0 <= p < old(self).n() ==> #[trigger] final(self).item_at(p) == if p == pos {
                    old(self).item_at(r as int)
                } else if p == r {
                    old(self).item_at(pos as int)
                } else {
                    old(self).item_at(p)
                },
            forall|v: int|
                0 <= v < old(self).n() ==> #[trigger] final(self).pos_of(v) == if v
                    == old(self).item_at(pos as int) {
                    r as int
                } else if v == old(self).item_at(r as int) {
                    pos as int
                } else {
                    old(self).pos_of(v)
                },
    {
        proof {
            self.lemma_bounds(segment as int);
        }
        proof {
            self.lemma_lens();
        }
        let seg = self.segments[segment];
        let frontier = seg.frontier();
        self.items.swap(pos, frontier);
        self.segments.set(segment, Segment { offset: seg.offset, num_rejected: seg.num_rejected + 1 });
        frontier
    }

    /// Moves the rejected `item_num` into the accepted part of its segment.
    pub fn accept(&mut self, item_num: Num<T>)
        requires
            old(self).wf(),
            item_num@ < old(self).n(),
            old(self).is_rejected(item_num@ as int),
        ensures
            final(self).wf(),
            final(self).n() == old(self).n(),
            final(self).nseg() == old(self).nseg(),
            forall|w: int| 0 <= w < old(self).n() ==> #[trigger] final(self).seg_of(w) == old(self).seg_of(w),
            forall|w: int|
                0 <= w < old(self).n() ==> #[trigger] final(self).is_rejected(w) == (old(self).is_rejected(w)
                    && w != item_num@),
            forall|t: int|
                0 <= t < old(self).nseg() && t != old(self).seg_of(item_num@ as int) ==> (#[trigger] final(self).off(t)
                    == old(self).off(t) && final(self).rej(t) == old(self).rej(t)),
            final(self).off(old(self).seg_of(item_num@ as int)) == old(self).off(old(self).seg_of(item_num@ as int)),
            final(self).rej(old(self).seg_of(item_num@ as int)) == old(self).rej(old(self).seg_of(item_num@ as int)) - 1,
            forall|p: int|
                0 <= p < old(self).n() && (p < old(self).off(old(self).seg_of(item_num@ as int))
                    || p >= old(self).front(old(self).seg_of(item_num@ as int))) ==> #[trigger] final(self).item_at(p)
                    == old(self).item_at(p),
    {
        let ghost v = item_num@ as int;
        let segment = *self.item_segment.get(item_num);
        let pos = self.items.pos(item_num);
        proof {
            assert(old(self).placed(v, old(self).seg_of(v)));
            assert(old(self).item_at(pos as int) == v);
        }
        let r = self.accept_pos(segment, pos);
        proof {
            let o = *old(self);
            let s = segment as int;
            o.lemma_bounds(s);
            let w0 = o.item_at(r as int);
            o.lemma_seg_of_pos(r as int, s);
            assert forall|t: int| 0 <= t < self.nseg() implies #[trigger] self.front(t) <= self.end(t) by {
                assert(o.front(t) <= o.end(t));
            }
            assert forall|t1: int, t2: int| 0 <= t1 <= t2 < self.nseg() implies #[trigger] self.off(t1)
                <= #[trigger] self.off(t2) by {
                assert(o.off(t1) <= o.off(t2));
            }
            assert forall|w: int| 0 <= w < self.n() implies self.placed(w, #[trigger] self.seg_of(w))
                && self.is_rejected(w) == (o.is_rejected(w) && w != v) by {
                assert(o.placed(w, o.seg_of(w)));
                assert(o.seg_of(w) == self.seg_of(w));
                if w != v && w != w0 {
                    let t = o.seg_of(w);
                    if t == s {
                        assert(o.pos_of(w) != r);
                    }
                }
            }
        }
    }

    /// Moves the accepted `item_num` into the rejected part of its segment.
    pub fn reject(&mut self, item_num: Num<T>)
        requires
            old(self).wf(),
            item_num@ < old(self).n(),
            !old(self).is_rejected(item_num@ as int),
        ensures
            final(self).wf(),
            final(self).n() == old(self).n(),
            final(self).nseg() == old(self).nseg(),
            forall|w: int| 0 <= w < old(self).n() ==> #[trigger] final(self).seg_of(w) == old(self).seg_of(w),
            forall|w: int|
                0 <= w < old(self).n() ==> #[trigger] final(self).is_rejected(w) == (old(self).is_rejected(w)
                    || w == item_num@),
            forall|t: int|
                0 <= t < old(self).nseg() && t != old(self).seg_of(item_num@ as int) ==> (#[trigger] final(self).off(t)
                    == old(self).off(t) && final(self).rej(t) == old(self).rej(t)),
            final(self).off(old(self).seg_of(item_num@ as int)) == old(self).off(old(self).seg_of(item_num@ as int)),
            final(self).rej(old(self).seg_of(item_num@ as int)) == old(self).rej(old(self).seg_of(item_num@ as int)) + 1,
            forall|p: int|
                0 <= p < old(self).n() && p < old(self).front(old(self).seg_of(item_num@ as int))
                    ==> #[trigger] final(self).item_at(p) == old(self).item_at(p),
            forall|p: int|
                0 <= p < old(self).n() && p >= old(self).end(old(self).seg_of(item_num@ as int))
                    ==> #[trigger] final(self).item_at(p) == old(self).item_at(p),
    {
        let ghost v = item_num@ as int;
        let segment = *self.item_segment.get(item_num);
        let pos = self.items.pos(item_num);
        proof {
            assert(old(self).placed(v, old(self).seg_of(v)));
            assert(old(self).item_at(pos as int) == v);
        }
        proof {
            self.lemma_lens();
        }
        let r = self.reject_pos(segment, pos);
        proof {
            let o = *old(self);
            let s = segment as int;
            o.lemma_bounds(s);
            let w0 = o.item_at(r as int);
            o.lemma_seg_of_pos(r as int, s);
            assert forall|t: int| 0 <= t < self.nseg() implies #[trigger] self.front(t) <= self.end(t) by {
                assert(o.front(t) <= o.end(t));
            }
            assert forall|t1: int, t2: int| 0 <= t1 <= t2 < self.nseg() implies #[trigger] self.off(t1)
                <= #[trigger] self.off(t2) by {
                assert(o.off(t1) <= o.off(t2));
            }
            assert forall|w: int| 0 <= w < self.n() implies self.placed(w, #[trigger] self.seg_of(w))
                && self.is_rejected(w) == (o.is_rejected(w) || w == v) by {
                assert(o.placed(w, o.seg_of(w)));
                assert(o.seg_of(w) == self.seg_of(w));
                if w != v && w != w0 {
                    let t = o.seg_of(w);
                    if t == s {
                        assert(o.pos_of(w) != r);
                    }
                }
            }
        }
    }

    pub closed spec fn segments_spec(&self) -> Seq<Segment> {
        self.segments@
    }

    pub fn segments(&self) -> (r: &[Segment])
        ensures
            r@ == self.segments_spec(),
    {
        self.segments.as_slice()
    }

    pub fn pos(&self, item_num: Num<T>) -> (r: usize)
        requires
            self.wf(),
            item_num@ < self.n(),
        ensures
            r == self.pos_of(item_num@ as int),
    {
        self.items.pos(item_num)
    }

    pub fn len(&self) -> (r: usize)
        ensures
            r == self.n(),
    {
        self.items.len()
    }

    /// The item at position `idx`.
    pub fn get(&self, idx: usize) -> (r: Num<T>)
        requires
            idx < self.n(),
        ensures
            r@ == self.item_at(idx as int),
    {
        self.items.get(idx)
    }

    /// The items at positions `start..end`.
    pub fn slice(&self, start: usize, end: usize) -> (r: &[Num<T>])
        requires
            start <= end <= self.n(),
        ensures
            r@.len() == end - start,
            forall|i: int| 0 <= i < end - start ==> (#[trigger] r@[i])@ == self.item_at(start + i),
    {
        self.items.slice(start, end)
    }

    /// Swaps the items at positions `a` and `b`, which lie in the same part (rejected or
    /// accepted) of the same segment; no item changes segment or part.
    fn swap_within(&mut self, a: usize, b: usize, s: Ghost<int>)
        requires
            old(self).wf(),
            0 <= s@ < old(self).nseg(),
            old(self).off(s@) <= a < old(self).end(s@),
            old(self).off(s@) <= b < old(self).end(s@),
            (a < old(self).front(s@)) == (b < old(self).front(s@)),
        ensures
            final(self).wf(),
            final(self).n() == old(self).n(),
            final(self).nseg() == old(self).nseg(),
            final(self).segments == old(self).segments,
            final(self).item_segment == old(self).item_segment,
            forall|w: int| 0 <= w < old(self).n() ==> #[trigger] final(self).is_rejected(w) == old(self).is_rejected(w),
            forall|p: int|
                0 <= p < old(self).n() ==> #[trigger] final(self).item_at(p) == if p == a {
                    old(self).item_at(b as int)
                } else if p == b {
                    old(self).item_at(a as int)
                } else {
                    old(self).item_at(p)
                },
    {
        let ghost o = *self;
        proof {
            o.lemma_bounds(s@);
            o.lemma_seg_of_pos(a as int, s@);
            o.lemma_seg_of_pos(b as int, s@);
        }
        self.items.swap(a, b);
        proof {
            assert forall|w: int| 0 <= w < self.n() implies self.placed(w, #[trigger] self.seg_of(w)) && self.is_rejected(w)
                == o.is_rejected(w) by {
                assert(o.placed(w, o.seg_of(w)));
                assert(self.seg_of(w) == o.seg_of(w));
                if w == o.item_at(a as int) || w == o.item_at(b as int) {
                    assert(o.seg_of(w) == s@);
                }
            }
            assert forall|s2: int| 0 <= s2 < self.nseg() implies #[trigger] self.front(s2) <= self.end(s2) by {
                assert(o.front(s2) <= o.end(s2));
            }
            assert forall|s2: int, t: int| 0 <= s2 <= t < self.nseg() implies #[trigger] self.off(s2) <= #[trigger] self.off(
                t,
            ) by {
                assert(o.off(s2) <= o.off(t));
            }
        }
    }

    /// Moves the first position of segment `segment` into the segment before it.
    fn extend_accepted(&mut self, segment: usize)
        requires
            segment + 1 < old(self).nseg(),
            old(self).rej(segment + 1) >= 1,
            old(self).front(segment + 1) <= usize::MAX,
        ensures
            final(self).items == old(self).items,
            final(self).item_segment == old(self).item_segment,
            final(self).segments@ == old(self).segments@.update(
                segment + 1,
                Segment {
                    offset: (old(self).segments@[segment + 1].offset + 1) as usize,
                    num_rejected: (old(self).segments@[segment + 1].num_rejected - 1) as usize,
                },
            ),
    {
        proof {
            self.lemma_lens();
        }
        let seg = self.segments[segment + 1];
        self.segments.set(
            segment + 1,
            Segment { offset: seg.offset + 1, num_rejected: seg.num_rejected - 1 },
        );
    }

    /// Moves the last position before segment `segment` into its rejected part.
    fn extend_rejected(&mut self, segment: usize)
        requires
            segment < old(self).nseg(),
            old(self).off(segment as int) >= 1,
            old(self).front(segment as int) <= usize::MAX,
        ensures
            final(self).items == old(self).items,
            final(self).item_segment == old(self).item_segment,
            final(self).segments@ == old(self).segments@.update(
                segment as int,
                Segment {
                    offset: (old(self).segments@[segment as int].offset - 1) as usize,
                    num_rejected: (old(self).segments@[segment as int].num_rejected + 1) as usize,
                },
            ),
    {
        let seg = self.segments[segment];
        self.segments.set(segment, Segment { offset: seg.offset - 1, num_rejected: seg.num_rejected + 1 });
    }

    /// Moves `item_num` to the next segment, keeping it rejected or accepted as it was.
    pub fn promote(&mut self, item_num: Num<T>)
        requires
            old(self).wf(),
            item_num@ < old(self).n(),
            old(self).seg_of(item_num@ as int) + 1 < old(self).nseg(),
        ensures
            final(self).wf(),
            final(self).n() == old(self).n(),
            final(self).nseg() == old(self).nseg(),
            forall|w: int|
                0 <= w < old(self).n() ==> #[trigger] final(self).seg_of(w) == old(self).seg_of(w) + if w
                    == item_num@ {
                    1int
                } else {
                    0int
                },
            forall|w: int|
                0 <= w < old(self).n() ==> #[trigger] final(self).is_rejected(w) == old(self).is_rejected(w),
    {
        let ghost v = item_num@ as int;
        let segment = *self.item_segment.get(item_num);
        let pos = self.items.pos(item_num);
        proof {
            assert(old(self).placed(v, old(self).seg_of(v)));
            assert(old(self).item_at(pos as int) == v);
        }
        proof {
            self.lemma_lens();
        }
        self.promote_pos(segment, pos);
        let ghost mid = *self;
        self.item_segment.set(item_num, segment + 1);
        proof {
            lemma_same_layout(mid, *self);
        }
        proof {
            let o = *old(self);
            assert forall|w: int| 0 <= w < self.n() implies self.placed(w, #[trigger] self.seg_of(w))
                && self.is_rejected(w) == o.is_rejected(w) by {
                if w != v {
                    assert(o.seg_of(w) == self.seg_of(w));
                }
            }
        }
    }

    /// Moves the item at `pos` from segment `segment` to the segment before it,
    /// keeping it rejected or accepted as it was.
    #[verifier::spinoff_prover]
    #[verifier::rlimit(60)]
    fn demote_pos(&mut self, segment: usize, pos: usize)
        requires
            old(self).wf(),
            1 <= segment < old(self).nseg(),
            old(self).off(segment as int) <= pos < old(self).end(segment as int),
        ensures
            final(self).structure_wf(),
            final(self).n() == old(self).n(),
            final(self).nseg() == old(self).nseg(),
            final(self).item_segment == old(self).item_segment,
            final(self).placed(old(self).item_at(pos as int), segment - 1),
            final(self).rejected_in(old(self).item_at(pos as int), segment - 1) == old(self).rejected_in(old(self).item_at(pos as int), segment as int),
            forall|w: int|
                0 <= w < old(self).n() && w != old(self).item_at(pos as int) ==> final(self).placed(
                    w,
                    #[trigger] old(self).seg_of(w),
                ) && final(self).rejected_in(w, old(self).seg_of(w)) == old(self).rejected_in(
                    w,
                    old(self).seg_of(w),
                ),
            forall|t: int|
                segment < t < old(self).nseg() ==> #[trigger] final(self).off(t) == old(self).off(t)
                    && final(self).rej(t) == old(self).rej(t),
            forall|p: int|
                old(self).end(segment as int) <= p < old(self).n() ==> #[trigger] final(self).item_at(p)
                    == old(self).item_at(p),
    {
        let ghost o = *self;
        let ghost s = segment as int;
        let ghost v = o.item_at(pos as int);
        proof {
            o.lemma_bounds(s);
            o.lemma_bounds(s - 1);
            o.lemma_seg_of_pos(pos as int, s);
            assert(o.off(s - 1) <= o.off(s));
        }
        proof {
            self.lemma_lens();
        }
        let demoting_pos = self.segments[segment].offset;
        let seg = self.segments[segment];
        if seg.accepts(pos) {
            let rejected_pos = self.reject_pos(segment, pos);
            let ghost o1 = *self;
            self.items.swap(rejected_pos, demoting_pos);
            let ghost o2 = *self;
            self.extend_accepted(segment - 1);
            proof {
                let f = rejected_pos as int;
                let w1 = o.item_at(f);
                let w2 = o.item_at(demoting_pos as int);
                o.lemma_seg_of_pos(f, s);
                o.lemma_seg_of_pos(demoting_pos as int, s);
                assert(o1.pos_of(v) == f);
                assert(o1.item_at(f) == v);
                assert(self.pos_of(v) == demoting_pos);
                if w1 != v {
                    assert(o1.pos_of(w1) == pos);
                }
                if f != demoting_pos as int {
                    assert(o1.item_at(demoting_pos as int) == w2);
                    assert(self.pos_of(w2) == f);
                }
                assert forall|t: int| 0 <= t < self.nseg() implies #[trigger] self.front(t) <= self.end(
                    t,
                ) by {
                    assert(o.front(t) <= o.end(t));
                }
                assert forall|t1: int, t2: int| 0 <= t1 <= t2 < self.nseg() implies #[trigger] self.off(
                    t1,
                ) <= #[trigger] self.off(t2) by {
                    assert(o.off(t1) <= o.off(t2));
                    if t1 == s && t1 < t2 {
                        assert(o.off(s + 1) <= o.off(t2));
                    }
                }
                assert forall|w: int|
                    0 <= w < o.n() && w != v implies self.placed(w, #[trigger] o.seg_of(w))
                    && self.rejected_in(w, o.seg_of(w)) == o.rejected_in(w, o.seg_of(w)) by {
                    assert(o.placed(w, o.seg_of(w)));
                    if w == w1 {
                        assert(self.pos_of(w) == pos);
                    } else if w == w2 {
                        assert(self.pos_of(w) == f);
                    } else {
                        assert(o.pos_of(w) != pos);
                        assert(o.pos_of(w) != f);
                        assert(o.pos_of(w) != demoting_pos);
                        assert(o1.pos_of(w) == o.pos_of(w));
                        assert(self.pos_of(w) == o.pos_of(w));
                    }
                }
                assert forall|p: int| o.end(s) <= p < o.n() implies #[trigger] self.item_at(p) == o.item_at(
                    p,
                ) by {
                    assert(o1.item_at(p) == o.item_at(p));
                }
            }
        } else {
            self.items.swap(pos, demoting_pos);
            let ghost o1 = *self;
            self.extend_accepted(segment - 1);
            let ghost o2 = *self;
            proof {
                assert forall|t: int| 0 <= t < self.nseg() implies #[trigger] self.front(t) <= self.end(
                    t,
                ) by {
                    assert(o.front(t) <= o.end(t));
                }
                assert forall|t1: int, t2: int| 0 <= t1 <= t2 < self.nseg() implies #[trigger] self.off(
                    t1,
                ) <= #[trigger] self.off(t2) by {
                    assert(o.off(t1) <= o.off(t2));
                    if t1 == s && t1 < t2 {
                        assert(o.off(s + 1) <= o.off(t2));
                    }
                }
            }
            let f3 = self.reject_pos(segment - 1, demoting_pos);
            proof {
                let w2 = o.item_at(demoting_pos as int);
                let w3 = o.item_at(f3 as int);
                o.lemma_seg_of_pos(demoting_pos as int, s);
                assert(o.front(s - 1) <= o.end(s - 1));
                if f3 < demoting_pos {
                    o.lemma_seg_of_pos(f3 as int, s - 1);
                }
                assert(o1.pos_of(v) == demoting_pos);
                assert(o2.item_at(demoting_pos as int) == v);
                assert(self.pos_of(v) == f3);
                if w2 != v {
                    assert(o1.pos_of(w2) == pos);
                }
                if f3 != demoting_pos {
                    assert(o2.item_at(f3 as int) == w3);
                    assert(self.pos_of(w3) == demoting_pos);
                }
                assert forall|t: int| 0 <= t < self.nseg() implies #[trigger] self.front(t) <= self.end(
                    t,
                ) by {
                    assert(o.front(t) <= o.end(t));
                }
                assert forall|t1: int, t2: int| 0 <= t1 <= t2 < self.nseg() implies #[trigger] self.off(
                    t1,
                ) <= #[trigger] self.off(t2) by {
                    assert(o.off(t1) <= o.off(t2));
                    if t1 == s && t1 < t2 {
                        assert(o.off(s + 1) <= o.off(t2));
                    }
                }
                assert forall|w: int|
                    0 <= w < o.n() && w != v implies self.placed(w, #[trigger] o.seg_of(w))
                    && self.rejected_in(w, o.seg_of(w)) == o.rejected_in(w, o.seg_of(w)) by {
                    assert(o.placed(w, o.seg_of(w)));
                    if w == w2 {
                        assert(self.pos_of(w) == pos);
                    } else if w == w3 {
                        assert(self.pos_of(w) == demoting_pos);
                    } else {
                        assert(o.pos_of(w) != pos);
                        assert(o.pos_of(w) != f3);
                        assert(o.pos_of(w) != demoting_pos);
                        assert(o1.pos_of(w) == o.pos_of(w));
                        assert(self.pos_of(w) == o.pos_of(w));
                    }
                }
                assert forall|p: int| o.end(s) <= p < o.n() implies #[trigger] self.item_at(p) == o.item_at(
                    p,
                ) by {
                    assert(o1.item_at(p) == o.item_at(p));
                }
            }
        }
    }

    /// Moves `item_num` to the previous segment, keeping it rejected or accepted as it was.
    pub fn demote(&mut self, item_num: Num<T>)
        requires
            old(self).wf(),
            item_num@ < old(self).n(),
            old(self).seg_of(item_num@ as int) >= 1,
        ensures
            final(self).wf(),
            final(self).n() == old(self).n(),
            final(self).nseg() == old(self).nseg(),
            forall|w: int|
                0 <= w < old(self).n() ==> #[trigger] final(self).seg_of(w) == old(self).seg_of(w) - if w
                    == item_num@ {
                    1int
                } else {
                    0int
                },
            forall|w: int|
                0 <= w < old(self).n() ==> #[trigger] final(self).is_rejected(w) == old(self).is_rejected(w),
            forall|t: int|
                old(self).seg_of(item_num@ as int) < t < old(self).nseg() ==> #[trigger] final(self).off(t)
                    == old(self).off(t) && final(self).rej(t) == old(self).rej(t),
            forall|p: int|
                old(self).end(old(self).seg_of(item_num@ as int)) <= p < old(self).n()
                    ==> #[trigger] final(self).item_at(p) == old(self).item_at(p),
    {
        let ghost v = item_num@ as int;
        let segment = *self.item_segment.get(item_num);
        let pos = self.items.pos(item_num);
        proof {
            assert(old(self).placed(v, old(self).seg_of(v)));
            assert(old(self).item_at(pos as int) == v);
        }
        let ghost pre = *self;
        self.demote_pos(segment, pos);
        let ghost mid = *self;
        self.item_segment.set(item_num, segment - 1);
        proof {
            lemma_same_layout(mid, *self);
            assert(segment as int == old(self).seg_of(v));
            assert forall|t: int| old(self).seg_of(v) < t < old(self).nseg() implies #[trigger] self.off(t)
                == old(self).off(t) && self.rej(t) == old(self).rej(t) by {
                assert(segment < t < pre.nseg());
                assert(pre == *old(self));
                assert(mid.off(t) == pre.off(t));
                assert(mid.rej(t) == pre.rej(t));
            }
        }
        proof {
            let o = *old(self);
            assert forall|w: int| 0 <= w < self.n() implies self.placed(w, #[trigger] self.seg_of(w))
                && self.is_rejected(w) == o.is_rejected(w) by {
                if w != v {
                    assert(o.seg_of(w) == self.seg_of(w));
                }
            }
        }
    }

    /// Adds an empty segment after the last one.
    pub fn push_segment(&mut self)
        requires
            old(self).wf(),
        ensures
            final(self).wf(),
            final(self).n() == old(self).n(),
            final(self).nseg() == old(self).nseg() + 1,
            forall|w: int| 0 <= w < old(self).n() ==> #[trigger] final(self).seg_of(w) == old(self).seg_of(w),
            forall|w: int|
                0 <= w < old(self).n() ==> #[trigger] final(self).is_rejected(w) == old(self).is_rejected(w),
            forall|t: int|
                0 <= t < old(self).nseg() ==> #[trigger] final(self).off(t) == old(self).off(t)
                    && final(self).rej(t) == old(self).rej(t),
            final(self).off(old(self).nseg() as int) == old(self).n(),
            final(self).rej(old(self).nseg() as int) == 0,
            forall|p: int| 0 <= p < old(self).n() ==> #[trigger] final(self).item_at(p) == old(self).item_at(p),
            segment_pushed(*old(self), *final(self)),
    {
        let n = self.items.len();
        self.segments.push(Segment::empty(n));
        proof {
            let o = *old(self);
            let last = o.nseg() - 1;
            o.lemma_bounds(last);
            assert forall|t: int| 0 <= t < self.nseg() implies #[trigger] self.front(t) <= self.end(t) by {
                if t < o.nseg() {
                    assert(o.front(t) <= o.end(t));
                }
            }
            assert forall|t1: int, t2: int| 0 <= t1 <= t2 < self.nseg() implies #[trigger] self.off(t1)
                <= #[trigger] self.off(t2) by {
                if t2 < o.nseg() {
                    assert(o.off(t1) <= o.off(t2));
                } else if t1 < o.nseg() {
                    o.lemma_bounds(t1);
                }
            }
            assert forall|w: int| 0 <= w < self.n() implies self.placed(w, #[trigger] self.seg_of(w))
                && self.is_rejected(w) == o.is_rejected(w) by {
                assert(o.placed(w, o.seg_of(w)));
            }
        }
    }

    /// Merges the last segment into the one before it, keeping rejected items rejected
    /// and accepted items accepted.
    pub fn pop_segment(&mut self)
        requires
            old(self).wf(),
            old(self).nseg() >= 2,
        ensures
            final(self).wf(),
            final(self).n() == old(self).n(),
            final(self).nseg() == old(self).nseg() - 1,
            forall|w: int|
                0 <= w < old(self).n() ==> #[trigger] final(self).seg_of(w) == if old(self).seg_of(w)
                    == old(self).nseg() - 1 {
                    old(self).nseg() - 2
                } else {
                    old(self).seg_of(w)
                },
            forall|w: int|
                0 <= w < old(self).n() ==> #[trigger] final(self).is_rejected(w) == old(self).is_rejected(w),
            forall|t: int|
                0 <= t < old(self).nseg() - 2 ==> #[trigger] final(self).off(t) == old(self).off(t)
                    && final(self).rej(t) == old(self).rej(t),
            final(self).off(old(self).nseg() - 2) == old(self).off(old(self).nseg() - 2),
            final(self).rej(old(self).nseg() - 2) == old(self).rej(old(self).nseg() - 2) + old(self).rej(
                old(self).nseg() - 1,
            ),
            forall|p: int|
                old(self).front(old(self).nseg() - 1) <= p < old(self).n() ==> #[trigger] final(self).item_at(p)
                    == old(self).item_at(p),
            old(self).rej(old(self).nseg() - 1) == 0 ==> forall|p: int|
                0 <= p < old(self).n() ==> #[trigger] final(self).item_at(p) == old(self).item_at(p),
            segment_popped(*old(self), *final(self)),
    {
        let ghost o = *self;
        let ghost last = o.nseg() - 1;
        proof {
            o.lemma_bounds(last);
            o.lemma_bounds(last - 1);
        }
        let n = self.items.len();
        let popped_segment = self.segments.pop().unwrap();
        let num_segments = self.segments.len();
        // put all items in the previous segment
        let mut i = popped_segment.offset;
        while i < n
            invariant
                o.wf(),
                o.nseg() >= 2,
                n == o.n(),
                popped_segment == o.segments@[last],
                num_segments == last,
                1 <= num_segments,
                popped_segment.offset <= i <= n,
                self.items == o.items,
                self.segments@ == o.segments@.drop_last(),
                self.item_segment@.len() == n,
                forall|w: int|
                    0 <= w < n ==> #[trigger] self.seg_of(w) == if popped_segment.offset <= o.pos_of(w)
                        < i {
                        last - 1
                    } else {
                        o.seg_of(w)
                    },
            decreases n - i,
        {
            let item = self.items.get(i);
            proof {
                assert(o.items.pos_of(o.items.item(i as int)) == i);
            }
            let ghost before = *self;
            self.item_segment.set(item, num_segments - 1);
            proof {
                assert forall|w: int| 0 <= w < n implies #[trigger] self.seg_of(w) == if popped_segment.offset
                    <= o.pos_of(w) < i + 1 {
                    last - 1
                } else {
                    o.seg_of(w)
                } by {
                    if w != item@ {
                        assert(o.items.item(o.items.pos_of(w)) == w);
                        assert(before.seg_of(w) == self.seg_of(w));
                    }
                }
            }
            i = i + 1;
        }
        let ghost o1 = *self;
        let last_segment = self.segments[num_segments - 1];
        proof {
            assert(o.front(last - 1) <= o.end(last - 1));
        }
        let f2 = last_segment.frontier();
        // move the rejected items to the rejected zone
        let mut i: usize = 0;
        while i < popped_segment.num_rejected
            invariant
                o.wf(),
                o.nseg() >= 2,
                n == o.n(),
                popped_segment == o.segments@[last],
                f2 == o.front(last - 1),
                f2 <= popped_segment.offset,
                popped_segment.offset + popped_segment.num_rejected <= n,
                i <= popped_segment.num_rejected,
                self.items.wf(),
                self.items.n() == n,
                self.segments == o1.segments,
                self.item_segment == o1.item_segment,
                forall|j: int|
                    0 <= j < i ==> #[trigger] self.items.item(f2 + j) == o.item_at(
                        popped_segment.offset + j,
                    ),
                forall|p: int|
                    0 <= p < n && !(f2 <= p < f2 + i) && !(popped_segment.offset <= p
                        < popped_segment.offset + i) ==> #[trigger] self.items.item(p) == o.item_at(p),
            decreases popped_segment.num_rejected - i,
        {
            let pos = popped_segment.offset + i;
            let destination = f2 + i;
            let ghost before = self.items;
            self.items.swap(pos, destination);
            proof {
                assert(before.item(pos as int) == o.item_at(pos as int));
                assert forall|j: int| 0 <= j < i + 1 implies #[trigger] self.items.item(f2 + j) == o.item_at(
                    popped_segment.offset + j,
                ) by {
                    if j < i {
                        assert(before.item(f2 + j) == o.item_at(popped_segment.offset + j));
                    }
                }
            }
            i = i + 1;
        }
        self.segments.set(
            num_segments - 1,
            Segment {
                offset: last_segment.offset,
                num_rejected: last_segment.num_rejected + popped_segment.num_rejected,
            },
        );
        proof {
            self.lemma_pop_result(o, o1);
            if o.rej(last) == 0 {
                assert forall|p: int| 0 <= p < o.n() implies #[trigger] self.item_at(p) == o.item_at(p) by {
                    assert(self.items.item(p) == o.item_at(p));
                }
            }
        }
    }

    /// The layout after merging the last segment of `o` into the one before it;
    /// `o1` is `o` with its items relabelled and its last segment dropped.
    proof fn lemma_pop_result(&self, o: Self, o1: Self)
        requires
            o.wf(),
            o.nseg() >= 2,
            self.items.wf(),
            self.items.n() == o.n(),
            self.item_segment == o1.item_segment,
            o1.segments@ == o.segments@.drop_last(),
            o1.item_segment@.len() == o.n(),
            self.segments@ == o1.segments@.update(
                o.nseg() - 2,
                Segment {
                    offset: o.segments@[o.nseg() - 2].offset,
                    num_rejected: (o.segments@[o.nseg() - 2].num_rejected + o.segments@[o.nseg()
                        - 1].num_rejected) as usize,
                },
            ),
            o.front(o.nseg() - 2) + o.rej(o.nseg() - 1) <= usize::MAX,
            forall|w: int|
                0 <= w < o.n() ==> #[trigger] o1.seg_of(w) == if o.off(o.nseg() - 1) <= o.pos_of(w) < o.n() {
                    o.nseg() - 2
                } else {
                    o.seg_of(w)
                },
            forall|j: int|
                0 <= j < o.rej(o.nseg() - 1) ==> #[trigger] self.items.item(o.front(o.nseg() - 2) + j)
                    == o.item_at(o.off(o.nseg() - 1) + j),
            forall|p: int|
                0 <= p < o.n() && !(o.front(o.nseg() - 2) <= p < o.front(o.nseg() - 2) + o.rej(
                    o.nseg() - 1,
                )) && !(o.off(o.nseg() - 1) <= p < o.front(o.nseg() - 1)) ==> #[trigger] self.items.item(p)
                    == o.item_at(p),
        ensures
            self.wf(),
            self.n() == o.n(),
            self.nseg() == o.nseg() - 1,
            forall|w: int|
                0 <= w < o.n() ==> #[trigger] self.seg_of(w) == if o.seg_of(w) == o.nseg() - 1 {
                    o.nseg() - 2
                } else {
                    o.seg_of(w)
                },
            forall|w: int| 0 <= w < o.n() ==> #[trigger] self.is_rejected(w) == o.is_rejected(w),
            forall|t: int|
                0 <= t < o.nseg() - 2 ==> #[trigger] self.off(t) == o.off(t) && self.rej(t) == o.rej(t),
            self.off(o.nseg() - 2) == o.off(o.nseg() - 2),
            self.rej(o.nseg() - 2) == o.rej(o.nseg() - 2) + o.rej(o.nseg() - 1),
            forall|p: int| o.front(o.nseg() - 1) <= p < o.n() ==> #[trigger] self.item_at(p) == o.item_at(p),
    {
        let last = o.nseg() - 1;
        let prev = last - 1;
        let o1s = o.off(last);
        let r1 = o.rej(last);
        let f2 = o.front(prev);
        o.lemma_bounds(last);
        o.lemma_bounds(prev);
        assert(f2 <= o1s);
        assert forall|t: int| 0 <= t < self.nseg() implies #[trigger] self.front(t) <= self.end(t) by {
            assert(o.front(t) <= o.end(t));
        }
        assert forall|t1: int, t2: int| 0 <= t1 <= t2 < self.nseg() implies #[trigger] self.off(t1)
            <= #[trigger] self.off(t2) by {
            assert(o.off(t1) <= o.off(t2));
        }
        // where every item went
        assert forall|w: int| #![trigger self.pos_of(w)] 0 <= w < o.n() implies {
            let q = o.pos_of(w);
            let p = self.pos_of(w);
            &&& (q < f2 || q >= o1s + r1) ==> p == q
            &&& (o1s <= q < o1s + r1) ==> p == f2 + (q - o1s)
            &&& (f2 <= q < o1s) ==> f2 + r1 <= p < o1s + r1
        } by {
            let q = o.pos_of(w);
            let p = self.pos_of(w);
            assert(0 <= q < o.n());
            assert(o.item_at(q) == w);
            assert(0 <= p < o.n() && self.items.item(p) == w);
            if q < f2 || q >= o1s + r1 {
                assert(self.items.item(q) == o.item_at(q));
                assert(self.items.pos_of(self.items.item(q)) == q);
            } else if o1s <= q < o1s + r1 {
                assert(self.items.item(f2 + (q - o1s)) == o.item_at(o1s + (q - o1s)));
                assert(self.items.pos_of(self.items.item(f2 + (q - o1s))) == f2 + (q - o1s));
            } else {
                if f2 <= p < f2 + r1 {
                    assert(self.items.item(f2 + (p - f2)) == o.item_at(o1s + (p - f2)));
                    assert(o.pos_of(o.item_at(o1s + (p - f2))) == o1s + (p - f2));
                } else if p < f2 || p >= o1s + r1 {
                    assert(self.items.item(p) == o.item_at(p));
                    assert(o.pos_of(o.item_at(p)) == p);
                }
            }
        }
        assert forall|w: int| 0 <= w < o.n() implies self.placed(w, #[trigger] self.seg_of(w))
            && self.seg_of(w) == (if o.seg_of(w) == last {
            prev
        } else {
            o.seg_of(w)
        }) && self.is_rejected(w) == o.is_rejected(w) by {
            let t = o.seg_of(w);
            assert(o.placed(w, t));
            assert(o1.seg_of(w) == self.seg_of(w));
            if t < prev {
                assert(o.off(t + 1) <= o.off(prev));
            }
        }
        assert forall|p: int| o.front(last) <= p < o.n() implies #[trigger] self.item_at(p) == o.item_at(p) by {
            assert(self.items.item(p) == o.item_at(p));
        }
    }

    /// Whether item `w` sits in the rejected part of segment `t`.
    pub closed spec fn rejected_in(&self, w: int, t: int) -> bool {
        self.pos_of(w) < self.front(t)
    }

    /// Moves the item at `pos` from segment `segment` to the next segment,
    /// keeping it rejected or accepted as it was.
    #[verifier::spinoff_prover]
    #[verifier::rlimit(60)]
    fn promote_pos(&mut self, segment: usize, pos: usize)
        requires
            old(self).wf(),
            segment + 1 < old(self).nseg(),
            old(self).off(segment as int) <= pos < old(self).end(segment as int),
        ensures
            final(self).structure_wf(),
            final(self).n() == old(self).n(),
            final(self).nseg() == old(self).nseg(),
            final(self).item_segment == old(self).item_segment,
            final(self).placed(old(self).item_at(pos as int), segment + 1),
            final(self).rejected_in(old(self).item_at(pos as int), segment + 1) == old(self).rejected_in(old(self).item_at(pos as int), segment as int),
            forall|w: int|
                0 <= w < old(self).n() && w != old(self).item_at(pos as int) ==> final(self).placed(
                    w,
                    #[trigger] old(self).seg_of(w),
                ) && final(self).rejected_in(w, old(self).seg_of(w)) == old(self).rejected_in(
                    w,
                    old(self).seg_of(w),
                ),
    {
        let ghost o = *self;
        let ghost s = segment as int;
        let ghost v = o.item_at(pos as int);
        proof {
            o.lemma_bounds(s);
            o.lemma_bounds(s + 1);
            o.lemma_seg_of_pos(pos as int, s);
        }
        proof {
            self.lemma_lens();
        }
        let promoting_pos = self.segments[segment + 1].offset - 1;
        let seg = self.segments[segment];
        if seg.accepts(pos) {
            self.items.swap(pos, promoting_pos);
            let ghost o1 = *self;
            self.extend_rejected(segment + 1);
            let ghost o2 = *self;
            proof {
                assert forall|t: int| 0 <= t < self.nseg() implies #[trigger] self.front(t) <= self.end(
                    t,
                ) by {
                    assert(o.front(t) <= o.end(t));
                }
                assert forall|t1: int, t2: int| 0 <= t1 <= t2 < self.nseg() implies #[trigger] self.off(
                    t1,
                ) <= #[trigger] self.off(t2) by {
                    assert(o.off(t1) <= o.off(t2));
                    if t2 == s + 1 && t1 < t2 {
                        assert(o.off(t1) <= o.off(s));
                    }
                }
            }
            let r = self.accept_pos(segment + 1, promoting_pos);
            proof {
                let u = o.item_at(promoting_pos as int);
                o.lemma_seg_of_pos(promoting_pos as int, s);
                let y = o.item_at(r as int);
                assert(self.front(s + 1) == r);
                assert forall|t: int| 0 <= t < self.nseg() implies #[trigger] self.front(t) <= self.end(
                    t,
                ) by {
                    assert(o.front(t) <= o.end(t));
                }
                assert forall|t1: int, t2: int| 0 <= t1 <= t2 < self.nseg() implies #[trigger] self.off(
                    t1,
                ) <= #[trigger] self.off(t2) by {
                    assert(o.off(t1) <= o.off(t2));
                    if t2 == s + 1 && t1 < t2 {
                        assert(o.off(t1) <= o.off(s));
                    }
                }
                assert forall|w: int|
                    0 <= w < o.n() && w != v implies self.placed(w, #[trigger] o.seg_of(w))
                    && self.rejected_in(w, o.seg_of(w)) == o.rejected_in(w, o.seg_of(w)) by {
                    assert(o.placed(w, o.seg_of(w)));
                    let t = o.seg_of(w);
                    if w != u && w != y {
                        if t == s + 1 {
                            assert(o.pos_of(w) != r);
                        }
                        if t == s {
                            assert(o.pos_of(w) != promoting_pos);
                        }
                    }
                    if w == y && w != u {
                        if o.rej(s + 1) >= 1 {
                            o.lemma_seg_of_pos(r as int, s + 1);
                        }
                    }
                }
            }
        } else {
            let accepted_pos = self.accept_pos(segment, pos);
            let ghost o1 = *self;
            self.items.swap(accepted_pos, promoting_pos);
            let ghost o2 = *self;
            self.extend_rejected(segment + 1);
            proof {
                let z = o.item_at(accepted_pos as int);
                let u = o.item_at(promoting_pos as int);
                o.lemma_seg_of_pos(accepted_pos as int, s);
                o.lemma_seg_of_pos(promoting_pos as int, s);
                assert(o1.pos_of(v) == accepted_pos);
                assert(o1.item_at(accepted_pos as int) == v);
                assert(o2.pos_of(v) == promoting_pos);
                assert(self.pos_of(v) == promoting_pos);
                assert(self.off(s + 1) == promoting_pos);
                if promoting_pos != accepted_pos {
                    assert(o1.item_at(promoting_pos as int) == u);
                    assert(self.pos_of(u) == accepted_pos);
                }
                if z != v {
                    assert(o1.pos_of(z) == pos);
                }
                assert forall|t: int| 0 <= t < self.nseg() implies #[trigger] self.front(t) <= self.end(
                    t,
                ) by {
                    assert(o.front(t) <= o.end(t));
                }
                assert forall|t1: int, t2: int| 0 <= t1 <= t2 < self.nseg() implies #[trigger] self.off(
                    t1,
                ) <= #[trigger] self.off(t2) by {
                    assert(o.off(t1) <= o.off(t2));
                    if t2 == s + 1 && t1 < t2 {
                        assert(o.off(t1) <= o.off(s));
                    }
                }
                assert forall|w: int|
                    0 <= w < o.n() && w != v implies self.placed(w, #[trigger] o.seg_of(w))
                    && self.rejected_in(w, o.seg_of(w)) == o.rejected_in(w, o.seg_of(w)) by {
                    assert(o.placed(w, o.seg_of(w)));
                    let t = o.seg_of(w);
                    if w == u && u != z {
                        assert(self.pos_of(w) == accepted_pos);
                    } else if w == z {
                        assert(self.pos_of(w) == pos);
                    } else {
                        assert(o.pos_of(w) != pos);
                        assert(o.pos_of(w) != accepted_pos);
                        assert(o.pos_of(w) != promoting_pos);
                        assert(o1.pos_of(w) == o.pos_of(w));
                        assert(self.pos_of(w) == o.pos_of(w));
                    }
                }
            }
        }
    }
}

/// Two segmented permutations with the same items and segments have the same layout.
proof fn lemma_same_layout<T>(a: SegmentedPermutation<T>, b: SegmentedPermutation<T>)
    requires
        a.items == b.items,
        a.segments@ == b.segments@,
        a.item_segment@.len() == b.item_segment@.len(),
    ensures
        a.structure_wf() ==> b.structure_wf(),
        b.n() == a.n(),
        b.nseg() == a.nseg(),
        forall|t: int| #[trigger] b.off(t) == a.off(t) && b.rej(t) == a.rej(t),
        forall|t: int| #[trigger] b.end(t) == a.end(t),
        forall|p: int| #[trigger] b.item_at(p) == a.item_at(p),
        forall|v: int| #[trigger] b.pos_of(v) == a.pos_of(v),
{
    if a.structure_wf() {
        assert forall|s: int| 0 <= s < b.nseg() implies #[trigger] b.front(s) <= b.end(s) by {
            assert(a.front(s) <= a.end(s));
        }
        assert forall|s: int, t: int| 0 <= s <= t < b.nseg() implies #[trigger] b.off(s) <= #[trigger] b.off(
            t,
        ) by {
            assert(a.off(s) <= a.off(t));
        }
    }
}

/// How often the number `v` occurs in `s`.
pub open spec fn occurrences<D>(s: Seq<Num<D>>, v: int) -> nat
    decreases s.len(),
{
    if s.len() == 0 {
        0
    } else {
        occurrences(s.drop_last(), v) + if s.last()@ == v {
            1nat
        } else {
            0nat
        }
    }
}

/// Whether `v` occurs in `values`.
fn holds_num<T>(values: &[Num<T>], v: Num<T>) -> (r: bool)
    ensures
        r == (occurrences(values@, v@ as int) > 0),
{
    let mut i: usize = 0;
    while i < values.len()
        invariant
            i <= values@.len(),
            forall|j: int| 0 <= j < i ==> (#[trigger] values@[j])@ != v@,
        decreases values@.len() - i,
    {
        if values[i].as_usize() == v.as_usize() {
            proof {
                lemma_occurrences_holds(values@, v@ as int);
            }
            return true;
        }
        i = i + 1;
    }
    proof {
        lemma_occurrences_holds(values@, v@ as int);
    }
    false
}

/// A number occurs in `s` exactly when some element of `s` is that number, and never
/// more often than `s` is long.
pub(crate) proof fn lemma_occurrences_holds<D>(s: Seq<Num<D>>, v: int)
    ensures
        (occurrences(s, v) > 0) == (exists|i: int| 0 <= i < s.len() && (#[trigger] s[i])@ == v),
        occurrences(s, v) <= s.len(),
    decreases s.len(),
{
    if s.len() > 0 {
        let t = s.drop_last();
        lemma_occurrences_holds(t, v);
        if occurrences(t, v) > 0 {
            let i = choose|i: int| 0 <= i < t.len() && (#[trigger] t[i])@ == v;
            assert(s[i] == t[i]);
        }
        if s.last()@ == v {
            assert(s[s.len() - 1]@ == v);
        }
        if exists|i: int| 0 <= i < s.len() && (#[trigger] s[i])@ == v {
            let i = choose|i: int| 0 <= i < s.len() && (#[trigger] s[i])@ == v;
            if i < s.len() - 1 {
                assert(t[i] == s[i]);
            }
        }
    }
}

/// Counting the occurrences in one more element of a prefix.
proof fn lemma_occurrences_step<D>(s: Seq<Num<D>>, i: int, v: int)
    requires
        0 <= i < s.len(),
    ensures
        occurrences(s.subrange(0, i + 1), v) == occurrences(s.subrange(0, i), v) + if s[i]@ == v {
            1nat
        } else {
            0nat
        },
{
    assert(s.subrange(0, i + 1).drop_last() =~= s.subrange(0, i));
}

/// A prefix holds no more occurrences than the whole sequence.
proof fn lemma_occurrences_prefix<D>(s: Seq<Num<D>>, i: int, v: int)
    requires
        0 <= i <= s.len(),
    ensures
        occurrences(s.subrange(0, i), v) <= occurrences(s, v),
    decreases s.len(),
{
    if i == s.len() {
        assert(s.subrange(0, i) =~= s);
    } else {
        assert(s.drop_last().subrange(0, i) =~= s.subrange(0, i));
        lemma_occurrences_prefix(s.drop_last(), i, v);
    }
}

/// A number that does not occur in `s` has no occurrences.
proof fn lemma_occurrences_absent<D>(s: Seq<Num<D>>, v: int)
    requires
        forall|j: int| 0 <= j < s.len() ==> (#[trigger] s[j])@ != v,
    ensures
        occurrences(s, v) == 0,
    decreases s.len(),
{
    if s.len() > 0 {
        lemma_occurrences_absent(s.drop_last(), v);
    }
}

/// In a sequence without repetitions, a number occurs at most once.
pub(crate) proof fn lemma_occurrences_unique<D>(s: Seq<Num<D>>, v: int)
    requires
        nums_view(s).no_duplicates(),
    ensures
        occurrences(s, v) <= 1,
    decreases s.len(),
{
    if s.len() > 0 {
        let t = s.drop_last();
        assert forall|i: int, j: int|
            0 <= i < nums_view(t).len() && 0 <= j < nums_view(t).len() && i != j implies nums_view(t)[i]
            != nums_view(t)[j] by {
            assert(nums_view(s)[i] != nums_view(s)[j]);
        }
        lemma_occurrences_unique(t, v);
        if s.last()@ == v {
            assert forall|j: int| 0 <= j < t.len() implies (#[trigger] t[j])@ != v by {
                assert(nums_view(s)[j] != nums_view(s)[s.len() - 1]);
            }
            lemma_occurrences_absent(t, v);
        }
    }
}

/// In a sequence without repetitions, the element at `i` does not occur before `i`.
proof fn lemma_occurrences_fresh<D>(s: Seq<Num<D>>, i: int)
    requires
        nums_view(s).no_duplicates(),
        0 <= i < s.len(),
    ensures
        occurrences(s.subrange(0, i), s[i]@ as int) == 0,
{
    assert forall|j: int| 0 <= j < s.subrange(0, i).len() implies (#[trigger] s.subrange(0, i)[j])@
        != s[i]@ by {
        assert(nums_view(s)[j] != nums_view(s)[i]);
    }
    lemma_occurrences_absent(s.subrange(0, i), s[i]@ as int);
}

/// The values of `T` that are still allowed: a value is accepted when every restriction
/// added so far allows it and no rejection added so far rejects it.
///
/// The values are kept in a segmented permutation with one segment per restriction level
/// (plus the base level); a value sits in the segment of the number of restrictions that
/// allow it, and in the rejected part of that segment when it is rejected at least once.
#[derive(Debug, Clone)]
pub struct RestrictedRange<T> {
    values: SegmentedPermutation<T>,
    times_rejected: Table<T, usize>,
}

impl<T> RestrictedRange<T> {
    /// The number of values of `T`.
    pub closed spec fn count(&self) -> nat {
        self.values.n()
    }

    /// The number of restrictions added so far, plus one.
    pub closed spec fn num_levels(&self) -> nat {
        self.values.nseg()
    }

    /// The number of restrictions that allow value `v`.
    pub closed spec fn level(&self, v: int) -> int {
        self.values.seg_of(v)
    }

    /// The number of rejections of value `v`.
    pub closed spec fn times(&self, v: int) -> int {
        self.times_rejected@[v] as int
    }

    /// In a well-formed range there is at least one level, and every value has a level
    /// below the number of levels and a number of rejections within `usize`.
    pub proof fn lemma_counts(&self, v: int)
        requires
            self.wf(),
            0 <= v < self.count(),
        ensures
            self.num_levels() >= 1,
            0 <= self.level(v) < self.num_levels(),
            0 <= self.times(v) <= usize::MAX,
    {
        assert(self.values.placed(v, self.values.seg_of(v)));
    }

    /// Value `v` is allowed by all restrictions and not rejected.
    pub open spec fn accepts_spec(&self, v: int) -> bool {
        self.level(v) == self.num_levels() - 1 && self.times(v) == 0
    }

    pub closed spec fn wf(&self) -> bool {
        &&& self.values.wf()
        &&& self.times_rejected@.len() == self.values.n()
        &&& forall|v: int|
            0 <= v < self.values.n() ==> (#[trigger] self.times_rejected@[v] > 0)
                == self.values.is_rejected(v)
    }

    /// The value at position `p` of the underlying permutation.
    pub closed spec fn item_at(&self, p: int) -> int {
        self.values.item_at(p)
    }

    /// The position of value `v` in the underlying permutation.
    pub closed spec fn pos_of(&self, v: int) -> int {
        self.values.pos_of(v)
    }

    /// The first position of the last segment.
    pub closed spec fn last_off(&self) -> int {
        self.values.off(self.values.nseg() - 1)
    }

    /// The position of the first accepted value.
    pub closed spec fn front_spec(&self) -> int {
        self.values.front(self.values.nseg() - 1)
    }

    /// A value is accepted exactly when it sits at or after the frontier of the last segment.
    proof fn lemma_accepts_pos(&self, v: int)
        requires
            self.wf(),
            0 <= v < self.count(),
        ensures
            self.accepts_spec(v) == (self.values.pos_of(v) >= self.front_spec()),
            0 <= self.front_spec() <= self.count(),
    {
        let sp = self.values;
        let last = sp.nseg() - 1;
        let t = sp.seg_of(v);
        assert(sp.placed(v, t));
        assert((self.times_rejected@[v] > 0) == sp.is_rejected(v));
        sp.lemma_bounds(last);
        sp.lemma_bounds(t);
        if t < last {
            assert(sp.off(t + 1) <= sp.off(last));
        }
    }

    /// The value at a position at or after the frontier is accepted, and one before it is not.
    proof fn lemma_pos_accepts(&self, p: int)
        requires
            self.wf(),
            0 <= p < self.count(),
        ensures
            self.accepts_spec(self.values.item_at(p)) == (p >= self.front_spec()),
            0 <= self.values.item_at(p) < self.count(),
    {
        let v = self.values.item_at(p);
        assert(0 <= v < self.count() && self.values.pos_of(v) == p);
        self.lemma_accepts_pos(v);
    }

    pub fn new(value_count: Count<T>) -> (r: Self)
        ensures
            r.wf(),
            r.count() == value_count@,
            r.num_levels() == 1,
            forall|v: int| 0 <= v < r.count() ==> #[trigger] r.level(v) == 0 && r.times(v) == 0,
            forall|p: int| 0 <= p < r.count() ==> #[trigger] r.item_at(p) == p,
            r.front_spec() == 0,
    {
        let values = SegmentedPermutation::new(value_count);
        let times: Vec<usize> = vec![0; value_count.as_usize()];
        RestrictedRange { values, times_rejected: Table::from_vec(times) }
    }

    fn frontier(&self) -> (r: usize)
        requires
            self.wf(),
        ensures
            r == self.front_spec(),
    {
        let segments = self.values.segments();
        let last = segments[segments.len() - 1];
        proof {
            self.values.lemma_bounds(self.values.nseg() - 1);
        }
        proof {
            self.values.lemma_lens();
        }
        last.frontier()
    }

    /// The accepted values.
    pub fn accepted(&self) -> (r: &[Num<T>])
        requires
            self.wf(),
        ensures
            nums_view(r@).no_duplicates(),
            forall|i: int| 0 <= i < r@.len() ==> (#[trigger] r@[i])@ < self.count(),
            forall|v: int|
                0 <= v < self.count() ==> (nums_view(r@).contains(v as usize) <==> self.accepts_spec(v)),
            r@.len() == self.count() - self.front_spec(),
            forall|i: int| 0 <= i < r@.len() ==> (#[trigger] r@[i])@ == self.item_at(self.front_spec() + i),
    {
        let f = self.frontier();
        proof {
            self.values.lemma_bounds(self.values.nseg() - 1);
        }
        let r = self.values.slice(f, self.values.len());
        proof {
            assert forall|i: int| 0 <= i < r@.len() implies (#[trigger] r@[i])@ < self.count()
                && self.accepts_spec(r@[i]@ as int) by {
                self.lemma_pos_accepts(f + i);
            }
            assert forall|i: int, j: int|
                0 <= i < nums_view(r@).len() && 0 <= j < nums_view(r@).len() && i != j implies nums_view(
                r@,
            )[i] != nums_view(r@)[j] by {
                self.lemma_pos_accepts(f + i);
                self.lemma_pos_accepts(f + j);
                assert(self.values.pos_of(self.values.item_at(f + i)) == f + i);
                assert(self.values.pos_of(self.values.item_at(f + j)) == f + j);
            }
            assert forall|v: int| 0 <= v < self.count() implies (nums_view(r@).contains(v as usize)
                <==> self.accepts_spec(v)) by {
                self.lemma_accepts_pos(v);
                if self.accepts_spec(v) {
                    let i = self.values.pos_of(v) - f;
                    assert(self.values.item_at(self.values.pos_of(v)) == v);
                    assert(nums_view(r@)[i] == v);
                }
            }
        }
        r
    }

    /// The values that are not accepted.
    pub fn rejected(&self) -> (r: &[Num<T>])
        requires
            self.wf(),
        ensures
            nums_view(r@).no_duplicates(),
            forall|i: int| 0 <= i < r@.len() ==> (#[trigger] r@[i])@ < self.count(),
            forall|v: int|
                0 <= v < self.count() ==> (nums_view(r@).contains(v as usize) <==> !self.accepts_spec(v)),
            r@.len() == self.front_spec(),
            forall|i: int| 0 <= i < r@.len() ==> (#[trigger] r@[i])@ == self.item_at(i),
    {
        let f = self.frontier();
        proof {
            self.values.lemma_bounds(self.values.nseg() - 1);
        }
        let r = self.values.slice(0, f);
        proof {
            assert forall|i: int| 0 <= i < r@.len() implies (#[trigger] r@[i])@ < self.count()
                && !self.accepts_spec(r@[i]@ as int) by {
                self.lemma_pos_accepts(i);
            }
            assert forall|i: int, j: int|
                0 <= i < nums_view(r@).len() && 0 <= j < nums_view(r@).len() && i != j implies nums_view(
                r@,
            )[i] != nums_view(r@)[j] by {
                self.lemma_pos_accepts(i);
                self.lemma_pos_accepts(j);
                assert(self.values.pos_of(self.values.item_at(i)) == i);
                assert(self.values.pos_of(self.values.item_at(j)) == j);
            }
            assert forall|v: int| 0 <= v < self.count() implies (nums_view(r@).contains(v as usize)
                <==> !self.accepts_spec(v)) by {
                self.lemma_accepts_pos(v);
                if !self.accepts_spec(v) {
                    let i = self.values.pos_of(v);
                    assert(self.values.item_at(self.values.pos_of(v)) == v);
                    assert(nums_view(r@)[i] == v);
                }
            }
        }
        r
    }

    /// Whether `value_num` is accepted.
    pub fn accepts(&self, value_num: Num<T>) -> (r: bool)
        requires
            self.wf(),
            value_num@ < self.count(),
        ensures
            r == self.accepts_spec(value_num@ as int),
    {
        let f = self.frontier();
        let pos = self.values.pos(value_num);
        proof {
            self.lemma_accepts_pos(value_num@ as int);
        }
        pos >= f
    }

    /// Rejects `value_num` once more.
    pub fn reject(&mut self, value_num: Num<T>)
        requires
            old(self).wf(),
            value_num@ < old(self).count(),
            old(self).times(value_num@ as int) < usize::MAX,
        ensures
            final(self).wf(),
            final(self).count() == old(self).count(),
            final(self).num_levels() == old(self).num_levels(),
            forall|v: int| 0 <= v < old(self).count() ==> #[trigger] final(self).level(v) == old(self).level(v),
            forall|v: int|
                0 <= v < old(self).count() ==> #[trigger] final(self).times(v) == old(self).times(v) + if v
                    == value_num@ {
                    1int
                } else {
                    0int
                },
            final(self).last_off() == old(self).last_off(),
            final(self).front_spec() >= old(self).front_spec(),
            forall|p: int|
                old(self).last_off() <= p < old(self).front_spec() ==> #[trigger] final(self).item_at(p)
                    == old(self).item_at(p),
            rejected_once(*old(self), *final(self), value_num@ as int),
    {
        let ghost v = value_num@ as int;
        proof {
            assert((old(self).times_rejected@[v] > 0) == old(self).values.is_rejected(v));
            let sp = old(self).values;
            let last = sp.nseg() - 1;
            assert(sp.placed(v, sp.seg_of(v)));
            sp.lemma_bounds(last);
            if sp.seg_of(v) < last {
                assert(sp.off(sp.seg_of(v) + 1) <= sp.off(last));
            }
        }
        if *self.times_rejected.get(value_num) == 0 {
            self.values.reject(value_num);
        }
        let t = *self.times_rejected.get(value_num);
        self.times_rejected.set(value_num, t + 1);
        proof {
            let o = *old(self);
            assert forall|w: int| 0 <= w < self.values.n() implies (#[trigger] self.times_rejected@[w]
                > 0) == self.values.is_rejected(w) by {
                assert((o.times_rejected@[w] > 0) == o.values.is_rejected(w));
            }
        }
    }

    /// Takes back one rejection of `value_num`.
    pub fn unreject(&mut self, value_num: Num<T>)
        requires
            old(self).wf(),
            value_num@ < old(self).count(),
            old(self).times(value_num@ as int) > 0,
        ensures
            final(self).wf(),
            final(self).count() == old(self).count(),
            final(self).num_levels() == old(self).num_levels(),
            forall|v: int| 0 <= v < old(self).count() ==> #[trigger] final(self).level(v) == old(self).level(v),
            forall|v: int|
                0 <= v < old(self).count() ==> #[trigger] final(self).times(v) == old(self).times(v) - if v
                    == value_num@ {
                    1int
                } else {
                    0int
                },
            final(self).last_off() == old(self).last_off(),
            final(self).front_spec() <= old(self).front_spec(),
            forall|p: int|
                old(self).front_spec() <= p < old(self).count() ==> #[trigger] final(self).item_at(p)
                    == old(self).item_at(p),
            unrejected_once(*old(self), *final(self), value_num@ as int),
    {
        let ghost v = value_num@ as int;
        proof {
            assert((old(self).times_rejected@[v] > 0) == old(self).values.is_rejected(v));
            let sp = old(self).values;
            let last = sp.nseg() - 1;
            assert(sp.placed(v, sp.seg_of(v)));
            sp.lemma_bounds(last);
            sp.lemma_bounds(sp.seg_of(v));
            if sp.seg_of(v) < last {
                assert(sp.off(sp.seg_of(v) + 1) <= sp.off(last));
            }
        }
        let t = *self.times_rejected.get(value_num);
        self.times_rejected.set(value_num, t - 1);
        if t - 1 == 0 {
            self.values.accept(value_num);
        }
        proof {
            let o = *old(self);
            assert forall|w: int| 0 <= w < self.values.n() implies (#[trigger] self.times_rejected@[w]
                > 0) == self.values.is_rejected(w) by {
                assert((o.times_rejected@[w] > 0) == o.values.is_rejected(w));
            }
        }
    }

    /// Positions of the last segment hold the values that all restrictions allow.
    proof fn lemma_last_segment(&self, v: int)
        requires
            self.wf(),
            0 <= v < self.count(),
        ensures
            (self.level(v) == self.num_levels() - 1) == (self.last_off() <= self.pos_of(v)),
            self.pos_of(v) < self.count(),
            0 <= self.item_at(self.pos_of(v)) < self.count(),
            self.item_at(self.pos_of(v)) == v,
            0 <= self.last_off() <= self.front_spec() <= self.count(),
    {
        let sp = self.values;
        let last = sp.nseg() - 1;
        let t = sp.seg_of(v);
        assert(sp.placed(v, t));
        sp.lemma_bounds(last);
        if t < last {
            assert(sp.off(t + 1) <= sp.off(last));
        }
        assert(sp.items.item(sp.items.pos_of(v)) == v);
    }

    /// Rejects each of `rejected` once more; returns the values that were accepted
    /// before and are not accepted any more.
    pub fn add_rejection(&mut self, rejected: &[Num<T>]) -> (r: &[Num<T>])
        requires
            old(self).wf(),
            forall|i: int| 0 <= i < rejected@.len() ==> (#[trigger] rejected@[i])@ < old(self).count(),
            forall|v: int|
                0 <= v < old(self).count() ==> old(self).times(v) + occurrences(rejected@, v)
                    <= usize::MAX,
        ensures
            rejection_added(*old(self), *final(self), rejected@),
            final(self).wf(),
            final(self).count() == old(self).count(),
            final(self).num_levels() == old(self).num_levels(),
            forall|v: int| 0 <= v < old(self).count() ==> #[trigger] final(self).level(v) == old(self).level(v),
            forall|v: int|
                0 <= v < old(self).count() ==> #[trigger] final(self).times(v) == old(self).times(v)
                    + occurrences(rejected@, v),
            nums_view(r@).no_duplicates(),
            forall|i: int| 0 <= i < r@.len() ==> (#[trigger] r@[i])@ < old(self).count(),
            forall|v: int|
                0 <= v < old(self).count() ==> (nums_view(r@).contains(v as usize) <==> (old(self).accepts_spec(v) && !final(self).accepts_spec(v))),
    {
        let ghost o = *self;
        let prev_frontier = self.frontier();
        let mut i: usize = 0;
        while i < rejected.len()
            invariant
                self.wf(),
                i <= rejected@.len(),
                self.count() == o.count(),
                self.num_levels() == o.num_levels(),
                forall|i: int| 0 <= i < rejected@.len() ==> (#[trigger] rejected@[i])@ < o.count(),
                forall|v: int| 0 <= v < o.count() ==> o.times(v) + occurrences(rejected@, v) <= usize::MAX,
                forall|v: int| 0 <= v < o.count() ==> #[trigger] self.level(v) == o.level(v),
                forall|v: int|
                    0 <= v < o.count() ==> #[trigger] self.times(v) == o.times(v) + occurrences(
                        rejected@.subrange(0, i as int),
                        v,
                    ),
                self.last_off() == o.last_off(),
                self.front_spec() >= prev_frontier,
                prev_frontier == o.front_spec(),
                forall|p: int| o.last_off() <= p < o.front_spec() ==> #[trigger] self.item_at(p) == o.item_at(p),
            decreases rejected@.len() - i,
        {
            let value = rejected[i];
            proof {
                let v = value@ as int;
                lemma_occurrences_prefix(rejected@, i + 1, v);
                assert forall|w: int| 0 <= w < o.count() implies occurrences(
                    rejected@.subrange(0, i + 1),
                    w,
                ) == occurrences(rejected@.subrange(0, i as int), w) + if w == v {
                    1nat
                } else {
                    0nat
                } by {
                    lemma_occurrences_step(rejected@, i as int, w);
                }
            }
            self.reject(value);
            i = i + 1;
        }
        proof {
            assert(rejected@.subrange(0, rejected@.len() as int) =~= rejected@);
        }
        let f = self.frontier();
        proof {
            self.values.lemma_bounds(self.values.nseg() - 1);
        }
        let r = self.values.slice(prev_frontier, f);
        proof {
            let last = self.num_levels() - 1;
            assert forall|j: int| 0 <= j < r@.len() implies (#[trigger] r@[j])@ < o.count() && o.accepts_spec(
                r@[j]@ as int,
            ) && !self.accepts_spec(r@[j]@ as int) by {
                let p = prev_frontier + j;
                let w = self.item_at(p);
                self.lemma_pos_accepts(p);
                self.lemma_last_segment(w);
                o.lemma_last_segment(w);
                if !o.accepts_spec(w) {
                    o.lemma_accepts_pos(w);
                    assert(self.item_at(o.pos_of(w)) == w);
                    self.lemma_last_segment(w);
                    assert(self.values.pos_of(self.values.item_at(o.pos_of(w))) == o.pos_of(w));
                }
            }
            assert forall|a: int, b: int|
                0 <= a < nums_view(r@).len() && 0 <= b < nums_view(r@).len() && a != b implies nums_view(
                r@,
            )[a] != nums_view(r@)[b] by {
                self.lemma_pos_accepts(prev_frontier + a);
                self.lemma_pos_accepts(prev_frontier + b);
                assert(self.values.pos_of(self.values.item_at(prev_frontier + a)) == prev_frontier + a);
                assert(self.values.pos_of(self.values.item_at(prev_frontier + b)) == prev_frontier + b);
            }
            assert forall|v: int| 0 <= v < o.count() implies (nums_view(r@).contains(v as usize) <==> (
            o.accepts_spec(v) && !self.accepts_spec(v))) by {
                if o.accepts_spec(v) && !self.accepts_spec(v) {
                    self.lemma_last_segment(v);
                    o.lemma_last_segment(v);
                    self.lemma_accepts_pos(v);
                    o.lemma_accepts_pos(v);
                    let p = self.pos_of(v);
                    if p < prev_frontier {
                        assert(o.item_at(p) == v);
                        o.lemma_last_segment(o.item_at(p));
                    }
                    assert(nums_view(r@)[p - prev_frontier] == v);
                }
            }
        }
        r
    }

    /// Takes back one rejection of each of `rejected`; returns the values that are
    /// accepted now and were not accepted before.
    pub fn remove_rejection(&mut self, rejected: &[Num<T>]) -> (r: &[Num<T>])
        requires
            old(self).wf(),
            forall|i: int| 0 <= i < rejected@.len() ==> (#[trigger] rejected@[i])@ < old(self).count(),
            forall|v: int|
                0 <= v < old(self).count() ==> occurrences(rejected@, v) <= old(self).times(v),
        ensures
            rejection_removed(*old(self), *final(self), rejected@),
            final(self).wf(),
            final(self).count() == old(self).count(),
            final(self).num_levels() == old(self).num_levels(),
            forall|v: int| 0 <= v < old(self).count() ==> #[trigger] final(self).level(v) == old(self).level(v),
            forall|v: int|
                0 <= v < old(self).count() ==> #[trigger] final(self).times(v) == old(self).times(v)
                    - occurrences(rejected@, v),
            nums_view(r@).no_duplicates(),
            forall|i: int| 0 <= i < r@.len() ==> (#[trigger] r@[i])@ < old(self).count(),
            forall|v: int|
                0 <= v < old(self).count() ==> (nums_view(r@).contains(v as usize) <==> (!old(self).accepts_spec(v) && final(self).accepts_spec(v))),
    {
        let ghost o = *self;
        let prev_frontier = self.frontier();
        let mut i: usize = 0;
        while i < rejected.len()
            invariant
                self.wf(),
                i <= rejected@.len(),
                self.count() == o.count(),
                self.num_levels() == o.num_levels(),
                forall|i: int| 0 <= i < rejected@.len() ==> (#[trigger] rejected@[i])@ < o.count(),
                forall|v: int| 0 <= v < o.count() ==> occurrences(rejected@, v) <= o.times(v),
                forall|v: int| 0 <= v < o.count() ==> #[trigger] self.level(v) == o.level(v),
                forall|v: int|
                    0 <= v < o.count() ==> #[trigger] self.times(v) == o.times(v) - occurrences(
                        rejected@.subrange(0, i as int),
                        v,
                    ),
                self.front_spec() <= prev_frontier,
                prev_frontier == o.front_spec(),
                forall|p: int| o.front_spec() <= p < o.count() ==> #[trigger] self.item_at(p) == o.item_at(p),
            decreases rejected@.len() - i,
        {
            let value = rejected[i];
            proof {
                let v = value@ as int;
                lemma_occurrences_prefix(rejected@, i + 1, v);
                assert forall|w: int| 0 <= w < o.count() implies occurrences(
                    rejected@.subrange(0, i + 1),
                    w,
                ) == occurrences(rejected@.subrange(0, i as int), w) + if w == v {
                    1nat
                } else {
                    0nat
                } by {
                    lemma_occurrences_step(rejected@, i as int, w);
                }
            }
            self.unreject(value);
            i = i + 1;
        }
        proof {
            assert(rejected@.subrange(0, rejected@.len() as int) =~= rejected@);
        }
        let f = self.frontier();
        proof {
            self.values.lemma_bounds(self.values.nseg() - 1);
            o.values.lemma_bounds(o.values.nseg() - 1);
        }
        let r = self.values.slice(f, prev_frontier);
        proof {
            assert forall|j: int| 0 <= j < r@.len() implies (#[trigger] r@[j])@ < o.count()
                && !o.accepts_spec(r@[j]@ as int) && self.accepts_spec(r@[j]@ as int) by {
                let p = f + j;
                let w = self.item_at(p);
                self.lemma_pos_accepts(p);
                if o.accepts_spec(w) {
                    o.lemma_last_segment(w);
                    o.lemma_accepts_pos(w);
                    assert(self.item_at(o.pos_of(w)) == w);
                    self.lemma_last_segment(w);
                }
            }
            assert forall|a: int, b: int|
                0 <= a < nums_view(r@).len() && 0 <= b < nums_view(r@).len() && a != b implies nums_view(
                r@,
            )[a] != nums_view(r@)[b] by {
                self.lemma_pos_accepts(f + a);
                self.lemma_pos_accepts(f + b);
                assert(self.values.pos_of(self.values.item_at(f + a)) == f + a);
                assert(self.values.pos_of(self.values.item_at(f + b)) == f + b);
            }
            assert forall|v: int| 0 <= v < o.count() implies (nums_view(r@).contains(v as usize) <==> (
            !o.accepts_spec(v) && self.accepts_spec(v))) by {
                if !o.accepts_spec(v) && self.accepts_spec(v) {
                    self.lemma_last_segment(v);
                    self.lemma_accepts_pos(v);
                    o.lemma_accepts_pos(v);
                    let p = self.pos_of(v);
                    if p >= prev_frontier {
                        assert(o.item_at(p) == v);
                        o.lemma_last_segment(o.item_at(p));
                    }
                    assert(nums_view(r@)[p - f] == v);
                }
            }
        }
        r
    }

    /// Adds a restriction that allows only the values of `allowed`; returns the values
    /// that were accepted before and are not accepted any more.
    pub fn add_restriction(&mut self, allowed: &[Num<T>]) -> (r: &[Num<T>])
        requires
            old(self).wf(),
            forall|i: int| 0 <= i < allowed@.len() ==> (#[trigger] allowed@[i])@ < old(self).count(),
            nums_view(allowed@).no_duplicates(),
        ensures
            restriction_added(*old(self), *final(self), allowed@),
            final(self).wf(),
            final(self).count() == old(self).count(),
            final(self).num_levels() == old(self).num_levels() + 1,
            forall|v: int|
                0 <= v < old(self).count() ==> #[trigger] final(self).level(v) == old(self).level(v)
                    + occurrences(allowed@, v),
            forall|v: int| 0 <= v < old(self).count() ==> #[trigger] final(self).times(v) == old(self).times(v),
            nums_view(r@).no_duplicates(),
            forall|i: int| 0 <= i < r@.len() ==> (#[trigger] r@[i])@ < old(self).count(),
            forall|v: int|
                0 <= v < old(self).count() ==> (nums_view(r@).contains(v as usize) <==> (old(self).accepts_spec(v) && !final(self).accepts_spec(v))),
    {
        let ghost o = *self;
        self.values.push_segment();
        proof {
            assert(allowed@.subrange(0, 0) =~= Seq::<Num<T>>::empty());
            assert forall|v: int| 0 <= v < self.values.n() implies (#[trigger] self.times_rejected@[v] > 0)
                == self.values.is_rejected(v) by {
                assert((o.times_rejected@[v] > 0) == o.values.is_rejected(v));
            }
        }
        let mut i: usize = 0;
        while i < allowed.len()
            invariant
                self.wf(),
                i <= allowed@.len(),
                self.count() == o.count(),
                self.num_levels() == o.num_levels() + 1,
                o.wf(),
                forall|i: int| 0 <= i < allowed@.len() ==> (#[trigger] allowed@[i])@ < o.count(),
                nums_view(allowed@).no_duplicates(),
                self.times_rejected == o.times_rejected,
                forall|v: int|
                    0 <= v < o.count() ==> #[trigger] self.level(v) == o.level(v) + occurrences(
                        allowed@.subrange(0, i as int),
                        v,
                    ),
            decreases allowed@.len() - i,
        {
            let value = allowed[i];
            proof {
                let v = value@ as int;
                lemma_occurrences_fresh(allowed@, i as int);
                assert(o.values.placed(v, o.values.seg_of(v)));
                assert forall|w: int| 0 <= w < o.count() implies occurrences(
                    allowed@.subrange(0, i + 1),
                    w,
                ) == occurrences(allowed@.subrange(0, i as int), w) + if w == v {
                    1nat
                } else {
                    0nat
                } by {
                    lemma_occurrences_step(allowed@, i as int, w);
                }
            }
            let ghost before = *self;
            proof {
                let v = value@ as int;
                assert(self.level(v) == o.level(v));
            }
            self.values.promote(value);
            proof {
                assert forall|w: int| 0 <= w < self.values.n() implies (#[trigger] self.times_rejected@[w]
                    > 0) == self.values.is_rejected(w) by {
                    assert((o.times_rejected@[w] > 0) == o.values.is_rejected(w));
                }
                assert forall|w: int| 0 <= w < o.count() implies #[trigger] self.level(w) == o.level(w)
                    + occurrences(allowed@.subrange(0, i + 1), w) by {
                    assert(before.level(w) == o.level(w) + occurrences(allowed@.subrange(0, i as int), w));
                    lemma_occurrences_step(allowed@, i as int, w);
                }
            }
            i = i + 1;
        }
        proof {
            assert(allowed@.subrange(0, allowed@.len() as int) =~= allowed@);
        }
        let num_segments = self.values.segments.len();
        let prev_segment = self.values.segments[num_segments - 2];
        let last_segment = self.values.segments[num_segments - 1];
        let ghost t = num_segments - 2;
        proof {
            self.values.lemma_bounds(t);
            self.values.lemma_bounds(t + 1);
        }
        proof {
            self.values.lemma_lens();
        }
        let lo = prev_segment.frontier();
        let hi = last_segment.offset;
        let ghost segs = self.values.segments;
        // Gather the newly allowed values of the second-last segment at the front of its
        // accepted part, so that the values dropped by this restriction follow them.
        let mut k = lo;
        let mut p = lo;
        while p < hi
            invariant
                self.wf(),
                o.wf(),
                self.count() == o.count(),
                self.num_levels() == o.num_levels() + 1,
                self.times_rejected == o.times_rejected,
                nums_view(allowed@).no_duplicates(),
                forall|v: int|
                    0 <= v < o.count() ==> #[trigger] self.level(v) == o.level(v) + occurrences(allowed@, v),
                self.values.segments == segs,
                num_segments == self.values.nseg(),
                t == num_segments - 2,
                lo == self.values.front(t),
                hi == self.values.end(t),
                0 <= self.values.off(t) <= lo <= k <= p <= hi <= self.values.n(),
                forall|q: int| lo <= q < k ==> occurrences(allowed@, #[trigger] self.values.item_at(q)) > 0,
                forall|q: int| k <= q < p ==> occurrences(allowed@, #[trigger] self.values.item_at(q)) == 0,
            decreases hi - p,
        {
            let item = self.values.get(p);
            if holds_num(allowed, item) {
                let ghost before = self.values;
                let ghost before_r = *self;
                self.values.swap_within(k, p, Ghost(t));
                proof {
                    assert forall|w: int| 0 <= w < self.values.n() implies (#[trigger] self.times_rejected@[w]
                        > 0) == self.values.is_rejected(w) by {
                        assert((o.times_rejected@[w] > 0) == before.is_rejected(w));
                    }
                    assert forall|w: int| 0 <= w < o.count() implies #[trigger] self.level(w) == o.level(w)
                        + occurrences(allowed@, w) by {
                        assert(self.values.seg_of(w) == before.seg_of(w));
                        assert(before_r.level(w) == o.level(w) + occurrences(allowed@, w));
                    }
                    assert forall|q: int| lo <= q < k + 1 implies occurrences(allowed@, #[trigger] self.values.item_at(q)) > 0 by {
                        if q < k {
                            assert(self.values.item_at(q) == before.item_at(q));
                        }
                    }
                    assert forall|q: int| k + 1 <= q < p + 1 implies occurrences(allowed@, #[trigger] self.values.item_at(q)) == 0 by {
                        if q < p {
                            assert(self.values.item_at(q) == before.item_at(q));
                        } else {
                            assert(self.values.item_at(q) == before.item_at(k as int));
                        }
                    }
                }
                k = k + 1;
            }
            p = p + 1;
        }
        let r = self.values.slice(k, hi);
        proof {
            let sp = self.values;
            assert forall|j: int| 0 <= j < r@.len() implies (#[trigger] r@[j])@ < o.count() && o.accepts_spec(
                r@[j]@ as int,
            ) && !self.accepts_spec(r@[j]@ as int) by {
                let q = k + j;
                sp.lemma_seg_of_pos(q, t);
                let w = sp.item_at(q);
                assert(r@[j]@ == w);
                assert(0 <= w < o.count());
                assert(sp.pos_of(w) == q);
                assert(!sp.is_rejected(w));
                assert((self.times_rejected@[w] > 0) == sp.is_rejected(w));
                assert(occurrences(allowed@, w) == 0);
                assert(self.level(w) == t);
                assert(o.level(w) == t);
                assert(o.times(w) == 0);
                assert(o.accepts_spec(w));
                assert(!self.accepts_spec(w));
            }
            assert forall|a: int, b: int|
                0 <= a < nums_view(r@).len() && 0 <= b < nums_view(r@).len() && a != b implies nums_view(
                r@,
            )[a] != nums_view(r@)[b] by {
                assert(sp.pos_of(sp.item_at(k + a)) == k + a);
                assert(sp.pos_of(sp.item_at(k + b)) == k + b);
            }
            assert forall|v: int| 0 <= v < o.count() implies (nums_view(r@).contains(v as usize) <==> (
            o.accepts_spec(v) && !self.accepts_spec(v))) by {
                if o.accepts_spec(v) && !self.accepts_spec(v) {
                    lemma_occurrences_unique(allowed@, v);
                    assert(occurrences(allowed@, v) == 0);
                    assert(sp.placed(v, sp.seg_of(v)));
                    assert((self.times_rejected@[v] > 0) == sp.is_rejected(v));
                    assert(sp.item_at(sp.pos_of(v)) == v);
                    assert(sp.pos_of(v) >= k);
                    assert(nums_view(r@)[sp.pos_of(v) - k] == v);
                }
                if nums_view(r@).contains(v as usize) {
                    let j = choose|j: int| 0 <= j < nums_view(r@).len() && nums_view(r@)[j] == v as usize;
                    assert(r@[j]@ == v);
                }
            }
        }
        r
    }

    /// Takes back a restriction that allowed the values of `allowed`: each of them loses
    /// one level, and the last restriction level is merged into the one before it.
    /// Returns the values that are accepted now and were not accepted before.
    pub fn remove_restriction(&mut self, allowed: &[Num<T>]) -> (r: &[Num<T>])
        requires
            old(self).wf(),
            old(self).num_levels() >= 2,
            forall|i: int| 0 <= i < allowed@.len() ==> (#[trigger] allowed@[i])@ < old(self).count(),
            forall|i: int| 0 <= i < allowed@.len() ==> old(self).level((#[trigger] allowed@[i])@ as int) >= 1,
            nums_view(allowed@).no_duplicates(),
        ensures
            restriction_removed(*old(self), *final(self), allowed@),
            final(self).wf(),
            final(self).count() == old(self).count(),
            final(self).num_levels() == old(self).num_levels() - 1,
            forall|v: int|
                0 <= v < old(self).count() ==> #[trigger] final(self).level(v) == if occurrences(allowed@, v)
                    > 0 {
                    old(self).level(v) - 1
                } else if old(self).level(v) == old(self).num_levels() - 1 {
                    old(self).num_levels() - 2
                } else {
                    old(self).level(v)
                },
            forall|v: int| 0 <= v < old(self).count() ==> #[trigger] final(self).times(v) == old(self).times(v),
            nums_view(r@).no_duplicates(),
            forall|i: int| 0 <= i < r@.len() ==> (#[trigger] r@[i])@ < old(self).count(),
            forall|v: int|
                0 <= v < old(self).count() ==> (nums_view(r@).contains(v as usize) <==> (!old(self).accepts_spec(v) && final(self).accepts_spec(v))),
    {
        let ghost o = *self;
        let ghost last = o.num_levels() - 1;
        let num_segments = self.values.segments.len();
        proof {
            assert(allowed@.subrange(0, 0) =~= Seq::<Num<T>>::empty());
            o.values.lemma_bounds(last);
        }
        let mut i: usize = 0;
        while i < allowed.len()
            invariant
                self.wf(),
                o.wf(),
                i <= allowed@.len(),
                num_segments == o.num_levels(),
                last == o.num_levels() - 1,
                num_segments >= 2,
                self.count() == o.count(),
                self.num_levels() == o.num_levels(),
                forall|i: int| 0 <= i < allowed@.len() ==> (#[trigger] allowed@[i])@ < o.count(),
                forall|i: int| 0 <= i < allowed@.len() ==> o.level((#[trigger] allowed@[i])@ as int) >= 1,
                nums_view(allowed@).no_duplicates(),
                self.times_rejected == o.times_rejected,
                forall|v: int|
                    0 <= v < o.count() ==> #[trigger] self.level(v) == o.level(v) - if occurrences(
                        allowed@.subrange(0, i as int),
                        v,
                    ) > 0 && o.level(v) < last {
                        1int
                    } else {
                        0int
                    },
                self.values.off(last) == o.values.off(last),
                self.values.rej(last) == o.values.rej(last),
                forall|p: int|
                    o.values.off(last) <= p < o.count() ==> #[trigger] self.item_at(p) == o.item_at(p),
            decreases allowed@.len() - i,
        {
            let value = allowed[i];
            proof {
                let v = value@ as int;
                lemma_occurrences_fresh(allowed@, i as int);
                assert forall|w: int| 0 <= w < o.count() implies occurrences(
                    allowed@.subrange(0, i + 1),
                    w,
                ) == occurrences(allowed@.subrange(0, i as int), w) + if w == v {
                    1nat
                } else {
                    0nat
                } by {
                    lemma_occurrences_step(allowed@, i as int, w);
                }
            }
            let ghost before = *self;
            proof {
                let v = value@ as int;
                assert(self.level(v) == o.level(v));
            }
            let segment = *self.values.item_segment.get(value);
            if segment < num_segments - 1 {
                proof {
                    let sp = self.values;
                    assert(sp.structure_wf());
                    assert(segment + 1 <= last);
                    assert(last < sp.nseg());
                    assert(sp.off(segment + 1) <= sp.off(last));
                }
                self.values.demote(value);
                proof {
                    let sb = before.values;
                    assert(self.values.off(last) == sb.off(last));
                    assert(self.values.rej(last) == sb.rej(last));
                    assert forall|p: int| o.values.off(last) <= p < o.count() implies #[trigger] self.item_at(
                        p,
                    ) == o.item_at(p) by {
                        assert(sb.end(segment as int) <= sb.off(last));
                        assert(self.values.item_at(p) == sb.item_at(p));
                        assert(before.item_at(p) == o.item_at(p));
                    }
                }
            }
            proof {
                let v = value@ as int;
                assert forall|w: int| 0 <= w < o.count() implies #[trigger] self.level(w) == o.level(w) - if occurrences(
                    allowed@.subrange(0, i + 1),
                    w,
                ) > 0 && o.level(w) < last {
                    1int
                } else {
                    0int
                } by {
                    assert(before.level(w) == o.level(w) - if occurrences(
                        allowed@.subrange(0, i as int),
                        w,
                    ) > 0 && o.level(w) < last {
                        1int
                    } else {
                        0int
                    });
                    lemma_occurrences_step(allowed@, i as int, w);
                }
                assert forall|w: int| 0 <= w < self.values.n() implies (#[trigger] self.times_rejected@[w]
                    > 0) == self.values.is_rejected(w) by {
                    assert((o.times_rejected@[w] > 0) == o.values.is_rejected(w));
                }
            }
            i = i + 1;
        }
        proof {
            assert(allowed@.subrange(0, allowed@.len() as int) =~= allowed@);
        }
        let prev_frontier = self.frontier();
        let ghost mid = *self;
        self.values.pop_segment();
        proof {
            mid.values.lemma_bounds(last - 1);
            assert(mid.values.front(last - 1) <= mid.values.end(last - 1));
            assert forall|p: int| prev_frontier <= p < o.count() implies #[trigger] self.item_at(p) == o.item_at(p) by {
                assert(mid.item_at(p) == o.item_at(p));
            }
            assert forall|v: int| 0 <= v < o.count() implies #[trigger] self.level(v) == if occurrences(allowed@, v)
                > 0 {
                o.level(v) - 1
            } else if o.level(v) == last {
                last - 1
            } else {
                o.level(v)
            } by {
                assert(mid.level(v) == o.level(v) - if occurrences(allowed@, v) > 0 && o.level(v) < last {
                    1int
                } else {
                    0int
                });
                assert(o.values.placed(v, o.values.seg_of(v)));
            }
            assert forall|w: int| 0 <= w < self.values.n() implies (#[trigger] self.times_rejected@[w] > 0)
                == self.values.is_rejected(w) by {
                assert((o.times_rejected@[w] > 0) == o.values.is_rejected(w));
            }
        }
        let f = self.frontier();
        proof {
            self.values.lemma_bounds(self.values.nseg() - 1);
        }
        let r = self.values.slice(f, prev_frontier);
        proof {
            assert forall|j: int| 0 <= j < r@.len() implies (#[trigger] r@[j])@ < o.count()
                && !o.accepts_spec(r@[j]@ as int) && self.accepts_spec(r@[j]@ as int) by {
                let p = f + j;
                let w = self.item_at(p);
                self.lemma_pos_accepts(p);
                if o.accepts_spec(w) {
                    o.lemma_last_segment(w);
                    o.lemma_accepts_pos(w);
                    assert(self.item_at(o.pos_of(w)) == w);
                    self.lemma_last_segment(w);
                }
            }
            assert forall|a: int, b: int|
                0 <= a < nums_view(r@).len() && 0 <= b < nums_view(r@).len() && a != b implies nums_view(
                r@,
            )[a] != nums_view(r@)[b] by {
                self.lemma_pos_accepts(f + a);
                self.lemma_pos_accepts(f + b);
                assert(self.values.pos_of(self.values.item_at(f + a)) == f + a);
                assert(self.values.pos_of(self.values.item_at(f + b)) == f + b);
            }
            assert forall|v: int| 0 <= v < o.count() implies (nums_view(r@).contains(v as usize) <==> (
            !o.accepts_spec(v) && self.accepts_spec(v))) by {
                if !o.accepts_spec(v) && self.accepts_spec(v) {
                    self.lemma_last_segment(v);
                    self.lemma_accepts_pos(v);
                    o.lemma_accepts_pos(v);
                    let p = self.pos_of(v);
                    if p >= prev_frontier {
                        assert(o.item_at(p) == v);
                        o.lemma_last_segment(o.item_at(p));
                    }
                    assert(nums_view(r@)[p - f] == v);
                }
            }
        }
        r
    }
}

/// `after` is `before` with each of `rejected` rejected once more.
pub open spec fn rejection_added<T>(
    before: RestrictedRange<T>,
    after: RestrictedRange<T>,
    rejected: Seq<Num<T>>,
) -> bool {
    &&& after.count() == before.count()
    &&& after.num_levels() == before.num_levels()
    &&& forall|v: int|
        0 <= v < before.count() ==> #[trigger] after.level(v) == before.level(v) && after.times(v)
            == before.times(v) + occurrences(rejected, v)
}

/// `after` is `before` with one rejection of each of `rejected` taken back.
pub open spec fn rejection_removed<T>(
    before: RestrictedRange<T>,
    after: RestrictedRange<T>,
    rejected: Seq<Num<T>>,
) -> bool {
    &&& after.count() == before.count()
    &&& after.num_levels() == before.num_levels()
    &&& forall|v: int|
        0 <= v < before.count() ==> #[trigger] after.level(v) == before.level(v) && after.times(v)
            == before.times(v) - occurrences(rejected, v)
}

/// `after` is `before` with a restriction added that allows the values of `allowed`.
pub open spec fn restriction_added<T>(
    before: RestrictedRange<T>,
    after: RestrictedRange<T>,
    allowed: Seq<Num<T>>,
) -> bool {
    &&& after.count() == before.count()
    &&& after.num_levels() == before.num_levels() + 1
    &&& forall|v: int|
        0 <= v < before.count() ==> #[trigger] after.level(v) == before.level(v) + occurrences(
            allowed,
            v,
        ) && after.times(v) == before.times(v)
}

/// `after` is `before` with the last restriction, one that allowed the values of
/// `allowed`, taken back.
pub open spec fn restriction_removed<T>(
    before: RestrictedRange<T>,
    after: RestrictedRange<T>,
    allowed: Seq<Num<T>>,
) -> bool {
    &&& after.count() == before.count()
    &&& after.num_levels() == before.num_levels() - 1
    &&& forall|v: int|
        0 <= v < before.count() ==> #[trigger] after.level(v) == (if occurrences(allowed, v) > 0 {
            before.level(v) - 1
        } else if before.level(v) == before.num_levels() - 1 {
            before.num_levels() - 2
        } else {
            before.level(v)
        }) && after.times(v) == before.times(v)
}

/// Taking back the rejections that were just added restores the level and the number
/// of rejections of every value, and so which values are accepted.
pub proof fn law_rejection_undo<T>(
    r0: RestrictedRange<T>,
    r1: RestrictedRange<T>,
    r2: RestrictedRange<T>,
    rejected: Seq<Num<T>>,
)
    requires
        rejection_added(r0, r1, rejected),
        rejection_removed(r1, r2, rejected),
    ensures
        r2.count() == r0.count(),
        r2.num_levels() == r0.num_levels(),
        forall|v: int|
            0 <= v < r0.count() ==> #[trigger] r2.level(v) == r0.level(v) && r2.times(v) == r0.times(v)
                && r2.accepts_spec(v) == r0.accepts_spec(v),
{
    assert forall|v: int| 0 <= v < r0.count() implies #[trigger] r2.level(v) == r0.level(v) && r2.times(v)
        == r0.times(v) && r2.accepts_spec(v) == r0.accepts_spec(v) by {
        assert(r1.level(v) == r0.level(v));
        assert(r1.times(v) == r0.times(v) + occurrences(rejected, v));
        assert(r2.level(v) == r1.level(v));
        assert(r2.times(v) == r1.times(v) - occurrences(rejected, v));
    }
}

/// Taking back the restriction that was just added, with the same allowed values,
/// restores the level and the number of rejections of every value, and so which values
/// are accepted.
pub proof fn law_restriction_undo<T>(
    r0: RestrictedRange<T>,
    r1: RestrictedRange<T>,
    r2: RestrictedRange<T>,
    allowed: Seq<Num<T>>,
)
    requires
        r0.wf(),
        nums_view(allowed).no_duplicates(),
        restriction_added(r0, r1, allowed),
        restriction_removed(r1, r2, allowed),
    ensures
        r2.count() == r0.count(),
        r2.num_levels() == r0.num_levels(),
        forall|v: int|
            0 <= v < r0.count() ==> #[trigger] r2.level(v) == r0.level(v) && r2.times(v) == r0.times(v)
                && r2.accepts_spec(v) == r0.accepts_spec(v),
{
    assert forall|v: int| 0 <= v < r0.count() implies #[trigger] r2.level(v) == r0.level(v) && r2.times(v)
        == r0.times(v) && r2.accepts_spec(v) == r0.accepts_spec(v) by {
        assert(r1.level(v) == r0.level(v) + occurrences(allowed, v));
        assert(r0.values.placed(v, r0.values.seg_of(v)));
        lemma_occurrences_unique(allowed, v);
        assert(r1.times(v) == r0.times(v));
        assert(r2.level(v) == (if occurrences(allowed, v) > 0 {
            r1.level(v) - 1
        } else if r1.level(v) == r1.num_levels() - 1 {
            r1.num_levels() - 2
        } else {
            r1.level(v)
        }));
        assert(r2.times(v) == r1.times(v));
    }
}

/// `b` is `a` with one more segment, empty, at the end.
pub open spec fn segment_pushed<T>(a: SegmentedPermutation<T>, b: SegmentedPermutation<T>) -> bool {
    &&& b.n() == a.n()
    &&& b.nseg() == a.nseg() + 1
    &&& forall|w: int| 0 <= w < a.n() ==> #[trigger] b.seg_of(w) == a.seg_of(w) && b.is_rejected(w) == a.is_rejected(w)
    &&& forall|t: int| 0 <= t < a.nseg() ==> #[trigger] b.off(t) == a.off(t) && b.rej(t) == a.rej(t)
    &&& b.off(a.nseg() as int) == a.n()
    &&& b.rej(a.nseg() as int) == 0
    &&& forall|p: int| 0 <= p < a.n() ==> #[trigger] b.item_at(p) == a.item_at(p)
}

/// `b` is `a` with its last segment merged into the one before it; where that segment
/// had no rejected items, no item moves.
pub open spec fn segment_popped<T>(a: SegmentedPermutation<T>, b: SegmentedPermutation<T>) -> bool {
    &&& b.n() == a.n()
    &&& b.nseg() == a.nseg() - 1
    &&& forall|w: int|
        0 <= w < a.n() ==> #[trigger] b.seg_of(w) == if a.seg_of(w) == a.nseg() - 1 {
            a.nseg() - 2
        } else {
            a.seg_of(w)
        }
    &&& forall|t: int| 0 <= t < a.nseg() - 2 ==> #[trigger] b.off(t) == a.off(t) && b.rej(t) == a.rej(t)
    &&& b.off(a.nseg() - 2) == a.off(a.nseg() - 2)
    &&& b.rej(a.nseg() - 2) == a.rej(a.nseg() - 2) + a.rej(a.nseg() - 1)
    &&& a.rej(a.nseg() - 1) == 0 ==> forall|p: int| 0 <= p < a.n() ==> #[trigger] b.item_at(p) == a.item_at(p)
}

/// Popping a segment right after pushing one gives back the same layout: the same items
/// in the same order, the same segments, and every item in the same segment.
pub proof fn law_segment_push_pop<T>(
    p: SegmentedPermutation<T>,
    q: SegmentedPermutation<T>,
    r: SegmentedPermutation<T>,
)
    requires
        p.wf(),
        segment_pushed(p, q),
        segment_popped(q, r),
    ensures
        r.n() == p.n(),
        r.nseg() == p.nseg(),
        forall|t: int| 0 <= t < p.nseg() ==> #[trigger] r.off(t) == p.off(t) && r.rej(t) == p.rej(t),
        forall|w: int| 0 <= w < p.n() ==> #[trigger] r.seg_of(w) == p.seg_of(w),
        forall|i: int| 0 <= i < p.n() ==> #[trigger] r.item_at(i) == p.item_at(i),
{
    assert forall|w: int| 0 <= w < p.n() implies #[trigger] r.seg_of(w) == p.seg_of(w) by {
        assert(p.placed(w, p.seg_of(w)));
        assert(q.seg_of(w) == p.seg_of(w));
    }
    assert forall|t: int| 0 <= t < p.nseg() implies #[trigger] r.off(t) == p.off(t) && r.rej(t) == p.rej(t) by {
        if t < p.nseg() - 1 {
            assert(q.off(t) == p.off(t) && q.rej(t) == p.rej(t));
        } else {
            assert(q.off(t) == p.off(t) && q.rej(t) == p.rej(t));
            assert(q.rej(p.nseg() as int) == 0);
        }
    }
    assert forall|i: int| 0 <= i < p.n() implies #[trigger] r.item_at(i) == p.item_at(i) by {
        assert(q.rej(q.nseg() - 1) == 0);
        assert(r.item_at(i) == q.item_at(i));
        assert(q.item_at(i) == p.item_at(i));
    }
}

/// `b` is `a` with value `v` rejected once more.
pub open spec fn rejected_once<T>(a: RestrictedRange<T>, b: RestrictedRange<T>, v: int) -> bool {
    &&& b.count() == a.count()
    &&& b.num_levels() == a.num_levels()
    &&& forall|w: int|
        0 <= w < a.count() ==> #[trigger] b.level(w) == a.level(w) && b.times(w) == a.times(w) + if w == v {
            1int
        } else {
            0int
        }
}

/// `b` is `a` with one rejection of value `v` taken back.
pub open spec fn unrejected_once<T>(a: RestrictedRange<T>, b: RestrictedRange<T>, v: int) -> bool {
    &&& b.count() == a.count()
    &&& b.num_levels() == a.num_levels()
    &&& forall|w: int|
        0 <= w < a.count() ==> #[trigger] b.level(w) == a.level(w) && b.times(w) == a.times(w) - if w == v {
            1int
        } else {
            0int
        }
}

/// Unrejecting a value right after rejecting it restores the level and the number of
/// rejections of every value, and so which values are accepted.
pub proof fn law_reject_undo<T>(r0: RestrictedRange<T>, r1: RestrictedRange<T>, r2: RestrictedRange<T>, v: int)
    requires
        rejected_once(r0, r1, v),
        unrejected_once(r1, r2, v),
    ensures
        r2.count() == r0.count(),
        r2.num_levels() == r0.num_levels(),
        forall|w: int|
            0 <= w < r0.count() ==> #[trigger] r2.level(w) == r0.level(w) && r2.times(w) == r0.times(w)
                && r2.accepts_spec(w) == r0.accepts_spec(w),
{
    assert forall|w: int| 0 <= w < r0.count() implies #[trigger] r2.level(w) == r0.level(w) && r2.times(w)
        == r0.times(w) && r2.accepts_spec(w) == r0.accepts_spec(w) by {
        assert(r1.level(w) == r0.level(w));
        assert(r2.level(w) == r1.level(w));
    }
}

} // verus!

use vstd::prelude::*;

use crate::cat::num::{Num, nums_view};
use crate::cat::seq_table::SeqTable;
use crate::cat::table::Table;
use crate::eval::ngram_eval::types::{NGram, NGrams};

verus! {

broadcast use crate::cat::num::lemma_num_view_eq, crate::cat::num::lemma_num_of_view;

/// Whether `val` may stand at position `pos` of a choice of `k` positions out of `n`.
pub open spec fn pos_ok(n: int, k: int, pos: int, val: int) -> bool {
    pos <= val <= n - k + pos
}

/// The positions `s` are a choice of `s.len()` positions out of `n`, in increasing order.
pub open spec fn is_choice_of(n: int, s: Seq<usize>) -> bool {
    forall|j: int|
        0 <= j < s.len() ==> pos_ok(n, s.len() as int, j, #[trigger] s[j] as int) && (j + 1 < s.len() ==> s[j]
            < s[j + 1])
}

/// `a` comes before `b` in lexicographic order.
pub open spec fn lex_lt(a: Seq<usize>, b: Seq<usize>) -> bool {
    &&& a.len() == b.len()
    &&& exists|q: int| 0 <= q < a.len() && (forall|j: int| 0 <= j < q ==> a[j] == b[j]) && #[trigger] a[q] < b[q]
}

/// `a` is `b` or comes before it in lexicographic order.
pub open spec fn lex_le(a: Seq<usize>, b: Seq<usize>) -> bool {
    a == b || lex_lt(a, b)
}

/// A cursor over the subsequences of `k` elements of a sequence: it holds the positions
/// of the elements chosen, in increasing order, and moves through the choices in
/// lexicographic order. It starts before the first choice: the first move lands on it.
pub struct SubSeqs<'t, T> {
    seq: &'t [T],
    idxs: Vec<usize>,
    started: bool,
}

impl<'t, T> SubSeqs<'t, T> {
    pub closed spec fn seq_spec(&self) -> Seq<T> {
        self.seq@
    }

    /// The chosen positions.
    pub closed spec fn idxs_spec(&self) -> Seq<usize> {
        self.idxs@
    }

    /// Every position lies within the sequence, or at most its own offset after the first.
    closed spec fn bounded(&self) -> bool {
        forall|j: int|
            0 <= j < self.idxs@.len() ==> #[trigger] self.idxs@[j] <= self.seq@.len() || self.idxs@[j]
                <= self.idxs@[0] + j
    }

    /// Whether the cursor has moved onto a choice yet.
    pub closed spec fn started_spec(&self) -> bool {
        self.started
    }

    /// Every position lies within the sequence, or at most its own offset after the first;
    /// before the first move the positions are the first choice, and after it they are a
    /// choice, or the first position lies beyond every choice.
    pub closed spec fn wf(&self) -> bool {
        let n = self.seq@.len() as int;
        let k = self.idxs@.len() as int;
        &&& self.bounded()
        &&& !self.started ==> self.idxs@ == Seq::new(k as nat, |i: int| i as usize)
        &&& self.started ==> k >= 1 && (is_choice_of(n, self.idxs@) || !pos_ok(n, k, 0, self.idxs@[0] as int))
    }

    /// The positions are a choice of `k` positions in increasing order.
    pub open spec fn is_choice(&self) -> bool {
        let n = self.seq_spec().len() as int;
        let k = self.idxs_spec().len() as int;
        forall|j: int| 0 <= j < k ==> pos_ok(n, k, j, #[trigger] self.idxs_spec()[j] as int) && (j + 1 < k
            ==> self.idxs_spec()[j] < self.idxs_spec()[j + 1])
    }

    /// A cursor over the subsequences of `len` elements of `seq`, before the first one.
    pub fn new(seq: &'t [T], len: usize) -> (r: Self)
        ensures
            r.wf(),
            r.seq_spec() == seq@,
            !r.started_spec(),
            r.idxs_spec() == Seq::new(len as nat, |i: int| i as usize),
    {
        let mut idxs: Vec<usize> = Vec::with_capacity(len);
        let mut i: usize = 0;
        while i < len
            invariant
                i <= len,
                idxs@ =~= Seq::new(i as nat, |j: int| j as usize),
            decreases len - i,
        {
            idxs.push(i);
            i = i + 1;
        }
        SubSeqs { seq, idxs, started: false }
    }

    /// The elements at the chosen positions.
    pub fn seq(&self) -> (r: Vec<&'t T>)
        requires
            forall|j: int| 0 <= j < self.idxs_spec().len() ==> #[trigger] self.idxs_spec()[j] < self.seq_spec().len(),
        ensures
            r@.len() == self.idxs_spec().len(),
            forall|j: int| 0 <= j < r@.len() ==> *(#[trigger] r@[j]) == self.seq_spec()[self.idxs_spec()[j] as int],
    {
        let mut out: Vec<&'t T> = Vec::with_capacity(self.idxs.len());
        let mut j: usize = 0;
        while j < self.idxs.len()
            invariant
                j <= self.idxs@.len(),
                out@.len() == j,
                forall|i: int| 0 <= i < self.idxs_spec().len() ==> #[trigger] self.idxs_spec()[i] < self.seq_spec().len(),
                forall|i: int| 0 <= i < j ==> *(#[trigger] out@[i]) == self.seq_spec()[self.idxs_spec()[i] as int],
            decreases self.idxs@.len() - j,
        {
            proof {
                assert(self.idxs_spec()[j as int] < self.seq_spec().len());
            }
            out.push(&self.seq[self.idxs[j]]);
            j = j + 1;
        }
        out
    }

    fn min_value(&self, pos: usize) -> (r: usize)
        ensures
            r == pos,
    {
        pos
    }

    fn max_value(&self, pos: usize) -> (r: usize)
        requires
            self.idxs@.len() <= self.seq@.len(),
            pos < self.idxs@.len(),
        ensures
            r == self.seq@.len() - self.idxs@.len() + pos,
    {
        self.seq.len() - self.idxs.len() + pos
    }

    fn pos_valid(&self, pos: usize) -> (r: bool)
        requires
            self.idxs@.len() <= self.seq@.len(),
            pos < self.idxs@.len(),
        ensures
            r == pos_ok(self.seq@.len() as int, self.idxs@.len() as int, pos as int, self.idxs@[pos as int] as int),
    {
        let val = self.idxs[pos];
        val <= self.max_value(pos) && val >= self.min_value(pos)
    }

    /// Moves to the next choice: raises the last position that can still be raised
    /// (or else the first one), and puts the positions after it right after it.
    fn increment(&mut self)
        requires
            old(self).bounded(),
            1 <= old(self).idxs@.len() <= old(self).seq@.len() < usize::MAX,
            old(self).idxs@[0] + old(self).idxs@.len() < usize::MAX,
        ensures
            final(self).bounded(),
            final(self).started == old(self).started,
            final(self).seq == old(self).seq,
            final(self).idxs@.len() == old(self).idxs@.len(),
            exists|p: int|
                0 <= p < old(self).idxs_spec().len() && #[trigger] incremented_at(
                    old(self).seq_spec().len() as int,
                    old(self).idxs_spec(),
                    final(self).idxs_spec(),
                    p,
                ),
    {
        let ghost o = self.idxs@;
        let ghost n = self.seq@.len() as int;
        let k = self.idxs.len();
        let mut pos = k;
        loop
            invariant
                self.seq == old(self).seq,
                self.started == old(self).started,
                old(self).bounded(),
                o == old(self).idxs@,
                1 <= k == o.len() <= n < usize::MAX,
                n == self.seq@.len(),
                o[0] + k < usize::MAX,
                1 <= pos <= k,
                self.idxs@.len() == k,
                forall|j: int| 0 <= j < pos ==> #[trigger] self.idxs@[j] == o[j],
                forall|j: int| pos <= j < k ==> #[trigger] self.idxs@[j] == o[j] + 1,
                forall|j: int| pos <= j < k ==> !pos_ok(n, k as int, j, #[trigger] o[j] + 1),
            decreases pos,
        {
            pos = pos - 1;
            let v = self.idxs[pos];
            proof {
                assert(o[pos as int] <= n || o[pos as int] <= o[0] + pos);
            }
            self.idxs.set(pos, v + 1);
            if pos == 0 || self.pos_valid(pos) {
                let base = self.idxs[pos];
                let mut i: usize = 1;
                while i < k - pos
                    invariant
                        self.seq == old(self).seq,
                self.started == old(self).started,
                        1 <= k == o.len() <= n < usize::MAX,
                        n == self.seq@.len(),
                        o[0] + k < usize::MAX,
                        pos < k,
                        base == o[pos as int] + 1,
                        pos == 0 || pos_ok(n, k as int, pos as int, base as int),
                        1 <= i <= k - pos,
                        self.idxs@.len() == k,
                        forall|j: int| 0 <= j <= pos ==> #[trigger] self.idxs@[j] == (if j == pos { base } else { o[j] }),
                        forall|j: int| pos < j < pos + i ==> #[trigger] self.idxs@[j] == base + (j - pos),
                    decreases k - pos - i,
                {
                    self.idxs.set(pos + i, base + i);
                    i = i + 1;
                }
                proof {
                    assert(incremented_at(n, o, self.idxs@, pos as int));
                    assert(incremented_at(
                        old(self).seq_spec().len() as int,
                        old(self).idxs_spec(),
                        self.idxs_spec(),
                        pos as int,
                    ));
                    assert forall|j: int| 0 <= j < self.idxs@.len() implies #[trigger] self.idxs@[j] <= self.seq@.len()
                        || self.idxs@[j] <= self.idxs@[0] + j by {
                        if j < pos {
                            assert(o[j] <= n || o[j] <= o[0] + j);
                        }
                    }
                }
                return;
            }
        }
    }
}

/// `after` comes from `before` by raising position `p` by one and putting the positions
/// after it right after it, where every position after `p` could not be raised, and `p`
/// could be raised or is the first.
pub open spec fn incremented_at(n: int, before: Seq<usize>, after: Seq<usize>, p: int) -> bool {
    let k = before.len() as int;
    &&& after.len() == k
    &&& forall|j: int| 0 <= j < p ==> #[trigger] after[j] == before[j]
    &&& after[p] == before[p] + 1
    &&& forall|j: int| p < j < k ==> #[trigger] after[j] == after[p] + (j - p)
    &&& forall|j: int| p < j < k ==> !pos_ok(n, k, j, #[trigger] before[j] + 1)
    &&& (p == 0 || pos_ok(n, k, p, before[p] + 1))
}

impl<'t, T> SubSeqs<'t, T> {
    /// Moves to the next choice: the first move lands on the first choice, and every
    /// later one on the choice right after the current one in lexicographic order, so
    /// that every choice is visited once, in order. Returns whether the subsequences are
    /// depleted: whether the first position has moved beyond the last choice.
    pub fn next(&mut self) -> (r: bool)
        requires
            old(self).wf(),
            1 <= old(self).idxs_spec().len() <= old(self).seq_spec().len() < usize::MAX,
            old(self).idxs_spec()[0] + old(self).idxs_spec().len() < usize::MAX,
        ensures
            final(self).wf(),
            final(self).started_spec(),
            final(self).seq_spec() == old(self).seq_spec(),
            final(self).idxs_spec().len() == old(self).idxs_spec().len(),
            r == !pos_ok(
                old(self).seq_spec().len() as int,
                old(self).idxs_spec().len() as int,
                0,
                final(self).idxs_spec()[0] as int,
            ),
            !r ==> is_choice_of(old(self).seq_spec().len() as int, final(self).idxs_spec()),
            !old(self).started_spec() ==> final(self).idxs_spec() == old(self).idxs_spec() && !r && forall|c: Seq<usize>|
                c.len() == old(self).idxs_spec().len() && #[trigger] is_choice_of(old(self).seq_spec().len() as int, c)
                    ==> lex_le(final(self).idxs_spec(), c),
            old(self).started_spec() ==> exists|p: int|
                0 <= p < old(self).idxs_spec().len() && #[trigger] incremented_at(
                    old(self).seq_spec().len() as int,
                    old(self).idxs_spec(),
                    final(self).idxs_spec(),
                    p,
                ),
            old(self).started_spec() && is_choice_of(old(self).seq_spec().len() as int, old(self).idxs_spec()) ==> {
                &&& !r ==> lex_lt(old(self).idxs_spec(), final(self).idxs_spec())
                &&& forall|c: Seq<usize>|
                    #[trigger] is_choice_of(old(self).seq_spec().len() as int, c) && lex_lt(old(self).idxs_spec(), c)
                        ==> !r && lex_le(final(self).idxs_spec(), c)
            },
            old(self).started_spec() && !is_choice_of(old(self).seq_spec().len() as int, old(self).idxs_spec()) ==> r,
            sub_seqs_step(*old(self), *final(self), r),
    {
        let ghost n = self.seq@.len() as int;
        let ghost k = self.idxs@.len() as int;
        let ghost o = self.idxs@;
        if !self.started {
            self.started = true;
            proof {
                assert(is_choice_of(n, o)) by {
                    assert forall|j: int| 0 <= j < o.len() implies pos_ok(n, k, j, #[trigger] o[j] as int) && (j + 1 < o.len()
                        ==> o[j] < o[j + 1]) by {
                        assert(o[j] == j as usize);
                        if j + 1 < o.len() {
                            assert(o[j + 1] == (j + 1) as usize);
                        }
                    }
                }
                assert forall|c: Seq<usize>| c.len() == k && #[trigger] is_choice_of(n, c) implies lex_le(o, c) by {
                    lemma_first_choice_least(n, o, c);
                }
            }
            return !self.pos_valid(0);
        }
        self.increment();
        proof {
            let p = choose|p: int| 0 <= p < k && #[trigger] incremented_at(n, o, self.idxs@, p);
            if is_choice_of(n, o) {
                lemma_successor(n, o, self.idxs@, p);
                if pos_ok(n, k, 0, self.idxs@[0] as int) {
                    law_next_keeps_choice(n, o, self.idxs@, p);
                }
            } else {
                assert(!pos_ok(n, k, 0, o[0] as int));
                if p > 0 {
                    assert(self.idxs@[0] == o[0]);
                }
            }
        }
        !self.pos_valid(0)
    }
}

/// `b` is the cursor `a` after one call of `next`, which returned `r`.
pub open spec fn sub_seqs_step<'t, T>(a: SubSeqs<'t, T>, b: SubSeqs<'t, T>, r: bool) -> bool {
    let n = a.seq_spec().len() as int;
    let k = a.idxs_spec().len();
    &&& b.seq_spec() == a.seq_spec()
    &&& b.idxs_spec().len() == k
    &&& b.started_spec()
    &&& !r ==> is_choice_of(n, b.idxs_spec())
    &&& !a.started_spec() ==> !r && forall|c: Seq<usize>|
        c.len() == k && #[trigger] is_choice_of(n, c) ==> lex_le(b.idxs_spec(), c)
    &&& a.started_spec() && is_choice_of(n, a.idxs_spec()) ==> {
        &&& !r ==> lex_lt(a.idxs_spec(), b.idxs_spec())
        &&& forall|c: Seq<usize>|
            #[trigger] is_choice_of(n, c) && lex_lt(a.idxs_spec(), c) ==> !r && lex_le(b.idxs_spec(), c)
    }
}

/// Of two different sequences of one length, one comes before the other.
pub proof fn lemma_lex_total(a: Seq<usize>, b: Seq<usize>)
    requires
        a.len() == b.len(),
    ensures
        lex_lt(a, b) || a == b || lex_lt(b, a),
{
    if a != b {
        let q = lemma_first_diff(a, b);
        if a[q] < b[q] {
            assert(lex_lt(a, b));
        } else {
            assert(forall|j: int| 0 <= j < q ==> b[j] == a[j]);
            assert(lex_lt(b, a));
        }
    }
}

/// The lexicographic order is transitive and never relates a sequence to itself.
pub proof fn lemma_lex_order(a: Seq<usize>, b: Seq<usize>, c: Seq<usize>)
    ensures
        !lex_lt(a, a),
        lex_lt(a, b) && lex_lt(b, c) ==> lex_lt(a, c),
        lex_lt(a, b) ==> !lex_lt(b, a),
{
    if lex_lt(a, b) && lex_lt(b, c) {
        let p = choose|q: int| 0 <= q < a.len() && (forall|j: int| 0 <= j < q ==> a[j] == b[j]) && #[trigger] a[q] < b[q];
        let q = choose|q: int| 0 <= q < b.len() && (forall|j: int| 0 <= j < q ==> b[j] == c[j]) && #[trigger] b[q] < c[q];
        let m = if p < q { p } else { q };
        assert(forall|j: int| 0 <= j < m ==> a[j] == c[j]);
        assert(a[m] < c[m]);
    }
    if lex_lt(a, b) && lex_lt(b, a) {
        let p = choose|q: int| 0 <= q < a.len() && (forall|j: int| 0 <= j < q ==> a[j] == b[j]) && #[trigger] a[q] < b[q];
        let q = choose|q: int| 0 <= q < b.len() && (forall|j: int| 0 <= j < q ==> b[j] == a[j]) && #[trigger] b[q] < a[q];
        if p < q {
            assert(b[p] == a[p]);
        } else if q < p {
            assert(a[q] == b[q]);
        }
    }
}

/// Running a fresh cursor until it reports depletion visits every choice of `k` positions
/// out of `n` exactly once, in lexicographic order: the positions after the calls that
/// did not report depletion are all choices, each after the one before, and every choice
/// is among them.
pub proof fn law_sub_seqs_run<'t, T>(sts: Seq<SubSeqs<'t, T>>, rs: Seq<bool>)
    requires
        sts.len() == rs.len() + 1,
        !sts[0].started_spec(),
        1 <= sts[0].idxs_spec().len() <= sts[0].seq_spec().len(),
        forall|j: int| 0 <= j < rs.len() ==> #[trigger] sub_seqs_step(sts[j], sts[j + 1], rs[j]),
        rs.len() >= 1,
        rs.last(),
        forall|j: int| 0 <= j < rs.len() - 1 ==> !#[trigger] rs[j],
    ensures
        rs.len() >= 2,
        forall|i: int|
            1 <= i < rs.len() ==> is_choice_of(sts[0].seq_spec().len() as int, #[trigger] sts[i].idxs_spec()),
        forall|i: int, j: int|
            1 <= i < j < rs.len() ==> lex_lt(#[trigger] sts[i].idxs_spec(), #[trigger] sts[j].idxs_spec()),
        forall|c: Seq<usize>|
            c.len() == sts[0].idxs_spec().len() && #[trigger] is_choice_of(sts[0].seq_spec().len() as int, c)
                ==> exists|i: int| 1 <= i < rs.len() && #[trigger] sts[i].idxs_spec() == c,
{
    let n = sts[0].seq_spec().len() as int;
    let k = sts[0].idxs_spec().len();
    if rs.len() == 1 {
        let z = 0int;
        assert(sub_seqs_step(sts[z], sts[z + 1], rs[z]));
        assert(rs[z] == rs.last());
        assert(false);
    }
    assert forall|i: int| 1 <= i < rs.len() implies is_choice_of(n, #[trigger] sts[i].idxs_spec()) by {
        lemma_run_at(sts, rs, i);
    }
    let m = rs.len() as int;
    assert forall|i: int, j: int| 1 <= i < j < m implies lex_lt(#[trigger] sts[i].idxs_spec(), #[trigger] sts[j].idxs_spec()) by {
        lemma_run_increasing(sts, rs, i, j);
    }
    assert forall|c: Seq<usize>| c.len() == k && #[trigger] is_choice_of(n, c) implies exists|i: int|
        1 <= i < m && #[trigger] sts[i].idxs_spec() == c by {
        let last = sts[m - 1].idxs_spec();
        lemma_run_at(sts, rs, m - 1);
        assert(sub_seqs_step(sts[m - 1], sts[(m - 1) + 1], rs[m - 1]));
        lemma_lex_total(last, c);
        if lex_lt(last, c) {
            assert(false);
        }
        lemma_run_covers(sts, rs, m - 1, c);
    }
}

/// State `i` of the run has the cursor's sequence and length; after the first call the
/// cursor has started, and the calls before the last gave choices.
proof fn lemma_run_at<'t, T>(sts: Seq<SubSeqs<'t, T>>, rs: Seq<bool>, i: int)
    requires
        sts.len() == rs.len() + 1,
        forall|j: int| 0 <= j < rs.len() ==> #[trigger] sub_seqs_step(sts[j], sts[j + 1], rs[j]),
        forall|j: int| 0 <= j < rs.len() - 1 ==> !#[trigger] rs[j],
        0 <= i <= rs.len(),
    ensures
        sts[i].seq_spec() == sts[0].seq_spec(),
        sts[i].idxs_spec().len() == sts[0].idxs_spec().len(),
        i >= 1 ==> sts[i].started_spec(),
        1 <= i < rs.len() ==> is_choice_of(sts[0].seq_spec().len() as int, sts[i].idxs_spec()),
    decreases i,
{
    if i > 0 {
        lemma_run_at(sts, rs, i - 1);
        let j = i - 1;
        assert(sub_seqs_step(sts[j], sts[j + 1], rs[j]));
        if i < rs.len() {
            assert(!rs[j]);
        }
    }
}

/// Along the run, the choices visited increase.
proof fn lemma_run_increasing<'t, T>(sts: Seq<SubSeqs<'t, T>>, rs: Seq<bool>, i: int, j: int)
    requires
        sts.len() == rs.len() + 1,
        forall|j: int| 0 <= j < rs.len() ==> #[trigger] sub_seqs_step(sts[j], sts[j + 1], rs[j]),
        forall|j: int| 0 <= j < rs.len() - 1 ==> !#[trigger] rs[j],
        1 <= i < j < rs.len(),
    ensures
        lex_lt(sts[i].idxs_spec(), sts[j].idxs_spec()),
    decreases j - i,
{
    let p = j - 1;
    lemma_run_at(sts, rs, p);
    assert(sub_seqs_step(sts[p], sts[p + 1], rs[p]));
    assert(!rs[p]);
    assert(sts[p].started_spec());
    assert(is_choice_of(sts[0].seq_spec().len() as int, sts[p].idxs_spec()));
    if i < p {
        lemma_run_increasing(sts, rs, i, p);
        lemma_lex_order(sts[i].idxs_spec(), sts[p].idxs_spec(), sts[j].idxs_spec());
    }
}

/// Every choice no later than the one visited at step `t` was visited by then.
proof fn lemma_run_covers<'t, T>(sts: Seq<SubSeqs<'t, T>>, rs: Seq<bool>, t: int, c: Seq<usize>)
    requires
        sts.len() == rs.len() + 1,
        !sts[0].started_spec(),
        forall|j: int| 0 <= j < rs.len() ==> #[trigger] sub_seqs_step(sts[j], sts[j + 1], rs[j]),
        forall|j: int| 0 <= j < rs.len() - 1 ==> !#[trigger] rs[j],
        1 <= t < rs.len(),
        c.len() == sts[0].idxs_spec().len(),
        is_choice_of(sts[0].seq_spec().len() as int, c),
        lex_le(c, sts[t].idxs_spec()),
    ensures
        exists|i: int| 1 <= i <= t && #[trigger] sts[i].idxs_spec() == c,
    decreases t,
{
    let n = sts[0].seq_spec().len() as int;
    let p = t - 1;
    lemma_run_at(sts, rs, p);
    lemma_run_at(sts, rs, t);
    assert(sub_seqs_step(sts[p], sts[p + 1], rs[p]));
    assert(!rs[p]);
    let v = sts[t].idxs_spec();
    if c == v {
        assert(sts[t].idxs_spec() == c);
    } else if t == 1 {
        assert(lex_le(v, c));
        lemma_lex_order(c, v, c);
        assert(false);
    } else {
        let u = sts[p].idxs_spec();
        assert(sts[p].started_spec());
        assert(is_choice_of(n, u));
        lemma_lex_total(u, c);
        if lex_lt(u, c) {
            assert(lex_le(v, c));
            lemma_lex_order(c, v, c);
            assert(false);
        }
        lemma_run_covers(sts, rs, p, c);
    }
}

/// The first choice `0, 1, .., k - 1` comes first among all choices.
proof fn lemma_first_choice_least(n: int, first: Seq<usize>, c: Seq<usize>)
    requires
        first.len() == c.len(),
        forall|j: int| 0 <= j < first.len() ==> #[trigger] first[j] == j as usize,
        is_choice_of(n, c),
    ensures
        lex_le(first, c),
{
    if first != c {
        let q = lemma_first_diff(first, c);
        assert(pos_ok(n, c.len() as int, q, c[q] as int));
        assert(first[q] < c[q]);
    }
}

/// Two different sequences of one length first differ at some position.
proof fn lemma_first_diff(a: Seq<usize>, b: Seq<usize>) -> (q: int)
    requires
        a.len() == b.len(),
        a != b,
    ensures
        0 <= q < a.len(),
        forall|j: int| 0 <= j < q ==> a[j] == b[j],
        a[q] != b[q],
    decreases a.len(),
{
    if a.len() == 0 {
        assert(a =~= b);
    }
    if a[0] != b[0] {
        0
    } else {
        if a.drop_first() == b.drop_first() {
            assert forall|j: int| 0 <= j < a.len() implies a[j] == b[j] by {
                if j > 0 {
                    assert(a[j] == a.drop_first()[j - 1]);
                    assert(b[j] == b.drop_first()[j - 1]);
                }
            }
            assert(a =~= b);
        }
        let q1 = lemma_first_diff(a.drop_first(), b.drop_first());
        assert forall|j: int| 0 <= j < q1 + 1 implies a[j] == b[j] by {
            if j > 0 {
                assert(a[j] == a.drop_first()[j - 1]);
                assert(b[j] == b.drop_first()[j - 1]);
            }
        }
        assert(a[q1 + 1] == a.drop_first()[q1]);
        assert(b[q1 + 1] == b.drop_first()[q1]);
        q1 + 1
    }
}

/// In a choice, each position is at least its distance beyond an earlier one.
proof fn lemma_choice_spread(n: int, c: Seq<usize>, p: int, j: int)
    requires
        is_choice_of(n, c),
        0 <= p <= j < c.len(),
    ensures
        c[j] >= c[p] + (j - p),
    decreases j - p,
{
    if p < j {
        lemma_choice_spread(n, c, p, j - 1);
        assert(pos_ok(n, c.len() as int, j - 1, c[j - 1] as int) && (j - 1 + 1 < c.len() ==> c[j - 1] < c[j]));
    }
}

/// Raising a choice at `p` gives the least choice after it; when the first position
/// moves beyond every choice, no choice comes after it.
proof fn lemma_successor(n: int, old: Seq<usize>, new: Seq<usize>, p: int)
    requires
        1 <= old.len() <= n,
        0 <= p < old.len(),
        is_choice_of(n, old),
        incremented_at(n, old, new, p),
    ensures
        pos_ok(n, old.len() as int, 0, new[0] as int) ==> lex_lt(old, new),
        forall|c: Seq<usize>|
            #[trigger] is_choice_of(n, c) && lex_lt(old, c) ==> pos_ok(n, old.len() as int, 0, new[0] as int)
                && lex_le(new, c),
{
    let k = old.len() as int;
    assert forall|j: int| p < j < k implies #[trigger] old[j] == n - k + j by {
        assert(pos_ok(n, k, j, old[j] as int));
        assert(!pos_ok(n, k, j, old[j] + 1));
    }
    if pos_ok(n, k, 0, new[0] as int) {
        assert(old[p] < new[p]);
        assert(lex_lt(old, new));
    }
    assert forall|c: Seq<usize>| #[trigger] is_choice_of(n, c) && lex_lt(old, c) implies pos_ok(n, k, 0, new[0] as int)
        && lex_le(new, c) by {
        let q = choose|q: int| 0 <= q < old.len() && (forall|j: int| 0 <= j < q ==> old[j] == c[j]) && #[trigger] old[q] < c[q];
        assert(pos_ok(n, k, q, c[q] as int));
        if q > p {
            assert(old[q] == n - k + q);
            assert(false);
        }
        if p > 0 {
            assert(new[0] == old[0]);
            assert(pos_ok(n, k, 0, old[0] as int));
        } else {
            if q == 0 {
                assert(pos_ok(n, k, 0, c[0] as int));
            } else {
                assert(false);
            }
        }
        if q < p {
            assert(new[q] == old[q]);
            assert(forall|j: int| 0 <= j < q ==> new[j] == c[j]);
            assert(lex_lt(new, c));
        } else {
            assert(q == p);
            if c[p] > new[p] {
                assert(forall|j: int| 0 <= j < p ==> new[j] == c[j]);
                assert(lex_lt(new, c));
            } else {
                assert(c[p] == new[p]);
                if new != c {
                    let d = lemma_first_diff(new, c);
                    if d < p {
                        assert(new[d] == old[d]);
                        assert(old[d] == c[d]);
                    }
                    assert(d > p);
                    lemma_choice_spread(n, c, p, d);
                    assert(new[d] == new[p] + (d - p));
                    assert(new[d] < c[d]);
                    assert(lex_lt(new, c));
                }
            }
        }
    }
}

/// Moving on from a choice gives a choice again, unless the positions are depleted.
pub proof fn law_next_keeps_choice(n: int, before: Seq<usize>, after: Seq<usize>, p: int)
    requires
        1 <= before.len() <= n,
        0 <= p < before.len(),
        forall|j: int|
            0 <= j < before.len() ==> pos_ok(n, before.len() as int, j, #[trigger] before[j] as int) && (j + 1
                < before.len() ==> before[j] < before[j + 1]),
        incremented_at(n, before, after, p),
        pos_ok(n, before.len() as int, 0, after[0] as int),
    ensures
        forall|j: int|
            0 <= j < after.len() ==> pos_ok(n, after.len() as int, j, #[trigger] after[j] as int) && (j + 1
                < after.len() ==> after[j] < after[j + 1]),
{
    let k = before.len() as int;
    assert(pos_ok(n, k, p, after[p] as int)) by {
        if p == 0 {
        } else {
            assert(pos_ok(n, k, p, before[p] + 1));
        }
    }
    assert forall|j: int| 0 <= j < after.len() implies pos_ok(n, after.len() as int, j, #[trigger] after[j] as int)
        && (j + 1 < after.len() ==> after[j] < after[j + 1]) by {
        if j < p {
            assert(pos_ok(n, k, j, before[j] as int));
            if j + 1 < p {
                assert(before[j] < before[j + 1]);
            } else {
                assert(before[j] < before[j + 1]);
            }
        }
    }
}

/// Collects the numbers of n-grams that make up a subset; a number no greater than one
/// collected before is passed over, so each n-gram is collected once.
#[derive(Debug)]
pub struct NGramsSubsetBuilder<T> {
    nums: Vec<Num<NGram<T>>>,
    next_allowed: usize,
}

/// In a strictly increasing sequence of numbers, the number at `i` is at least `i`.
proof fn lemma_increasing_at_least_index<D>(s: Seq<Num<D>>, i: int)
    requires
        0 <= i < s.len(),
        forall|a: int, b: int| 0 <= a < b < s.len() ==> (#[trigger] s[a])@ < (#[trigger] s[b])@,
    ensures
        i <= s[i]@,
    decreases i,
{
    if i > 0 {
        lemma_increasing_at_least_index(s, i - 1);
        assert(s[i - 1]@ < s[i]@);
    }
}

/// The rows of `t` numbered by `nums`, one after another.
pub open spec fn gathered<D, T>(t: SeqTable<D, T>, nums: Seq<Num<D>>) -> Seq<T>
    decreases nums.len(),
{
    if nums.len() == 0 {
        Seq::empty()
    } else {
        gathered(t, nums.drop_last()) + t.row_spec(nums.last()@ as int)
    }
}

impl<T> NGramsSubsetBuilder<T> {
    /// The numbers collected so far.
    pub closed spec fn nums_spec(&self) -> Seq<Num<NGram<T>>> {
        self.nums@
    }

    /// The smallest number that can still be collected.
    pub closed spec fn next_allowed_spec(&self) -> nat {
        self.next_allowed as nat
    }

    /// The numbers are strictly increasing and all below the next allowed one.
    pub closed spec fn wf(&self) -> bool {
        &&& forall|i: int, j: int| 0 <= i < j < self.nums@.len() ==> (#[trigger] self.nums@[i])@ < (#[trigger] self.nums@[j])@
        &&& forall|i: int| 0 <= i < self.nums@.len() ==> (#[trigger] self.nums@[i])@ < self.next_allowed
        &&& self.next_allowed == if self.nums@.len() == 0 {
            0
        } else {
            self.nums@.last()@ + 1
        }
    }

    /// The collected numbers increase strictly and lie below the next allowed one.
    pub proof fn lemma_wf(&self)
        requires
            self.wf(),
        ensures
            forall|i: int, j: int| 0 <= i < j < self.nums_spec().len() ==> (#[trigger] self.nums_spec()[i])@ < (#[trigger] self.nums_spec()[j])@,
            forall|i: int| 0 <= i < self.nums_spec().len() ==> (#[trigger] self.nums_spec()[i])@ < self.next_allowed_spec(),
            self.nums_spec().len() <= self.next_allowed_spec(),
    {
        if self.nums@.len() > 0 {
            assert forall|i: int| 0 <= i < self.nums@.len() implies i <= (#[trigger] self.nums@[i])@ by {
                lemma_increasing_at_least_index(self.nums@, i);
            }
            assert(self.nums@.len() - 1 <= self.nums@[self.nums@.len() - 1]@);
        }
    }

    pub fn new() -> (r: Self)
        ensures
            r.wf(),
            r.nums_spec().len() == 0,
            r.next_allowed_spec() == 0,
    {
        NGramsSubsetBuilder { nums: Vec::new(), next_allowed: 0 }
    }

    /// Collects `num` unless it is below the next allowed number, which then moves past it.
    pub fn push(&mut self, num: Num<NGram<T>>)
        requires
            old(self).wf(),
            num@ < usize::MAX,
        ensures
            final(self).wf(),
            num@ >= old(self).next_allowed_spec() ==> final(self).nums_spec() == old(self).nums_spec().push(num)
                && final(self).next_allowed_spec() == num@ + 1,
            num@ < old(self).next_allowed_spec() ==> final(self).nums_spec() == old(self).nums_spec()
                && final(self).next_allowed_spec() == old(self).next_allowed_spec(),
            (num@ >= old(self).next_allowed_spec()) == (old(self).nums_spec().len() == 0 || num@ > old(
                self,
            ).nums_spec().last()@),
    {
        if num.as_usize() >= self.next_allowed {
            self.nums.push(num);
            self.next_allowed = num.as_usize() + 1;
        }
    }

    /// The subset of `ngrams` made of the collected numbers, in the order collected.
    pub fn build<F: Copy>(&self, ngrams: &NGrams<T, F>) -> (r: NGrams<T, F>)
        requires
            forall|i: int|
                0 <= i < self.nums_spec().len() ==> ngrams.elements.has_row((#[trigger] self.nums_spec()[i])@ as int)
                    && self.nums_spec()[i]@ < ngrams.freqs@.len(),
            self.nums_spec().len() * ngrams.elements.seq_len_spec() <= usize::MAX,
        ensures
            r.elements.seq_len_spec() == ngrams.elements.seq_len_spec(),
            r.elements.elems_spec() == gathered(ngrams.elements, self.nums_spec()),
            r.freqs@.len() == self.nums_spec().len(),
            forall|i: int| 0 <= i < self.nums_spec().len() ==> #[trigger] r.freqs@[i] == ngrams.freqs@[self.nums_spec()[i]@ as int],
    {
        let seq_len = ngrams.elements.seq_len();
        let mut elems: Vec<Num<T>> = Vec::with_capacity(self.nums.len() * seq_len);
        let mut freqs: Vec<F> = Vec::with_capacity(self.nums.len());
        let mut i: usize = 0;
        proof {
            assert(elems@ =~= gathered(ngrams.elements, self.nums@.subrange(0, 0)));
        }
        while i < self.nums.len()
            invariant
                i <= self.nums@.len(),
                seq_len == ngrams.elements.seq_len_spec(),
                forall|i: int|
                    0 <= i < self.nums_spec().len() ==> ngrams.elements.has_row((#[trigger] self.nums_spec()[i])@ as int)
                        && self.nums_spec()[i]@ < ngrams.freqs@.len(),
                elems@ == gathered(ngrams.elements, self.nums@.subrange(0, i as int)),
                freqs@.len() == i,
                forall|j: int| 0 <= j < i ==> #[trigger] freqs@[j] == ngrams.freqs@[self.nums@[j]@ as int],
            decreases self.nums@.len() - i,
        {
            let num = self.nums[i];
            proof {
                assert(self.nums_spec()[i as int] == num);
            }
            let row = ngrams.elements.row(num);
            let ghost before = elems@;
            let mut j: usize = 0;
            while j < row.len()
                invariant
                    j <= row@.len(),
                    elems@ == before + row@.subrange(0, j as int),
                decreases row@.len() - j,
            {
                elems.push(row[j]);
                j = j + 1;
                proof {
                    assert(elems@ =~= before + row@.subrange(0, j as int));
                }
            }
            freqs.push(*ngrams.freqs.get(num));
            proof {
                assert(row@.subrange(0, row@.len() as int) =~= row@);
                let pre = self.nums@.subrange(0, i + 1);
                assert(pre.drop_last() =~= self.nums@.subrange(0, i as int));
                assert(pre.last() == num);
            }
            i = i + 1;
        }
        proof {
            assert(self.nums@.subrange(0, self.nums@.len() as int) =~= self.nums@);
        }
        NGrams { elements: SeqTable::from_elem_vec(elems, seq_len), freqs: Table::from_vec(freqs) }
    }
}

} // verus!

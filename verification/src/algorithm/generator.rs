use vstd::prelude::*;

use crate::cat::num::{Num, nums_view};
use crate::cat::seq::seq_value;
use crate::data::domain_walker::{DomainWalker, allowed, allowed_values};
use crate::data::types::{Assignment, Domain, Key, Value};

verus! {

broadcast use crate::cat::num::lemma_num_view_eq, crate::cat::num::lemma_num_of_view,
    vstd::std_specs::vec::axiom_spec_len;

/// The base in which the search positions are read as one number.
pub open spec fn digit_base() -> int {
    usize::MAX + 1
}

/// Two digit sequences of one length that agree before position `j` and differ there
/// are ordered as their digits at `j` are.
proof fn lemma_lex_less(a: Seq<usize>, b: Seq<usize>, j: int)
    requires
        a.len() == b.len(),
        0 <= j < a.len(),
        forall|i: int| 0 <= i < j ==> #[trigger] a[i] == b[i],
        a[j] < b[j],
    ensures
        seq_value(a, digit_base()) < seq_value(b, digit_base()),
    decreases a.len(),
{
    let base = digit_base();
    let l = a.len();
    let pa = a.drop_last();
    let pb = b.drop_last();
    if j == l - 1 {
        assert(pa =~= pb);
    } else {
        assert forall|i: int| 0 <= i < j implies #[trigger] pa[i] == pb[i] by {
            assert(a[i] == b[i]);
        }
        lemma_lex_less(pa, pb, j);
        let va = seq_value(pa, base);
        let vb = seq_value(pb, base);
        let la = a.last() as int;
        let lb = b.last() as int;
        assert(va * base + la < vb * base + lb) by (nonlinear_arith)
            requires
                va < vb,
                0 <= la < base,
                0 <= lb,
        ;
    }
}

/// A sequence of distinct numbers below `n` has at most `n` elements.
proof fn lemma_distinct_bound(s: Seq<usize>, n: nat)
    requires
        s.no_duplicates(),
        forall|i: int| 0 <= i < s.len() ==> #[trigger] s[i] < n,
    ensures
        s.len() <= n,
    decreases n,
{
    if n == 0 {
        if s.len() > 0 {
            assert(s[0] < n);
        }
    } else {
        let top = (n - 1) as usize;
        if exists|i: int| 0 <= i < s.len() && s[i] == top {
            let i = choose|i: int| 0 <= i < s.len() && s[i] == top;
            let t = s.remove(i);
            assert forall|k: int| 0 <= k < t.len() implies #[trigger] t[k] < (n - 1) as nat by {
                if k < i {
                    assert(t[k] == s[k]);
                    assert(s[k] != s[i]);
                } else {
                    assert(t[k] == s[k + 1]);
                    assert(s[k + 1] != s[i]);
                }
            }
            assert(t.no_duplicates()) by {
                assert forall|p: int, q: int| 0 <= p < t.len() && 0 <= q < t.len() && p != q implies t[p] != t[q] by {
                    let sp = if p < i { p } else { p + 1 };
                    let sq = if q < i { q } else { q + 1 };
                    assert(t[p] == s[sp]);
                    assert(t[q] == s[sq]);
                }
            }
            lemma_distinct_bound(t, (n - 1) as nat);
        } else {
            assert forall|k: int| 0 <= k < s.len() implies #[trigger] s[k] < (n - 1) as nat by {
                assert(s[k] != top);
            }
            lemma_distinct_bound(s, (n - 1) as nat);
        }
    }
}

/// One level of the search: a key, the values it can take, and the one it has now.
struct Step {
    key_num: Num<Key>,
    values: Vec<Num<Value>>,
    pos: usize,
}

impl Step {
    fn new(key_num: Num<Key>, values: Vec<Num<Value>>) -> (r: Self)
        ensures
            r.key_num == key_num,
            r.values@ == values@,
            r.pos == 0,
    {
        Step { key_num, values, pos: 0 }
    }

    fn advance(&mut self)
        requires
            old(self).pos < usize::MAX,
        ensures
            final(self).key_num == old(self).key_num,
            final(self).values == old(self).values,
            final(self).pos == old(self).pos + 1,
    {
        self.pos = self.pos + 1;
    }

    fn has_next(&self) -> (r: bool)
        requires
            self.values@.len() >= 1,
        ensures
            r == (self.pos < self.values@.len() - 1),
    {
        self.pos < self.values.len() - 1
    }

    fn assignment(&self) -> (r: Assignment)
        requires
            self.pos < self.values@.len(),
        ensures
            r.key_num == self.key_num,
            r.value_num == self.values@[self.pos as int],
    {
        Assignment { key_num: self.key_num, value_num: self.values[self.pos] }
    }
}

/// Why the search ended without assigning every key.
#[derive(Debug, Clone, Copy, PartialEq, Eq, Structural)]
pub enum GenerateError {
    NoMoreCandidates,
}

/// Searches for an assignment of every key of a domain that all restrictions allow, by
/// depth-first search with backtracking.
pub struct Backtracker<'d> {
    domain_walker: DomainWalker<'d>,
    stack: Vec<Step>,
    unassigned: Vec<bool>,
}

impl<'d> Backtracker<'d> {
    pub closed spec fn domain_spec(&self) -> Domain {
        self.domain_walker.domain_spec()
    }

    /// The value assigned to each key, if any.
    pub closed spec fn mapping_spec(&self) -> Seq<Option<Num<Value>>> {
        self.domain_walker.mapping_spec()
    }

    /// How deep the search is: the number of keys it has assigned.
    pub closed spec fn depth(&self) -> nat {
        self.stack@.len()
    }

    /// For each level of the search the number of values still to try there; levels not
    /// reached count as the largest digit.
    closed spec fn digits(&self) -> Seq<usize> {
        Seq::new(
            self.domain_spec().key_count(),
            |i: int|
                if i < self.stack@.len() {
                    (self.stack@[i].values@.len() - 1 - self.stack@[i].pos) as usize
                } else {
                    usize::MAX
                },
        )
    }

    /// Every solution is still ahead of the search.
    pub closed spec fn no_solution_lost(&self) -> bool {
        forall|s: Seq<usize>| is_solution(self.domain_spec(), s) ==> covered(s, self.stack@)
    }

    /// No solution gives the keys the values they have now.
    pub closed spec fn none_here(&self) -> bool {
        forall|s: Seq<usize>| is_solution(self.domain_spec(), s) ==> !agrees(s, self.stack@, self.stack@.len() as int)
    }

    /// What is left of the search, as one number; every step lowers it.
    pub closed spec fn measure(&self) -> int {
        seq_value(self.digits(), digit_base())
    }

    pub closed spec fn wf(&self) -> bool {
        let d = self.domain_spec();
        let m = self.mapping_spec();
        let st = self.stack@;
        &&& self.domain_walker.wf()
        &&& d.lists_bounded()
        &&& st.len() <= d.key_count()
        &&& self.unassigned@.len() == d.key_count()
        &&& forall|i: int|
            0 <= i < st.len() ==> {
                &&& 1 <= (#[trigger] st[i]).values@.len() <= usize::MAX
                &&& st[i].pos < st[i].values@.len()
                &&& st[i].key_num@ < d.key_count()
                &&& forall|j: int| 0 <= j < st[i].values@.len() ==> (#[trigger] st[i].values@[j])@ < d.value_count()
                &&& m[st[i].key_num@ as int] == Some(st[i].values@[st[i].pos as int])
                &&& nums_view(st[i].values@).no_duplicates()
            }
        &&& forall|i: int, j: int| 0 <= i < j < st.len() ==> (#[trigger] st[i]).key_num != (#[trigger] st[j]).key_num
        &&& forall|k: int|
            0 <= k < d.key_count() ==> (#[trigger] m[k] is Some <==> exists|i: int|
                0 <= i < st.len() && st[i].key_num@ == k)
        &&& forall|k: int| 0 <= k < d.key_count() ==> #[trigger] self.unassigned@[k] == (m[k] is None)
    }
}

/// `s` gives every key a value of the domain that all restrictions allow: the key's own
/// restriction, and the constraint that every key's value puts on it.
pub open spec fn is_solution(d: Domain, s: Seq<usize>) -> bool {
    &&& s.len() == d.key_count()
    &&& forall|k: int| 0 <= k < d.key_count() ==> #[trigger] s[k] < d.value_count()
    &&& forall|k: int| 0 <= k < d.key_count() ==> d.key_restrictions@[k].allows_spec(#[trigger] s[k] as int)
    &&& forall|j: int, k: int|
        0 <= j < d.key_count() && 0 <= k < d.key_count() ==> #[trigger] d.constraint(j, k, s[j] as int).allows_spec(
            s[k] as int,
        )
}

/// `s` gives the keys of the first `i` steps the values those steps chose.
spec fn agrees(s: Seq<usize>, st: Seq<Step>, i: int) -> bool {
    forall|j: int| 0 <= j < i ==> s[(#[trigger] st[j]).key_num@ as int] == st[j].values@[st[j].pos as int]@
}

/// Step `i` has yet to try the value that `s` gives its key.
spec fn later_at(s: Seq<usize>, st: Seq<Step>, i: int) -> bool {
    exists|p: int| st[i].pos < p < st[i].values@.len() && (#[trigger] st[i].values@[p])@ == s[st[i].key_num@ as int]
}

/// The search has not passed `s` by: `s` agrees with the steps up to some step that has
/// yet to try the value of `s` there, or with all steps.
spec fn covered(s: Seq<usize>, st: Seq<Step>) -> bool {
    exists|i: int| 0 <= i <= st.len() && #[trigger] agrees(s, st, i) && (i == st.len() || later_at(s, st, i))
}

/// The keys of the steps, in order.
spec fn step_keys(st: Seq<Step>) -> Seq<usize> {
    st.map_values(|s: Step| s.key_num@)
}

impl<'d> Backtracker<'d> {
    pub fn new(domain: &'d Domain) -> (r: Self)
        requires
            domain.wf(),
            domain.lists_bounded(),
        ensures
            r.wf(),
            r.domain_spec() == *domain,
            r.depth() == 0,
            r.no_solution_lost(),
            forall|k: int| 0 <= k < domain.key_count() ==> #[trigger] r.mapping_spec()[k] is None,
    {
        let domain_walker = DomainWalker::new(domain);
        let nk = domain.keys.len();
        let stack: Vec<Step> = Vec::with_capacity(nk);
        let unassigned: Vec<bool> = vec![true; nk];
        let r = Backtracker { domain_walker, stack, unassigned };
        proof {
            assert forall|sol: Seq<usize>| is_solution(r.domain_spec(), sol) implies covered(sol, r.stack@) by {
                assert(agrees(sol, r.stack@, 0));
            }
        }
        r
    }

    /// The value assigned to each key, if any.
    pub fn mapping(&self) -> (r: &crate::cat::table::Table<Key, Option<Num<Value>>>)
        ensures
            r@ == self.mapping_spec(),
    {
        self.domain_walker.mapping()
    }

    /// An unassigned key with the fewest values left, or `None` once every key has a
    /// value.
    fn next_key(&self) -> (r: Option<Num<Key>>)
        requires
            self.wf(),
        ensures
            r is None <==> forall|k: int| 0 <= k < self.domain_spec().key_count() ==> #[trigger] self.mapping_spec()[k] is Some,
            r is Some ==> r->0@ < self.domain_spec().key_count() && self.mapping_spec()[r->0@ as int] is None,
            r is Some ==> forall|j: int|
                0 <= j < self.domain_spec().key_count() && #[trigger] self.mapping_spec()[j] is None ==> allowed_values(
                    self.domain_spec(),
                    self.mapping_spec(),
                    r->0@ as int,
                ).len() <= allowed_values(self.domain_spec(), self.mapping_spec(), j).len(),
    {
        let nk = self.unassigned.len();
        let mut best: Option<Num<Key>> = None;
        let mut best_len: usize = 0;
        let mut k: usize = 0;
        while k < nk
            invariant
                self.wf(),
                nk == self.domain_spec().key_count(),
                k <= nk,
                best is None <==> forall|j: int| 0 <= j < k ==> #[trigger] self.mapping_spec()[j] is Some,
                best is Some ==> best->0@ < k && self.mapping_spec()[best->0@ as int] is None,
                best is Some ==> best_len == allowed_values(self.domain_spec(), self.mapping_spec(), best->0@ as int).len(),
                best is Some ==> forall|j: int|
                    0 <= j < k && #[trigger] self.mapping_spec()[j] is None ==> best_len <= allowed_values(
                        self.domain_spec(),
                        self.mapping_spec(),
                        j,
                    ).len(),
            decreases nk - k,
        {
            if self.unassigned[k] {
                let key_num = crate::cat::num::to_num(k);
                let len = self.domain_walker.range_for(key_num).len();
                match best {
                    None => {
                        best = Some(key_num);
                        best_len = len;
                    },
                    Some(_) => {
                        if len < best_len {
                            best = Some(key_num);
                            best_len = len;
                        }
                    },
                }
            }
            k = k + 1;
        }
        best
    }

    /// Goes one level deeper: gives `key_num` the first of the values it can take.
    fn descend(&mut self, key_num: Num<Key>)
        requires
            old(self).wf(),
            key_num@ < old(self).domain_spec().key_count(),
            old(self).mapping_spec()[key_num@ as int] is None,
            exists|v: int|
                0 <= v < old(self).domain_spec().value_count() && allowed(
                    old(self).domain_spec(),
                    old(self).mapping_spec(),
                    key_num@ as int,
                    v,
                ),
        ensures
            final(self).wf(),
            final(self).domain_spec() == old(self).domain_spec(),
            final(self).measure() < old(self).measure(),
            old(self).no_solution_lost() ==> final(self).no_solution_lost(),
    {
        let ghost o = *self;
        let ghost d = self.domain_spec();
        let ghost key = key_num@ as int;
        proof {
            o.domain_walker.lemma_wf();
        }
        let range = self.domain_walker.range_for(key_num);
        let mut values: Vec<Num<Value>> = Vec::with_capacity(range.len());
        let mut i: usize = 0;
        while i < range.len()
            invariant
                i <= range@.len(),
                values@ == range@.subrange(0, i as int),
            decreases range@.len() - i,
        {
            values.push(range[i]);
            i = i + 1;
            proof {
                assert(values@ =~= range@.subrange(0, i as int));
            }
        }
        proof {
            assert(range@.subrange(0, range@.len() as int) =~= range@);
            let v = choose|v: int| 0 <= v < d.value_count() && allowed(d, o.mapping_spec(), key, v);
            assert(nums_view(range@).contains(v as usize));
            assert(values@.len() >= 1);
        }
        proof {
            assert(values.len() == values@.len());
        }
        let first = values[0];
        let step = Step::new(key_num, values);
        let ghost step_g = step;
        self.stack.push(step);
        proof {
            assert(self.stack@ == o.stack@.push(step_g));
        }
        proof {
            self.domain_walker.lemma_assign_fits(key, first);
        }
        self.domain_walker.assign(key_num, first);
        self.unassigned.set(key_num.as_usize(), false);
        proof {
            self.domain_walker.lemma_wf();
            let st = self.stack@;
            let m = self.mapping_spec();
            let n = o.stack@.len();
            assert(st[n as int].key_num == key_num);
            assert(st == o.stack@.push(step_g));
            assert(m == o.mapping_spec().update(key, Some(first)));
            assert forall|k: int| 0 <= k < d.key_count() implies (#[trigger] m[k] is Some <==> exists|i: int|
                0 <= i < st.len() && st[i].key_num@ == k) by {
                if k == key {
                    assert(st[n as int].key_num@ == k);
                } else {
                    assert(m[k] == o.mapping_spec()[k]);
                    assert(o.mapping_spec()[k] is Some <==> exists|i: int|
                        0 <= i < o.stack@.len() && o.stack@[i].key_num@ == k);
                    if m[k] is Some {
                        let i = choose|i: int| 0 <= i < o.stack@.len() && o.stack@[i].key_num@ == k;
                        assert(st[i] == o.stack@[i]);
                    }
                    if exists|i: int| 0 <= i < st.len() && st[i].key_num@ == k {
                        let i = choose|i: int| 0 <= i < st.len() && st[i].key_num@ == k;
                        assert(st[i] == o.stack@[i]);
                    }
                }
            }
            assert forall|i: int, j: int| 0 <= i < j < st.len() implies (#[trigger] st[i]).key_num != (#[trigger] st[j]).key_num by {
                if j == n {
                    assert(st[i] == o.stack@[i]);
                    assert(o.mapping_spec()[st[i].key_num@ as int] is Some);
                } else {
                    assert(st[i] == o.stack@[i]);
                    assert(st[j] == o.stack@[j]);
                }
            }
            assert forall|i: int| 0 <= i < st.len() implies {
                &&& 1 <= (#[trigger] st[i]).values@.len() <= usize::MAX
                &&& st[i].pos < st[i].values@.len()
                &&& st[i].key_num@ < d.key_count()
                &&& forall|j: int| 0 <= j < st[i].values@.len() ==> (#[trigger] st[i].values@[j])@ < d.value_count()
                &&& m[st[i].key_num@ as int] == Some(st[i].values@[st[i].pos as int])
                &&& nums_view(st[i].values@).no_duplicates()
            } by {
                if i < n {
                    assert(st[i] == o.stack@[i]);
                    assert(st[i].key_num@ != key);
                }
            }
            let ks = step_keys(st);
            assert forall|i: int| 0 <= i < ks.len() implies #[trigger] ks[i] < d.key_count() by {
                assert(ks[i] == st[i].key_num@);
            }
            assert(ks.no_duplicates()) by {
                assert forall|i: int, j: int| 0 <= i < ks.len() && 0 <= j < ks.len() && i != j implies ks[i] != ks[j] by {
                    if i < j {
                        assert(st[i].key_num != st[j].key_num);
                    } else {
                        assert(st[j].key_num != st[i].key_num);
                    }
                }
            }
            lemma_distinct_bound(ks, d.key_count());
            let a = self.digits();
            let b = o.digits();
            assert forall|i: int| 0 <= i < n implies #[trigger] a[i] == b[i] by {
                assert(st[i] == o.stack@[i]);
            }
            lemma_lex_less(a, b, n as int);
            if o.no_solution_lost() {
                assert forall|sol: Seq<usize>| is_solution(d, sol) implies covered(sol, st) by {
                    assert(covered(sol, o.stack@));
                    let i = choose|i: int| 0 <= i <= o.stack@.len() && #[trigger] agrees(sol, o.stack@, i) && (i == o.stack@.len() || later_at(sol, o.stack@, i));
                    assert forall|j: int| 0 <= j < i implies sol[(#[trigger] st[j]).key_num@ as int] == st[j].values@[st[j].pos as int]@ by {
                        assert(st[j] == o.stack@[j]);
                        assert(sol[(o.stack@[j]).key_num@ as int] == o.stack@[j].values@[o.stack@[j].pos as int]@);
                    }
                    assert(agrees(sol, st, i));
                    if i < n {
                        assert(st[i] == o.stack@[i]);
                        let p = choose|p: int| o.stack@[i].pos < p < o.stack@[i].values@.len() && (#[trigger] o.stack@[i].values@[p])@ == sol[o.stack@[i].key_num@ as int];
                        assert(st[i].values@[p] == o.stack@[i].values@[p]);
                        assert(later_at(sol, st, i));
                    } else {
                        o.lemma_solution_allowed(sol);
                        let v = sol[key] as int;
                        assert(allowed(d, o.mapping_spec(), key, sol[key] as int));
                        assert(nums_view(range@).contains(v as usize));
                        let p = choose|p: int| 0 <= p < nums_view(range@).len() && nums_view(range@)[p] == v as usize;
                        assert(st[n as int].values@[p]@ == sol[key]);
                        if p == 0 {
                            assert forall|j: int| 0 <= j < n + 1 implies sol[(#[trigger] st[j]).key_num@ as int] == st[j].values@[st[j].pos as int]@ by {
                                if j < n {
                                    assert(st[j] == o.stack@[j]);
                                    assert(sol[(o.stack@[j]).key_num@ as int] == o.stack@[j].values@[o.stack@[j].pos as int]@);
                                }
                            }
                            assert(agrees(sol, st, n + 1 as int));
                        } else {
                            assert(later_at(sol, st, n as int));
                        }
                    }
                }
            }
        }
    }
}

impl<'d> Backtracker<'d> {
    /// A solution that gives the keys the values they have now gives every key a value
    /// that is allowed.
    proof fn lemma_solution_allowed(&self, s: Seq<usize>)
        requires
            self.wf(),
            is_solution(self.domain_spec(), s),
            agrees(s, self.stack@, self.stack@.len() as int),
        ensures
            forall|k: int| 0 <= k < self.domain_spec().key_count() ==> allowed(self.domain_spec(), self.mapping_spec(), k, #[trigger] s[k] as int),
            forall|k: int| 0 <= k < self.domain_spec().key_count() && #[trigger] self.mapping_spec()[k] is Some ==> self.mapping_spec()[k]->0@ == s[k],
    {
        let d = self.domain_spec();
        let m = self.mapping_spec();
        let st = self.stack@;
        self.domain_walker.lemma_wf();
        assert forall|k: int| 0 <= k < d.key_count() && #[trigger] m[k] is Some implies m[k]->0@ == s[k] by {
            assert(m[k] is Some <==> exists|i: int| 0 <= i < st.len() && st[i].key_num@ == k);
            let i = choose|i: int| 0 <= i < st.len() && st[i].key_num@ == k;
            assert(m[st[i].key_num@ as int] == Some(st[i].values@[st[i].pos as int]));
            assert(s[st[i].key_num@ as int] == st[i].values@[st[i].pos as int]@);
        }
        assert forall|t: int| 0 <= t < d.key_count() implies allowed(d, m, t, #[trigger] s[t] as int) by {
            assert(d.key_restrictions@[t].allows_spec(s[t] as int));
            assert forall|k: int| 0 <= k < d.key_count() && #[trigger] m[k] is Some implies crate::data::domain_walker::active(
                d,
                m,
                k,
                t,
            ).allows_spec(s[t] as int) by {
                assert(m[k]->0@ == s[k]);
                assert(d.constraint(k, t, s[k] as int).allows_spec(s[t] as int));
            }
        }
    }

    /// What is left of the search is never negative.
    proof fn lemma_measure_nonneg(&self)
        ensures
            self.measure() >= 0,
    {
        let a = self.digits();
        assert(crate::cat::seq::digits_below(a, digit_base()));
        crate::cat::seq::law_seq_num_bijection(a, a, digit_base());
    }

    /// Goes one level up: takes back the value of the deepest key.
    fn ascend(&mut self)
        requires
            old(self).wf(),
            old(self).stack@.len() >= 1,
        ensures
            final(self).wf(),
            final(self).domain_spec() == old(self).domain_spec(),
            final(self).stack@ == old(self).stack@.drop_last(),
            old(self).no_solution_lost() && old(self).none_here() && old(self).stack@.last().pos
                == old(self).stack@.last().values@.len() - 1 ==> final(self).no_solution_lost() && final(self).none_here(),
    {
        let ghost o = *self;
        let ghost d = self.domain_spec();
        proof {
            o.domain_walker.lemma_wf();
        }
        let idx = self.stack.len() - 1;
        let a = self.stack[idx].assignment();
        self.domain_walker.unassign(a.key_num);
        self.unassigned.set(a.key_num.as_usize(), true);
        let _ = self.stack.pop();
        proof {
            self.domain_walker.lemma_wf();
            let st = self.stack@;
            let m = self.mapping_spec();
            let key = a.key_num@ as int;
            assert(st =~= o.stack@.drop_last());
            assert(m == o.mapping_spec().update(key, None));
            assert forall|i: int| 0 <= i < st.len() implies (#[trigger] st[i]).key_num@ != key by {
                assert(o.stack@[i].key_num != o.stack@[idx as int].key_num);
            }
            assert forall|k: int| 0 <= k < d.key_count() implies (#[trigger] m[k] is Some <==> exists|i: int|
                0 <= i < st.len() && st[i].key_num@ == k) by {
                assert(o.mapping_spec()[k] is Some <==> exists|i: int|
                    0 <= i < o.stack@.len() && o.stack@[i].key_num@ == k);
                if k != key {
                    if exists|i: int| 0 <= i < o.stack@.len() && o.stack@[i].key_num@ == k {
                        let i = choose|i: int| 0 <= i < o.stack@.len() && o.stack@[i].key_num@ == k;
                        assert(i != idx);
                        assert(st[i] == o.stack@[i]);
                    }
                    if exists|i: int| 0 <= i < st.len() && st[i].key_num@ == k {
                        let i = choose|i: int| 0 <= i < st.len() && st[i].key_num@ == k;
                        assert(st[i] == o.stack@[i]);
                    }
                } else {
                    if exists|i: int| 0 <= i < st.len() && st[i].key_num@ == k {
                        let i = choose|i: int| 0 <= i < st.len() && st[i].key_num@ == k;
                        assert(st[i].key_num@ != key);
                    }
                }
            }
            assert forall|i: int| 0 <= i < st.len() implies m[(#[trigger] st[i]).key_num@ as int] == Some(
                st[i].values@[st[i].pos as int],
            ) by {
                assert(st[i] == o.stack@[i]);
                assert(st[i].key_num@ != key);
            }
            assert forall|i: int, j: int| 0 <= i < j < st.len() implies (#[trigger] st[i]).key_num != (#[trigger] st[j]).key_num by {
                assert(o.stack@[i].key_num != o.stack@[j].key_num);
            }
            if o.no_solution_lost() && o.none_here() && o.stack@.last().pos == o.stack@.last().values@.len() - 1 {
                let os = o.stack@;
                assert forall|sol: Seq<usize>| is_solution(d, sol) implies covered(sol, st) && !agrees(sol, st, st.len() as int) by {
                    assert(covered(sol, os));
                    assert(!agrees(sol, os, os.len() as int));
                    let i = choose|i: int| 0 <= i <= os.len() && #[trigger] agrees(sol, os, i) && (i == os.len() || later_at(sol, os, i));
                    if i == idx {
                        let p = choose|p: int| os[i].pos < p < os[i].values@.len() && (#[trigger] os[i].values@[p])@ == sol[os[i].key_num@ as int];
                        assert(false);
                    }
                    assert(i < idx);
                    assert forall|j: int| 0 <= j < i implies sol[(#[trigger] st[j]).key_num@ as int] == st[j].values@[st[j].pos as int]@ by {
                        assert(st[j] == os[j]);
                        assert(sol[(os[j]).key_num@ as int] == os[j].values@[os[j].pos as int]@);
                    }
                    assert(agrees(sol, st, i));
                    let p = choose|p: int| os[i].pos < p < os[i].values@.len() && (#[trigger] os[i].values@[p])@ == sol[os[i].key_num@ as int];
                    assert(st[i] == os[i]);
                    assert(later_at(sol, st, i));
                    if agrees(sol, st, st.len() as int) {
                        assert(sol[(st[i]).key_num@ as int] == st[i].values@[st[i].pos as int]@);
                        assert(nums_view(st[i].values@)[p] == nums_view(st[i].values@)[st[i].pos as int]);
                    }
                }
            }
        }
    }

    /// Replaces the value of the deepest key by the next value it can take.
    fn goto_next_sibling(&mut self)
        requires
            old(self).wf(),
            old(self).stack@.len() >= 1,
            old(self).stack@.last().pos < old(self).stack@.last().values@.len() - 1,
        ensures
            final(self).wf(),
            final(self).domain_spec() == old(self).domain_spec(),
            final(self).stack@.len() == old(self).stack@.len(),
            forall|i: int| 0 <= i < old(self).stack@.len() - 1 ==> #[trigger] final(self).stack@[i] == old(self).stack@[i],
            final(self).stack@.last().key_num == old(self).stack@.last().key_num,
            final(self).stack@.last().values == old(self).stack@.last().values,
            final(self).stack@.last().pos == old(self).stack@.last().pos + 1,
            old(self).no_solution_lost() && old(self).none_here() ==> final(self).no_solution_lost(),
    {
        let ghost o = *self;
        let ghost d = self.domain_spec();
        proof {
            o.domain_walker.lemma_wf();
        }
        let idx = self.stack.len() - 1;
        let key_num = self.stack[idx].key_num;
        self.domain_walker.unassign(key_num);
        let mut step = self.stack.pop().unwrap();
        proof {
            assert(step == o.stack@[idx as int]);
            assert(step.values.len() == step.values@.len());
        }
        step.advance();
        let value_num = step.values[step.pos];
        let ghost step_g = step;
        self.stack.push(step);
        proof {
            self.domain_walker.lemma_wf();
            self.domain_walker.lemma_assign_fits(key_num@ as int, value_num);
        }
        self.domain_walker.assign(key_num, value_num);
        proof {
            self.domain_walker.lemma_wf();
            let st = self.stack@;
            let m = self.mapping_spec();
            let key = key_num@ as int;
            assert(st =~= o.stack@.update(idx as int, step_g));
            assert(m =~= o.mapping_spec().update(key, Some(value_num)));
            assert forall|i: int| 0 <= i < idx implies (#[trigger] st[i]).key_num@ != key by {
                assert(o.stack@[i].key_num != o.stack@[idx as int].key_num);
            }
            assert forall|k: int| 0 <= k < d.key_count() implies (#[trigger] m[k] is Some <==> exists|i: int|
                0 <= i < st.len() && st[i].key_num@ == k) by {
                assert(o.mapping_spec()[k] is Some <==> exists|i: int|
                    0 <= i < o.stack@.len() && o.stack@[i].key_num@ == k);
                if k == key {
                    assert(st[idx as int].key_num@ == k);
                } else {
                    if exists|i: int| 0 <= i < o.stack@.len() && o.stack@[i].key_num@ == k {
                        let i = choose|i: int| 0 <= i < o.stack@.len() && o.stack@[i].key_num@ == k;
                        assert(st[i].key_num == o.stack@[i].key_num);
                    }
                    if exists|i: int| 0 <= i < st.len() && st[i].key_num@ == k {
                        let i = choose|i: int| 0 <= i < st.len() && st[i].key_num@ == k;
                        assert(st[i].key_num == o.stack@[i].key_num);
                    }
                }
            }
            assert forall|i: int| 0 <= i < st.len() implies m[(#[trigger] st[i]).key_num@ as int] == Some(
                st[i].values@[st[i].pos as int],
            ) by {
                if i < idx {
                    assert(st[i] == o.stack@[i]);
                }
            }
            assert forall|i: int, j: int| 0 <= i < j < st.len() implies (#[trigger] st[i]).key_num != (#[trigger] st[j]).key_num by {
                assert(o.stack@[i].key_num != o.stack@[j].key_num);
            }
            if o.no_solution_lost() && o.none_here() {
                let os = o.stack@;
                assert forall|sol: Seq<usize>| is_solution(d, sol) implies covered(sol, st) by {
                    assert(covered(sol, os));
                    assert(!agrees(sol, os, os.len() as int));
                    let i = choose|i: int| 0 <= i <= os.len() && #[trigger] agrees(sol, os, i) && (i == os.len() || later_at(sol, os, i));
                    assert(i < os.len());
                    assert forall|j: int| 0 <= j < i && j < idx implies sol[(#[trigger] st[j]).key_num@ as int] == st[j].values@[st[j].pos as int]@ by {
                        assert(st[j] == os[j]);
                        assert(sol[(os[j]).key_num@ as int] == os[j].values@[os[j].pos as int]@);
                    }
                    if i < idx {
                        assert(agrees(sol, st, i));
                        let p = choose|p: int| os[i].pos < p < os[i].values@.len() && (#[trigger] os[i].values@[p])@ == sol[os[i].key_num@ as int];
                        assert(st[i] == os[i]);
                        assert(later_at(sol, st, i));
                    } else {
                        assert(i == idx);
                        assert(agrees(sol, st, i));
                        let p = choose|p: int| os[i].pos < p < os[i].values@.len() && (#[trigger] os[i].values@[p])@ == sol[os[i].key_num@ as int];
                        assert(st[i].values == os[i].values);
                        assert(st[i].key_num == os[i].key_num);
                        if p == st[i].pos {
                            assert forall|j: int| 0 <= j < i + 1 implies sol[(#[trigger] st[j]).key_num@ as int] == st[j].values@[st[j].pos as int]@ by {
                                if j < i {
                                    assert(st[j] == os[j]);
                                    assert(sol[(os[j]).key_num@ as int] == os[j].values@[os[j].pos as int]@);
                                }
                            }
                            assert(agrees(sol, st, i + 1));
                        } else {
                            assert(st[i].values@[p] == os[i].values@[p]);
                            assert(later_at(sol, st, i));
                        }
                    }
                }
            }
        }
    }

    /// Moves to the next candidate: takes back the deepest keys whose values are all
    /// tried, then gives the deepest remaining key its next value. Fails once no key is
    /// left to move on.
    fn next(&mut self) -> (r: Result<(), GenerateError>)
        requires
            old(self).wf(),
        ensures
            final(self).wf(),
            final(self).domain_spec() == old(self).domain_spec(),
            r is Ok ==> final(self).measure() < old(self).measure(),
            r is Err ==> final(self).depth() == 0,
            old(self).no_solution_lost() && old(self).none_here() ==> final(self).no_solution_lost(),
            r is Err && old(self).no_solution_lost() && old(self).none_here() ==> forall|s: Seq<usize>| !is_solution(final(self).domain_spec(), s),
    {
        let ghost o = *self;
        loop
            invariant
                self.wf(),
                self.domain_spec() == o.domain_spec(),
                o.domain_spec() == old(self).domain_spec(),
                o.stack@ == old(self).stack@,
                o.no_solution_lost() == old(self).no_solution_lost(),
                o.none_here() == old(self).none_here(),
                o.no_solution_lost() && o.none_here() ==> self.no_solution_lost() && self.none_here(),
                self.stack@.len() <= o.stack@.len(),
                forall|i: int| 0 <= i < self.stack@.len() ==> #[trigger] self.stack@[i] == o.stack@[i],
            ensures
                self.wf(),
                self.domain_spec() == o.domain_spec(),
                o.no_solution_lost() && o.none_here() ==> self.no_solution_lost() && self.none_here(),
                1 <= self.stack@.len() <= o.stack@.len(),
                forall|i: int| 0 <= i < self.stack@.len() ==> #[trigger] self.stack@[i] == o.stack@[i],
                self.stack@.last().pos < self.stack@.last().values@.len() - 1,
            decreases self.stack@.len(),
        {
            let len = self.stack.len();
            if len == 0 {
                proof {
                    if o.no_solution_lost() && o.none_here() {
                        assert forall|s: Seq<usize>| !is_solution(self.domain_spec(), s) by {
                            if is_solution(self.domain_spec(), s) {
                                assert(covered(s, self.stack@));
                                assert(!agrees(s, self.stack@, 0));
                                let i = choose|i: int| 0 <= i <= self.stack@.len() && #[trigger] agrees(s, self.stack@, i) && (i == self.stack@.len() || later_at(s, self.stack@, i));
                                assert(i == 0);
                            }
                        }
                    }
                }
                return Err(GenerateError::NoMoreCandidates);
            }
            if self.stack[len - 1].has_next() {
                break ;
            }
            self.ascend();
        }
        let ghost mid = *self;
        self.goto_next_sibling();
        proof {
            let j = mid.stack@.len() - 1;
            let a = self.digits();
            let b = o.digits();
            assert(self.stack@[j].pos == mid.stack@[j].pos + 1);
            assert(self.stack@[j].values == mid.stack@[j].values);
            assert(a[j] == (self.stack@[j].values@.len() - 1 - self.stack@[j].pos) as usize);
            assert(b[j] == (o.stack@[j].values@.len() - 1 - o.stack@[j].pos) as usize);
            assert forall|i: int| 0 <= i < j implies #[trigger] a[i] == b[i] by {
                assert(self.stack@[i] == mid.stack@[i]);
            }
            assert(mid.stack@[j] == o.stack@[j]);
            lemma_lex_less(a, b, j);
        }
        Ok(())
    }

    /// Searches, from the current state, for an assignment of every key that all
    /// restrictions allow. On success every key has a value, and each value is allowed
    /// by the key's own restriction and by the constraints of every key. The search
    /// passes no solution by: when it fails, having started where no solution was passed
    /// by (as a new backtracker), no assignment satisfies all restrictions.
    pub fn generate(&mut self) -> (r: Result<(), GenerateError>)
        requires
            old(self).wf(),
        ensures
            final(self).wf(),
            final(self).domain_spec() == old(self).domain_spec(),
            r is Ok ==> forall|k: int|
                0 <= k < final(self).domain_spec().key_count() ==> #[trigger] final(self).mapping_spec()[k] is Some
                    && allowed(
                    final(self).domain_spec(),
                    final(self).mapping_spec(),
                    k,
                    final(self).mapping_spec()[k]->0@ as int,
                ),
            r is Err ==> final(self).depth() == 0,
            r is Err && old(self).no_solution_lost() ==> forall|s: Seq<usize>| !is_solution(final(self).domain_spec(), s),
    {
        let ghost d = self.domain_spec();
        proof {
            self.lemma_measure_nonneg();
        }
        loop
            invariant
                self.wf(),
                self.domain_spec() == d,
                d == old(self).domain_spec(),
                old(self).no_solution_lost() ==> self.no_solution_lost(),
                self.measure() >= 0,
            decreases self.measure(),
        {
            let ghost start = self.measure();
            while !self.domain_walker.valid_state()
                invariant
                    self.wf(),
                    self.domain_spec() == d,
                    d == old(self).domain_spec(),
                    old(self).no_solution_lost() ==> self.no_solution_lost(),
                    self.measure() <= start,
                    self.measure() >= 0,
                decreases self.measure(),
            {
                proof {
                    assert forall|sol: Seq<usize>| is_solution(d, sol) implies !agrees(sol, self.stack@, self.stack@.len() as int) by {
                        if agrees(sol, self.stack@, self.stack@.len() as int) {
                            self.lemma_solution_allowed(sol);
                            self.domain_walker.lemma_wf();
                            let m = self.mapping_spec();
                            assert forall|k: int| 0 <= k < d.key_count() implies (#[trigger] m[k] is Some ==> allowed(d, m, k, m[k]->0@ as int))
                                && exists|v: int| 0 <= v < d.value_count() && allowed(d, m, k, v) by {
                                assert(allowed(d, m, k, sol[k] as int));
                                assert(sol[k] < d.value_count());
                            }
                        }
                    }
                }
                match self.next() {
                    Ok(()) => {},
                    Err(e) => {
                        return Err(e);
                    },
                }
                proof {
                    self.lemma_measure_nonneg();
                }
            }
            match self.next_key() {
                Some(key_num) => {
                    self.descend(key_num);
                    proof {
                        self.lemma_measure_nonneg();
                    }
                },
                None => {
                    return Ok(());
                },
            }
        }
    }
}

} // verus!

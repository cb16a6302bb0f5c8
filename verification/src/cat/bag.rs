use std::marker::PhantomData;
use vstd::prelude::*;

use crate::cat::composed::Composed;
use crate::cat::domain::{Domain, FiniteDomain};
use crate::cat::has_count::{Count, HasCount, to_count};
use crate::cat::num::{Num, to_num, nums_view};
use crate::cat::seq::{Sequence, SeqIter, SeqNum, seq_value, digits_below, law_seq_num_bijection};
use crate::cat::table::Table;
use crate::cat::types::Mapping;

verus! {

broadcast use crate::cat::num::lemma_num_view_eq, crate::cat::num::lemma_num_of_view;

/// The binomial coefficient "`n` choose `k`", by Pascal's rule.
pub open spec fn binom(n: nat, k: nat) -> nat
    decreases n,
{
    if k == 0 {
        1
    } else if n == 0 {
        0
    } else {
        binom((n - 1) as nat, (k - 1) as nat) + binom((n - 1) as nat, k)
    }
}

/// The number of multisets of size `k` over `n` elements: "`n + k - 1` choose `k`".
pub open spec fn multichoose(n: nat, k: nat) -> nat {
    if k == 0 {
        1
    } else {
        binom((n + k - 1) as nat, k)
    }
}

/// There are no ways to choose more elements than there are.
proof fn lemma_binom_above(n: nat, k: nat)
    requires
        k > n,
    ensures
        binom(n, k) == 0,
    decreases n,
{
    if n > 0 {
        lemma_binom_above((n - 1) as nat, (k - 1) as nat);
        lemma_binom_above((n - 1) as nat, k);
    }
}

/// `k * (m choose k) == m * ((m - 1) choose (k - 1))`.
proof fn lemma_binom_absorb(m: nat, k: nat)
    requires
        m >= 1,
        k >= 1,
    ensures
        k * binom(m, k) == m * binom((m - 1) as nat, (k - 1) as nat),
    decreases m,
{
    let m1 = (m - 1) as nat;
    let k1 = (k - 1) as nat;
    if m == 1 {
        assert(binom(0, 0) == 1);
        if k > 1 {
            lemma_binom_above(0, k1);
            lemma_binom_above(0, k);
            assert(binom(1, k) == 0);
        } else {
            assert(binom(0, 1) == 0);
            assert(binom(1, 1) == 1);
        }
    } else {
        lemma_binom_absorb(m1, k);
        assert(binom(m, k) == binom(m1, k1) + binom(m1, k));
        assert(k * binom(m, k) == k * binom(m1, k1) + k * binom(m1, k)) by (nonlinear_arith)
            requires
                binom(m, k) == binom(m1, k1) + binom(m1, k),
        ;
        if k == 1 {
            assert(binom(m1, 0) == 1);
            assert(binom((m1 - 1) as nat, 0) == 1);
            assert(1 * binom(m1, 1) == m1 * binom((m1 - 1) as nat, 0));
            assert(binom(m1, 1) == m1) by (nonlinear_arith)
                requires
                    1 * binom(m1, 1) == m1 * binom((m1 - 1) as nat, 0),
                    binom((m1 - 1) as nat, 0) == 1,
            ;
            assert(binom(m, 1) == 1 + m1);
            assert(m * binom(m1, 0) == m) by (nonlinear_arith)
                requires
                    binom(m1, 0) == 1,
            ;
            assert(k * binom(m, k) == binom(m, 1)) by (nonlinear_arith)
                requires
                    k == 1,
            ;
        } else {
            lemma_binom_absorb(m1, k1);
            let a = binom((m1 - 1) as nat, (k1 - 1) as nat);
            let b = binom((m1 - 1) as nat, k1);
            let c = binom(m1, k1);
            assert(c == a + b);
            assert(k * c == k1 * c + c) by (nonlinear_arith)
                requires
                    k == k1 + 1,
            ;
            assert(k * binom(m, k) == m1 * a + c + m1 * b);
            assert(m1 * a + m1 * b == m1 * (a + b)) by (nonlinear_arith);
            assert(m * c == m1 * c + c) by (nonlinear_arith)
                requires
                    m == m1 + 1,
            ;
        }
    }
}

/// `(m - k) * (m choose k) == m * ((m - 1) choose k)`.
proof fn lemma_binom_shrink(m: nat, k: nat)
    requires
        m >= 1,
        k >= 1,
        k <= m,
    ensures
        (m - k) * binom(m, k) == m * binom((m - 1) as nat, k),
{
    let m1 = (m - 1) as nat;
    let k1 = (k - 1) as nat;
    lemma_binom_absorb(m, k);
    let c = binom(m, k);
    let a = binom(m1, k1);
    let b = binom(m1, k);
    assert(c == a + b);
    assert((m - k) * c == m * c - k * c) by (nonlinear_arith);
    assert(m * c == m * a + m * b) by (nonlinear_arith)
        requires
            c == a + b,
    ;
}

/// Growing the set chosen from never lowers the count.
proof fn lemma_binom_mono(n: nat, n2: nat, k: nat)
    requires
        n <= n2,
    ensures
        binom(n, k) <= binom(n2, k),
    decreases n2 - n,
{
    if n < n2 {
        lemma_binom_mono(n, (n2 - 1) as nat, k);
        if k > 0 {
            assert(binom(n2, k) == binom((n2 - 1) as nat, (k - 1) as nat) + binom((n2 - 1) as nat, k));
        }
    }
}

/// In the product loop of `binomial`, the value multiplied at step `i` never exceeds the
/// one at the last step: `i * ((n - k + i) choose i) <= k * (n choose k)`.
proof fn lemma_choose_steps(n: nat, k: nat, i: nat)
    requires
        1 <= i <= k,
        k <= n + 1,
    ensures
        i * binom((n - k + i) as nat, i) <= k * binom(n, k),
    decreases k - i,
{
    if i < k {
        let m = (n - k + i) as nat;
        lemma_binom_absorb(m + 1, i + 1);
        assert((i + 1) * binom(m + 1, i + 1) == (m + 1) * binom(m, i));
        assert(i * binom(m, i) <= (m + 1) * binom(m, i)) by (nonlinear_arith)
            requires
                i <= m + 1,
        ;
        lemma_choose_steps(n, k, i + 1);
        assert((n - k + (i + 1)) as nat == m + 1);
    } else {
        assert((n - k + i) as nat == n);
    }
}

/// "`n` choose `k`", computed as a running product that stays an integer after every
/// division. For `k == n + 1` the first factor is zero and so is the result.
pub fn binomial(n: usize, k: usize) -> (r: usize)
    requires
        k <= n + 1,
        k * binom(n as nat, k as nat) <= usize::MAX,
    ensures
        r == binom(n as nat, k as nat),
{
    let mut num: usize = 1;
    let mut i: usize = 0;
    while i < k
        invariant
            i <= k <= n + 1,
            k * binom(n as nat, k as nat) <= usize::MAX,
            num == if i == 0 {
                1
            } else {
                binom((n - k + i) as nat, i as nat)
            },
        decreases k - i,
    {
        i = i + 1;
        let m: usize = n - (k - i);
        proof {
            lemma_choose_steps(n as nat, k as nat, i as nat);
            if i == 1 {
                assert(binom((m - 1) as nat, 0) == 1);
                if m >= 1 {
                    lemma_binom_absorb(m as nat, 1);
                } else {
                    lemma_binom_above(0, 1);
                }
            } else {
                lemma_binom_absorb(m as nat, i as nat);
                assert((n - k + (i - 1)) as nat == (m - 1) as nat);
                assert(num * m == m * num) by (nonlinear_arith);
            }
            assert(num * m == i * binom(m as nat, i as nat));
        }
        num = num * m;
        proof {
            vstd::arithmetic::div_mod::lemma_div_multiples_vanish(binom(m as nat, i as nat) as int, i as int);
            assert(i * binom(m as nat, i as nat) == binom(m as nat, i as nat) * i) by (nonlinear_arith);
        }
        num = num / i;
    }
    proof {
        if k > 0 {
            assert((n - k + k) as nat == n);
        }
    }
    num
}

/// The number of multisets of `k` elements out of `n`: "`n + k - 1` choose `k`".
pub fn choose_repeat(n: usize, k: usize) -> (r: usize)
    requires
        1 <= n + k <= usize::MAX,
        k * binom((n + k - 1) as nat, k as nat) <= usize::MAX,
    ensures
        r == multichoose(n as nat, k as nat),
{
    binomial(n + k - 1, k)
}

/// There are `x` multisets of one element out of `x`.
proof fn lemma_multichoose_one(x: nat)
    ensures
        multichoose(x, 1) == x,
{
    if x >= 1 {
        lemma_binom_absorb(x, 1);
        assert(x * binom((x - 1) as nat, 0) == x) by (nonlinear_arith)
            requires
                binom((x - 1) as nat, 0) == 1,
        ;
    } else {
        lemma_binom_above(0, 1);
    }
}

/// Some element can be chosen whenever no more are asked for than there are.
proof fn lemma_binom_positive(n: nat, k: nat)
    requires
        k <= n,
    ensures
        binom(n, k) >= 1,
    decreases n,
{
    if k > 0 {
        lemma_binom_positive((n - 1) as nat, (k - 1) as nat);
    }
}

/// Pascal's rule for multisets: `multichoose(d + 1, k) == multichoose(d, k) +
/// multichoose(d + 1, k - 1)`.
proof fn lemma_multichoose_step(d: nat, k: nat)
    requires
        k >= 1,
    ensures
        multichoose(d + 1, k) == multichoose(d, k) + multichoose(d + 1, (k - 1) as nat),
{
    assert(binom((d + k) as nat, k) == binom((d + k - 1) as nat, (k - 1) as nat) + binom(
        (d + k - 1) as nat,
        k,
    ));
}

/// With at least one element to take, more kinds of element give strictly more
/// multisets.
proof fn lemma_multichoose_strict(a: nat, b: nat, k: nat)
    requires
        a < b,
        k >= 1,
    ensures
        multichoose(a, k) < multichoose(b, k),
    decreases b - a,
{
    lemma_multichoose_step(a, k);
    if k > 1 {
        lemma_binom_positive((a + k - 1) as nat, (k - 1) as nat);
    }
    if a + 1 < b {
        lemma_multichoose_strict(a + 1, b, k);
    }
}

/// Multisets over fewer kinds of element, or of a size no larger (but not zero), are no
/// more numerous.
proof fn lemma_multichoose_mono(n: nat, k: nat, n2: nat, k2: nat)
    requires
        n <= n2,
        1 <= k <= k2,
    ensures
        multichoose(n, k) <= multichoose(n2, k2),
    decreases k2 - k,
{
    if n < n2 {
        lemma_multichoose_strict(n, n2, k);
    }
    if k < k2 {
        if n2 >= 1 {
            lemma_multichoose_step((n2 - 1) as nat, k + 1);
            assert(multichoose(n2, k) <= multichoose(n2, k + 1));
        } else {
            lemma_binom_above((k - 1) as nat, k);
            lemma_binom_above(k, k + 1);
        }
        lemma_multichoose_mono(n2, k + 1, n2, k2);
    }
}

/// No multiset of one or more elements can be made from no kinds of element.
proof fn lemma_multichoose_zero(k: nat)
    requires
        k >= 1,
    ensures
        multichoose(0, k) == 0,
{
    lemma_binom_above((k - 1) as nat, k);
}

/// The elements of `s` never increase.
pub open spec fn sorted_desc(s: Seq<usize>) -> bool {
    forall|i: int, j: int| 0 <= i < j < s.len() ==> #[trigger] s[i] >= #[trigger] s[j]
}

/// Every element of `s` lies below `n`.
pub open spec fn elems_below(s: Seq<usize>, n: int) -> bool {
    forall|i: int| 0 <= i < s.len() ==> #[trigger] s[i] < n
}

/// The sum over the positions `i` of `s` of `multichoose(s[i], k - i)`.
pub open spec fn bag_value_from(s: Seq<usize>, k: nat) -> nat
    decreases s.len(),
{
    if s.len() == 0 {
        0
    } else {
        multichoose(s[0] as nat, k) + bag_value_from(s.drop_first(), (k - 1) as nat)
    }
}

/// The number of the bag whose elements, in descending order, are `s`: the number of
/// bags of the same size that come before it, counted as the sum over the positions `i`
/// of `multichoose(s[i], s.len() - i)`.
pub open spec fn bag_value(s: Seq<usize>) -> nat {
    bag_value_from(s, s.len())
}

/// Appending an element adds its term.
proof fn lemma_bag_value_push(s: Seq<usize>, x: usize, k: nat)
    requires
        s.len() <= k,
    ensures
        bag_value_from(s.push(x), k) == bag_value_from(s, k) + multichoose(x as nat, (k - s.len()) as nat),
    decreases s.len(),
{
    if s.len() > 0 {
        assert(s.push(x).drop_first() =~= s.drop_first().push(x));
        lemma_bag_value_push(s.drop_first(), x, (k - 1) as nat);
        assert(s.push(x)[0] == s[0]);
        assert(((k - 1) as nat - s.drop_first().len()) as nat == (k - s.len()) as nat);
    } else {
        assert(s.push(x).drop_first() =~= Seq::<usize>::empty());
        assert(s.push(x)[0] == x);
        assert(bag_value_from(Seq::<usize>::empty(), (k - 1) as nat) == 0);
    }
}

/// The terms from position `i` on.
proof fn lemma_bag_value_suffix(s: Seq<usize>, i: int)
    requires
        0 <= i < s.len(),
    ensures
        bag_value_from(s.subrange(i, s.len() as int), (s.len() - i) as nat) == multichoose(s[i] as nat, (s.len() - i) as nat)
            + bag_value_from(s.subrange(i + 1, s.len() as int), (s.len() - i - 1) as nat),
{
    assert(s.subrange(i, s.len() as int).drop_first() =~= s.subrange(i + 1, s.len() as int));
}

/// A descending sequence whose elements are at most `c` is numbered below the number
/// of bags of its size over `c + 1` elements, and no lower than the number of its
/// first element's term.
proof fn lemma_bag_value_bound(s: Seq<usize>, c: nat)
    requires
        sorted_desc(s),
        forall|i: int| 0 <= i < s.len() ==> #[trigger] s[i] <= c,
    ensures
        bag_value(s) < multichoose(c + 1, s.len()),
        s.len() >= 1 ==> multichoose(s[0] as nat, s.len()) <= bag_value(s),
    decreases s.len(),
{
    if s.len() > 0 {
        let k = s.len();
        let d = s[0] as nat;
        let t = s.drop_first();
        assert forall|i: int| 0 <= i < t.len() implies #[trigger] t[i] <= d by {
            assert(s[0] >= s[i + 1]);
        }
        lemma_bag_value_bound(t, d);
        lemma_multichoose_step(d, k);
        if d < c {
            lemma_multichoose_strict(d + 1, c + 1, k);
        }
    }
}

/// Two descending sequences of one length with the same number are equal.
proof fn lemma_bag_value_injective(s: Seq<usize>, t: Seq<usize>)
    requires
        sorted_desc(s),
        sorted_desc(t),
        s.len() == t.len(),
        bag_value(s) == bag_value(t),
    ensures
        s == t,
    decreases s.len(),
{
    if s.len() > 0 {
        let k = s.len();
        assert forall|i: int| 0 <= i < s.len() implies #[trigger] s[i] <= s[0] by {
            if i > 0 {
                assert(s[0] >= s[i]);
            }
        }
        assert forall|i: int| 0 <= i < t.len() implies #[trigger] t[i] <= t[0] by {
            if i > 0 {
                assert(t[0] >= t[i]);
            }
        }
        lemma_bag_value_bound(s, s[0] as nat);
        lemma_bag_value_bound(t, t[0] as nat);
        if s[0] < t[0] {
            lemma_multichoose_mono((s[0] + 1) as nat, k, t[0] as nat, k);
        } else if t[0] < s[0] {
            lemma_multichoose_mono((t[0] + 1) as nat, k, s[0] as nat, k);
        }
        assert(s[0] == t[0]);
        lemma_bag_value_injective(s.drop_first(), t.drop_first());
        assert(s =~= seq![s[0]] + s.drop_first());
        assert(t =~= seq![t[0]] + t.drop_first());
    }
}

/// Numbering bags by `bag_value` is a bijection between the bags of `k` elements out of
/// `n` kinds, written in descending order, and the numbers below `multichoose(n, k)`:
/// every such bag gets a number below that bound, and different bags get different
/// numbers.
pub proof fn law_bag_num_bijection(s: Seq<usize>, t: Seq<usize>, n: nat)
    requires
        sorted_desc(s),
        sorted_desc(t),
        s.len() == t.len(),
        elems_below(s, n as int),
        elems_below(t, n as int),
    ensures
        bag_value(s) < multichoose(n, s.len()),
        bag_value(s) == bag_value(t) <==> s == t,
{
    if s.len() == 0 {
    } else {
        assert forall|i: int| 0 <= i < s.len() implies #[trigger] s[i] <= s[0] by {
            if i > 0 {
                assert(s[0] >= s[i]);
            }
        }
        lemma_bag_value_bound(s, s[0] as nat);
        if s[0] + 1 < n {
            lemma_multichoose_strict((s[0] + 1) as nat, n, s.len());
        }
    }
    if bag_value(s) == bag_value(t) {
        lemma_bag_value_injective(s, t);
    }
}

/// The descending order on indices.
pub open spec fn desc_leq(a: usize, b: usize) -> bool {
    a >= b
}

/// `s` in descending order.
pub open spec fn sort_desc(s: Seq<usize>) -> Seq<usize> {
    s.sort_by(|a: usize, b: usize| desc_leq(a, b))
}

proof fn lemma_desc_total()
    ensures
        vstd::relations::total_ordering(|a: usize, b: usize| desc_leq(a, b)),
{
}

/// A descending sequence with the elements of `s`, each as often, is `sort_desc(s)`.
pub proof fn lemma_sort_desc_unique(s: Seq<usize>, t: Seq<usize>)
    requires
        sorted_desc(t),
        t.to_multiset() == s.to_multiset(),
    ensures
        t == sort_desc(s),
{
    let leq = |a: usize, b: usize| desc_leq(a, b);
    lemma_desc_total();
    s.lemma_sort_by_ensures(leq);
    assert(vstd::relations::sorted_by(t, leq)) by {
        assert forall|i: int, j: int| 0 <= i < j < t.len() implies #[trigger] leq(t[i], t[j]) by {
            assert(t[i] >= t[j]);
        }
    }
    vstd::seq_lib::lemma_sorted_unique(t, sort_desc(s), leq);
}

/// `sort_desc(s)` is descending, as long as `s`, and holds each element as often.
pub proof fn lemma_sort_desc(s: Seq<usize>)
    ensures
        sorted_desc(sort_desc(s)),
        sort_desc(s).to_multiset() == s.to_multiset(),
        sort_desc(s).len() == s.len(),
{
    let leq = |a: usize, b: usize| desc_leq(a, b);
    lemma_desc_total();
    s.lemma_sort_by_ensures(leq);
    let t = sort_desc(s);
    assert forall|i: int, j: int| 0 <= i < j < t.len() implies #[trigger] t[i] >= #[trigger] t[j] by {
        assert(leq(t[i], t[j]));
    }
    vstd::seq_lib::to_multiset_len(s);
    vstd::seq_lib::to_multiset_len(t);
}

/// A bag (multiset) of elements, stored in descending order.
#[derive(Debug)]
pub struct Bag<T> {
    elems: Vec<T>,
}

impl<T> View for Bag<T> {
    type V = Seq<T>;

    closed spec fn view(&self) -> Seq<T> {
        self.elems@
    }
}

impl<T> Bag<T> {
    /// A bag whose elements are given, already in descending order.
    pub fn from_sorted(vec: Vec<T>) -> (r: Self)
        ensures
            r@ == vec@,
    {
        Bag { elems: vec }
    }
}

impl<D> Bag<Num<D>> {
    /// The bag of the numbers in `vec`: they are put in descending order.
    pub fn new(vec: Vec<Num<D>>) -> (r: Self)
        ensures
            nums_view(r@) == sort_desc(nums_view(vec@)),
            sorted_desc(nums_view(r@)),
            r@.len() == vec@.len(),
    {
        let mut out: Vec<Num<D>> = Vec::with_capacity(vec.len());
        let mut i: usize = 0;
        proof {
            assert(nums_view(out@) =~= Seq::<usize>::empty());
            assert(nums_view(vec@.subrange(0, 0)) =~= Seq::<usize>::empty());
        }
        while i < vec.len()
            invariant
                i <= vec@.len(),
                out@.len() == i,
                sorted_desc(nums_view(out@)),
                nums_view(out@).to_multiset() == nums_view(vec@.subrange(0, i as int)).to_multiset(),
            decreases vec@.len() - i,
        {
            let x = vec[i];
            let mut p: usize = 0;
            while p < out.len() && out[p].as_usize() >= x.as_usize()
                invariant
                    p <= out@.len(),
                    forall|j: int| 0 <= j < p ==> (#[trigger] out@[j])@ >= x@,
                decreases out@.len() - p,
            {
                p = p + 1;
            }
            let ghost before = nums_view(out@);
            out.insert(p, x);
            proof {
                let now = nums_view(out@);
                assert(now =~= before.insert(p as int, x@));
                vstd::seq_lib::to_multiset_insert(before, p as int, x@);
                let pre = nums_view(vec@.subrange(0, i as int));
                assert(nums_view(vec@.subrange(0, i + 1)) =~= pre.push(x@));
                vstd::seq_lib::to_multiset_build(pre, x@);
                assert forall|a: int, b: int| 0 <= a < b < now.len() implies #[trigger] now[a]
                    >= #[trigger] now[b] by {
                    if b < p {
                        assert(before[a] >= before[b]);
                    } else if b == p {
                        assert(out@[a]@ >= x@);
                    } else if a < p {
                        assert(before[a] >= x@);
                        assert(before[p as int] < x@);
                        assert(before[p as int] >= before[b - 1]);
                    } else if a == p {
                        assert(before[p as int] < x@);
                        if p < b - 1 {
                            assert(before[p as int] >= before[b - 1]);
                        }
                    } else {
                        assert(before[a - 1] >= before[b - 1]);
                    }
                }
            }
            i = i + 1;
        }
        proof {
            assert(vec@.subrange(0, vec@.len() as int) =~= vec@);
            lemma_sort_desc_unique(nums_view(vec@), nums_view(out@));
        }
        Bag { elems: out }
    }
}

impl<D: Domain> Domain for Bag<D> {
    type Type = Bag<D::Type>;
}

impl<D: FiniteDomain> FiniteDomain for Bag<D> {

}

/// Numbers the bags of `size` elements out of `elemtype_count` kinds, written in
/// descending order, by `bag_value`.
pub struct BagNum<D> {
    elemtype_count: Count<D>,
    size: usize,
}

/// The count of bags of `k` elements out of `n` kinds can be computed without overflow.
pub open spec fn bag_count_fits(n: nat, k: nat) -> bool {
    &&& 1 <= n + k <= usize::MAX
    &&& k * binom((n + k - 1) as nat, k) <= usize::MAX
}

impl<D> BagNum<D> {
    pub closed spec fn elemtype_count_spec(&self) -> nat {
        self.elemtype_count@ as nat
    }

    pub closed spec fn size_spec(&self) -> nat {
        self.size as nat
    }

    pub fn new(count: Count<D>, size: usize) -> (r: Self)
        ensures
            r.elemtype_count_spec() == count@,
            r.size_spec() == size,
    {
        BagNum { elemtype_count: count, size }
    }
}

impl<D> HasCount<Bag<D>> for BagNum<D> {
    open spec fn count_spec(&self) -> nat {
        multichoose(self.elemtype_count_spec(), self.size_spec())
    }

    open spec fn count_requires(&self) -> bool {
        bag_count_fits(self.elemtype_count_spec(), self.size_spec())
    }

    fn count(&self) -> (r: Count<Bag<D>>) {
        to_count(choose_repeat(self.elemtype_count.as_usize(), self.size))
    }
}

/// Every term of the number of the descending sequence `s` can be computed without
/// overflow, and so can their sum.
pub open spec fn bag_value_fits(s: Seq<usize>) -> bool {
    &&& forall|i: int| 0 <= i < s.len() && #[trigger] s[i] > 0 ==> bag_count_fits(s[i] as nat, (s.len() - i) as nat)
    &&& bag_value(s) <= usize::MAX
}

impl<D> Mapping<Bag<Num<D>>> for BagNum<D> {
    type Result = Num<Bag<D>>;

    open spec fn apply_requires(&self, bag: Bag<Num<D>>) -> bool {
        bag_value_fits(nums_view(bag@))
    }

    open spec fn applies(&self, bag: Bag<Num<D>>, result: Num<Bag<D>>) -> bool {
        result@ == bag_value(nums_view(bag@))
    }

    fn apply(&self, bag: Bag<Num<D>>) -> (r: Num<Bag<D>>) {
        let ghost s = nums_view(bag@);
        let len = bag.elems.len();
        let mut num: usize = 0;
        let mut i: usize = 0;
        proof {
            assert(s.subrange(0, len as int) =~= s);
        }
        while i < len
            invariant
                len == s.len(),
                s == nums_view(bag.elems@),
                i <= len,
                bag_value_fits(s),
                num + bag_value_from(s.subrange(i as int, len as int), (len - i) as nat) == bag_value(s),
            decreases len - i,
        {
            let k = len - i;
            let c = bag.elems[i].as_usize();
            proof {
                lemma_bag_value_suffix(s, i as int);
            }
            if c > 0 {
                num = num + choose_repeat(c, k);
            } else {
                proof {
                    lemma_multichoose_zero(k as nat);
                }
            }
            i = i + 1;
        }
        proof {
            assert(s.subrange(len as int, len as int) =~= Seq::<usize>::empty());
        }
        to_num(num)
    }
}

impl<D> Mapping<Num<Bag<D>>> for BagNum<D> {
    type Result = Bag<Num<D>>;

    open spec fn apply_requires(&self, num: Num<Bag<D>>) -> bool {
        let n = self.elemtype_count_spec();
        let k = self.size_spec();
        &&& k >= 1
        &&& bag_count_fits(n, k)
        &&& num@ < multichoose(n, k)
        &&& multichoose(n, k) * n <= usize::MAX
        &&& multichoose(n, k) * k <= usize::MAX
    }

    open spec fn applies(&self, num: Num<Bag<D>>, result: Bag<Num<D>>) -> bool {
        let s = nums_view(result@);
        &&& sorted_desc(s)
        &&& s.len() == self.size_spec()
        &&& elems_below(s, self.elemtype_count_spec() as int)
        &&& bag_value(s) == num@
    }

    fn apply(&self, elem: Num<Bag<D>>) -> (r: Bag<Num<D>>) {
        let ghost cn = self.elemtype_count_spec();
        let ghost ck = self.size_spec();
        let ghost total = multichoose(cn, ck);
        let ghost num0 = elem@ as nat;
        let mut num: usize = elem.as_usize();
        let mut rem: usize = self.count().as_usize();
        let mut n: usize = self.elemtype_count.as_usize();
        let mut k: usize = self.size;
        let mut vec: Vec<Num<D>> = Vec::with_capacity(self.size);
        proof {
            lemma_multichoose_mono(cn, ck, cn + 1, ck);
            assert(nums_view(vec@) =~= Seq::<usize>::empty());
        }
        loop
            invariant
                cn == self.elemtype_count_spec(),
                ck == self.size_spec(),
                total == multichoose(cn, ck),
                self.apply_requires(elem),
                num0 == elem@,
                num0 < total,
                1 <= k <= ck,
                vec@.len() + k == ck,
                n <= cn,
                rem == multichoose(n as nat, k as nat),
                num < multichoose((n + 1) as nat, k as nat),
                vec@.len() == 0 ==> n == cn && num == num0 && k == ck,
                vec@.len() > 0 ==> n <= vec@.last()@,
                sorted_desc(nums_view(vec@)),
                elems_below(nums_view(vec@), cn as int),
                bag_value_from(nums_view(vec@), ck) + num == num0,
            decreases k,
        {
            while rem > num
                invariant
                    cn == self.elemtype_count_spec(),
                    ck == self.size_spec(),
                    total == multichoose(cn, ck),
                    total * cn <= usize::MAX,
                    cn + ck <= usize::MAX,
                    1 <= k <= ck,
                    n <= cn,
                    rem == multichoose(n as nat, k as nat),
                    num < multichoose((n + 1) as nat, k as nat),
                    vec@.len() == 0 ==> num < total && k == ck,
                    vec@.len() > 0 ==> n <= vec@.last()@,
                decreases n,
            {
                proof {
                    if n == 0 {
                        lemma_multichoose_zero(k as nat);
                    }
                }
                n = n - 1;
                proof {
                    lemma_multichoose_mono((n + 1) as nat, k as nat, cn, ck);
                    assert(rem * n <= total * cn) by (nonlinear_arith)
                        requires
                            rem <= total,
                            n <= cn,
                    ;
                    lemma_binom_shrink((n + k) as nat, k as nat);
                    assert((n + k - k) as nat == n);
                    assert(((n + k) as nat - 1) as nat == (n + k - 1) as nat);
                }
                let ghost old_rem = rem;
                rem = rem * n;
                proof {
                    let v = multichoose(n as nat, k as nat);
                    assert(rem == v * (k + n)) by (nonlinear_arith)
                        requires
                            rem == old_rem * n,
                            old_rem == multichoose((n + 1) as nat, k as nat),
                            n * multichoose((n + 1) as nat, k as nat) == (n + k) * v,
                    ;
                    vstd::arithmetic::div_mod::lemma_div_multiples_vanish(v as int, (k + n) as int);
                    assert((k + n) * v == v * (k + n)) by (nonlinear_arith);
                }
                rem = rem / (k + n);
            }
            let ghost before = nums_view(vec@);
            vec.push(to_num(n));
            proof {
                let now = nums_view(vec@);
                assert(now =~= before.push(n));
                lemma_bag_value_push(before, n, ck);
                assert((ck - before.len()) as nat == k);
                if before.len() == 0 {
                    if n >= cn {
                        lemma_multichoose_mono(cn, ck, n as nat, ck);
                    }
                } else {
                    assert(before.last() == vec@[before.len() - 1]@);
                }
                assert forall|a: int, b: int| 0 <= a < b < now.len() implies #[trigger] now[a]
                    >= #[trigger] now[b] by {
                    if b < before.len() {
                        assert(before[a] >= before[b]);
                    } else if a < before.len() - 1 {
                        assert(before[a] >= before[before.len() - 1]);
                    }
                }
            }
            if k == 1 {
                proof {
                    lemma_multichoose_one(n as nat);
                    lemma_multichoose_one((n + 1) as nat);
                    let now = nums_view(vec@);
                    assert(now.len() == ck);
                    assert(sorted_desc(now));
                    assert(elems_below(now, cn as int));
                    assert(bag_value_from(now, ck) == num0);
                    assert(bag_value(now) == num0);
                }
                let r = Bag::from_sorted(vec);
                return r;
            }
            num = num - rem;
            proof {
                lemma_multichoose_step(n as nat, k as nat);
                lemma_multichoose_mono(n as nat, k as nat, cn, ck);
                assert(rem * k <= total * ck) by (nonlinear_arith)
                    requires
                        rem <= total,
                        k <= ck,
                ;
                lemma_binom_absorb((n + k - 1) as nat, k as nat);
            }
            rem = rem * k;
            proof {
                let v = multichoose(n as nat, (k - 1) as nat);
                assert(((n + k - 1) as nat - 1) as nat == (n + (k - 1) - 1) as nat);
                assert(rem == v * (k + n - 1)) by (nonlinear_arith)
                    requires
                        rem == multichoose(n as nat, k as nat) * k,
                        k * multichoose(n as nat, k as nat) == (n + k - 1) * v,
                ;
                vstd::arithmetic::div_mod::lemma_div_multiples_vanish(v as int, (k + n - 1) as int);
                assert((k + n - 1) * v == v * (k + n - 1)) by (nonlinear_arith);
            }
            rem = rem / (k + n - 1);
            k = k - 1;
        }
    }
}

/// A descending sequence of `k` elements below `n` has a number that can be computed
/// without overflow, whenever the count of such bags can.
pub proof fn lemma_sorted_fits(t: Seq<usize>, n: nat, k: nat)
    requires
        sorted_desc(t),
        t.len() == k,
        k >= 1,
        elems_below(t, n as int),
        bag_count_fits(n, k),
    ensures
        bag_value_fits(t),
        bag_value(t) < multichoose(n, k),
{
    law_bag_num_bijection(t, t, n);
    assert(multichoose(n, k) <= k * multichoose(n, k)) by (nonlinear_arith)
        requires
            k >= 1,
    ;
    assert forall|i: int| 0 <= i < t.len() && #[trigger] t[i] > 0 implies bag_count_fits(
        t[i] as nat,
        (t.len() - i) as nat,
    ) by {
        let c = t[i] as nat;
        let j = (t.len() - i) as nat;
        lemma_multichoose_mono(c, j, n, k);
        assert(j * multichoose(c, j) <= k * multichoose(n, k)) by (nonlinear_arith)
            requires
                j <= k,
                multichoose(c, j) <= multichoose(n, k),
        ;
    }
}

/// Sorting keeps every element below `n`.
pub proof fn lemma_sort_desc_below(s: Seq<usize>, n: int)
    requires
        elems_below(s, n),
    ensures
        elems_below(sort_desc(s), n),
{
    broadcast use vstd::seq_lib::group_to_multiset_ensures;

    lemma_sort_desc(s);
    let t = sort_desc(s);
    assert forall|i: int| 0 <= i < t.len() implies #[trigger] t[i] < n by {
        assert(t.contains(t[i]));
        assert(t.to_multiset().count(t[i]) > 0);
        assert(s.contains(t[i]));
    }
}

/// The bag of a sequence of elements below `n` is numbered below the count of bags of
/// its size over `n` kinds.
pub proof fn lemma_bag_of_seq_bound(s: Seq<usize>, n: nat)
    requires
        elems_below(s, n as int),
    ensures
        bag_value(sort_desc(s)) < multichoose(n, s.len()),
{
    lemma_sort_desc(s);
    lemma_sort_desc_below(s, n as int);
    law_bag_num_bijection(sort_desc(s), sort_desc(s), n);
}

/// A nonempty sequence of digits below `n` needs `n >= 1`.
proof fn lemma_seq_digits_nonempty(s: Seq<usize>, n: int)
    requires
        s.len() >= 1,
        digits_below(s, n),
    ensures
        n >= 1,
{
    assert(s[0] < n);
}

/// Maps a sequence of `bag_size` elements out of `count` to the number of the bag of its
/// elements, through a table computed once for all sequences.
pub struct SeqBag<D> {
    count: Count<D>,
    bag_size: usize,
    seq_bag: Table<Sequence<D>, Num<Bag<D>>>,
}

impl<D> SeqBag<D> {
    pub closed spec fn count_spec(&self) -> nat {
        self.count@ as nat
    }

    pub closed spec fn bag_size_spec(&self) -> nat {
        self.bag_size as nat
    }

    /// The table holds, at the number of every sequence, the number of its bag.
    pub closed spec fn wf(&self) -> bool {
        let n = self.count@ as int;
        let k = self.bag_size as nat;
        &&& k >= 1
        &&& bag_count_fits(n as nat, k)
        &&& self.seq_bag@.len() == vstd::arithmetic::power::pow(n, k)
        &&& forall|s: Seq<usize>|
            s.len() == k && digits_below(s, n) ==> #[trigger] self.seq_bag@[seq_value(s, n)]@ == bag_value(
                sort_desc(s),
            )
    }

    pub fn new(count: Count<D>, bag_size: usize) -> (r: Self)
        requires
            bag_size >= 1,
            bag_count_fits(count@ as nat, bag_size as nat),
        ensures
            r.wf(),
            r.count_spec() == count@,
            r.bag_size_spec() == bag_size,
    {
        let ghost n = count@ as int;
        let ghost k = bag_size as nat;
        let ghost total = vstd::arithmetic::power::pow(n, k);
        let bag_num = BagNum::new(count, bag_size);
        let mut iter = SeqIter::new(count, bag_size);
        let mut out: Vec<Num<Bag<D>>> = Vec::new();
        proof {
            if n > 0 {
                vstd::arithmetic::power::lemma_pow_positive(n, k);
            } else {
                vstd::arithmetic::power::lemma0_pow(k);
            }
            assert forall|s: Seq<usize>|
                s.len() == k && digits_below(s, n) implies seq_value(s, n) >= 0 by {
                lemma_seq_digits_nonempty(s, n);
                law_seq_num_bijection(s, s, n);
            }
        }
        loop
            invariant
                k == bag_size >= 1,
                n == count@,
                bag_count_fits(n as nat, k),
                bag_num.elemtype_count_spec() == n,
                bag_num.size_spec() == k,
                total == vstd::arithmetic::power::pow(n, k),
                iter.wf(),
                iter.idxs_spec().len() == k,
                iter.count_spec() == n,
                iter.pos_spec() == out@.len(),
                0 <= iter.pos_spec() <= total,
                iter.total_spec() == total,
                forall|s: Seq<usize>|
                    s.len() == k && digits_below(s, n) && seq_value(s, n) < out@.len() ==> #[trigger] out@[seq_value(
                        s,
                        n,
                    )]@ == bag_value(sort_desc(s)),
            ensures
                out@.len() == total,
                forall|s: Seq<usize>|
                    s.len() == k && digits_below(s, n) && seq_value(s, n) < out@.len() ==> #[trigger] out@[seq_value(
                        s,
                        n,
                    )]@ == bag_value(sort_desc(s)),
            decreases total - iter.pos_spec(),
        {
            let ghost y = iter.idxs_spec();
            match iter.next() {
                None => {
                    break ;
                },
                Some(seq) => {
                    let bag = Bag::new(seq);
                    proof {
                        lemma_sort_desc(y);
                        lemma_sort_desc_below(y, n);
                        lemma_sorted_fits(sort_desc(y), n as nat, k);
                    }
                    let b = bag_num.apply(bag);
                    let ghost before = out@;
                    out.push(b);
                    proof {
                        assert forall|s: Seq<usize>|
                            s.len() == k && digits_below(s, n) && seq_value(s, n) < out@.len() implies #[trigger] out@[seq_value(
                            s,
                            n,
                        )]@ == bag_value(sort_desc(s)) by {
                            lemma_seq_digits_nonempty(s, n);
                            if seq_value(s, n) == before.len() {
                                assert(nums_view(seq@) == y);
                                assert(seq_value(y, n) == before.len());
                                law_seq_num_bijection(s, y, n);
                                assert(s == y);
                                assert(b@ == bag_value(sort_desc(y)));
                                assert(out@[before.len() as int] == b);
                            } else {
                                law_seq_num_bijection(s, s, n);
                                assert(before[seq_value(s, n)]@ == bag_value(sort_desc(s)));
                                assert(out@[seq_value(s, n)] == before[seq_value(s, n)]);
                            }
                        }
                    }
                },
            }
        }
        proof {
            assert forall|s: Seq<usize>| s.len() == k && digits_below(s, n) implies seq_value(s, n) < out@.len() by {
                lemma_seq_digits_nonempty(s, n);
                law_seq_num_bijection(s, s, n);
            }
        }
        SeqBag { count, bag_size, seq_bag: Table::from_vec(out) }
    }
}

impl<D> HasCount<Bag<D>> for SeqBag<D> {
    open spec fn count_spec(&self) -> nat {
        multichoose(self.count_spec(), self.bag_size_spec())
    }

    open spec fn count_requires(&self) -> bool {
        bag_count_fits(self.count_spec(), self.bag_size_spec())
    }

    fn count(&self) -> (r: Count<Bag<D>>) {
        BagNum::new(self.count, self.bag_size).count()
    }
}

impl<'a, D> Mapping<&'a [Num<D>]> for SeqBag<D> {
    type Result = Num<Bag<D>>;

    open spec fn apply_requires(&self, seq: &'a [Num<D>]) -> bool {
        &&& self.wf()
        &&& seq@.len() == self.bag_size_spec()
        &&& digits_below(nums_view(seq@), self.count_spec() as int)
    }

    open spec fn applies(&self, seq: &'a [Num<D>], result: Num<Bag<D>>) -> bool {
        result@ == bag_value(sort_desc(nums_view(seq@)))
    }

    fn apply(&self, seq: &'a [Num<D>]) -> (r: Num<Bag<D>>) {
        let ghost n = self.count@ as int;
        let ghost k = self.bag_size as nat;
        let ghost s = nums_view(seq@);
        let seq_num = SeqNum::new(self.count, self.bag_size);
        proof {
            lemma_seq_digits_nonempty(s, n);
            law_seq_num_bijection(s, s, n);
            crate::cat::table::lemma_table_len(self.seq_bag);
            assert forall|j: int| 0 <= j <= seq@.len() implies #[trigger] seq_value(
                nums_view(seq@.subrange(0, j)),
                seq_num.elem_count_spec(),
            ) <= usize::MAX by {
                let p = nums_view(seq@.subrange(0, j));
                assert(digits_below(p, n)) by {
                    assert forall|i: int| 0 <= i < p.len() implies #[trigger] p[i] < n by {
                        assert(p[i] == s[i]);
                    }
                }
                law_seq_num_bijection(p, p, n);
                vstd::arithmetic::power::lemma_pow_increases(n as nat, j as nat, k);
            }
        }
        let m = seq_num.apply(seq);
        *self.seq_bag.get(m)
    }
}

/// A table indexed by bags, reached through the sequences of their elements.
pub type BagTable<D, T> = Composed<SeqBag<D>, Table<Bag<D>, T>>;

/// Numbering a bag of `size` elements out of `elemtype_count` kinds, written in
/// descending order, and reading the number back gives the same bag; reading a number
/// below the count and numbering the bag read gives the same number.
pub proof fn law_bag_num_round_trip<D>(
    bn: BagNum<D>,
    bag: Bag<Num<D>>,
    num: Num<Bag<D>>,
    back: Bag<Num<D>>,
    num2: Num<Bag<D>>,
)
    requires
        sorted_desc(nums_view(bag@)),
        nums_view(bag@).len() == bn.size_spec(),
        elems_below(nums_view(bag@), bn.elemtype_count_spec() as int),
        <BagNum<D> as Mapping<Bag<Num<D>>>>::applies(&bn, bag, num),
        <BagNum<D> as Mapping<Num<Bag<D>>>>::applies(&bn, num, back),
        <BagNum<D> as Mapping<Bag<Num<D>>>>::applies(&bn, back, num2),
    ensures
        nums_view(back@) == nums_view(bag@),
        num2 == num,
{
    law_bag_num_bijection(nums_view(bag@), nums_view(back@), bn.elemtype_count_spec());
}

/// Reading a number below the count of bags and numbering the bag read gives the number
/// back: the bag read holds `size` elements below `elemtype_count`, in descending order.
pub proof fn law_bag_num_decode_encode<D>(bn: BagNum<D>, num: Num<Bag<D>>, bag: Bag<Num<D>>, num2: Num<Bag<D>>)
    requires
        <BagNum<D> as Mapping<Num<Bag<D>>>>::apply_requires(&bn, num),
        <BagNum<D> as Mapping<Num<Bag<D>>>>::applies(&bn, num, bag),
        <BagNum<D> as Mapping<Bag<Num<D>>>>::applies(&bn, bag, num2),
    ensures
        num2 == num,
        nums_view(bag@).len() == bn.size_spec(),
        sorted_desc(nums_view(bag@)),
        elems_below(nums_view(bag@), bn.elemtype_count_spec() as int),
{
}

/// The number that `SeqBag` gives a sequence depends only on which elements it holds and
/// how often: sequences that are rearrangements of each other get the same number, and
/// that number is the one `BagNum` gives the bag `Bag::new` makes of the sequence.
pub proof fn law_seq_bag_order_free<D>(
    sb: SeqBag<D>,
    bn: BagNum<D>,
    a: &[Num<D>],
    b: &[Num<D>],
    ra: Num<Bag<D>>,
    rb: Num<Bag<D>>,
    bag: Bag<Num<D>>,
    rc: Num<Bag<D>>,
)
    requires
        nums_view(a@).to_multiset() == nums_view(b@).to_multiset(),
        sb.applies(a, ra),
        sb.applies(b, rb),
        nums_view(bag@) == sort_desc(nums_view(a@)),
        <BagNum<D> as Mapping<Bag<Num<D>>>>::applies(&bn, bag, rc),
    ensures
        ra == rb,
        rc == ra,
{
    lemma_sort_desc(nums_view(a@));
    lemma_sort_desc_unique(nums_view(b@), sort_desc(nums_view(a@)));
}

} // verus!

use vstd::prelude::*;

use crate::cat::bag::{Bag, SeqBag, bag_value, sort_desc, multichoose, bag_count_fits, lemma_bag_of_seq_bound, elems_below, lemma_sort_desc, lemma_sort_desc_unique};
use crate::cat::composed::Composed;
use crate::cat::has_count::{Count, HasCount};
use crate::cat::types::Mapping;
use crate::cat::num::nums_view;
use crate::cat::num::{Num, num_of, to_num};
use crate::cat::table::Table;
use crate::data::json::groups::Group;
use crate::eval::ngram_eval::types::{NGram, NGrams};
use crate::eval::ngram_eval::utils::{NGramsSubsetBuilder, SubSeqs, gathered, incremented_at, pos_ok};

verus! {

broadcast use crate::cat::num::lemma_num_view_eq, crate::cat::num::lemma_num_of_view;

/// Some element of `row` is group `g`.
pub open spec fn row_holds(row: Seq<Num<Group>>, g: int) -> bool {
    exists|j: int| 0 <= j < row.len() && (#[trigger] row[j])@ == g
}

/// The numbers of the n-grams below `upto` in which group `g` occurs, in increasing order.
pub open spec fn rows_with<F>(ngrams: NGrams<Group, F>, g: int, upto: int) -> Seq<Num<NGram<Group>>>
    decreases upto,
{
    if upto <= 0 {
        Seq::empty()
    } else if row_holds(ngrams.elements.row_spec(upto - 1), g) {
        rows_with(ngrams, g, upto - 1).push(num_of((upto - 1) as usize))
    } else {
        rows_with(ngrams, g, upto - 1)
    }
}

/// The number of whole n-grams.
pub open spec fn ngram_count<F>(ngrams: NGrams<Group, F>) -> int {
    ngrams.elements.elems_spec().len() as int / ngrams.elements.seq_len_spec() as int
}

/// The n-grams of `ngrams` that hold each group are the subset `sub`: its rows and
/// frequencies are those of the n-grams of `rows`, in order.
pub open spec fn is_subset<F>(sub: NGrams<Group, F>, ngrams: NGrams<Group, F>, rows: Seq<Num<NGram<Group>>>) -> bool {
    &&& sub.elements.seq_len_spec() == ngrams.elements.seq_len_spec()
    &&& sub.elements.elems_spec() == gathered(ngrams.elements, rows)
    &&& sub.freqs@.len() == rows.len()
    &&& forall|i: int| 0 <= i < rows.len() ==> #[trigger] sub.freqs@[i] == ngrams.freqs@[rows[i]@ as int]
}

/// The numbers collected for the rows below `upto` all lie below `upto` and increase.
proof fn lemma_rows_with<F>(ngrams: NGrams<Group, F>, g: int, upto: int)
    requires
        upto >= 0,
    ensures
        rows_with(ngrams, g, upto).len() <= upto,
        forall|i: int| 0 <= i < rows_with(ngrams, g, upto).len() ==> (#[trigger] rows_with(ngrams, g, upto)[i])@ < upto,
    decreases upto,
{
    if upto > 0 {
        lemma_rows_with(ngrams, g, upto - 1);
    }
}

/// For every group, the n-grams in which it occurs.
pub fn mk_group_ngrams<F: Copy>(group_count: Count<Group>, ngrams: &NGrams<Group, F>) -> (r: Table<Group, NGrams<Group, F>>)
    requires
        ngrams.elements.seq_len_spec() > 0,
        ngrams.freqs@.len() >= ngram_count(*ngrams),
        forall|i: int|
            0 <= i < ngrams.elements.elems_spec().len() ==> (#[trigger] ngrams.elements.elems_spec()[i])@
                < group_count@,
    ensures
        r@.len() == group_count@,
        forall|g: int| 0 <= g < group_count@ ==> is_subset(#[trigger] r@[g], *ngrams, rows_with(*ngrams, g, ngram_count(*ngrams))),
{
    let nc = group_count.as_usize();
    let seq_len = ngrams.elements.seq_len();
    let n = ngrams.elements.count().as_usize();
    let ghost total: int = ngrams.elements.elems_spec().len() as int;
    proof {
        crate::cat::seq_table::lemma_seq_table_len(ngrams.elements);
        vstd::arithmetic::div_mod::lemma_fundamental_div_mod(total, seq_len as int);
        assert(n * seq_len <= total) by (nonlinear_arith)
            requires
                n == total / (seq_len as int),
                seq_len > 0,
                total == seq_len * (total / (seq_len as int)) + total % (seq_len as int),
                0 <= total % (seq_len as int),
        ;
    }
    let mut builder_vec: Vec<NGramsSubsetBuilder<Group>> = Vec::with_capacity(nc);
    let mut g: usize = 0;
    while g < nc
        invariant
            g <= nc,
            builder_vec@.len() == g,
            forall|h: int|
                0 <= h < g ==> (#[trigger] builder_vec@[h]).wf() && builder_vec@[h].nums_spec().len() == 0
                    && builder_vec@[h].next_allowed_spec() == 0,
        decreases nc - g,
    {
        builder_vec.push(NGramsSubsetBuilder::new());
        g = g + 1;
    }
    let mut builders: Table<Group, NGramsSubsetBuilder<Group>> = Table::from_vec(builder_vec);
    let mut k: usize = 0;
    while k < n
        invariant
            k <= n,
            nc == group_count@,
            n == ngram_count(*ngrams),
            seq_len == ngrams.elements.seq_len_spec(),
            seq_len > 0,
            n * seq_len <= ngrams.elements.elems_spec().len() <= usize::MAX,
            forall|i: int|
                0 <= i < ngrams.elements.elems_spec().len() ==> (#[trigger] ngrams.elements.elems_spec()[i])@
                    < group_count@,
            builders@.len() == nc,
            forall|h: int|
                0 <= h < nc ==> (#[trigger] builders@[h]).wf() && builders@[h].nums_spec() == rows_with(*ngrams, h, k as int)
                    && builders@[h].next_allowed_spec() == if builders@[h].nums_spec().len() == 0 {
                    0
                } else {
                    builders@[h].nums_spec().last()@ + 1
                },
        decreases n - k,
    {
        let ngram_num: Num<NGram<Group>> = to_num(k);
        proof {
            assert((k + 1) * seq_len <= n * seq_len) by (nonlinear_arith)
                requires
                    k + 1 <= n,
            ;
            assert(k * seq_len + seq_len == (k + 1) * seq_len) by (nonlinear_arith);
        }
        let row = ngrams.elements.row(ngram_num);
        let ghost before = builders@;
        proof {
            assert forall|h: int| 0 <= h < nc implies forall|i: int| 0 <= i < #[trigger] rows_with(*ngrams, h, k as int).len() ==> rows_with(*ngrams, h, k as int)[i]@ < k by {
                lemma_rows_with(*ngrams, h, k as int);
            }
        }
        let mut j: usize = 0;
        while j < row.len()
            invariant
                k < n,
                nc == group_count@,
                row@ == ngrams.elements.row_spec(k as int),
                row@.len() == seq_len,
                k < usize::MAX,
                ngram_num == num_of::<NGram<Group>>(k),
                j <= row@.len(),
                forall|i: int| 0 <= i < row@.len() ==> (#[trigger] row@[i])@ < group_count@,
                builders@.len() == nc,
                forall|h: int|
                    0 <= h < nc ==> (#[trigger] builders@[h]).wf() && builders@[h].nums_spec() == rows_with(
                        *ngrams,
                        h,
                        k as int,
                    ) + if row_holds(row@.subrange(0, j as int), h) {
                        seq![ngram_num]
                    } else {
                        Seq::empty()
                    } && builders@[h].next_allowed_spec() == if builders@[h].nums_spec().len() == 0 {
                        0
                    } else {
                        builders@[h].nums_spec().last()@ + 1
                    },
                forall|h: int| 0 <= h < nc ==> forall|i: int| 0 <= i < #[trigger] rows_with(*ngrams, h, k as int).len() ==> rows_with(*ngrams, h, k as int)[i]@ < k,
            decreases row@.len() - j,
        {
            let item = row[j];
            let ghost old_b = builders@[item@ as int];
            let ghost all_before = builders@;
            {
                let b = builders.get_mut(item);
                b.push(ngram_num);
            }
            proof {
                let gi = item@ as int;
                assert forall|h: int| 0 <= h < nc implies (#[trigger] builders@[h]).wf() && builders@[h].nums_spec() == rows_with(
                    *ngrams,
                    h,
                    k as int,
                ) + if row_holds(row@.subrange(0, j + 1), h) {
                    seq![ngram_num]
                } else {
                    Seq::empty()
                } && builders@[h].next_allowed_spec() == if builders@[h].nums_spec().len() == 0 {
                    0
                } else {
                    builders@[h].nums_spec().last()@ + 1
                } by {
                    let pre = row@.subrange(0, j as int);
                    let nxt = row@.subrange(0, j + 1);
                    if row_holds(pre, h) {
                        let w = choose|w: int| 0 <= w < pre.len() && (#[trigger] pre[w])@ == h;
                        assert(nxt[w] == pre[w]);
                    }
                    if row_holds(nxt, h) && !row_holds(pre, h) {
                        let w = choose|w: int| 0 <= w < nxt.len() && (#[trigger] nxt[w])@ == h;
                        if w < j {
                            assert(pre[w] == nxt[w]);
                        }
                        assert(w == j);
                    }
                    if h == gi {
                        assert(nxt[j as int] == item);
                        assert(row_holds(nxt, h));
                        let rw = rows_with(*ngrams, h, k as int);
                        if row_holds(pre, h) {
                            assert(all_before[h].nums_spec() == rw.push(ngram_num));
                            assert(all_before[h].next_allowed_spec() == k + 1);
                        } else {
                            assert(all_before[h].nums_spec() =~= rw);
                            if rw.len() > 0 {
                                assert(rw[rw.len() - 1]@ < k);
                            }
                            assert(rw + seq![ngram_num] =~= rw.push(ngram_num));
                        }
                    } else {
                        assert(builders@[h] == all_before[h]);
                    }
                }
            }
            j = j + 1;
        }
        proof {
            assert(row@.subrange(0, row@.len() as int) =~= row@);
            assert forall|h: int| 0 <= h < nc implies (#[trigger] builders@[h]).nums_spec() == rows_with(*ngrams, h, k + 1) by {
                let rw = rows_with(*ngrams, h, k as int);
                if row_holds(row@, h) {
                    assert(rw + seq![ngram_num] =~= rw.push(ngram_num));
                } else {
                    assert(rw + Seq::<Num<NGram<Group>>>::empty() =~= rw);
                }
            }
        }
        k = k + 1;
    }
    let mut out: Vec<NGrams<Group, F>> = Vec::with_capacity(nc);
    let mut h: usize = 0;
    while h < nc
        invariant
            h <= nc,
            nc == group_count@,
            n == ngram_count(*ngrams),
            n * seq_len <= ngrams.elements.elems_spec().len() <= usize::MAX,
            seq_len == ngrams.elements.seq_len_spec(),
            seq_len > 0,
            ngrams.freqs@.len() >= n,
            builders@.len() == nc,
            forall|g: int| 0 <= g < nc ==> (#[trigger] builders@[g]).wf() && builders@[g].nums_spec() == rows_with(*ngrams, g, n as int),
            out@.len() == h,
            forall|g: int| 0 <= g < h ==> is_subset(#[trigger] out@[g], *ngrams, rows_with(*ngrams, g, n as int)),
        decreases nc - h,
    {
        let b = builders.get(to_num(h));
        proof {
            let rw = rows_with(*ngrams, h as int, n as int);
            lemma_rows_with(*ngrams, h as int, n as int);
            assert forall|i: int| 0 <= i < rw.len() implies ngrams.elements.has_row((#[trigger] rw[i])@ as int)
                && rw[i]@ < ngrams.freqs@.len() by {
                assert((rw[i]@ + 1) * seq_len <= n * seq_len) by (nonlinear_arith)
                    requires
                        rw[i]@ + 1 <= n,
                ;
            }
            assert(rw.len() * seq_len <= n * seq_len) by (nonlinear_arith)
                requires
                    rw.len() <= n,
            ;
        }
        let sub = b.build(ngrams);
        out.push(sub);
        h = h + 1;
    }
    Table::from_vec(out)
}

/// The number of the bag of the groups at positions `x` and `y` of `row`.
pub open spec fn pair_bag(row: Seq<Num<Group>>, x: int, y: int) -> nat {
    bag_value(sort_desc(seq![row[x]@, row[y]@]))
}

/// Some pair of positions `x < y` of `row` that comes before `(i, j)` in lexicographic
/// order has the bag numbered `b`.
pub open spec fn pair_before(row: Seq<Num<Group>>, b: int, i: int, j: int) -> bool {
    exists|x: int, y: int|
        0 <= x < y < row.len() && (x < i || (x == i && y < j)) && #[trigger] pair_bag(row, x, y) == b
}

/// Some pair of positions of `row` has the bag numbered `b`.
pub open spec fn row_has_pair(row: Seq<Num<Group>>, b: int) -> bool {
    exists|x: int, y: int| 0 <= x < y < row.len() && #[trigger] pair_bag(row, x, y) == b
}

/// The numbers of the n-grams below `upto` that hold a pair of groups whose bag is
/// numbered `b`, in increasing order.
pub open spec fn rows_with_pair<F>(ngrams: NGrams<Group, F>, b: int, upto: int) -> Seq<Num<NGram<Group>>>
    decreases upto,
{
    if upto <= 0 {
        Seq::empty()
    } else if row_has_pair(ngrams.elements.row_spec(upto - 1), b) {
        rows_with_pair(ngrams, b, upto - 1).push(num_of((upto - 1) as usize))
    } else {
        rows_with_pair(ngrams, b, upto - 1)
    }
}

proof fn lemma_rows_with_pair<F>(ngrams: NGrams<Group, F>, b: int, upto: int)
    requires
        upto >= 0,
    ensures
        rows_with_pair(ngrams, b, upto).len() <= upto,
        forall|i: int| 0 <= i < rows_with_pair(ngrams, b, upto).len() ==> (#[trigger] rows_with_pair(ngrams, b, upto)[i])@ < upto,
    decreases upto,
{
    if upto > 0 {
        lemma_rows_with_pair(ngrams, b, upto - 1);
    }
}

/// Moving from pair `(i, j)` to `(i, j + 1)` adds that pair to those before.
proof fn lemma_pair_next_in_row(row: Seq<Num<Group>>, b: int, i: int, j: int)
    requires
        0 <= i <= j,
        j + 1 < row.len(),
    ensures
        pair_before(row, b, i, j + 2) == (pair_before(row, b, i, j + 1) || pair_bag(row, i, j + 1) == b),
{
    if pair_before(row, b, i, j + 2) && !(pair_bag(row, i, j + 1) == b) {
        let (x, y) = choose|x: int, y: int|
            0 <= x < y < row.len() && (x < i || (x == i && y < j + 2)) && #[trigger] pair_bag(row, x, y) == b;
        assert(!(x == i && y == j + 1));
        assert(pair_bag(row, x, y) == b);
    }
    if pair_before(row, b, i, j + 1) {
        let (x, y) = choose|x: int, y: int|
            0 <= x < y < row.len() && (x < i || (x == i && y < j + 1)) && #[trigger] pair_bag(row, x, y) == b;
        assert(pair_bag(row, x, y) == b);
    }
    if pair_bag(row, i, j + 1) == b && i < j + 1 {
        assert(pair_bag(row, i, j + 1) == b);
    }
}

/// Moving from the last pair `(i, len - 1)` of a first position to `(i + 1, i + 2)` adds
/// that pair to those before.
proof fn lemma_pair_next_first(row: Seq<Num<Group>>, b: int, i: int)
    requires
        0 <= i,
        i + 2 < row.len(),
    ensures
        pair_before(row, b, i + 1, i + 3) == (pair_before(row, b, i, row.len() as int) || pair_bag(row, i + 1, i + 2) == b),
{
    let m = row.len() as int;
    if pair_before(row, b, i + 1, i + 3) && !(pair_bag(row, i + 1, i + 2) == b) {
        let (x, y) = choose|x: int, y: int|
            0 <= x < y < row.len() && (x < i + 1 || (x == i + 1 && y < i + 3)) && #[trigger] pair_bag(row, x, y) == b;
        assert(!(x == i + 1 && y == i + 2));
        assert(pair_bag(row, x, y) == b);
    }
    if pair_before(row, b, i, m) {
        let (x, y) = choose|x: int, y: int|
            0 <= x < y < row.len() && (x < i || (x == i && y < m)) && #[trigger] pair_bag(row, x, y) == b;
        assert(pair_bag(row, x, y) == b);
    }
    if pair_bag(row, i + 1, i + 2) == b {
        assert(pair_bag(row, i + 1, i + 2) == b);
    }
}

/// The pairs before `(len - 2, len)` are all pairs.
proof fn lemma_pair_all(row: Seq<Num<Group>>, b: int)
    requires
        row.len() >= 2,
    ensures
        pair_before(row, b, row.len() - 2, row.len() as int) == row_has_pair(row, b),
{
    let m = row.len() as int;
    if row_has_pair(row, b) {
        let (x, y) = choose|x: int, y: int| 0 <= x < y < row.len() && #[trigger] pair_bag(row, x, y) == b;
        assert(x < m - 2 || (x == m - 2 && y < m));
        assert(pair_bag(row, x, y) == b);
    }
    if pair_before(row, b, m - 2, m) {
        let (x, y) = choose|x: int, y: int|
            0 <= x < y < row.len() && (x < m - 2 || (x == m - 2 && y < m)) && #[trigger] pair_bag(row, x, y) == b;
        assert(pair_bag(row, x, y) == b);
    }
}

/// No pair comes before `(0, 1)`.
proof fn lemma_pair_none(row: Seq<Num<Group>>, b: int)
    ensures
        !pair_before(row, b, 0, 1),
{
}

/// For every bag of two groups, the n-grams in which both groups occur (at two different
/// positions).
pub fn mk_intersections<F: Copy>(count: Count<Group>, ngrams: &NGrams<Group, F>) -> (r: Composed<SeqBag<Group>, Table<Bag<Group>, NGrams<Group, F>>>)
    requires
        2 <= ngrams.elements.seq_len_spec() < usize::MAX,
        ngrams.freqs@.len() >= ngram_count(*ngrams),
        forall|i: int|
            0 <= i < ngrams.elements.elems_spec().len() ==> (#[trigger] ngrams.elements.elems_spec()[i])@
                < count@,
        bag_count_fits(count@ as nat, 2),
    ensures
        r.fst_spec().wf(),
        r.fst_spec().count_spec() == count@,
        r.fst_spec().bag_size_spec() == 2,
        r.snd_spec()@.len() == multichoose(count@ as nat, 2),
        forall|b: int|
            0 <= b < r.snd_spec()@.len() ==> is_subset(
                #[trigger] r.snd_spec()@[b],
                *ngrams,
                rows_with_pair(*ngrams, b, ngram_count(*ngrams)),
            ),
{
    let seq_bag: SeqBag<Group> = SeqBag::new(count, 2);
    let nb = seq_bag.count().as_usize();
    let seq_len = ngrams.elements.seq_len();
    let n = ngrams.elements.count().as_usize();
    let ghost total: int = ngrams.elements.elems_spec().len() as int;
    proof {
        crate::cat::seq_table::lemma_seq_table_len(ngrams.elements);
        vstd::arithmetic::div_mod::lemma_fundamental_div_mod(total, seq_len as int);
        assert(n * seq_len <= total) by (nonlinear_arith)
            requires
                n == total / (seq_len as int),
                seq_len > 0,
                total == seq_len * (total / (seq_len as int)) + total % (seq_len as int),
                0 <= total % (seq_len as int),
        ;
    }
    let mut builder_vec: Vec<NGramsSubsetBuilder<Group>> = Vec::with_capacity(nb);
    let mut g: usize = 0;
    while g < nb
        invariant
            g <= nb,
            builder_vec@.len() == g,
            forall|h: int|
                0 <= h < g ==> (#[trigger] builder_vec@[h]).wf() && builder_vec@[h].nums_spec().len() == 0
                    && builder_vec@[h].next_allowed_spec() == 0,
        decreases nb - g,
    {
        builder_vec.push(NGramsSubsetBuilder::new());
        g = g + 1;
    }
    let mut builders: Table<Bag<Group>, NGramsSubsetBuilder<Group>> = Table::from_vec(builder_vec);
    let mut k: usize = 0;
    while k < n
        invariant
            k <= n,
            nb == multichoose(count@ as nat, 2),
            seq_bag.wf(),
            seq_bag.count_spec() == count@,
            seq_bag.bag_size_spec() == 2,
            n == ngram_count(*ngrams),
            seq_len == ngrams.elements.seq_len_spec(),
            2 <= seq_len < usize::MAX,
            n * seq_len <= ngrams.elements.elems_spec().len() <= usize::MAX,
            forall|i: int|
                0 <= i < ngrams.elements.elems_spec().len() ==> (#[trigger] ngrams.elements.elems_spec()[i])@
                    < count@,
            builders@.len() == nb,
            forall|h: int|
                0 <= h < nb ==> (#[trigger] builders@[h]).wf() && builders@[h].nums_spec() == rows_with_pair(
                    *ngrams,
                    h,
                    k as int,
                ) && builders@[h].next_allowed_spec() == if builders@[h].nums_spec().len() == 0 {
                    0
                } else {
                    builders@[h].nums_spec().last()@ + 1
                },
        decreases n - k,
    {
        let ngram_num: Num<NGram<Group>> = to_num(k);
        proof {
            assert((k + 1) * seq_len <= n * seq_len) by (nonlinear_arith)
                requires
                    k + 1 <= n,
            ;
            assert(k * seq_len + seq_len == (k + 1) * seq_len) by (nonlinear_arith);
            assert forall|h: int| 0 <= h < nb implies forall|i: int| 0 <= i < #[trigger] rows_with_pair(*ngrams, h, k as int).len() ==> rows_with_pair(*ngrams, h, k as int)[i]@ < k by {
                lemma_rows_with_pair(*ngrams, h, k as int);
            }
        }
        let row = ngrams.elements.row(ngram_num);
        let ghost m = row@.len() as int;
        let mut subseqs = SubSeqs::new(row, 2);
        proof {
            assert forall|h: int| 0 <= h < nb implies !pair_before(row@, h, 0, 1) by {
                lemma_pair_none(row@, h);
            }
            assert forall|h: int| 0 <= h < nb implies (#[trigger] builders@[h]).nums_spec() == rows_with_pair(*ngrams, h, k as int)
                + Seq::<Num<NGram<Group>>>::empty() by {
                assert(rows_with_pair(*ngrams, h, k as int) + Seq::<Num<NGram<Group>>>::empty() =~= rows_with_pair(*ngrams, h, k as int));
            }
        }
        loop
            invariant_except_break
                (!subseqs.started_spec() && subseqs.idxs_spec()[0] == 0 && subseqs.idxs_spec()[1] == 1) || (
                subseqs.started_spec() && subseqs.idxs_spec()[0] < subseqs.idxs_spec()[1] < m
                    && subseqs.idxs_spec()[0] <= m - 2),
            invariant
                k < n,
                nb == multichoose(count@ as nat, 2),
                seq_bag.wf(),
                seq_bag.count_spec() == count@,
                seq_bag.bag_size_spec() == 2,
                row@ == ngrams.elements.row_spec(k as int),
                m == row@.len(),
                m == seq_len,
                2 <= m < usize::MAX,
                k < usize::MAX,
                ngram_num == num_of::<NGram<Group>>(k),
                forall|i: int| 0 <= i < row@.len() ==> (#[trigger] row@[i])@ < count@,
                subseqs.wf(),
                subseqs.seq_spec() == row@,
                subseqs.idxs_spec().len() == 2,
                builders@.len() == nb,
                forall|h: int|
                    0 <= h < nb ==> (#[trigger] builders@[h]).wf() && builders@[h].nums_spec() == rows_with_pair(
                        *ngrams,
                        h,
                        k as int,
                    ) + if subseqs.started_spec() && pair_before(row@, h, subseqs.idxs_spec()[0] as int, subseqs.idxs_spec()[1] + 1) {
                        seq![ngram_num]
                    } else {
                        Seq::empty()
                    } && builders@[h].next_allowed_spec() == if builders@[h].nums_spec().len() == 0 {
                        0
                    } else {
                        builders@[h].nums_spec().last()@ + 1
                    },
                forall|h: int| 0 <= h < nb ==> forall|i: int| 0 <= i < #[trigger] rows_with_pair(*ngrams, h, k as int).len() ==> rows_with_pair(*ngrams, h, k as int)[i]@ < k,
            ensures
                builders@.len() == nb,
                forall|h: int|
                    0 <= h < nb ==> (#[trigger] builders@[h]).wf() && builders@[h].nums_spec() == rows_with_pair(
                        *ngrams,
                        h,
                        k as int,
                    ) + if row_has_pair(row@, h) {
                        seq![ngram_num]
                    } else {
                        Seq::empty()
                    } && builders@[h].next_allowed_spec() == if builders@[h].nums_spec().len() == 0 {
                        0
                    } else {
                        builders@[h].nums_spec().last()@ + 1
                    },
            decreases (if subseqs.started_spec() {
                0int
            } else {
                1int
            }), m - subseqs.idxs_spec()[0], m + 1 - subseqs.idxs_spec()[1],
        {
            let ghost was = subseqs.started_spec();
            let ghost i0 = subseqs.idxs_spec()[0] as int;
            let ghost j0 = subseqs.idxs_spec()[1] as int;
            let ghost old_idxs = subseqs.idxs_spec();
            let ghost all_before = builders@;
            let depleted = subseqs.next();
            let ghost i1 = subseqs.idxs_spec()[0] as int;
            let ghost j1 = subseqs.idxs_spec()[1] as int;
            let ghost p = choose|p: int| 0 <= p < 2 && #[trigger] incremented_at(m, old_idxs, subseqs.idxs_spec(), p);
            proof {
                if !was {
                    assert(i1 == 0 && j1 == 1);
                } else if p == 1 {
                    assert(incremented_at(m, old_idxs, subseqs.idxs_spec(), p));
                    assert(i1 == i0 && j1 == j0 + 1);
                    assert(pos_ok(m, 2, 1, j0 + 1));
                } else {
                    assert(incremented_at(m, old_idxs, subseqs.idxs_spec(), p));
                    assert(i1 == i0 + 1 && j1 == i0 + 2);
                    assert(!pos_ok(m, 2, 1, j0 + 1));
                    assert(j0 == m - 1);
                }
            }
            if depleted {
                proof {
                    assert(was);
                    assert(p == 0);
                    assert(i0 == m - 2);
                    assert forall|h: int| 0 <= h < nb implies #[trigger] pair_before(row@, h, i0, j0 + 1) == row_has_pair(row@, h) by {
                        lemma_pair_all(row@, h);
                    }
                }
                break;
            }
            let pair = subseqs.seq();
            let items: Vec<Num<Group>> = vec![*pair[0], *pair[1]];
            proof {
                assert(nums_view(items@) =~= seq![row@[i1]@, row@[j1]@]);
                assert(elems_below(nums_view(items@), count@ as int));
                lemma_bag_of_seq_bound(nums_view(items@), count@ as nat);
                assert(crate::cat::seq::digits_below(nums_view(items@), count@ as int));
            }
            let bag = seq_bag.apply(items.as_slice());
            proof {
                assert(bag@ == pair_bag(row@, i1, j1));
            }
            {
                let b = builders.get_mut(bag);
                b.push(ngram_num);
            }
            proof {
                assert forall|h: int| 0 <= h < nb implies #[trigger] pair_before(row@, h, i1, j1 + 1) == ((was && pair_before(row@, h, i0, j0 + 1)) || pair_bag(row@, i1, j1) == h) by {
                    if !was {
                        lemma_pair_none(row@, h);
                        lemma_pair_next_in_row(row@, h, 0, 0);
                    } else if p == 1 {
                        lemma_pair_next_in_row(row@, h, i0, j0);
                    } else {
                        lemma_pair_next_first(row@, h, i0);
                    }
                }
                assert forall|h: int|
                    0 <= h < nb implies (#[trigger] builders@[h]).wf() && builders@[h].nums_spec() == rows_with_pair(
                        *ngrams,
                        h,
                        k as int,
                    ) + if subseqs.started_spec() && pair_before(row@, h, i1, j1 + 1) {
                        seq![ngram_num]
                    } else {
                        Seq::empty()
                    } && builders@[h].next_allowed_spec() == if builders@[h].nums_spec().len() == 0 {
                        0
                    } else {
                        builders@[h].nums_spec().last()@ + 1
                    } by {
                    let rw = rows_with_pair(*ngrams, h, k as int);
                    if h == bag@ {
                        if was && pair_before(row@, h, i0, j0 + 1) {
                            assert(all_before[h].nums_spec() == rw + seq![ngram_num]);
                            assert(all_before[h].nums_spec() =~= rw.push(ngram_num));
                            assert(all_before[h].next_allowed_spec() == k + 1);
                        } else {
                            assert(all_before[h].nums_spec() =~= rw);
                            if rw.len() > 0 {
                                assert(rw[rw.len() - 1]@ < k);
                            }
                            assert(rw + seq![ngram_num] =~= rw.push(ngram_num));
                        }
                    } else {
                        assert(builders@[h] == all_before[h]);
                    }
                }
            }
        }
        proof {
            assert forall|h: int| 0 <= h < nb implies (#[trigger] builders@[h]).nums_spec() == rows_with_pair(*ngrams, h, k + 1) by {
                let rw = rows_with_pair(*ngrams, h, k as int);
                if row_has_pair(row@, h) {
                    assert(rw + seq![ngram_num] =~= rw.push(ngram_num));
                } else {
                    assert(rw + Seq::<Num<NGram<Group>>>::empty() =~= rw);
                }
            }
        }
        k = k + 1;
    }
    let mut out: Vec<NGrams<Group, F>> = Vec::with_capacity(nb);
    let mut h: usize = 0;
    while h < nb
        invariant
            h <= nb,
            n == ngram_count(*ngrams),
            n * seq_len <= ngrams.elements.elems_spec().len() <= usize::MAX,
            seq_len == ngrams.elements.seq_len_spec(),
            seq_len > 0,
            ngrams.freqs@.len() >= n,
            builders@.len() == nb,
            forall|g: int| 0 <= g < nb ==> (#[trigger] builders@[g]).wf() && builders@[g].nums_spec() == rows_with_pair(*ngrams, g, n as int),
            out@.len() == h,
            forall|g: int| 0 <= g < h ==> is_subset(#[trigger] out@[g], *ngrams, rows_with_pair(*ngrams, g, n as int)),
        decreases nb - h,
    {
        let b = builders.get(to_num(h));
        proof {
            let rw = rows_with_pair(*ngrams, h as int, n as int);
            lemma_rows_with_pair(*ngrams, h as int, n as int);
            assert forall|i: int| 0 <= i < rw.len() implies ngrams.elements.has_row((#[trigger] rw[i])@ as int)
                && rw[i]@ < ngrams.freqs@.len() by {
                assert((rw[i]@ + 1) * seq_len <= n * seq_len) by (nonlinear_arith)
                    requires
                        rw[i]@ + 1 <= n,
                ;
            }
            assert(rw.len() * seq_len <= n * seq_len) by (nonlinear_arith)
                requires
                    rw.len() <= n,
            ;
        }
        let sub = b.build(ngrams);
        out.push(sub);
        h = h + 1;
    }
    Composed::new(seq_bag, Table::from_vec(out))
}

/// An n-gram evaluator's tables: the n-grams, the costs of paths (of type `C`), and for
/// every group and every pair of groups the n-grams in which they occur.
pub struct NGramEval<F, C> {
    ngrams: NGrams<Group, F>,
    costs: C,
    group_ngrams: Table<Group, NGrams<Group, F>>,
    intersections: Composed<SeqBag<Group>, Table<Bag<Group>, NGrams<Group, F>>>,
}

impl<F: Copy, C> NGramEval<F, C> {
    pub closed spec fn ngrams_spec(&self) -> NGrams<Group, F> {
        self.ngrams
    }

    pub closed spec fn costs_spec(&self) -> C {
        self.costs
    }

    pub closed spec fn group_count_spec(&self) -> nat {
        self.group_ngrams@.len()
    }

    /// Every group has its n-grams, and every pair of groups has the n-grams that hold both.
    pub closed spec fn wf(&self) -> bool {
        let n = ngram_count(self.ngrams);
        let count = self.group_ngrams@.len();
        &&& forall|g: int| 0 <= g < count ==> is_subset(#[trigger] self.group_ngrams@[g], self.ngrams, rows_with(self.ngrams, g, n))
        &&& self.intersections.fst_spec().wf()
        &&& self.intersections.fst_spec().count_spec() == count
        &&& self.intersections.fst_spec().bag_size_spec() == 2
        &&& self.intersections.snd_spec()@.len() == multichoose(count, 2)
        &&& forall|b: int|
            0 <= b < self.intersections.snd_spec()@.len() ==> is_subset(
                #[trigger] self.intersections.snd_spec()@[b],
                self.ngrams,
                rows_with_pair(self.ngrams, b, n),
            )
    }

    /// The evaluator for `ngrams`, whose elements are `t_count` groups, and `costs`.
    pub fn new(t_count: Count<Group>, ngrams: NGrams<Group, F>, costs: C) -> (r: Self)
        requires
            2 <= ngrams.elements.seq_len_spec() < usize::MAX,
            ngrams.freqs@.len() >= ngram_count(ngrams),
            forall|i: int|
                0 <= i < ngrams.elements.elems_spec().len() ==> (#[trigger] ngrams.elements.elems_spec()[i])@
                    < t_count@,
            bag_count_fits(t_count@ as nat, 2),
        ensures
            r.wf(),
            r.ngrams_spec() == ngrams,
            r.costs_spec() == costs,
            r.group_count_spec() == t_count@,
    {
        let group_ngrams = mk_group_ngrams(t_count, &ngrams);
        let intersections = mk_intersections(t_count, &ngrams);
        NGramEval { ngrams, costs, group_ngrams, intersections }
    }

    /// The n-grams in which both given groups occur.
    pub fn intersection(&self, ts: [Num<Group>; 2]) -> (r: &NGrams<Group, F>)
        requires
            self.wf(),
            ts@[0]@ < self.group_count_spec(),
            ts@[1]@ < self.group_count_spec(),
        ensures
            is_subset(
                *r,
                self.ngrams_spec(),
                rows_with_pair(
                    self.ngrams_spec(),
                    bag_value(sort_desc(seq![ts@[0]@, ts@[1]@])) as int,
                    ngram_count(self.ngrams_spec()),
                ),
            ),
    {
        let key: Vec<Num<Group>> = vec![ts[0], ts[1]];
        proof {
            assert(nums_view(key@) =~= seq![ts@[0]@, ts@[1]@]);
            assert(elems_below(nums_view(key@), self.group_count_spec() as int));
            lemma_bag_of_seq_bound(nums_view(key@), self.group_count_spec());
        }
        let bag = self.intersections.fst().apply(key.as_slice());
        self.intersections.snd().get(bag)
    }

    /// The n-grams in which the given group occurs.
    pub fn group_ngrams(&self, group: Num<Group>) -> (r: &NGrams<Group, F>)
        requires
            self.wf(),
            group@ < self.group_count_spec(),
        ensures
            is_subset(*r, self.ngrams_spec(), rows_with(self.ngrams_spec(), group@ as int, ngram_count(self.ngrams_spec()))),
    {
        self.group_ngrams.get(group)
    }

    /// The costs of paths.
    pub fn costs(&self) -> (r: &C)
        ensures
            *r == self.costs_spec(),
    {
        &self.costs
    }

    /// The n-grams.
    pub fn ngrams(&self) -> (r: &NGrams<Group, F>)
        ensures
            *r == self.ngrams_spec(),
    {
        &self.ngrams
    }
}

/// Two groups name the same bag in either order, so the n-grams in which they occur
/// together do not depend on the order in which they are given to `intersection`.
pub proof fn law_intersection_symmetric<F>(ngrams: NGrams<Group, F>, g: usize, h: usize)
    ensures
        sort_desc(seq![g, h]) == sort_desc(seq![h, g]),
        rows_with_pair(ngrams, bag_value(sort_desc(seq![g, h])) as int, ngram_count(ngrams)) == rows_with_pair(
            ngrams,
            bag_value(sort_desc(seq![h, g])) as int,
            ngram_count(ngrams),
        ),
{
    let a = seq![g, h];
    let b = seq![h, g];
    assert(a =~= seq![g] + seq![h]);
    assert(b =~= seq![h] + seq![g]);
    vstd::seq_lib::lemma_multiset_commutative(seq![g], seq![h]);
    vstd::seq_lib::lemma_multiset_commutative(seq![h], seq![g]);
    assert(a.to_multiset() =~= b.to_multiset());
    lemma_sort_desc(a);
    lemma_sort_desc_unique(b, sort_desc(a));
}

} // verus!

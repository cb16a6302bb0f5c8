use vstd::prelude::*;

use crate::cat::has_count::HasCount;
use crate::cat::num::{Num, nums_view};
use crate::cat::table::Table;
use crate::data::restricted_range::{
    RestrictedRange,
    occurrences,
    lemma_occurrences_holds,
    lemma_occurrences_unique,
};
use crate::data::types::{Assignment, Domain, Key, Restriction, Value, holds_value};

verus! {

broadcast use crate::cat::num::lemma_num_view_eq, crate::cat::num::lemma_num_of_view,
    vstd::std_specs::vec::axiom_spec_len;

/// The restriction that assigned key `k` puts on `t` under the mapping `m`.
pub open spec fn active(d: Domain, m: Seq<Option<Num<Value>>>, k: int, t: int) -> Restriction {
    d.constraint(k, t, m[k]->0@ as int)
}

/// How many of the keys below `n` are assigned under `m` and restrict `t` to a list
/// of values.
pub open spec fn only_count(d: Domain, m: Seq<Option<Num<Value>>>, t: int, n: int) -> nat
    decreases n,
{
    if n <= 0 {
        0
    } else {
        only_count(d, m, t, n - 1) + if m[n - 1] is Some && active(d, m, n - 1, t).is_only() {
            1nat
        } else {
            0nat
        }
    }
}

/// How many of the keys below `n` are assigned under `m` and restrict `t` to a list of
/// values that holds `v`.
pub open spec fn only_hits(d: Domain, m: Seq<Option<Num<Value>>>, t: int, v: int, n: int) -> nat
    decreases n,
{
    if n <= 0 {
        0
    } else {
        only_hits(d, m, t, v, n - 1) + if m[n - 1] is Some && active(d, m, n - 1, t).is_only()
            && holds_value(active(d, m, n - 1, t).values_spec(), v) {
            1nat
        } else {
            0nat
        }
    }
}

/// How often `v` is listed as forbidden for `t` by the keys below `n` that are assigned
/// under `m`.
pub open spec fn not_hits(d: Domain, m: Seq<Option<Num<Value>>>, t: int, v: int, n: int) -> nat
    decreases n,
{
    if n <= 0 {
        0
    } else {
        not_hits(d, m, t, v, n - 1) + if m[n - 1] is Some && !active(d, m, n - 1, t).is_only() {
            occurrences(active(d, m, n - 1, t).values_spec(), v)
        } else {
            0nat
        }
    }
}

/// The restriction levels that the key's own restriction gives its range.
pub open spec fn base_levels(d: Domain, t: int) -> nat {
    if d.key_restrictions@[t].is_only() {
        2
    } else {
        1
    }
}

/// The level of `v` that the key's own restriction gives.
pub open spec fn base_level(d: Domain, t: int, v: int) -> nat {
    if d.key_restrictions@[t].is_only() && holds_value(d.key_restrictions@[t].values_spec(), v) {
        1
    } else {
        0
    }
}

/// The rejections of `v` that the key's own restriction gives.
pub open spec fn base_times(d: Domain, t: int, v: int) -> nat {
    if d.key_restrictions@[t].is_only() {
        0
    } else {
        occurrences(d.key_restrictions@[t].values_spec(), v)
    }
}

/// One when `own` is the value `v`.
pub open spec fn own_hit(own: Option<Num<Value>>, v: int) -> nat {
    if own is Some && own->0@ == v {
        1
    } else {
        0
    }
}

/// The range `r` of key `t` holds the key's own restriction, the restriction of its own
/// value `own`, and the restrictions that the keys assigned under `m` put on it.
pub open spec fn range_ok(
    d: Domain,
    own: Option<Num<Value>>,
    m: Seq<Option<Num<Value>>>,
    t: int,
    r: RestrictedRange<Value>,
) -> bool {
    let nk = d.key_count() as int;
    &&& r.wf()
    &&& r.count() == d.value_count()
    &&& r.num_levels() == base_levels(d, t) + only_count(d, m, t, nk) + if own is Some {
        1nat
    } else {
        0nat
    }
    &&& forall|v: int|
        0 <= v < d.value_count() ==> #[trigger] r.level(v) == base_level(d, t, v) + only_hits(
            d,
            m,
            t,
            v,
            nk,
        ) + own_hit(own, v)
    &&& forall|v: int|
        0 <= v < d.value_count() ==> #[trigger] r.times(v) == base_times(d, t, v) + not_hits(
            d,
            m,
            t,
            v,
            nk,
        )
}

/// Value `v` can be given to key `t` under the mapping `m`: the key's own restriction
/// allows it, so does the restriction of every assigned key, and the key has no other
/// value.
pub open spec fn allowed(d: Domain, m: Seq<Option<Num<Value>>>, t: int, v: int) -> bool {
    &&& d.key_restrictions@[t].allows_spec(v)
    &&& forall|k: int|
        0 <= k < d.key_count() && #[trigger] m[k] is Some ==> active(d, m, k, t).allows_spec(v)
    &&& m[t] is Some ==> m[t]->0@ == v
}

/// The values that can be given to key `t` under the mapping `m`.
pub open spec fn allowed_values(d: Domain, m: Seq<Option<Num<Value>>>, t: int) -> Set<usize> {
    Set::new(|v: usize| (v as int) < d.value_count() && allowed(d, m, t, v as int))
}

/// Assignment `a` prohibits assignment `b`: the restriction that `a` puts on `b`'s key
/// does not allow `b`'s value.
pub open spec fn prohibits(d: Domain, a: Assignment, b: Assignment) -> bool {
    !d.constraint(a.key_num@ as int, b.key_num@ as int, a.value_num@ as int).allows_spec(
        b.value_num@ as int,
    )
}

/// One of two assignments prohibits the other.
pub open spec fn conflict(d: Domain, a: Assignment, b: Assignment) -> bool {
    prohibits(d, a, b) || prohibits(d, b, a)
}

/// Assigning `x` to a key `key` that had no value adds that key's terms, and nothing
/// else, to the sums.
proof fn lemma_sums_assign(
    d: Domain,
    m: Seq<Option<Num<Value>>>,
    key: int,
    x: Num<Value>,
    t: int,
    v: int,
    n: int,
)
    requires
        0 <= key < m.len(),
        n <= m.len(),
        m[key] is None,
    ensures
        ({
            let m2 = m.update(key, Some(x));
            let c = d.constraint(key, t, x@ as int);
            &&& only_count(d, m2, t, n) == only_count(d, m, t, n) + if 0 <= key < n && c.is_only() {
                1nat
            } else {
                0nat
            }
            &&& only_hits(d, m2, t, v, n) == only_hits(d, m, t, v, n) + if 0 <= key < n && c.is_only()
                && holds_value(c.values_spec(), v) {
                1nat
            } else {
                0nat
            }
            &&& not_hits(d, m2, t, v, n) == not_hits(d, m, t, v, n) + if 0 <= key < n && !c.is_only() {
                occurrences(c.values_spec(), v)
            } else {
                0nat
            }
        }),
    decreases n,
{
    if n > 0 {
        lemma_sums_assign(d, m, key, x, t, v, n - 1);
    }
}

/// The hits of the list restrictions never exceed their number, and reach it exactly when
/// every one of them lists `v`; the forbidding lists hit `v` not at all exactly when none
/// of them lists it.
proof fn lemma_hits(d: Domain, m: Seq<Option<Num<Value>>>, t: int, v: int, n: int)
    requires
        n <= m.len(),
    ensures
        only_hits(d, m, t, v, n) <= only_count(d, m, t, n),
        (only_hits(d, m, t, v, n) == only_count(d, m, t, n)) == (forall|k: int|
            0 <= k < n && #[trigger] m[k] is Some && active(d, m, k, t).is_only() ==> holds_value(
                active(d, m, k, t).values_spec(),
                v,
            )),
        (not_hits(d, m, t, v, n) == 0) == (forall|k: int|
            0 <= k < n && #[trigger] m[k] is Some && !active(d, m, k, t).is_only() ==> !holds_value(
                active(d, m, k, t).values_spec(),
                v,
            )),
    decreases n,
{
    if n > 0 {
        lemma_hits(d, m, t, v, n - 1);
        let c = active(d, m, n - 1, t);
        lemma_occurrences_holds(c.values_spec(), v);
        lemma_hits(d, m, t, v, n - 1);
        if !(forall|k: int|
            0 <= k < n - 1 && #[trigger] m[k] is Some && active(d, m, k, t).is_only() ==> holds_value(
                active(d, m, k, t).values_spec(),
                v,
            )) {
            assert(only_hits(d, m, t, v, n - 1) < only_count(d, m, t, n - 1));
        }
    }
}

/// A range that is in order accepts exactly the values that are allowed.
proof fn lemma_accepts_iff(d: Domain, m: Seq<Option<Num<Value>>>, t: int, r: RestrictedRange<Value>, v: int)
    requires
        d.wf(),
        m.len() == d.key_count(),
        0 <= t < d.key_count(),
        0 <= v < d.value_count(),
        range_ok(d, m[t], m, t, r),
    ensures
        r.accepts_spec(v) == allowed(d, m, t, v),
{
    let nk = d.key_count() as int;
    let kr = d.key_restrictions@[t];
    lemma_hits(d, m, t, v, nk);
    lemma_occurrences_holds(kr.values_spec(), v);
    assert(r.level(v) == base_level(d, t, v) + only_hits(d, m, t, v, nk) + own_hit(m[t], v));
    assert(r.times(v) == base_times(d, t, v) + not_hits(d, m, t, v, nk));
    let all_only = forall|k: int|
        0 <= k < nk && #[trigger] m[k] is Some && active(d, m, k, t).is_only() ==> holds_value(
            active(d, m, k, t).values_spec(),
            v,
        );
    let no_not = forall|k: int|
        0 <= k < nk && #[trigger] m[k] is Some && !active(d, m, k, t).is_only() ==> !holds_value(
            active(d, m, k, t).values_spec(),
            v,
        );
    assert((forall|k: int| 0 <= k < nk && #[trigger] m[k] is Some ==> active(d, m, k, t).allows_spec(v))
        == (all_only && no_not)) by {
        if all_only && no_not {
            assert forall|k: int| 0 <= k < nk && #[trigger] m[k] is Some implies active(
                d,
                m,
                k,
                t,
            ).allows_spec(v) by {
            }
        }
        if forall|k: int| 0 <= k < nk && #[trigger] m[k] is Some ==> active(d, m, k, t).allows_spec(v) {
            assert forall|k: int|
                0 <= k < nk && #[trigger] m[k] is Some && active(d, m, k, t).is_only() implies holds_value(
                active(d, m, k, t).values_spec(),
                v,
            ) by {
                assert(active(d, m, k, t).allows_spec(v));
            }
            assert forall|k: int|
                0 <= k < nk && #[trigger] m[k] is Some && !active(d, m, k, t).is_only() implies !holds_value(
                active(d, m, k, t).values_spec(),
                v,
            ) by {
                assert(active(d, m, k, t).allows_spec(v));
            }
        }
    }
    assert(holds_value(kr.values_spec(), v) == (exists|i: int|
        0 <= i < kr.values_spec().len() && (#[trigger] kr.values_spec()[i])@ == v));
}

/// Walks the assignments of a domain: keeps the values assigned so far and, for every
/// key, the range of values that can still be given to it.
pub struct DomainWalker<'d> {
    domain: &'d Domain,
    /// Assigned values
    mapping: Table<Key, Option<Num<Value>>>,
    /// Value domains remaining for each key
    ranges: Table<Key, RestrictedRange<Value>>,
}

impl<'d> DomainWalker<'d> {
    pub closed spec fn domain_spec(&self) -> Domain {
        *self.domain
    }

    /// The value assigned to each key, if any.
    pub closed spec fn mapping_spec(&self) -> Seq<Option<Num<Value>>> {
        self.mapping@
    }

    /// The range of key `k`.
    pub closed spec fn range_spec(&self, k: int) -> RestrictedRange<Value> {
        self.ranges@[k]
    }

    /// The domain is in order, every key has a value within the domain or none, and
    /// the range of every key holds exactly the restrictions that the assigned keys and
    /// the key's own restriction put on it.
    pub closed spec fn wf(&self) -> bool {
        let d = *self.domain;
        &&& d.wf()
        &&& self.mapping@.len() == d.key_count()
        &&& self.ranges@.len() == d.key_count()
        &&& forall|k: int|
            0 <= k < d.key_count() && #[trigger] self.mapping@[k] is Some ==> self.mapping@[k]->0@
                < d.value_count()
        &&& forall|t: int|
            0 <= t < d.key_count() ==> range_ok(d, self.mapping@[t], self.mapping@, t, #[trigger] self.ranges@[t])
    }

    /// Assigning `value` to `key` keeps every count of rejections within `usize`.
    pub open spec fn assign_fits(&self, key: int, value: Num<Value>) -> bool {
        let d = self.domain_spec();
        let m = self.mapping_spec().update(key, Some(value));
        forall|t: int, v: int|
            0 <= t < d.key_count() && 0 <= v < d.value_count() ==> base_times(d, t, v) + #[trigger] not_hits(
                d,
                m,
                t,
                v,
                d.key_count() as int,
            ) <= usize::MAX
    }

    /// A walker where no key has a value yet. The domain must be in order as a whole:
    /// the walker keeps that as part of its own invariant, since `assign` and `unassign`
    /// read the constraint table that `new` itself does not.
    pub fn new(domain: &'d Domain) -> (r: Self)
        requires
            domain.wf(),
        ensures
            r.wf(),
            r.domain_spec() == *domain,
            r.mapping_spec().len() == domain.key_count(),
            forall|k: int| 0 <= k < domain.key_count() ==> #[trigger] r.mapping_spec()[k] is None,
    {
        let ghost d = *domain;
        let nk = domain.keys.len();
        let mut mapping: Vec<Option<Num<Value>>> = Vec::with_capacity(nk);
        let mut ranges: Vec<RestrictedRange<Value>> = Vec::with_capacity(nk);
        let mut k: usize = 0;
        while k < nk
            invariant
                d == *domain,
                d.wf(),
                nk == d.key_count(),
                k <= nk,
                mapping@.len() == k,
                ranges@.len() == k,
                forall|j: int| 0 <= j < k ==> #[trigger] mapping@[j] is None,
                forall|j: int|
                    0 <= j < k ==> range_ok(
                        d,
                        None,
                        Seq::new(nk as nat, |i: int| None::<Num<Value>>),
                        j,
                        #[trigger] ranges@[j],
                    ),
            decreases nk - k,
        {
            let ghost m0 = Seq::new(nk as nat, |i: int| None::<Num<Value>>);
            let mut range = RestrictedRange::new(domain.values.count());
            let restriction = domain.key_restrictions.get(crate::cat::num::to_num(k));
            proof {
                assert(crate::data::types::restriction_fits(d.key_restrictions@[k as int], d.value_count()));
            }
            match restriction {
                Restriction::Not(values) => {
                    proof {
                        assert forall|v: int| 0 <= v < range.count() implies range.times(v) + occurrences(
                            values@,
                            v,
                        ) <= usize::MAX by {
                            lemma_occurrences_holds(values@, v);
                            assert(values.len() == values@.len());
                            assert(range.level(v) == 0);
                        }
                    }
                    range.add_rejection(values.as_slice());
                },
                Restriction::Only(values) => {
                    range.add_restriction(values.as_slice());
                    proof {
                        assert forall|v: int| 0 <= v < d.value_count() implies #[trigger] range.level(v)
                            == base_level(d, k as int, v) + only_hits(d, m0, k as int, v, nk as int) + own_hit(
                            None,
                            v,
                        ) by {
                            lemma_occurrences_holds(values@, v);
                            lemma_occurrences_unique(values@, v);
                            lemma_no_hits(d, m0, k as int, v, nk as int);
                        }
                    }
                },
            }
            proof {
                assert forall|v: int| 0 <= v < d.value_count() implies #[trigger] range.times(v)
                    == base_times(d, k as int, v) + not_hits(d, m0, k as int, v, nk as int) by {
                    lemma_no_hits(d, m0, k as int, v, nk as int);
                    assert(range.level(v) == base_level(d, k as int, v) + only_hits(d, m0, k as int, v, nk as int) + own_hit(None, v));
                }
                assert forall|v: int| 0 <= v < d.value_count() implies #[trigger] range.level(v)
                    == base_level(d, k as int, v) + only_hits(d, m0, k as int, v, nk as int) + own_hit(
                    None,
                    v,
                ) && range.times(v) == base_times(d, k as int, v) + not_hits(d, m0, k as int, v, nk as int) by {
                    lemma_no_hits(d, m0, k as int, v, nk as int);
                    lemma_occurrences_holds(d.key_restrictions@[k as int].values_spec(), v);
                    if d.key_restrictions@[k as int].is_only() {
                        lemma_occurrences_unique(d.key_restrictions@[k as int].values_spec(), v);
                    }
                }
                lemma_no_hits(d, m0, k as int, 0, nk as int);
                assert(range.wf());
                assert(range.count() == d.value_count());
                assert(range.num_levels() == base_levels(d, k as int));
                assert(range_ok(d, None, m0, k as int, range));
            }
            mapping.push(None);
            ranges.push(range);
            k = k + 1;
        }
        proof {
            assert(mapping@ =~= Seq::new(nk as nat, |i: int| None::<Num<Value>>));
        }
        DomainWalker { domain, mapping: Table::from_vec(mapping), ranges: Table::from_vec(ranges) }
    }
}

impl<'d> DomainWalker<'d> {
    /// Adds `restriction` to the range of `key_num`.
    fn restrict(&mut self, key_num: Num<Key>, restriction: &Restriction)
        requires
            key_num@ < old(self).ranges@.len(),
            old(self).ranges@[key_num@ as int].wf(),
            crate::data::types::restriction_fits(*restriction, old(self).ranges@[key_num@ as int].count()),
            !restriction.is_only() ==> forall|v: int|
                0 <= v < old(self).ranges@[key_num@ as int].count() ==> old(self).ranges@[key_num@ as int].times(v)
                    + occurrences(restriction.values_spec(), v) <= usize::MAX,
        ensures
            final(self).domain == old(self).domain,
            final(self).mapping == old(self).mapping,
            final(self).ranges@.len() == old(self).ranges@.len(),
            forall|j: int| 0 <= j < old(self).ranges@.len() && j != key_num@ ==> #[trigger] final(self).ranges@[j] == old(self).ranges@[j],
            final(self).ranges@[key_num@ as int].wf(),
            restriction.is_only() ==> crate::data::restricted_range::restriction_added(
                old(self).ranges@[key_num@ as int],
                final(self).ranges@[key_num@ as int],
                restriction.values_spec(),
            ),
            !restriction.is_only() ==> crate::data::restricted_range::rejection_added(
                old(self).ranges@[key_num@ as int],
                final(self).ranges@[key_num@ as int],
                restriction.values_spec(),
            ),
    {
        let range = self.ranges.get_mut(key_num);
        match restriction {
            Restriction::Not(values) => {
                range.add_rejection(values.as_slice());
            },
            Restriction::Only(values) => {
                range.add_restriction(values.as_slice());
            },
        }
    }

    /// Takes `restriction` back from the range of `key_num`.
    fn unrestrict(&mut self, key_num: Num<Key>, restriction: &Restriction)
        requires
            key_num@ < old(self).ranges@.len(),
            old(self).ranges@[key_num@ as int].wf(),
            crate::data::types::restriction_fits(*restriction, old(self).ranges@[key_num@ as int].count()),
            restriction.is_only() ==> old(self).ranges@[key_num@ as int].num_levels() >= 2,
            restriction.is_only() ==> forall|i: int|
                0 <= i < restriction.values_spec().len() ==> old(self).ranges@[key_num@ as int].level(
                    (#[trigger] restriction.values_spec()[i])@ as int,
                ) >= 1,
            !restriction.is_only() ==> forall|v: int|
                0 <= v < old(self).ranges@[key_num@ as int].count() ==> occurrences(restriction.values_spec(), v)
                    <= old(self).ranges@[key_num@ as int].times(v),
        ensures
            final(self).domain == old(self).domain,
            final(self).mapping == old(self).mapping,
            final(self).ranges@.len() == old(self).ranges@.len(),
            forall|j: int| 0 <= j < old(self).ranges@.len() && j != key_num@ ==> #[trigger] final(self).ranges@[j] == old(self).ranges@[j],
            final(self).ranges@[key_num@ as int].wf(),
            restriction.is_only() ==> crate::data::restricted_range::restriction_removed(
                old(self).ranges@[key_num@ as int],
                final(self).ranges@[key_num@ as int],
                restriction.values_spec(),
            ),
            !restriction.is_only() ==> crate::data::restricted_range::rejection_removed(
                old(self).ranges@[key_num@ as int],
                final(self).ranges@[key_num@ as int],
                restriction.values_spec(),
            ),
    {
        let range = self.ranges.get_mut(key_num);
        match restriction {
            Restriction::Not(values) => {
                range.remove_rejection(values.as_slice());
            },
            Restriction::Only(values) => {
                range.remove_restriction(values.as_slice());
            },
        }
    }
}

impl<'d> DomainWalker<'d> {
    /// Gives `value_num` to `key_num`, which has no value yet, and restricts the ranges
    /// of all keys by what that assignment puts on them.
    ///
    /// The key must have no value: a second assignment would add its restrictions on top
    /// of those of the first while the mapping keeps one value, and `unassign` would then
    /// take back only the last of them, leaving ranges that no mapping explains. Callers
    /// that move a key to another value unassign it first, as the search does.
    pub fn assign(&mut self, key_num: Num<Key>, value_num: Num<Value>)
        requires
            old(self).wf(),
            key_num@ < old(self).domain_spec().key_count(),
            value_num@ < old(self).domain_spec().value_count(),
            old(self).mapping_spec()[key_num@ as int] is None,
            old(self).assign_fits(key_num@ as int, value_num),
        ensures
            final(self).wf(),
            final(self).domain_spec() == old(self).domain_spec(),
            final(self).mapping_spec() == old(self).mapping_spec().update(key_num@ as int, Some(value_num)),
    {
        let ghost d = *self.domain;
        let ghost m = self.mapping@;
        let ghost key = key_num@ as int;
        let ghost m2 = m.update(key, Some(value_num));
        let ghost r0 = self.ranges@[key];
        let single: Vec<Num<Value>> = vec![value_num];
        proof {
            assert(nums_view(single@).no_duplicates());
            assert(single@ =~= seq![value_num]);
        }
        {
            let range = self.ranges.get_mut(key_num);
            range.add_restriction(single.as_slice());
        }
        proof {
            lemma_own_add(d, m, key, value_num, r0, self.ranges@[key]);
            assert forall|t: int| 0 <= t < d.key_count() implies range_ok(d, m2[t], m, t, #[trigger] self.ranges@[t]) by {
                if t != key {
                    assert(self.ranges@[t] == old(self).ranges@[t]);
                }
            }
        }
        self.mapping.set(key_num, Some(value_num));
        let domain = self.domain;
        let row = domain.constraint_table.get(key_num);
        let nk = domain.keys.len();
        let mut j: usize = 0;
        while j < nk
            invariant
                self.domain == domain,
                d == *domain,
                d.wf(),
                nk == d.key_count(),
                0 <= key < nk,
                value_num@ < d.value_count(),
                m.len() == nk,
                m[key] is None,
                m2 == m.update(key, Some(value_num)),
                self.mapping@ == m2,
                self.ranges@.len() == nk,
                *row == d.constraint_table@[key],
                j <= nk,
                forall|t: int, v: int|
                    0 <= t < nk && 0 <= v < d.value_count() ==> base_times(d, t, v) + #[trigger] not_hits(
                        d,
                        m2,
                        t,
                        v,
                        nk as int,
                    ) <= usize::MAX,
                forall|t: int|
                    0 <= t < nk ==> range_ok(
                        d,
                        m2[t],
                        if t < j {
                            m2
                        } else {
                            m
                        },
                        t,
                        #[trigger] self.ranges@[t],
                    ),
            decreases nk - j,
        {
            let target = crate::cat::num::to_num(j);
            let restriction = row.get(target).get(value_num);
            let ghost r = self.ranges@[j as int];
            proof {
                assert(*restriction == d.constraint(key, j as int, value_num@ as int));
                assert(crate::data::types::restriction_fits(*restriction, d.value_count()));
                if !restriction.is_only() {
                    assert forall|v: int| 0 <= v < r.count() implies r.times(v) + occurrences(
                        restriction.values_spec(),
                        v,
                    ) <= usize::MAX by {
                        lemma_sums_assign(d, m, key, value_num, j as int, v, nk as int);
                        assert(base_times(d, j as int, v) + not_hits(d, m2, j as int, v, nk as int) <= usize::MAX);
                        let _l = r.level(v);
                    }
                }
            }
            self.restrict(target, restriction);
            proof {
                lemma_restrict_ok(d, m, key, value_num, m2[j as int], j as int, r, self.ranges@[j as int]);
                assert forall|t: int| 0 <= t < nk implies range_ok(
                    d,
                    m2[t],
                    if t < j + 1 {
                        m2
                    } else {
                        m
                    },
                    t,
                    #[trigger] self.ranges@[t],
                ) by {}
            }
            j = j + 1;
        }
    }

    /// Takes the value of `key_num` back, if it has one, and with it what that
    /// assignment put on the ranges of all keys.
    pub fn unassign(&mut self, key_num: Num<Key>)
        requires
            old(self).wf(),
            key_num@ < old(self).domain_spec().key_count(),
        ensures
            final(self).wf(),
            final(self).domain_spec() == old(self).domain_spec(),
            final(self).mapping_spec() == old(self).mapping_spec().update(key_num@ as int, None),
    {
        let ghost d = *self.domain;
        let ghost m = self.mapping@;
        let ghost key = key_num@ as int;
        let ghost m2 = m.update(key, None);
        let value_num = match self.mapping.get(key_num) {
            Some(value_num) => *value_num,
            None => {
                proof {
                    assert(m2 =~= m);
                }
                return ;
            },
        };
        let ghost r0 = self.ranges@[key];
        self.mapping.set(key_num, None);
        let single: Vec<Num<Value>> = vec![value_num];
        proof {
            assert(nums_view(single@).no_duplicates());
            assert(single@ =~= seq![value_num]);
            lemma_own_remove_pre(d, m, key, value_num, r0);
        }
        {
            let range = self.ranges.get_mut(key_num);
            range.remove_restriction(single.as_slice());
        }
        proof {
            lemma_own_remove(d, m, key, value_num, r0, self.ranges@[key]);
            assert forall|t: int| 0 <= t < d.key_count() implies range_ok(d, m2[t], m, t, #[trigger] self.ranges@[t]) by {
                if t != key {
                    assert(self.ranges@[t] == old(self).ranges@[t]);
                }
            }
        }
        let domain = self.domain;
        let row = domain.constraint_table.get(key_num);
        let nk = domain.keys.len();
        let mut j: usize = 0;
        while j < nk
            invariant
                self.domain == domain,
                d == *domain,
                d.wf(),
                nk == d.key_count(),
                0 <= key < nk,
                value_num@ < d.value_count(),
                m.len() == nk,
                m[key] == Some(value_num),
                m2 == m.update(key, None),
                self.mapping@ == m2,
                self.ranges@.len() == nk,
                *row == d.constraint_table@[key],
                j <= nk,
                forall|t: int|
                    0 <= t < nk ==> range_ok(
                        d,
                        m2[t],
                        if t < j {
                            m2
                        } else {
                            m
                        },
                        t,
                        #[trigger] self.ranges@[t],
                    ),
            decreases nk - j,
        {
            let target = crate::cat::num::to_num(j);
            let restriction = row.get(target).get(value_num);
            let ghost r = self.ranges@[j as int];
            proof {
                assert(*restriction == active(d, m, key, j as int));
                lemma_unrestrict_pre(d, m, key, m2[j as int], j as int, r);
            }
            self.unrestrict(target, restriction);
            proof {
                lemma_unrestrict_ok(d, m, key, m2[j as int], j as int, r, self.ranges@[j as int]);
            }
            j = j + 1;
        }
    }
}

/// The single list `[x]` holds `v` once when it is `x`.
proof fn lemma_single_occurrences(x: Num<Value>, v: int)
    ensures
        occurrences(seq![x], v) == if x@ == v {
            1nat
        } else {
            0nat
        },
        holds_value(seq![x], v) == (x@ == v),
{
    assert(seq![x].drop_last() =~= Seq::<Num<Value>>::empty());
    assert(occurrences(Seq::<Num<Value>>::empty(), v) == 0);
    assert(seq![x].last() == x);
    if x@ == v {
        assert(seq![x][0]@ == v);
    }
}

/// Adding the restriction of the key's own value `x` to an unassigned key's range.
proof fn lemma_own_add(
    d: Domain,
    m: Seq<Option<Num<Value>>>,
    t: int,
    x: Num<Value>,
    r: RestrictedRange<Value>,
    r2: RestrictedRange<Value>,
)
    requires
        range_ok(d, None, m, t, r),
        r2.wf(),
        crate::data::restricted_range::restriction_added(r, r2, seq![x]),
    ensures
        range_ok(d, Some(x), m, t, r2),
{
    let nk = d.key_count() as int;
    assert forall|v: int| 0 <= v < d.value_count() implies #[trigger] r2.level(v) == base_level(d, t, v)
        + only_hits(d, m, t, v, nk) + own_hit(Some(x), v) by {
        lemma_single_occurrences(x, v);
        assert(r.level(v) == base_level(d, t, v) + only_hits(d, m, t, v, nk) + own_hit(None, v));
    }
    assert forall|v: int| 0 <= v < d.value_count() implies #[trigger] r2.times(v) == base_times(d, t, v)
        + not_hits(d, m, t, v, nk) by {
        let _l = r2.level(v);
        assert(r.times(v) == base_times(d, t, v) + not_hits(d, m, t, v, nk));
    }
}

/// What taking back the restriction of the key's own value `x` asks of its range.
proof fn lemma_own_remove_pre(
    d: Domain,
    m: Seq<Option<Num<Value>>>,
    t: int,
    x: Num<Value>,
    r: RestrictedRange<Value>,
)
    requires
        d.wf(),
        m.len() == d.key_count(),
        0 <= t < d.key_count(),
        x@ < d.value_count(),
        range_ok(d, Some(x), m, t, r),
    ensures
        r.num_levels() >= 2,
        r.level(x@ as int) >= 1,
{
    let nk = d.key_count() as int;
    assert(r.level(x@ as int) == base_level(d, t, x@ as int) + only_hits(d, m, t, x@ as int, nk) + own_hit(Some(x), x@ as int));
}

/// Taking back the restriction of the key's own value `x` from its range.
proof fn lemma_own_remove(
    d: Domain,
    m: Seq<Option<Num<Value>>>,
    t: int,
    x: Num<Value>,
    r: RestrictedRange<Value>,
    r2: RestrictedRange<Value>,
)
    requires
        d.wf(),
        m.len() == d.key_count(),
        0 <= t < d.key_count(),
        x@ < d.value_count(),
        range_ok(d, Some(x), m, t, r),
        r2.wf(),
        crate::data::restricted_range::restriction_removed(r, r2, seq![x]),
    ensures
        range_ok(d, None, m, t, r2),
{
    let nk = d.key_count() as int;
    assert forall|v: int| 0 <= v < d.value_count() implies #[trigger] r2.level(v) == base_level(d, t, v)
        + only_hits(d, m, t, v, nk) + own_hit(None, v) by {
        lemma_single_occurrences(x, v);
        lemma_hits(d, m, t, v, nk);
        assert(r.level(v) == base_level(d, t, v) + only_hits(d, m, t, v, nk) + own_hit(Some(x), v));
    }
    assert forall|v: int| 0 <= v < d.value_count() implies #[trigger] r2.times(v) == base_times(d, t, v)
        + not_hits(d, m, t, v, nk) by {
        let _l = r2.level(v);
        assert(r.times(v) == base_times(d, t, v) + not_hits(d, m, t, v, nk));
    }
}

impl<'d> DomainWalker<'d> {
    /// The value assigned to each key, if any.
    pub fn mapping(&self) -> (r: &Table<Key, Option<Num<Value>>>)
        ensures
            r@ == self.mapping_spec(),
    {
        &self.mapping
    }

    /// The values that can be given to `key_num` without causing inconsistencies: those
    /// that its own restriction and the restrictions of all assigned keys allow, and, if
    /// the key has a value, only that one.
    pub fn range_for(&self, key_num: Num<Key>) -> (r: &[Num<Value>])
        requires
            self.wf(),
            key_num@ < self.domain_spec().key_count(),
        ensures
            nums_view(r@).no_duplicates(),
            forall|i: int| 0 <= i < r@.len() ==> (#[trigger] r@[i])@ < self.domain_spec().value_count(),
            forall|v: int|
                0 <= v < self.domain_spec().value_count() ==> (nums_view(r@).contains(v as usize) <==> allowed(
                    self.domain_spec(),
                    self.mapping_spec(),
                    key_num@ as int,
                    v,
                )),
            r@.len() == allowed_values(self.domain_spec(), self.mapping_spec(), key_num@ as int).len(),
    {
        let r = self.ranges.get(key_num).accepted();
        proof {
            let t = key_num@ as int;
            assert(range_ok(*self.domain, self.mapping@[t], self.mapping@, t, self.ranges@[t]));
            assert forall|v: int| 0 <= v < self.domain.value_count() implies (nums_view(r@).contains(v as usize)
                <==> allowed(*self.domain, self.mapping@, t, v)) by {
                lemma_accepts_iff(*self.domain, self.mapping@, t, self.ranges@[t], v);
            }
            let vs = nums_view(r@);
            assert(vs.to_set() =~= allowed_values(*self.domain, self.mapping@, t)) by {
                assert forall|v: usize| vs.to_set().contains(v) implies allowed_values(*self.domain, self.mapping@, t).contains(v) by {
                    let i = choose|i: int| 0 <= i < vs.len() && vs[i] == v;
                    assert(r@[i]@ < self.domain.value_count());
                }
            }
            vs.unique_seq_to_set();
        }
        r
    }

    /// Every key that has a value has one that is allowed, and every key has some value
    /// that is allowed.
    pub fn valid_state(&self) -> (r: bool)
        requires
            self.wf(),
        ensures
            r == (forall|k: int|
                0 <= k < self.domain_spec().key_count() ==> (#[trigger] self.mapping_spec()[k] is Some ==> allowed(
                    self.domain_spec(),
                    self.mapping_spec(),
                    k,
                    self.mapping_spec()[k]->0@ as int,
                )) && exists|v: int|
                    0 <= v < self.domain_spec().value_count() && allowed(
                        self.domain_spec(),
                        self.mapping_spec(),
                        k,
                        v,
                    )),
    {
        let ghost d = *self.domain;
        let ghost m = self.mapping@;
        let nk = self.mapping.len();
        let mut k: usize = 0;
        while k < nk
            invariant
                self.wf(),
                d == *self.domain,
                m == self.mapping@,
                nk == d.key_count(),
                k <= nk,
                forall|j: int|
                    0 <= j < k ==> (#[trigger] m[j] is Some ==> allowed(d, m, j, m[j]->0@ as int))
                        && exists|v: int| 0 <= v < d.value_count() && allowed(d, m, j, v),
            decreases nk - k,
        {
            let key_num = crate::cat::num::to_num(k);
            let range = self.ranges.get(key_num);
            proof {
                assert(range_ok(d, m[k as int], m, k as int, self.ranges@[k as int]));
            }
            let valid = match self.mapping.get(key_num) {
                None => true,
                Some(value_num) => range.accepts(*value_num),
            };
            let accepted = range.accepted();
            let satisfiable = accepted.len() > 0;
            proof {
                if m[k as int] is Some {
                    lemma_accepts_iff(d, m, k as int, self.ranges@[k as int], m[k as int]->0@ as int);
                }
                if satisfiable {
                    let v = accepted@[0]@ as int;
                    assert(nums_view(accepted@)[0] == v);
                    assert(nums_view(accepted@).contains(v as usize));
                    lemma_accepts_iff(d, m, k as int, self.ranges@[k as int], v);
                } else {
                    assert forall|v: int| 0 <= v < d.value_count() implies !allowed(d, m, k as int, v) by {
                        lemma_accepts_iff(d, m, k as int, self.ranges@[k as int], v);
                        if nums_view(accepted@).contains(v as usize) {
                            let i = choose|i: int| 0 <= i < nums_view(accepted@).len() && nums_view(accepted@)[i] == v as usize;
                            assert(accepted@.len() > 0);
                        }
                    }
                }
            }
            if !(valid && satisfiable) {
                return false;
            }
            k = k + 1;
        }
        true
    }

    /// Takes back the value of every key whose assignment conflicts with `assignment`.
    pub fn unassign_conflicts(&mut self, assignment: Assignment)
        requires
            old(self).wf(),
            assignment.key_num@ < old(self).domain_spec().key_count(),
            assignment.value_num@ < old(self).domain_spec().value_count(),
        ensures
            final(self).wf(),
            final(self).domain_spec() == old(self).domain_spec(),
            final(self).mapping_spec().len() == old(self).mapping_spec().len(),
            forall|k: int|
                0 <= k < old(self).mapping_spec().len() ==> #[trigger] final(self).mapping_spec()[k] == if old(
                    self,
                ).mapping_spec()[k] is Some && conflict(
                    old(self).domain_spec(),
                    assignment,
                    Assignment { key_num: crate::cat::num::num_of(k as usize), value_num: old(self).mapping_spec()[k]->0 },
                ) {
                    None
                } else {
                    old(self).mapping_spec()[k]
                },
    {
        let ghost d = *self.domain;
        let ghost m = self.mapping@;
        let nk = self.mapping.len();
        let mut k: usize = 0;
        while k < nk
            invariant
                self.wf(),
                d == *self.domain,
                nk == d.key_count(),
                m.len() == nk,
                assignment.key_num@ < nk,
                assignment.value_num@ < d.value_count(),
                k <= nk,
                self.mapping@.len() == nk,
                forall|j: int|
                    0 <= j < nk ==> #[trigger] self.mapping@[j] == if j < k && m[j] is Some && conflict(
                        d,
                        assignment,
                        Assignment { key_num: crate::cat::num::num_of(j as usize), value_num: m[j]->0 },
                    ) {
                        None
                    } else {
                        m[j]
                    },
            decreases nk - k,
        {
            let key_num = crate::cat::num::to_num(k);
            let current = *self.mapping.get(key_num);
            match current {
                None => {},
                Some(value_num) => {
                    let a = Assignment { key_num, value_num };
                    if assignments_conflict(self.domain, assignment, a) {
                        self.unassign(key_num);
                    }
                },
            }
            k = k + 1;
        }
    }
}

/// Whether the given assignments conflict in the domain: one prohibits the other.
pub fn assignments_conflict(domain: &Domain, a: Assignment, b: Assignment) -> (r: bool)
    requires
        domain.wf(),
        a.key_num@ < domain.key_count(),
        b.key_num@ < domain.key_count(),
        a.value_num@ < domain.value_count(),
        b.value_num@ < domain.value_count(),
    ensures
        r == conflict(*domain, a, b),
{
    assignment_prohibits(domain, a, b) || assignment_prohibits(domain, b, a)
}

/// Whether assignment `a` prohibits assignment `b` from being made.
pub fn assignment_prohibits(domain: &Domain, a: Assignment, b: Assignment) -> (r: bool)
    requires
        domain.wf(),
        a.key_num@ < domain.key_count(),
        b.key_num@ < domain.key_count(),
        a.value_num@ < domain.value_count(),
    ensures
        r == prohibits(*domain, a, b),
{
    let cs = &domain.constraint_table;
    !cs.get(a.key_num).get(b.key_num).get(a.value_num).allows(b.value_num)
}

/// The names of the given values.
pub fn value_names<'a>(domain: &'a Domain, values: &[Num<Value>]) -> (r: Vec<&'a str>)
    requires
        forall|i: int| 0 <= i < values@.len() ==> (#[trigger] values@[i])@ < domain.value_count(),
    ensures
        r@.len() == values@.len(),
        forall|i: int| 0 <= i < values@.len() ==> (#[trigger] r@[i])@ == domain.values@[values@[i]@ as int]@,
{
    let mut out: Vec<&'a str> = Vec::with_capacity(values.len());
    let mut i: usize = 0;
    while i < values.len()
        invariant
            i <= values@.len(),
            out@.len() == i,
            forall|i: int| 0 <= i < values@.len() ==> (#[trigger] values@[i])@ < domain.value_count(),
            forall|j: int| 0 <= j < i ==> (#[trigger] out@[j])@ == domain.values@[values@[j]@ as int]@,
        decreases values@.len() - i,
    {
        out.push(domain.values.get(values[i]).as_str());
        i = i + 1;
    }
    out
}

/// The ranges of a walker that is in order depend on its domain and its mapping alone:
/// two such walkers with the same domain and the same mapping agree, for every key, on
/// the number of restriction levels and on the level, the rejections and the acceptance
/// of every value. So the order in which keys were assigned and unassigned leaves no trace.
pub proof fn law_ranges_follow_mapping(w1: DomainWalker, w2: DomainWalker)
    requires
        w1.wf(),
        w2.wf(),
        w1.domain_spec() == w2.domain_spec(),
        w1.mapping_spec() == w2.mapping_spec(),
    ensures
        forall|t: int|
            0 <= t < w1.domain_spec().key_count() ==> #[trigger] w1.range_spec(t).num_levels() == w2.range_spec(
                t,
            ).num_levels() && w1.range_spec(t).count() == w2.range_spec(t).count(),
        forall|t: int, v: int|
            0 <= t < w1.domain_spec().key_count() && 0 <= v < w1.domain_spec().value_count() ==> #[trigger] w1.range_spec(
                t,
            ).level(v) == w2.range_spec(t).level(v) && w1.range_spec(t).times(v) == w2.range_spec(t).times(v)
                && w1.range_spec(t).accepts_spec(v) == w2.range_spec(t).accepts_spec(v),
{
    let d = w1.domain_spec();
    assert forall|t: int, v: int|
        0 <= t < d.key_count() && 0 <= v < d.value_count() implies #[trigger] w1.range_spec(t).level(v)
        == w2.range_spec(t).level(v) && w1.range_spec(t).times(v) == w2.range_spec(t).times(v)
        && w1.range_spec(t).accepts_spec(v) == w2.range_spec(t).accepts_spec(v) by {
        assert(range_ok(d, w1.mapping@[t], w1.mapping@, t, w1.ranges@[t]));
        assert(range_ok(d, w2.mapping@[t], w2.mapping@, t, w2.ranges@[t]));
    }
    assert forall|t: int| 0 <= t < d.key_count() implies #[trigger] w1.range_spec(t).num_levels()
        == w2.range_spec(t).num_levels() && w1.range_spec(t).count() == w2.range_spec(t).count() by {
        assert(range_ok(d, w1.mapping@[t], w1.mapping@, t, w1.ranges@[t]));
        assert(range_ok(d, w2.mapping@[t], w2.mapping@, t, w2.ranges@[t]));
    }
}

/// Unassigning a key right after assigning it, when it had no value, gives back the
/// mapping from before, and ranges that agree with those from before on every level,
/// rejection and accepted value.
pub proof fn law_assign_undo(w0: DomainWalker, w1: DomainWalker, w2: DomainWalker, key: int, value: Num<Value>)
    requires
        w0.wf(),
        w1.wf(),
        w2.wf(),
        0 <= key < w0.domain_spec().key_count(),
        w0.mapping_spec()[key] is None,
        w1.domain_spec() == w0.domain_spec(),
        w1.mapping_spec() == w0.mapping_spec().update(key, Some(value)),
        w2.domain_spec() == w1.domain_spec(),
        w2.mapping_spec() == w1.mapping_spec().update(key, None),
    ensures
        w2.mapping_spec() == w0.mapping_spec(),
        forall|t: int|
            0 <= t < w0.domain_spec().key_count() ==> #[trigger] w2.range_spec(t).num_levels() == w0.range_spec(
                t,
            ).num_levels(),
        forall|t: int, v: int|
            0 <= t < w0.domain_spec().key_count() && 0 <= v < w0.domain_spec().value_count() ==> #[trigger] w2.range_spec(
                t,
            ).level(v) == w0.range_spec(t).level(v) && w2.range_spec(t).times(v) == w0.range_spec(t).times(v)
                && w2.range_spec(t).accepts_spec(v) == w0.range_spec(t).accepts_spec(v),
{
    assert(w2.mapping_spec() =~= w0.mapping_spec());
    law_ranges_follow_mapping(w2, w0);
}

/// The forbidding lists of the keys below `n` hit `v` at most `n` times the bound that
/// every list keeps.
proof fn lemma_not_hits_bound(d: Domain, m: Seq<Option<Num<Value>>>, t: int, v: int, n: int)
    requires
        d.wf(),
        d.lists_bounded(),
        m.len() == d.key_count(),
        0 <= t < d.key_count(),
        0 <= n <= m.len(),
        forall|k: int| 0 <= k < m.len() && #[trigger] m[k] is Some ==> m[k]->0@ < d.value_count(),
    ensures
        not_hits(d, m, t, v, n) * (d.key_count() + 1) <= n * usize::MAX,
    decreases n,
{
    if n == 0 {
        assert(not_hits(d, m, t, v, n) == 0);
        assert(0 * (d.key_count() + 1) <= 0 * usize::MAX) by (nonlinear_arith);
    } else {
        lemma_not_hits_bound(d, m, t, v, n - 1);
        let k = n - 1;
        let w = d.key_count() + 1;
        if m[k] is Some && !active(d, m, k, t).is_only() {
            let c = active(d, m, k, t);
            lemma_occurrences_holds(c.values_spec(), v);
            assert(c.values_spec().len() * w <= usize::MAX);
            let o = occurrences(c.values_spec(), v);
            let h = not_hits(d, m, t, v, k);
            assert(o * w <= c.values_spec().len() * w) by (nonlinear_arith)
                requires
                    o <= c.values_spec().len(),
                    w >= 1,
            ;
            assert((h + o) * w == h * w + o * w) by (nonlinear_arith);
            assert(n * usize::MAX == k * usize::MAX + usize::MAX) by (nonlinear_arith)
                requires
                    n == k + 1,
            ;
            assert(not_hits(d, m, t, v, n) == h + o);
            assert(h * w <= k * usize::MAX);
            let nh = not_hits(d, m, t, v, n);
            assert(nh * w <= n * usize::MAX) by (nonlinear_arith)
                requires
                    nh == h + o,
                    h * w <= k * usize::MAX,
                    o * w <= usize::MAX,
                    n * usize::MAX == k * usize::MAX + usize::MAX,
            ;
            assert(not_hits(d, m, t, v, n) * (d.key_count() + 1) <= n * usize::MAX);
        } else {
            assert(n * usize::MAX == k * usize::MAX + usize::MAX) by (nonlinear_arith)
                requires
                    n == k + 1,
            ;
            assert(not_hits(d, m, t, v, n) == not_hits(d, m, t, v, k));
            let nh = not_hits(d, m, t, v, n);
            let h = not_hits(d, m, t, v, k);
            assert(nh * w <= n * usize::MAX) by (nonlinear_arith)
                requires
                    nh == h,
                    h * w <= k * usize::MAX,
                    n * usize::MAX == k * usize::MAX + usize::MAX,
            ;
            assert(not_hits(d, m, t, v, n) * (d.key_count() + 1) <= n * usize::MAX);
        }
    }
}

/// In a domain whose lists are bounded, no count of rejections can overflow.
proof fn lemma_times_fit(d: Domain, m: Seq<Option<Num<Value>>>, t: int, v: int)
    requires
        d.wf(),
        d.lists_bounded(),
        m.len() == d.key_count(),
        0 <= t < d.key_count(),
        forall|k: int| 0 <= k < m.len() && #[trigger] m[k] is Some ==> m[k]->0@ < d.value_count(),
    ensures
        base_times(d, t, v) + not_hits(d, m, t, v, d.key_count() as int) <= usize::MAX,
{
    let nk = d.key_count() as int;
    let w = nk + 1;
    lemma_not_hits_bound(d, m, t, v, nk);
    let kr = d.key_restrictions@[t];
    lemma_occurrences_holds(kr.values_spec(), v);
    assert(kr.values_spec().len() * w <= usize::MAX);
    let b = base_times(d, t, v);
    let h = not_hits(d, m, t, v, nk);
    assert(b * w <= usize::MAX) by (nonlinear_arith)
        requires
            b <= kr.values_spec().len(),
            kr.values_spec().len() * w <= usize::MAX,
            w >= 1,
    ;
    assert((b + h) * w <= w * usize::MAX) by (nonlinear_arith)
        requires
            b * w <= usize::MAX,
            h * w <= nk * usize::MAX,
            w == nk + 1,
    ;
    assert(b + h <= usize::MAX) by (nonlinear_arith)
        requires
            (b + h) * w <= w * usize::MAX,
            w >= 1,
    ;
}

impl<'d> DomainWalker<'d> {
    /// What a walker in order holds for its users: its domain is in order, and its mapping
    /// has an entry for every key, with a value within the domain or none.
    pub proof fn lemma_wf(&self)
        requires
            self.wf(),
        ensures
            self.domain_spec().wf(),
            self.mapping_spec().len() == self.domain_spec().key_count(),
            forall|k: int|
                0 <= k < self.domain_spec().key_count() && #[trigger] self.mapping_spec()[k] is Some
                    ==> self.mapping_spec()[k]->0@ < self.domain_spec().value_count(),
    {
    }

    /// In a domain whose lists are bounded, assigning a value to a key within the domain
    /// never lets a count of rejections overflow.
    pub proof fn lemma_assign_fits(&self, key: int, value: Num<Value>)
        requires
            self.wf(),
            self.domain_spec().lists_bounded(),
            0 <= key < self.domain_spec().key_count(),
            value@ < self.domain_spec().value_count(),
        ensures
            self.assign_fits(key, value),
    {
        let d = *self.domain;
        let m = self.mapping@.update(key, Some(value));
        assert forall|t: int, v: int|
            0 <= t < d.key_count() && 0 <= v < d.value_count() implies base_times(d, t, v) + #[trigger] not_hits(
                d,
                m,
                t,
                v,
                d.key_count() as int,
            ) <= usize::MAX by {
            lemma_times_fit(d, m, t, v);
        }
    }
}

/// Under a mapping where no key has a value, nothing restricts any key.
proof fn lemma_no_hits(d: Domain, m: Seq<Option<Num<Value>>>, t: int, v: int, n: int)
    requires
        n <= m.len(),
        forall|k: int| 0 <= k < m.len() ==> #[trigger] m[k] is None,
    ensures
        only_count(d, m, t, n) == 0,
        only_hits(d, m, t, v, n) == 0,
        not_hits(d, m, t, v, n) == 0,
    decreases n,
{
    if n > 0 {
        lemma_no_hits(d, m, t, v, n - 1);
    }
}

/// For a list without repetitions, the occurrences of `v` are one when it is listed
/// and zero otherwise.
proof fn lemma_unique_occurrences(values: Seq<Num<Value>>, v: int)
    requires
        nums_view(values).no_duplicates(),
    ensures
        occurrences(values, v) == if holds_value(values, v) {
            1nat
        } else {
            0nat
        },
{
    lemma_occurrences_holds(values, v);
    lemma_occurrences_unique(values, v);
}

/// Restricting the range of `t` by what assigning `x` to the unassigned key `key` puts on
/// it keeps the range in order for the mapping with that assignment.
proof fn lemma_restrict_ok(
    d: Domain,
    m: Seq<Option<Num<Value>>>,
    key: int,
    x: Num<Value>,
    own: Option<Num<Value>>,
    t: int,
    r: RestrictedRange<Value>,
    r2: RestrictedRange<Value>,
)
    requires
        d.wf(),
        m.len() == d.key_count(),
        0 <= key < d.key_count(),
        0 <= t < d.key_count(),
        x@ < d.value_count(),
        m[key] is None,
        range_ok(d, own, m, t, r),
        r2.wf(),
        d.constraint(key, t, x@ as int).is_only() ==> crate::data::restricted_range::restriction_added(
            r,
            r2,
            d.constraint(key, t, x@ as int).values_spec(),
        ),
        !d.constraint(key, t, x@ as int).is_only() ==> crate::data::restricted_range::rejection_added(
            r,
            r2,
            d.constraint(key, t, x@ as int).values_spec(),
        ),
    ensures
        range_ok(d, own, m.update(key, Some(x)), t, r2),
{
    let nk = d.key_count() as int;
    let m2 = m.update(key, Some(x));
    let c = d.constraint(key, t, x@ as int);
    assert(crate::data::types::restriction_fits(c, d.value_count()));
    lemma_sums_assign(d, m, key, x, t, 0, nk);
    assert forall|v: int| 0 <= v < d.value_count() implies #[trigger] r2.level(v) == base_level(d, t, v)
        + only_hits(d, m2, t, v, nk) + own_hit(own, v) by {
        lemma_sums_assign(d, m, key, x, t, v, nk);
        assert(r.level(v) == base_level(d, t, v) + only_hits(d, m, t, v, nk) + own_hit(own, v));
        if c.is_only() {
            lemma_unique_occurrences(c.values_spec(), v);
        }
    }
    assert forall|v: int| 0 <= v < d.value_count() implies #[trigger] r2.times(v) == base_times(d, t, v)
        + not_hits(d, m2, t, v, nk) by {
        let _l = r2.level(v);
        lemma_sums_assign(d, m, key, x, t, v, nk);
        assert(r.times(v) == base_times(d, t, v) + not_hits(d, m, t, v, nk));
        assert(r.level(v) == base_level(d, t, v) + only_hits(d, m, t, v, nk) + own_hit(own, v));
    }
}

/// Taking back what the key `key`, assigned `x`, put on the range of `t` keeps the range
/// in order for the mapping without that assignment; the range meets what taking it back
/// asks for.
proof fn lemma_unrestrict_ok(
    d: Domain,
    m: Seq<Option<Num<Value>>>,
    key: int,
    own: Option<Num<Value>>,
    t: int,
    r: RestrictedRange<Value>,
    r2: RestrictedRange<Value>,
)
    requires
        d.wf(),
        m.len() == d.key_count(),
        0 <= key < d.key_count(),
        0 <= t < d.key_count(),
        m[key] is Some,
        m[key]->0@ < d.value_count(),
        range_ok(d, own, m, t, r),
        r2.wf(),
        active(d, m, key, t).is_only() ==> crate::data::restricted_range::restriction_removed(
            r,
            r2,
            active(d, m, key, t).values_spec(),
        ),
        !active(d, m, key, t).is_only() ==> crate::data::restricted_range::rejection_removed(
            r,
            r2,
            active(d, m, key, t).values_spec(),
        ),
    ensures
        range_ok(d, own, m.update(key, None), t, r2),
{
    let nk = d.key_count() as int;
    let x = m[key]->0;
    let m2 = m.update(key, None);
    let c = d.constraint(key, t, x@ as int);
    assert(m2.update(key, Some(x)) =~= m);
    assert(crate::data::types::restriction_fits(c, d.value_count()));
    lemma_sums_assign(d, m2, key, x, t, 0, nk);
    assert forall|v: int| 0 <= v < d.value_count() implies #[trigger] r2.level(v) == base_level(d, t, v)
        + only_hits(d, m2, t, v, nk) + own_hit(own, v) by {
        lemma_sums_assign(d, m2, key, x, t, v, nk);
        lemma_hits(d, m2, t, v, nk);
        assert(r.level(v) == base_level(d, t, v) + only_hits(d, m, t, v, nk) + own_hit(own, v));
        if c.is_only() {
            lemma_unique_occurrences(c.values_spec(), v);
        }
    }
    assert forall|v: int| 0 <= v < d.value_count() implies #[trigger] r2.times(v) == base_times(d, t, v)
        + not_hits(d, m2, t, v, nk) by {
        let _l = r2.level(v);
        lemma_sums_assign(d, m2, key, x, t, v, nk);
        assert(r.times(v) == base_times(d, t, v) + not_hits(d, m, t, v, nk));
        assert(r.level(v) == base_level(d, t, v) + only_hits(d, m, t, v, nk) + own_hit(own, v));
    }
}

/// What taking back the restriction of key `key` on `t` asks of the range of `t`.
proof fn lemma_unrestrict_pre(
    d: Domain,
    m: Seq<Option<Num<Value>>>,
    key: int,
    own: Option<Num<Value>>,
    t: int,
    r: RestrictedRange<Value>,
)
    requires
        d.wf(),
        m.len() == d.key_count(),
        0 <= key < d.key_count(),
        0 <= t < d.key_count(),
        m[key] is Some,
        m[key]->0@ < d.value_count(),
        range_ok(d, own, m, t, r),
    ensures
        active(d, m, key, t).is_only() ==> r.num_levels() >= 2,
        active(d, m, key, t).is_only() ==> forall|i: int|
            0 <= i < active(d, m, key, t).values_spec().len() ==> r.level(
                (#[trigger] active(d, m, key, t).values_spec()[i])@ as int,
            ) >= 1,
        !active(d, m, key, t).is_only() ==> forall|v: int|
            0 <= v < r.count() ==> occurrences(active(d, m, key, t).values_spec(), v) <= r.times(v),
        crate::data::types::restriction_fits(active(d, m, key, t), d.value_count()),
{
    let nk = d.key_count() as int;
    let x = m[key]->0;
    let m2 = m.update(key, None);
    let c = d.constraint(key, t, x@ as int);
    assert(m2.update(key, Some(x)) =~= m);
    assert(crate::data::types::restriction_fits(c, d.value_count()));
    lemma_sums_assign(d, m2, key, x, t, 0, nk);
    if c.is_only() {
        assert forall|i: int| 0 <= i < c.values_spec().len() implies r.level(
            (#[trigger] c.values_spec()[i])@ as int,
        ) >= 1 by {
            let v = c.values_spec()[i]@ as int;
            lemma_sums_assign(d, m2, key, x, t, v, nk);
            assert(holds_value(c.values_spec(), v));
            assert(r.level(v) == base_level(d, t, v) + only_hits(d, m, t, v, nk) + own_hit(own, v));
        }
    } else {
        assert forall|v: int| 0 <= v < r.count() implies occurrences(c.values_spec(), v) <= r.times(v) by {
            lemma_sums_assign(d, m2, key, x, t, v, nk);
            assert(r.times(v) == base_times(d, t, v) + not_hits(d, m, t, v, nk));
        }
    }
}

} // verus!

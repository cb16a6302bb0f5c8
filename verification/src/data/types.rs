use vstd::prelude::*;

use crate::cat::composed::Composed;
use crate::cat::has_count::{Count, HasCount, to_count};
use crate::cat::num::{Num, to_num, nums_view};
use crate::cat::product::{ProductNum, pair_num};
use crate::cat::table::Table;
use crate::cat::types::Mapping;

verus! {

broadcast use crate::cat::num::lemma_num_view_eq, crate::cat::num::lemma_num_of_view;

/// Indicator type for a key.
#[derive(Debug)]
pub struct Key;

/// Indicator type for a value.
#[derive(Debug)]
pub struct Value;

/// A key together with the value assigned to it.
#[derive(Debug, Clone, Copy)]
pub struct Assignment {
    pub key_num: Num<Key>,
    pub value_num: Num<Value>,
}

/// Numbers assignments as pairs (key, value), key-major.
pub struct AssignmentNum {
    pub key_count: Count<Key>,
    pub value_count: Count<Value>,
}

impl AssignmentNum {
    fn product_num(&self) -> (r: ProductNum<Key, Value>)
        ensures
            r.major_count == self.key_count,
            r.minor_count == self.value_count,
    {
        ProductNum { major_count: self.key_count, minor_count: self.value_count }
    }
}

impl HasCount<Assignment> for AssignmentNum {
    open spec fn count_spec(&self) -> nat {
        (self.key_count@ * self.value_count@) as nat
    }

    open spec fn count_requires(&self) -> bool {
        self.key_count@ * self.value_count@ <= usize::MAX
    }

    fn count(&self) -> (r: Count<Assignment>) {
        let count = self.product_num().count();
        to_count(count.as_usize())
    }
}

impl Mapping<Assignment> for AssignmentNum {
    type Result = Num<Assignment>;

    open spec fn apply_requires(&self, assignment: Assignment) -> bool {
        pair_num(self.value_count@ as int, assignment.key_num@ as int, assignment.value_num@ as int)
            <= usize::MAX
    }

    open spec fn applies(&self, assignment: Assignment, result: Num<Assignment>) -> bool {
        result@ == pair_num(
            self.value_count@ as int,
            assignment.key_num@ as int,
            assignment.value_num@ as int,
        )
    }

    fn apply(&self, assignment: Assignment) -> (r: Num<Assignment>) {
        let pair = (assignment.key_num, assignment.value_num);
        let num = self.product_num().apply(pair);
        to_num(num.as_usize())
    }
}

/// Marker type for the assignments that the problem permits, as opposed to all
/// inhabitants of `Assignment`.
#[derive(Debug)]
pub struct AllowedAssignment;

/// A table indexed by assignments.
pub type AssignmentTable<T> = Composed<AssignmentNum, Table<Assignment, T>>;

/// A restriction on the values of a key: either none of the listed values, or only them.
#[derive(Debug)]
pub enum Restriction {
    Not(Vec<Num<Value>>),
    Only(Vec<Num<Value>>),
}

/// Whether `values` holds the value numbered `v`.
pub open spec fn holds_value(values: Seq<Num<Value>>, v: int) -> bool {
    exists|i: int| 0 <= i < values.len() && (#[trigger] values[i])@ == v
}

/// A copy of `values`.
fn copy_values(values: &Vec<Num<Value>>) -> (r: Vec<Num<Value>>)
    ensures
        r@ == values@,
{
    let mut out: Vec<Num<Value>> = Vec::with_capacity(values.len());
    let mut i: usize = 0;
    while i < values.len()
        invariant
            i <= values@.len(),
            out@ == values@.subrange(0, i as int),
        decreases values@.len() - i,
    {
        out.push(values[i]);
        i = i + 1;
        proof {
            assert(out@ =~= values@.subrange(0, i as int));
        }
    }
    proof {
        assert(values@.subrange(0, values@.len() as int) =~= values@);
    }
    out
}

/// Whether `values` holds `value_num`.
fn contains_value(values: &Vec<Num<Value>>, value_num: Num<Value>) -> (r: bool)
    ensures
        r == holds_value(values@, value_num@ as int),
{
    let mut i: usize = 0;
    while i < values.len()
        invariant
            i <= values@.len(),
            forall|j: int| 0 <= j < i ==> (#[trigger] values@[j])@ != value_num@,
        decreases values@.len() - i,
    {
        if values[i].as_usize() == value_num.as_usize() {
            return true;
        }
        i = i + 1;
    }
    false
}

impl Restriction {
    /// The listed values.
    pub open spec fn values_spec(&self) -> Seq<Num<Value>> {
        match self {
            Restriction::Not(values) => values@,
            Restriction::Only(values) => values@,
        }
    }

    /// Whether the listed values are the only ones allowed.
    pub open spec fn is_only(&self) -> bool {
        self is Only
    }

    /// Whether the value numbered `v` is allowed.
    pub open spec fn allows_spec(&self, v: int) -> bool {
        if self.is_only() {
            holds_value(self.values_spec(), v)
        } else {
            !holds_value(self.values_spec(), v)
        }
    }

    /// The restriction that allows exactly the values this one forbids.
    pub fn inverse(&self) -> (r: Restriction)
        ensures
            r.is_only() == !self.is_only(),
            r.values_spec() == self.values_spec(),
            forall|v: int| #[trigger] r.allows_spec(v) == !self.allows_spec(v),
    {
        match self {
            Restriction::Not(values) => Restriction::Only(copy_values(values)),
            Restriction::Only(values) => Restriction::Not(copy_values(values)),
        }
    }

    pub fn allows(&self, value_num: Num<Value>) -> (r: bool)
        ensures
            r == self.allows_spec(value_num@ as int),
    {
        match self {
            Restriction::Not(values) => !contains_value(values, value_num),
            Restriction::Only(values) => contains_value(values, value_num),
        }
    }
}

/// Taking the inverse twice gives a restriction that lists the same values in the same
/// way, and so allows the same values.
pub proof fn law_inverse_involution(r: Restriction, s: Restriction, t: Restriction)
    requires
        s.is_only() == !r.is_only(),
        s.values_spec() == r.values_spec(),
        t.is_only() == !s.is_only(),
        t.values_spec() == s.values_spec(),
    ensures
        t.is_only() == r.is_only(),
        t.values_spec() == r.values_spec(),
        forall|v: int| #[trigger] t.allows_spec(v) == r.allows_spec(v),
{
}

/// For each value of the origin key, the restriction it puts on the target key.
pub type Restrictor = Table<Value, Restriction>;

/// A restriction on the values of one key.
pub struct KeyRestriction {
    pub key: Num<Key>,
    pub restriction: Restriction,
}

/// What assigning a value to `origin` means for the values of `target`.
pub struct Constraint {
    pub origin: Num<Key>,
    pub target: Num<Key>,
    pub restrictor: Restrictor,
}

/// A constraint problem: keys that each get a value, under restrictions on single keys
/// and constraints between pairs of keys.
pub struct Domain {
    /// key names
    pub keys: Table<Key, String>,
    /// value names
    pub values: Table<Value, String>,
    /// individual key restrictions
    pub key_restrictions: Table<Key, Restriction>,
    /// assignment constraints: `constraint_table[origin][target][value]` restricts
    /// `target` once `origin` has `value`
    pub constraint_table: Table<Key, Table<Key, Restrictor>>,
}

/// The values of `values` lie below `count`, and none occurs twice when `unique`.
pub open spec fn values_fit(values: Seq<Num<Value>>, count: nat, unique: bool) -> bool {
    &&& forall|i: int| 0 <= i < values.len() ==> (#[trigger] values[i])@ < count
    &&& unique ==> nums_view(values).no_duplicates()
}

/// A restriction whose values lie below `count`, and occur once each when they are the
/// only ones allowed.
pub open spec fn restriction_fits(r: Restriction, count: nat) -> bool {
    values_fit(r.values_spec(), count, r.is_only())
}

impl Domain {
    pub open spec fn key_count(&self) -> nat {
        self.keys@.len()
    }

    pub open spec fn value_count(&self) -> nat {
        self.values@.len()
    }

    /// The restriction that `origin` having value `value` puts on `target`.
    pub open spec fn constraint(&self, origin: int, target: int, value: int) -> Restriction {
        self.constraint_table@[origin]@[target]@[value]
    }

    /// Every table has an entry for each key (and value), and every restriction fits
    /// the values.
    pub open spec fn wf(&self) -> bool {
        &&& self.key_restrictions@.len() == self.key_count()
        &&& self.constraint_table@.len() == self.key_count()
        &&& forall|o: int| 0 <= o < self.key_count() ==> (#[trigger] self.constraint_table@[o])@.len() == self.key_count()
        &&& forall|o: int, t: int|
            0 <= o < self.key_count() && 0 <= t < self.key_count() ==> (#[trigger] self.constraint_table@[o]@[t])@.len()
                == self.value_count()
        &&& forall|k: int| 0 <= k < self.key_count() ==> restriction_fits(#[trigger] self.key_restrictions@[k], self.value_count())
        &&& forall|o: int, t: int, v: int|
            0 <= o < self.key_count() && 0 <= t < self.key_count() && 0 <= v < self.value_count() ==> restriction_fits(
                #[trigger] self.constraint(o, t, v),
                self.value_count(),
            )
    }

    /// Every list of values in a restriction is short enough that the key's own list and
    /// one list from each key together fit in a `usize`.
    pub open spec fn lists_bounded(&self) -> bool {
        &&& forall|k: int|
            0 <= k < self.key_count() ==> (#[trigger] self.key_restrictions@[k]).values_spec().len() * (
            self.key_count() + 1) <= usize::MAX
        &&& forall|o: int, t: int, v: int|
            0 <= o < self.key_count() && 0 <= t < self.key_count() && 0 <= v < self.value_count()
                ==> (#[trigger] self.constraint(o, t, v)).values_spec().len() * (self.key_count() + 1)
                <= usize::MAX
    }

    pub fn assignment_num(&self) -> (r: AssignmentNum)
        ensures
            r.key_count@ == self.key_count(),
            r.value_count@ == self.value_count(),
    {
        AssignmentNum { key_count: self.keys.count(), value_count: self.values.count() }
    }
}

} // verus!

use std::collections::HashMap;
use std::hash::Hash;
use vstd::prelude::*;

use crate::cat::domain::Domain;

verus! {

broadcast use vstd::std_specs::hash::group_hash_axioms;

/// A partial mapping from the elements of domain `D` to values, kept in a hash map.
pub struct HashMapping<D: Domain, T> where D::Type: Hash + Eq {
    hash_map: HashMap<D::Type, T>,
}

impl<D: Domain, T> HashMapping<D, T> where D::Type: Hash + Eq {
    /// The elements that have a value, with their values.
    pub closed spec fn map_spec(&self) -> Map<D::Type, T> {
        self.hash_map@
    }

    /// A mapping where no element has a value.
    pub fn empty() -> (r: Self)
        ensures
            r.map_spec() == Map::<D::Type, T>::empty(),
    {
        HashMapping { hash_map: HashMap::new() }
    }

    /// The value of `elem`, if it has one. What is stated holds where the element type
    /// hashes and compares as its value (`obeys_key_model`).
    pub fn map<'t>(&'t self, elem: D::Type) -> (r: Option<&'t T>)
        ensures
            vstd::std_specs::hash::obeys_key_model::<D::Type>() ==> match r {
                Some(v) => self.map_spec().contains_key(elem) && *v == self.map_spec()[elem],
                None => !self.map_spec().contains_key(elem),
            },
    {
        self.hash_map.get(&elem)
    }

    /// Gives `elem` the value `value`, or takes its value away when `value` is `None`.
    /// What is stated holds where the element type hashes and compares as its value
    /// (`obeys_key_model`).
    pub fn set(&mut self, elem: D::Type, value: Option<T>)
        ensures
            vstd::std_specs::hash::obeys_key_model::<D::Type>() ==> final(self).map_spec() == match value {
                Some(t) => old(self).map_spec().insert(elem, t),
                None => old(self).map_spec().remove(elem),
            },
    {
        match value {
            Some(t) => {
                self.hash_map.insert(elem, t);
            },
            None => {
                self.hash_map.remove(&elem);
            },
        }
    }
}

} // verus!

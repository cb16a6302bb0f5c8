use vstd::prelude::*;

use crate::cat::has_count::{Count, HasCount, to_count};
use crate::cat::num::Num;
use crate::cat::table::Table;
use crate::data::types::{AllowedAssignment, Key};

verus! {

/// Indicator type for a layer of the keyboard.
#[derive(Debug)]
pub struct Layer;

/// Indicator type for a token that the keyboard produces.
#[derive(Debug)]
pub struct Token;

/// Indicator type for a free token: one that may go to any of a set of locations.
#[derive(Debug)]
pub struct Free;

/// Indicator type for a lock: tokens that go, one per layer, to the same key.
#[derive(Debug)]
pub struct Lock;

/// Indicator type for a location: a key on a layer.
#[derive(Debug)]
pub struct Loc;

/// A placement that the keyboard definition allows: a free token at a location, or a
/// lock on a key.
#[derive(Debug, Clone, Copy)]
pub enum Assignment {
    Free { free_num: Num<Free>, loc_num: Num<Loc> },
    Lock { lock_num: Num<Lock>, key_num: Num<Key> },
}

/// Numbers the locations as pairs (key, layer).
#[derive(Debug)]
pub struct LocNum {
    pub key_count: Count<Key>,
    pub layer_count: Count<Layer>,
}

impl HasCount<Loc> for LocNum {
    open spec fn count_spec(&self) -> nat {
        (self.key_count@ * self.layer_count@) as nat
    }

    open spec fn count_requires(&self) -> bool {
        self.key_count@ * self.layer_count@ <= usize::MAX
    }

    fn count(&self) -> (r: Count<Loc>) {
        to_count(self.key_count.as_usize() * self.layer_count.as_usize())
    }
}

/// The sizes that number the groups of tokens: the frees and the locks.
#[derive(Debug)]
pub struct GroupNum {
    pub free_count: Count<Free>,
    pub lock_count: Count<Lock>,
}

/// The sizes that number the placements.
#[derive(Debug)]
pub struct AssignmentNum {
    pub free_count: Count<Free>,
    pub lock_count: Count<Lock>,
    pub key_count: Count<Key>,
    pub layer_count: Count<Layer>,
}

/// A keyboard definition: the names of keys, layers and tokens, the free tokens, the
/// locks (for each layer, the token the lock puts there, if any) and the placements that
/// are allowed.
#[derive(Debug)]
pub struct KbDef {
    pub keys: Table<Key, String>,
    pub layers: Table<Layer, String>,
    pub tokens: Table<Token, String>,
    pub frees: Table<Free, Num<Token>>,
    pub locks: Table<Lock, Table<Layer, Option<Num<Token>>>>,
    pub assignments: Table<AllowedAssignment, Assignment>,
}

impl KbDef {
    pub fn loc_num(&self) -> (r: LocNum)
        ensures
            r.key_count@ == self.keys@.len(),
            r.layer_count@ == self.layers@.len(),
    {
        LocNum { key_count: self.keys.count(), layer_count: self.layers.count() }
    }

    pub fn group_num(&self) -> (r: GroupNum)
        ensures
            r.free_count@ == self.frees@.len(),
            r.lock_count@ == self.locks@.len(),
    {
        GroupNum { free_count: self.frees.count(), lock_count: self.locks.count() }
    }

    pub fn assignment_num(&self) -> (r: AssignmentNum)
        ensures
            r.free_count@ == self.frees@.len(),
            r.lock_count@ == self.locks@.len(),
            r.key_count@ == self.keys@.len(),
            r.layer_count@ == self.layers@.len(),
    {
        AssignmentNum {
            free_count: self.frees.count(),
            lock_count: self.locks.count(),
            key_count: self.keys.count(),
            layer_count: self.layers.count(),
        }
    }
}

} // verus!

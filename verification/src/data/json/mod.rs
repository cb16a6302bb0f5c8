pub mod kb_conf;
pub mod groups;

use vstd::prelude::*;

use crate::cat::num::Num;
use crate::cat::table::Table;
use crate::data::json::groups::{Group, Groups, LockMap, LockRepr, all_known, groups_read};
use crate::data::json::kb_conf::{KbConf, ReadError};
use crate::data::kb_def::{Free, Layer, Lock, Token};
use crate::data::types::Key;

verus! {

/// A keyboard definition as written: the names of keys, layers and tokens, and the
/// locks by those names.
#[derive(Debug)]
pub struct KbDefData {
    pub keys: Vec<String>,
    pub layers: Vec<String>,
    pub tokens: Vec<String>,
    pub locks: Vec<LockRepr>,
}

/// A keyboard definition as read: the names, and the tokens grouped by the locks.
#[derive(Debug)]
pub struct GroupedKbDef {
    pub keys: Table<Key, String>,
    pub layers: Table<Layer, String>,
    pub tokens: Table<Token, String>,
    pub groups: Table<Group, Group>,
    pub locks: Table<Lock, LockMap>,
    pub frees: Table<Free, Num<Token>>,
    pub token_group: Table<Token, Num<Group>>,
    pub free_group: Table<Free, Num<Group>>,
    pub lock_group: Table<Lock, Num<Group>>,
}

impl KbDefData {
    /// Reads the definition: the names as given, and the locks grouped by them.
    pub fn read(self) -> (r: Result<GroupedKbDef, ReadError>)
        requires
            self.locks@.len() + self.tokens@.len() <= usize::MAX,
        ensures
            all_known(self.layers@, self.tokens@, self.locks@) ==> r is Ok && r->Ok_0.keys@ == self.keys@
                && r->Ok_0.layers@ == self.layers@ && r->Ok_0.tokens@ == self.tokens@ && groups_read(
                (Groups {
                    groups: r->Ok_0.groups,
                    locks: r->Ok_0.locks,
                    frees: r->Ok_0.frees,
                    token_group: r->Ok_0.token_group,
                    free_group: r->Ok_0.free_group,
                    lock_group: r->Ok_0.lock_group,
                }),
                self.layers@,
                self.tokens@,
                self.locks@,
            ),
            !all_known(self.layers@, self.tokens@, self.locks@) ==> r is Err,
    {
        let kb_conf = KbConf::build(self.keys, self.layers, self.tokens);
        let groups = {
            let reader = kb_conf.reader();
            Groups::read(&reader, &self.locks)?
        };
        Ok(
            GroupedKbDef {
                keys: kb_conf.keys,
                layers: kb_conf.layers,
                tokens: kb_conf.tokens,
                groups: groups.groups,
                locks: groups.locks,
                frees: groups.frees,
                token_group: groups.token_group,
                free_group: groups.free_group,
                lock_group: groups.lock_group,
            },
        )
    }
}

} // verus!

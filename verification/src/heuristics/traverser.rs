use vstd::prelude::*;

use crate::cat::num::{Num, num_of, to_num};
use crate::data::json::GroupedKbDef;
use crate::data::json::groups::Group;
use crate::data::kb_def::Assignment;

verus! {

broadcast use crate::cat::num::lemma_num_view_eq, crate::cat::num::lemma_num_of_view;

/// The placements open to group `group_id`: a free token at every location (locations
/// are numbered key-major, `key * layer_count + layer`), or a lock on every key.
pub fn group_assignments(group_id: Num<Group>, kb_def: &GroupedKbDef) -> (r: Vec<Assignment>)
    requires
        group_id@ < kb_def.groups@.len(),
        kb_def.keys@.len() * kb_def.layers@.len() <= usize::MAX,
    ensures
        match kb_def.groups@[group_id@ as int] {
            Group::Free(free_id) => r@.len() == kb_def.keys@.len() * kb_def.layers@.len() && forall|i: int|
                0 <= i < r@.len() ==> #[trigger] r@[i] == (Assignment::Free {
                    free_num: free_id,
                    loc_num: num_of(i as usize),
                }),
            Group::Locked(lock_id) => r@.len() == kb_def.keys@.len() && forall|i: int|
                0 <= i < r@.len() ==> #[trigger] r@[i] == (Assignment::Lock {
                    lock_num: lock_id,
                    key_num: num_of(i as usize),
                }),
        },
{
    match *kb_def.groups.get(group_id) {
        Group::Free(free_id) => {
            let n = kb_def.keys.len() * kb_def.layers.len();
            let mut out: Vec<Assignment> = Vec::with_capacity(n);
            let mut i: usize = 0;
            while i < n
                invariant
                    i <= n,
                    out@.len() == i,
                    forall|j: int|
                        0 <= j < i ==> #[trigger] out@[j] == (Assignment::Free {
                            free_num: free_id,
                            loc_num: num_of(j as usize),
                        }),
                decreases n - i,
            {
                out.push(Assignment::Free { free_num: free_id, loc_num: to_num(i) });
                i = i + 1;
            }
            out
        },
        Group::Locked(lock_id) => {
            let n = kb_def.keys.len();
            let mut out: Vec<Assignment> = Vec::with_capacity(n);
            let mut i: usize = 0;
            while i < n
                invariant
                    i <= n,
                    out@.len() == i,
                    forall|j: int|
                        0 <= j < i ==> #[trigger] out@[j] == (Assignment::Lock {
                            lock_num: lock_id,
                            key_num: num_of(j as usize),
                        }),
                decreases n - i,
            {
                out.push(Assignment::Lock { lock_num: lock_id, key_num: to_num(i) });
                i = i + 1;
            }
            out
        },
    }
}

} // verus!

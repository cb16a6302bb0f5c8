use vstd::prelude::*;

use crate::cat::num::Num;
use crate::cat::table::Table;
use crate::data::countable::Assocs;
use crate::data::json::groups::Group;
use crate::data::kb_def::Token;

verus! {

/// The groups of the tokens of `seq`, in order.
pub open spec fn groups_of(seq: Seq<Num<Token>>, token_group: Seq<Num<Group>>) -> Seq<Num<Group>> {
    seq.map_values(|t: Num<Token>| token_group[t@ as int])
}

/// The associations of token sequences, with every token replaced by its group; the
/// weights stay as they are.
pub fn group_assocs(assocs: &Assocs<Token>, token_group: &Table<Token, Num<Group>>) -> (r: Assocs<Group>)
    requires
        forall|i: int, j: int|
            0 <= i < assocs.vec@.len() && 0 <= j < assocs.vec@[i].0@.len() ==> (#[trigger] assocs.vec@[i].0@[j])@
                < token_group@.len(),
    ensures
        r.seq_len == assocs.seq_len,
        r.vec@.len() == assocs.vec@.len(),
        forall|i: int|
            0 <= i < assocs.vec@.len() ==> (#[trigger] r.vec@[i]).0@ == groups_of(assocs.vec@[i].0@, token_group@)
                && r.vec@[i].1 == assocs.vec@[i].1,
{
    let mut vec: Vec<(Vec<Num<Group>>, u64)> = Vec::with_capacity(assocs.vec.len());
    let mut i: usize = 0;
    while i < assocs.vec.len()
        invariant
            i <= assocs.vec@.len(),
            vec@.len() == i,
            forall|i: int, j: int|
                0 <= i < assocs.vec@.len() && 0 <= j < assocs.vec@[i].0@.len() ==> (#[trigger] assocs.vec@[i].0@[j])@
                    < token_group@.len(),
            forall|k: int|
                0 <= k < i ==> (#[trigger] vec@[k]).0@ == groups_of(assocs.vec@[k].0@, token_group@) && vec@[k].1
                    == assocs.vec@[k].1,
        decreases assocs.vec@.len() - i,
    {
        let (seq, weight) = &assocs.vec[i];
        let mut groups: Vec<Num<Group>> = Vec::with_capacity(seq.len());
        let mut j: usize = 0;
        while j < seq.len()
            invariant
                j <= seq@.len(),
                *seq == assocs.vec@[i as int].0,
                i < assocs.vec@.len(),
                forall|i: int, j: int|
                    0 <= i < assocs.vec@.len() && 0 <= j < assocs.vec@[i].0@.len() ==> (#[trigger] assocs.vec@[i].0@[j])@
                        < token_group@.len(),
                groups@ == groups_of(seq@.subrange(0, j as int), token_group@),
            decreases seq@.len() - j,
        {
            proof {
                assert(seq@[j as int] == assocs.vec@[i as int].0@[j as int]);
            }
            groups.push(*token_group.get(seq[j]));
            j = j + 1;
            proof {
                assert(groups@ =~= groups_of(seq@.subrange(0, j as int), token_group@));
            }
        }
        proof {
            assert(seq@.subrange(0, seq@.len() as int) =~= seq@);
        }
        vec.push((groups, *weight));
        i = i + 1;
    }
    Assocs { seq_len: assocs.seq_len, vec }
}

} // verus!

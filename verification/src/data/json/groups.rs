use vstd::prelude::*;

use crate::cat::num::{Num, num_of, to_num};
use crate::cat::table::Table;
use crate::data::json::kb_conf::{KbReader, ReadError, lookup, lemma_lookup_bound};
use crate::data::kb_def::{Free, Layer, Lock, Token};

verus! {

broadcast use crate::cat::num::lemma_num_view_eq, crate::cat::num::lemma_num_of_view;

/// A lock as read: for each layer, the token that the lock puts there, if any.
pub type LockMap = Table<Layer, Option<Num<Token>>>;

/// A lock as written: pairs of a layer name and a token name.
pub type LockRepr = Vec<(String, String)>;

/// A group of tokens that are placed together: the tokens of a lock, or one free token.
#[derive(Debug, Clone, Copy)]
pub enum Group {
    Locked(Num<Lock>),
    Free(Num<Free>),
}

/// The tokens grouped: the groups (the locks first, then the free tokens), the locks,
/// the free tokens, and the group of every token, free token and lock.
#[derive(Debug)]
pub struct Groups {
    pub groups: Table<Group, Group>,
    pub locks: Table<Lock, LockMap>,
    pub frees: Table<Free, Num<Token>>,
    pub token_group: Table<Token, Num<Group>>,
    pub free_group: Table<Free, Num<Group>>,
    pub lock_group: Table<Lock, Num<Group>>,
}

/// Every entry of the lock names a known layer and a known token.
pub open spec fn entries_known(layers: Seq<String>, tokens: Seq<String>, entries: Seq<(String, String)>) -> bool {
    forall|i: int|
        0 <= i < entries.len() ==> lookup(layers, (#[trigger] entries[i]).0@) is Some && lookup(
            tokens,
            entries[i].1@,
        ) is Some
}

/// The map that the entries of a lock give, set one after another on a map with no
/// token on any layer.
pub open spec fn lock_from(layers: Seq<String>, tokens: Seq<String>, entries: Seq<(String, String)>) -> Seq<Option<Num<Token>>>
    decreases entries.len(),
{
    if entries.len() == 0 {
        Seq::new(layers.len(), |i: int| None::<Num<Token>>)
    } else {
        let e = entries.last();
        lock_from(layers, tokens, entries.drop_last()).update(
            lookup(layers, e.0@)->0 as int,
            Some(num_of(lookup(tokens, e.1@)->0 as usize)),
        )
    }
}

/// The lock puts token `t` on some layer.
pub open spec fn holds_token(lock: Seq<Option<Num<Token>>>, t: int) -> bool {
    exists|l: int| 0 <= l < lock.len() && #[trigger] lock[l] is Some && lock[l]->0@ == t
}

/// The last of the first `n` locks that holds token `t`, if any.
pub open spec fn lock_of(locks: Seq<Seq<Option<Num<Token>>>>, t: int, n: int) -> Option<nat>
    decreases n,
{
    if n <= 0 {
        None
    } else if holds_token(locks[n - 1], t) {
        Some((n - 1) as nat)
    } else {
        lock_of(locks, t, n - 1)
    }
}

/// The tokens below `n` that no lock holds, in increasing order.
pub open spec fn free_tokens(locks: Seq<Seq<Option<Num<Token>>>>, n: int) -> Seq<Num<Token>>
    decreases n,
{
    if n <= 0 {
        Seq::empty()
    } else if lock_of(locks, n - 1, locks.len() as int) is None {
        free_tokens(locks, n - 1).push(num_of((n - 1) as usize))
    } else {
        free_tokens(locks, n - 1)
    }
}

/// The maps of some locks.
pub open spec fn lock_maps(locks: Seq<LockMap>) -> Seq<Seq<Option<Num<Token>>>> {
    locks.map_values(|m: LockMap| m@)
}

/// Every token that the locks hold lies below `token_count`.
pub open spec fn tokens_below(locks: Seq<Seq<Option<Num<Token>>>>, token_count: nat) -> bool {
    forall|l: int, y: int|
        0 <= l < locks.len() && 0 <= y < locks[l].len() && #[trigger] locks[l][y] is Some ==> locks[l][y]->0@
            < token_count
}

/// Reads the locks of a keyboard, by the names of its layers and tokens.
pub struct GroupsReader<'a> {
    pub kb_reader: &'a KbReader<'a>,
}

impl<'a> GroupsReader<'a> {
    /// Reads one lock: sets, for each entry, the entry's token on the entry's layer.
    pub fn read_lock(&self, repr: &LockRepr) -> (r: Result<LockMap, ReadError>)
        ensures
            entries_known(self.kb_reader.layers@, self.kb_reader.tokens@, repr@) ==> r is Ok && r->Ok_0@
                == lock_from(self.kb_reader.layers@, self.kb_reader.tokens@, repr@),
            !entries_known(self.kb_reader.layers@, self.kb_reader.tokens@, repr@) ==> r is Err,
            r is Ok ==> forall|y: int| 0 <= y < r->Ok_0@.len() && #[trigger] r->Ok_0@[y] is Some ==> r->Ok_0@[y]->0@
                < self.kb_reader.tokens@.len(),
    {
        let layers = self.kb_reader.layers;
        let tokens = self.kb_reader.tokens;
        let layer_count = layers.len();
        let mut empty: Vec<Option<Num<Token>>> = Vec::with_capacity(layer_count);
        let mut k: usize = 0;
        while k < layer_count
            invariant
                k <= layer_count,
                empty@ =~= Seq::new(k as nat, |i: int| None::<Num<Token>>),
            decreases layer_count - k,
        {
            empty.push(None);
            k = k + 1;
        }
        let mut lock: LockMap = Table::from_vec(empty);
        let mut i: usize = 0;
        proof {
            assert(repr@.subrange(0, 0) =~= Seq::<(String, String)>::empty());
        }
        while i < repr.len()
            invariant
                i <= repr@.len(),
                layers == self.kb_reader.layers,
                tokens == self.kb_reader.tokens,
                entries_known(layers@, tokens@, repr@.subrange(0, i as int)),
                lock@ == lock_from(layers@, tokens@, repr@.subrange(0, i as int)),
                lock@.len() == layers@.len(),
                forall|y: int| 0 <= y < lock@.len() && #[trigger] lock@[y] is Some ==> lock@[y]->0@ < tokens@.len(),
            decreases repr@.len() - i,
        {
            let entry = &repr[i];
            let layer_id = match self.kb_reader.read_layer(&entry.0) {
                Ok(id) => id,
                Err(e) => {
                    proof {
                        assert(!entries_known(layers@, tokens@, repr@)) by {
                            assert(repr@[i as int] == *entry);
                        }
                    }
                    return Err(e);
                },
            };
            let token_id = match self.kb_reader.read_token(&entry.1) {
                Ok(id) => id,
                Err(e) => {
                    proof {
                        assert(!entries_known(layers@, tokens@, repr@)) by {
                            assert(repr@[i as int] == *entry);
                        }
                    }
                    return Err(e);
                },
            };
            proof {
                lemma_lookup_bound(layers@, entry.0@);
                lemma_lookup_bound(tokens@, entry.1@);
                crate::cat::table::lemma_table_len(*layers);
                crate::cat::table::lemma_table_len(*tokens);
                assert(layer_id@ == lookup(layers@, entry.0@)->0);
                assert(token_id == num_of::<Token>(lookup(tokens@, entry.1@)->0 as usize));
            }
            let ghost before = lock@;
            lock.set(layer_id, Some(token_id));
            proof {
                let pre = repr@.subrange(0, i + 1);
                assert(pre.drop_last() =~= repr@.subrange(0, i as int));
                assert(pre.last() == *entry);
                assert(lock@ == before.update(layer_id@ as int, Some(token_id)));
                assert(lock_from(layers@, tokens@, pre) == lock_from(layers@, tokens@, pre.drop_last()).update(
                    lookup(layers@, entry.0@)->0 as int,
                    Some(num_of(lookup(tokens@, entry.1@)->0 as usize)),
                ));
                assert forall|j: int| 0 <= j < pre.len() implies lookup(layers@, (#[trigger] pre[j]).0@) is Some && lookup(
                    tokens@,
                    pre[j].1@,
                ) is Some by {
                    if j < i {
                        assert(pre[j] == repr@.subrange(0, i as int)[j]);
                    }
                }
            }
            i = i + 1;
        }
        proof {
            assert(repr@.subrange(0, repr@.len() as int) =~= repr@);
        }
        Ok(lock)
    }
}

/// The lock found by `lock_of`, as a number.
pub open spec fn opt_lock(o: Option<nat>) -> Option<Num<Lock>> {
    match o {
        Some(l) => Some(num_of(l as usize)),
        None => None,
    }
}

/// The group of token `t`: the last lock that holds it, or else its place among the free
/// tokens, after all the locks.
pub open spec fn group_of_token(locks: Seq<Seq<Option<Num<Token>>>>, t: int) -> nat {
    match lock_of(locks, t, locks.len() as int) {
        Some(l) => l,
        None => locks.len() + free_tokens(locks, t).len(),
    }
}

/// The groups in order: a group for each lock, then one for each free token.
pub open spec fn group_at(nl: nat, g: int) -> Group {
    if g < nl {
        Group::Locked(num_of(g as usize))
    } else {
        Group::Free(num_of((g - nl) as usize))
    }
}

/// The free tokens below `n` are the tokens below `n` that no lock holds, each at its
/// rank among them.
proof fn lemma_free_tokens(locks: Seq<Seq<Option<Num<Token>>>>, n: int)
    requires
        0 <= n <= usize::MAX,
    ensures
        free_tokens(locks, n).len() <= n,
        forall|f: int|
            0 <= f < free_tokens(locks, n).len() ==> {
                let t = (#[trigger] free_tokens(locks, n)[f])@ as int;
                &&& 0 <= t < n
                &&& lock_of(locks, t, locks.len() as int) is None
                &&& free_tokens(locks, t).len() == f
            },
        forall|t: int|
            0 <= t < n && lock_of(locks, t, locks.len() as int) is None ==> #[trigger] free_tokens(locks, t).len()
                < free_tokens(locks, n).len() && free_tokens(locks, n)[free_tokens(locks, t).len() as int]@ == t,
    decreases n,
{
    if n > 0 {
        lemma_free_tokens(locks, n - 1);
        lemma_free_prefix(locks, n - 1, n);
        assert forall|t: int|
            0 <= t < n && lock_of(locks, t, locks.len() as int) is None implies #[trigger] free_tokens(locks, t).len()
                < free_tokens(locks, n).len() && free_tokens(locks, n)[free_tokens(locks, t).len() as int]@ == t by {
            if t == n - 1 {
            } else {
                assert(free_tokens(locks, t).len() < free_tokens(locks, n - 1).len());
            }
        }
    }
}

/// The free tokens below `m` begin the free tokens below `n`.
proof fn lemma_free_prefix(locks: Seq<Seq<Option<Num<Token>>>>, m: int, n: int)
    requires
        0 <= m <= n,
    ensures
        free_tokens(locks, m).len() <= free_tokens(locks, n).len(),
        forall|f: int| 0 <= f < free_tokens(locks, m).len() ==> #[trigger] free_tokens(locks, n)[f] == free_tokens(locks, m)[f],
    decreases n - m,
{
    if m < n {
        lemma_free_prefix(locks, m, n - 1);
    }
}

/// The locks read, and for every token the last lock that holds it.
struct Locks {
    elems: Table<Lock, LockMap>,
    token_lock: Table<Token, Option<Num<Lock>>>,
}

impl Locks {
    fn new(token_count: usize, lock_vec: Vec<LockMap>) -> (r: Self)
        requires
            tokens_below(lock_maps(lock_vec@), token_count as nat),
        ensures
            r.elems@ == lock_vec@,
            r.token_lock@ == Seq::new(token_count as nat, |t: int| opt_lock(lock_of(lock_maps(lock_vec@), t, lock_vec@.len() as int))),
    {
        let ghost maps = lock_maps(lock_vec@);
        let mut token_lock_vec: Vec<Option<Num<Lock>>> = Vec::with_capacity(token_count);
        let mut k: usize = 0;
        while k < token_count
            invariant
                k <= token_count,
                token_lock_vec@ =~= Seq::new(k as nat, |t: int| None::<Num<Lock>>),
            decreases token_count - k,
        {
            token_lock_vec.push(None);
            k = k + 1;
        }
        let mut token_lock: Table<Token, Option<Num<Lock>>> = Table::from_vec(token_lock_vec);
        let locks: Table<Lock, LockMap> = Table::from_vec(lock_vec);
        let nl = locks.len();
        let mut l: usize = 0;
        while l < nl
            invariant
                maps == lock_maps(locks@),
                nl == locks@.len(),
                tokens_below(maps, token_count as nat),
                l <= nl,
                token_lock@.len() == token_count,
                forall|t: int| 0 <= t < token_count ==> #[trigger] token_lock@[t] == opt_lock(lock_of(maps, t, l as int)),
            decreases nl - l,
        {
            let lock = locks.get(to_num(l));
            let nlay = lock.len();
            let mut y: usize = 0;
            proof {
                assert(maps[l as int] == lock@);
            }
            while y < nlay
                invariant
                    maps == lock_maps(locks@),
                    nl == locks@.len(),
                    l < nl,
                    *lock == locks@[l as int],
                    maps[l as int] == lock@,
                    nlay == lock@.len(),
                    tokens_below(maps, token_count as nat),
                    y <= nlay,
                    token_lock@.len() == token_count,
                    forall|t: int|
                        0 <= t < token_count ==> #[trigger] token_lock@[t] == if holds_token(lock@.subrange(0, y as int), t) {
                            Some(num_of::<Lock>(l))
                        } else {
                            opt_lock(lock_of(maps, t, l as int))
                        },
                decreases nlay - y,
            {
                let entry = *lock.get(to_num(y));
                match entry {
                    Some(t) => {
                        proof {
                            assert(maps[l as int][y as int] is Some);
                        }
                        token_lock.set(t, Some(to_num(l)));
                    },
                    None => {},
                }
                proof {
                    assert forall|t: int| 0 <= t < token_count implies #[trigger] token_lock@[t] == if holds_token(
                        lock@.subrange(0, y + 1),
                        t,
                    ) {
                        Some(num_of::<Lock>(l))
                    } else {
                        opt_lock(lock_of(maps, t, l as int))
                    } by {
                        let pre = lock@.subrange(0, y as int);
                        let nxt = lock@.subrange(0, y + 1);
                        if holds_token(pre, t) {
                            let w = choose|w: int| 0 <= w < pre.len() && #[trigger] pre[w] is Some && pre[w]->0@ == t;
                            assert(nxt[w] == pre[w]);
                        }
                        if holds_token(nxt, t) {
                            let w = choose|w: int| 0 <= w < nxt.len() && #[trigger] nxt[w] is Some && nxt[w]->0@ == t;
                            if w < y {
                                assert(pre[w] == nxt[w]);
                            }
                        }
                        if entry is Some && entry->0@ == t {
                            assert(nxt[y as int] == entry);
                        }
                    }
                }
                y = y + 1;
            }
            proof {
                assert(lock@.subrange(0, nlay as int) =~= lock@);
            }
            l = l + 1;
        }
        Locks { elems: locks, token_lock }
    }

    /// The tokens that no lock holds, in increasing order.
    fn mk_frees(&self) -> (r: Table<Free, Num<Token>>)
        requires
            forall|t: int|
                0 <= t < self.token_lock@.len() ==> #[trigger] self.token_lock@[t] == opt_lock(
                    lock_of(lock_maps(self.elems@), t, self.elems@.len() as int),
                ),
        ensures
            r@ == free_tokens(lock_maps(self.elems@), self.token_lock@.len() as int),
    {
        let ghost maps = lock_maps(self.elems@);
        let n = self.token_lock.len();
        let mut frees: Vec<Num<Token>> = Vec::new();
        let mut t: usize = 0;
        while t < n
            invariant
                n == self.token_lock@.len(),
                t <= n,
                maps == lock_maps(self.elems@),
                maps.len() == self.elems@.len(),
                forall|t: int|
                    0 <= t < self.token_lock@.len() ==> #[trigger] self.token_lock@[t] == opt_lock(
                        lock_of(maps, t, self.elems@.len() as int),
                    ),
                frees@ == free_tokens(maps, t as int),
            decreases n - t,
        {
            if self.token_lock.get(to_num(t)).is_none() {
                frees.push(to_num(t));
            }
            t = t + 1;
        }
        Table::from_vec(frees)
    }
}

/// The groups being built: every table of groups starts with no group anywhere.
struct GroupsBuilder {
    groups: Table<Group, Group>,
    locks: Table<Lock, LockMap>,
    frees: Table<Free, Num<Token>>,
    token_group: Table<Token, Option<Num<Group>>>,
    free_group: Table<Free, Option<Num<Group>>>,
    lock_group: Table<Lock, Option<Num<Group>>>,
}

/// A table of `n` entries with no value.
fn nones<D, T>(n: usize) -> (r: Table<D, Option<T>>)
    ensures
        r@ == Seq::new(n as nat, |i: int| None::<T>),
{
    let mut v: Vec<Option<T>> = Vec::with_capacity(n);
    let mut k: usize = 0;
    while k < n
        invariant
            k <= n,
            v@ =~= Seq::new(k as nat, |i: int| None::<T>),
        decreases n - k,
    {
        v.push(None);
        k = k + 1;
    }
    Table::from_vec(v)
}

/// The values of a table whose entries all have one.
fn unwrap_all<D, T: Copy>(t: &Table<D, Option<T>>) -> (r: Table<D, T>)
    requires
        forall|i: int| 0 <= i < t@.len() ==> #[trigger] t@[i] is Some,
    ensures
        r@.len() == t@.len(),
        forall|i: int| 0 <= i < t@.len() ==> #[trigger] r@[i] == t@[i]->0,
{
    let n = t.len();
    let mut v: Vec<T> = Vec::with_capacity(n);
    let mut k: usize = 0;
    while k < n
        invariant
            n == t@.len(),
            k <= n,
            forall|i: int| 0 <= i < t@.len() ==> #[trigger] t@[i] is Some,
            v@.len() == k,
            forall|i: int| 0 <= i < k ==> #[trigger] v@[i] == t@[i]->0,
        decreases n - k,
    {
        let value = t.get(crate::cat::num::to_num(k)).unwrap();
        v.push(value);
        k = k + 1;
    }
    Table::from_vec(v)
}

impl Locks {
    fn mk_groups_builder(self) -> (r: GroupsBuilder)
        requires
            self.elems@.len() + self.token_lock@.len() <= usize::MAX,
            forall|t: int|
                0 <= t < self.token_lock@.len() ==> #[trigger] self.token_lock@[t] == opt_lock(
                    lock_of(lock_maps(self.elems@), t, self.elems@.len() as int),
                ),
        ensures
            r.locks == self.elems,
            r.frees@ == free_tokens(lock_maps(self.elems@), self.token_lock@.len() as int),
            r.groups@.len() == r.locks@.len() + r.frees@.len(),
            forall|g: int| 0 <= g < r.groups@.len() ==> #[trigger] r.groups@[g] == group_at(r.locks@.len(), g),
            r.token_group@ == Seq::new(self.token_lock@.len(), |i: int| None::<Num<Group>>),
            r.free_group@ == Seq::new(r.frees@.len(), |i: int| None::<Num<Group>>),
            r.lock_group@ == Seq::new(r.locks@.len(), |i: int| None::<Num<Group>>),
    {
        let frees = self.mk_frees();
        let nl = self.elems.len();
        let nf = frees.len();
        proof {
            crate::cat::table::lemma_table_len(self.elems);
            crate::cat::table::lemma_table_len(frees);
            crate::cat::table::lemma_table_len(self.token_lock);
            lemma_free_tokens(lock_maps(self.elems@), self.token_lock@.len() as int);
        }
        let mut groups: Vec<Group> = Vec::new();
        let mut l: usize = 0;
        while l < nl
            invariant
                l <= nl,
                groups@.len() == l,
                forall|g: int| 0 <= g < l ==> #[trigger] groups@[g] == group_at(nl as nat, g),
            decreases nl - l,
        {
            groups.push(Group::Locked(to_num(l)));
            l = l + 1;
        }
        let mut f: usize = 0;
        while f < nf
            invariant
                f <= nf,
                nf <= self.token_lock@.len() <= usize::MAX,
                nl + nf <= usize::MAX,
                groups@.len() == nl + f,
                forall|g: int| 0 <= g < nl + f ==> #[trigger] groups@[g] == group_at(nl as nat, g),
            decreases nf - f,
        {
            groups.push(Group::Free(to_num(f)));
            f = f + 1;
        }
        GroupsBuilder {
            token_group: nones(self.token_lock.len()),
            free_group: nones(nf),
            lock_group: nones(nl),
            groups: Table::from_vec(groups),
            locks: self.elems,
            frees,
        }
    }

    fn mk_groups(self) -> (r: Groups)
        requires
            self.elems@.len() + self.token_lock@.len() <= usize::MAX,
            tokens_below(lock_maps(self.elems@), self.token_lock@.len()),
            forall|t: int|
                0 <= t < self.token_lock@.len() ==> #[trigger] self.token_lock@[t] == opt_lock(
                    lock_of(lock_maps(self.elems@), t, self.elems@.len() as int),
                ),
        ensures
            groups_built(r, self.elems@, self.token_lock@.len()),
    {
        let ghost nt = self.token_lock@.len();
        let ghost elems = self.elems@;
        let mut builder = self.mk_groups_builder();
        proof {
            crate::cat::table::lemma_table_len(self.token_lock);
            lemma_free_tokens(lock_maps(elems), nt as int);
        }
        builder.visit_tokens(Ghost(nt));
        builder.mk_groups(Ghost(nt))
    }
}

/// What grouping the locks `locks` over `nt` tokens gives.
pub open spec fn groups_built(r: Groups, locks: Seq<LockMap>, nt: nat) -> bool {
    let maps = lock_maps(locks);
    let nl = locks.len();
    &&& r.locks@ == locks
    &&& r.frees@ == free_tokens(maps, nt as int)
    &&& r.groups@.len() == nl + r.frees@.len()
    &&& forall|g: int| 0 <= g < r.groups@.len() ==> #[trigger] r.groups@[g] == group_at(nl, g)
    &&& r.lock_group@.len() == nl
    &&& forall|l: int| 0 <= l < nl ==> (#[trigger] r.lock_group@[l])@ == l
    &&& r.free_group@.len() == r.frees@.len()
    &&& forall|f: int| 0 <= f < r.frees@.len() ==> (#[trigger] r.free_group@[f])@ == nl + f
    &&& r.token_group@.len() == nt
    &&& forall|t: int| 0 <= t < nt ==> (#[trigger] r.token_group@[t])@ == group_of_token(maps, t)
}

impl GroupsBuilder {
    /// The groups of the tokens seen after visiting the groups before `g`.
    spec fn token_group_after(&self, nt: nat, g: int, t: int) -> Option<Num<Group>> {
        let maps = lock_maps(self.locks@);
        let nl = self.locks@.len();
        if g <= nl {
            opt_group(lock_of(maps, t, g))
        } else {
            match lock_of(maps, t, nl as int) {
                Some(l) => Some(num_of(l as usize)),
                None => if free_tokens(maps, t).len() < g - nl {
                    Some(num_of((nl + free_tokens(maps, t).len()) as usize))
                } else {
                    None
                },
            }
        }
    }

    /// Sets the group of lock `lock_id`, and of every token it holds, to `group_id`.
    fn visit_lock(&mut self, group_id: Num<Group>, lock_id: Num<Lock>)
        requires
            lock_id@ < old(self).locks@.len(),
            old(self).lock_group@.len() == old(self).locks@.len(),
            tokens_below(lock_maps(old(self).locks@), old(self).token_group@.len()),
        ensures
            final(self).groups == old(self).groups,
            final(self).locks == old(self).locks,
            final(self).frees == old(self).frees,
            final(self).free_group == old(self).free_group,
            final(self).lock_group@ == old(self).lock_group@.update(lock_id@ as int, Some(group_id)),
            final(self).token_group@.len() == old(self).token_group@.len(),
            forall|t: int|
                0 <= t < old(self).token_group@.len() ==> #[trigger] final(self).token_group@[t] == if holds_token(
                    old(self).locks@[lock_id@ as int]@,
                    t,
                ) {
                    Some(group_id)
                } else {
                    old(self).token_group@[t]
                },
    {
        self.lock_group.set(lock_id, Some(group_id));
        let ghost maps = lock_maps(self.locks@);
        let ghost tg0 = self.token_group@;
        let lock = self.locks.get(lock_id);
        let nlay = lock.len();
        let nt = self.token_group.len();
        let mut y: usize = 0;
        proof {
            assert(maps[lock_id@ as int] == lock@);
        }
        while y < nlay
            invariant
                self.groups == old(self).groups,
                self.locks == old(self).locks,
                self.frees == old(self).frees,
                self.free_group == old(self).free_group,
                self.lock_group@ == old(self).lock_group@.update(lock_id@ as int, Some(group_id)),
                tg0 == old(self).token_group@,
                maps == lock_maps(self.locks@),
                *lock == self.locks@[lock_id@ as int],
                lock_id@ < self.locks@.len(),
                maps[lock_id@ as int] == lock@,
                nlay == lock@.len(),
                nt == self.token_group@.len(),
                tokens_below(maps, nt as nat),
                tg0.len() == nt,
                y <= nlay,
                forall|t: int|
                    0 <= t < nt ==> #[trigger] self.token_group@[t] == if holds_token(lock@.subrange(0, y as int), t) {
                        Some(group_id)
                    } else {
                        tg0[t]
                    },
            decreases nlay - y,
        {
            let entry = *lock.get(to_num(y));
            match entry {
                Some(t) => {
                    proof {
                        assert(maps[lock_id@ as int][y as int] is Some);
                    }
                    self.token_group.set(t, Some(group_id));
                },
                None => {},
            }
            proof {
                assert forall|t: int| 0 <= t < nt implies #[trigger] self.token_group@[t] == if holds_token(
                    lock@.subrange(0, y + 1),
                    t,
                ) {
                    Some(group_id)
                } else {
                    tg0[t]
                } by {
                    let pre = lock@.subrange(0, y as int);
                    let nxt = lock@.subrange(0, y + 1);
                    if holds_token(pre, t) {
                        let w = choose|w: int| 0 <= w < pre.len() && #[trigger] pre[w] is Some && pre[w]->0@ == t;
                        assert(nxt[w] == pre[w]);
                    }
                    if holds_token(nxt, t) {
                        let w = choose|w: int| 0 <= w < nxt.len() && #[trigger] nxt[w] is Some && nxt[w]->0@ == t;
                        if w < y {
                            assert(pre[w] == nxt[w]);
                        }
                    }
                    if entry is Some && entry->0@ == t {
                        assert(nxt[y as int] == entry);
                    }
                }
            }
            y = y + 1;
        }
        proof {
            assert(lock@.subrange(0, nlay as int) =~= lock@);
        }
    }

    /// Sets the group of free token `free_id`, and of its token, to `group_id`.
    fn visit_free(&mut self, group_id: Num<Group>, free_id: Num<Free>)
        requires
            free_id@ < old(self).frees@.len(),
            old(self).free_group@.len() == old(self).frees@.len(),
            old(self).frees@[free_id@ as int]@ < old(self).token_group@.len(),
        ensures
            final(self).groups == old(self).groups,
            final(self).locks == old(self).locks,
            final(self).frees == old(self).frees,
            final(self).lock_group == old(self).lock_group,
            final(self).free_group@ == old(self).free_group@.update(free_id@ as int, Some(group_id)),
            final(self).token_group@ == old(self).token_group@.update(
                old(self).frees@[free_id@ as int]@ as int,
                Some(group_id),
            ),
    {
        self.free_group.set(free_id, Some(group_id));
        let token_id = *self.frees.get(free_id);
        self.token_group.set(token_id, Some(group_id));
    }

    /// Visits every group in order, setting the groups of the locks, free tokens and
    /// tokens.
    fn visit_tokens(&mut self, nt: Ghost<nat>)
        requires
            old(self).frees@ == free_tokens(lock_maps(old(self).locks@), nt@ as int),
            old(self).groups@.len() == old(self).locks@.len() + old(self).frees@.len(),
            forall|g: int| 0 <= g < old(self).groups@.len() ==> #[trigger] old(self).groups@[g] == group_at(
                old(self).locks@.len(),
                g,
            ),
            old(self).token_group@ == Seq::new(nt@, |i: int| None::<Num<Group>>),
            old(self).free_group@ == Seq::new(old(self).frees@.len(), |i: int| None::<Num<Group>>),
            old(self).lock_group@ == Seq::new(old(self).locks@.len(), |i: int| None::<Num<Group>>),
            tokens_below(lock_maps(old(self).locks@), nt@),
            nt@ <= usize::MAX,
        ensures
            final(self).groups == old(self).groups,
            final(self).locks == old(self).locks,
            final(self).frees == old(self).frees,
            final(self).token_group@.len() == nt@,
            forall|t: int| 0 <= t < nt@ ==> #[trigger] final(self).token_group@[t] == final(self).token_group_after(nt@, final(self).groups@.len() as int, t),
            final(self).lock_group@.len() == final(self).locks@.len(),
            forall|l: int| 0 <= l < final(self).locks@.len() ==> #[trigger] final(self).lock_group@[l] == Some(num_of::<Group>(l as usize)),
            final(self).free_group@.len() == final(self).frees@.len(),
            forall|f: int| 0 <= f < final(self).frees@.len() ==> #[trigger] final(self).free_group@[f] == Some(num_of::<Group>((final(self).locks@.len() + f) as usize)),
    {
        let ghost maps = lock_maps(self.locks@);
        let ghost nl = self.locks@.len();
        let ng = self.groups.len();
        proof {
            lemma_free_tokens(maps, nt@ as int);
            crate::cat::table::lemma_table_len(self.groups);
        }
        let mut g: usize = 0;
        while g < ng
            invariant
                ng == self.groups@.len(),
                self.groups == old(self).groups,
                self.locks == old(self).locks,
                self.frees == old(self).frees,
                maps == lock_maps(self.locks@),
                nl == self.locks@.len(),
                self.frees@ == free_tokens(maps, nt@ as int),
                ng == nl + self.frees@.len(),
                ng <= usize::MAX,
                nt@ <= usize::MAX,
                forall|g: int| 0 <= g < ng ==> #[trigger] self.groups@[g] == group_at(nl, g),
                tokens_below(maps, nt@),
                g <= ng,
                self.token_group@.len() == nt@,
                forall|t: int| 0 <= t < nt@ ==> #[trigger] self.token_group@[t] == self.token_group_after(nt@, g as int, t),
                self.lock_group@.len() == nl,
                forall|l: int| 0 <= l < nl ==> #[trigger] self.lock_group@[l] == if l < g {
                    Some(num_of::<Group>(l as usize))
                } else {
                    None
                },
                self.free_group@.len() == self.frees@.len(),
                forall|f: int| 0 <= f < self.frees@.len() ==> #[trigger] self.free_group@[f] == if nl + f < g {
                    Some(num_of::<Group>((nl + f) as usize))
                } else {
                    None
                },
                free_tokens(maps, nt@ as int).len() <= nt@,
                forall|f: int|
                    0 <= f < free_tokens(maps, nt@ as int).len() ==> {
                        let t = (#[trigger] free_tokens(maps, nt@ as int)[f])@ as int;
                        &&& 0 <= t < nt@
                        &&& lock_of(maps, t, maps.len() as int) is None
                        &&& free_tokens(maps, t).len() == f
                    },
            decreases ng - g,
        {
            let group_id: Num<Group> = to_num(g);
            let group = *self.groups.get(group_id);
            match group {
                Group::Free(free_id) => {
                    let ghost before = *self;
                    proof {
                        assert(free_id@ == g - nl);
                        let t0 = self.frees@[free_id@ as int]@ as int;
                        assert(0 <= t0 < nt@);
                    }
                    self.visit_free(group_id, free_id);
                    proof {
                        let t0 = before.frees@[free_id@ as int]@ as int;
                        lemma_free_tokens(maps, nt@ as int);
                        assert forall|t: int| 0 <= t < nt@ implies #[trigger] self.token_group@[t] == self.token_group_after(nt@, g + 1, t) by {
                            assert(before.token_group@[t] == before.token_group_after(nt@, g as int, t));
                            if t == t0 {
                                assert(lock_of(maps, t, nl as int) is None);
                                assert(free_tokens(maps, t).len() == free_id@);
                                assert(group_id == num_of::<Group>(g));
                            } else if lock_of(maps, t, maps.len() as int) is None {
                                assert(free_tokens(maps, nt@ as int)[free_tokens(maps, t).len() as int]@ == t);
                                assert(free_tokens(maps, t).len() != free_id@);
                            }
                        }
                    }
                },
                Group::Locked(lock_id) => {
                    let ghost before = *self;
                    proof {
                        assert(lock_id@ == g);
                    }
                    self.visit_lock(group_id, lock_id);
                    proof {
                        assert forall|t: int| 0 <= t < nt@ implies #[trigger] self.token_group@[t] == self.token_group_after(nt@, g + 1, t) by {
                            assert(before.token_group@[t] == before.token_group_after(nt@, g as int, t));
                            assert(maps[g as int] == self.locks@[g as int]@);
                            assert(g < nl);
                            assert(group_id == num_of::<Group>(g));
                            assert(lock_of(maps, t, g + 1) == if holds_token(maps[g as int], t) {
                                Some(g as nat)
                            } else {
                                lock_of(maps, t, g as int)
                            });
                            assert(self.token_group@[t] == if holds_token(before.locks@[g as int]@, t) {
                                Some(group_id)
                            } else {
                                before.token_group@[t]
                            });
                            assert(lock_maps(self.locks@) == maps);
                            assert(self.locks@.len() == nl);
                            assert(g + 1 <= nl);
                            assert(self.token_group_after(nt@, g + 1, t) == opt_group(lock_of(maps, t, g + 1)));
                            assert(before.token_group_after(nt@, g as int, t) == opt_group(lock_of(maps, t, g as int)));
                            if holds_token(maps[g as int], t) {
                                assert(opt_group(lock_of(maps, t, g + 1)) == Some(num_of::<Group>(g)));
                                assert(self.token_group@[t] == Some(group_id));
                            } else {
                                assert(self.token_group@[t] == before.token_group@[t]);
                                assert(lock_of(maps, t, g + 1) == lock_of(maps, t, g as int));
                            }
                            assert(self.token_group@[t] == self.token_group_after(nt@, g + 1, t));
                        }
                    }
                },
            }
            g = g + 1;
        }
    }

    /// The groups, once every table has a group everywhere.
    fn mk_groups(self, nt: Ghost<nat>) -> (r: Groups)
        requires
            self.frees@ == free_tokens(lock_maps(self.locks@), nt@ as int),
            self.groups@.len() == self.locks@.len() + self.frees@.len(),
            forall|g: int| 0 <= g < self.groups@.len() ==> #[trigger] self.groups@[g] == group_at(self.locks@.len(), g),
            self.token_group@.len() == nt@,
            forall|t: int| 0 <= t < nt@ ==> #[trigger] self.token_group@[t] == self.token_group_after(nt@, self.groups@.len() as int, t),
            self.lock_group@.len() == self.locks@.len(),
            forall|l: int| 0 <= l < self.locks@.len() ==> #[trigger] self.lock_group@[l] == Some(num_of::<Group>(l as usize)),
            self.free_group@.len() == self.frees@.len(),
            forall|f: int| 0 <= f < self.frees@.len() ==> #[trigger] self.free_group@[f] == Some(num_of::<Group>((self.locks@.len() + f) as usize)),
            nt@ <= usize::MAX,
        ensures
            groups_built(r, self.locks@, nt@),
    {
        let ghost maps = lock_maps(self.locks@);
        let ghost nl = self.locks@.len();
        proof {
            lemma_free_tokens(maps, nt@ as int);
            crate::cat::table::lemma_table_len(self.groups);
            assert forall|t: int| 0 <= t < nt@ implies #[trigger] self.token_group@[t] is Some by {
                assert(self.token_group@[t] == self.token_group_after(nt@, self.groups@.len() as int, t));
                if lock_of(maps, t, nl as int) is None {
                    assert(free_tokens(maps, t).len() < free_tokens(maps, nt@ as int).len());
                }
            }
        }
        let token_group = unwrap_all(&self.token_group);
        let free_group = unwrap_all(&self.free_group);
        let lock_group = unwrap_all(&self.lock_group);
        let r = Groups {
            groups: self.groups,
            locks: self.locks,
            frees: self.frees,
            token_group,
            free_group,
            lock_group,
        };
        proof {
            assert forall|t: int| 0 <= t < nt@ implies (#[trigger] r.token_group@[t])@ == group_of_token(maps, t) by {
                assert(self.token_group@[t] == self.token_group_after(nt@, self.groups@.len() as int, t));
                if let Some(l) = lock_of(maps, t, nl as int) {
                    lemma_lock_of_bound(maps, t, nl as int);
                } else {
                    assert(free_tokens(maps, t).len() < free_tokens(maps, nt@ as int).len());
                }
            }
        }
        r
    }
}

/// A lock found by `lock_of`, as the number of its group.
pub open spec fn opt_group(o: Option<nat>) -> Option<Num<Group>> {
    match o {
        Some(l) => Some(num_of(l as usize)),
        None => None,
    }
}

/// The lock found is one of those searched.
proof fn lemma_lock_of_bound(locks: Seq<Seq<Option<Num<Token>>>>, t: int, n: int)
    ensures
        lock_of(locks, t, n) matches Some(l) ==> l < n,
    decreases n,
{
    if n > 0 {
        lemma_lock_of_bound(locks, t, n - 1);
    }
}

/// Every lock names only known layers and tokens.
pub open spec fn all_known(layers: Seq<String>, tokens: Seq<String>, repr: Seq<LockRepr>) -> bool {
    forall|i: int| 0 <= i < repr.len() ==> entries_known(layers, tokens, (#[trigger] repr[i])@)
}

/// The groups read from the locks `repr`: each lock as its entries set it, and the
/// grouping of the tokens that those locks give.
pub open spec fn groups_read(r: Groups, layers: Seq<String>, tokens: Seq<String>, repr: Seq<LockRepr>) -> bool {
    &&& r.locks@.len() == repr.len()
    &&& forall|i: int| 0 <= i < repr.len() ==> (#[trigger] r.locks@[i])@ == lock_from(layers, tokens, repr[i]@)
    &&& groups_built(r, r.locks@, tokens.len())
}

impl<'a> GroupsReader<'a> {
    /// Reads all locks, then groups the tokens: each lock is a group, and so is each
    /// token that no lock holds.
    pub fn read_locks(&self, repr: &Vec<LockRepr>) -> (r: Result<Groups, ReadError>)
        requires
            repr@.len() + self.kb_reader.tokens@.len() <= usize::MAX,
        ensures
            all_known(self.kb_reader.layers@, self.kb_reader.tokens@, repr@) ==> r is Ok && groups_read(
                r->Ok_0,
                self.kb_reader.layers@,
                self.kb_reader.tokens@,
                repr@,
            ),
            !all_known(self.kb_reader.layers@, self.kb_reader.tokens@, repr@) ==> r is Err,
    {
        let ghost layers = self.kb_reader.layers@;
        let ghost tokens = self.kb_reader.tokens@;
        let mut lock_vec: Vec<LockMap> = Vec::new();
        let mut i: usize = 0;
        while i < repr.len()
            invariant
                layers == self.kb_reader.layers@,
                tokens == self.kb_reader.tokens@,
                i <= repr@.len(),
                lock_vec@.len() == i,
                forall|j: int| 0 <= j < i ==> entries_known(layers, tokens, (#[trigger] repr@[j])@),
                forall|j: int| 0 <= j < i ==> (#[trigger] lock_vec@[j])@ == lock_from(layers, tokens, repr@[j]@),
                tokens_below(lock_maps(lock_vec@), tokens.len()),
            decreases repr@.len() - i,
        {
            let lock = match self.read_lock(&repr[i]) {
                Ok(lock) => lock,
                Err(e) => {
                    return Err(e);
                },
            };
            let ghost before = lock_vec@;
            lock_vec.push(lock);
            proof {
                assert forall|l: int, y: int|
                    0 <= l < lock_maps(lock_vec@).len() && 0 <= y < lock_maps(lock_vec@)[l].len() && #[trigger] lock_maps(
                        lock_vec@,
                    )[l][y] is Some implies lock_maps(lock_vec@)[l][y]->0@ < tokens.len() by {
                    if l < i {
                        assert(lock_maps(lock_vec@)[l] == lock_maps(before)[l]);
                    }
                }
            }
            i = i + 1;
        }
        let token_count = self.kb_reader.tokens.len();
        let ghost locks_g = lock_vec@;
        let locks = Locks::new(token_count, lock_vec);
        let r = locks.mk_groups();
        Ok(r)
    }
}

impl Groups {
    /// Reads the locks `repr` by the names of `kb_reader` and groups the tokens.
    pub fn read<'a>(kb_reader: &'a KbReader<'a>, repr: &Vec<LockRepr>) -> (r: Result<Self, ReadError>)
        requires
            repr@.len() + kb_reader.tokens@.len() <= usize::MAX,
        ensures
            all_known(kb_reader.layers@, kb_reader.tokens@, repr@) ==> r is Ok && groups_read(
                r->Ok_0,
                kb_reader.layers@,
                kb_reader.tokens@,
                repr@,
            ),
            !all_known(kb_reader.layers@, kb_reader.tokens@, repr@) ==> r is Err,
    {
        let reader = GroupsReader { kb_reader };
        reader.read_locks(repr)
    }
}

} // verus!

use vstd::prelude::*;

use crate::cat::num::{Num, num_of};
use crate::cat::table::Table;
use crate::data::json::kb_conf::{KbReader, ReadError, lookup, lemma_lookup_bound};
use crate::data::kb_def::{Loc, Token};
use crate::data::types::Key;

verus! {

broadcast use crate::cat::num::lemma_num_view_eq, crate::cat::num::lemma_num_of_view;

/// For one key, pairs of a layer name and a token name.
pub type KeyMapping = Vec<(String, String)>;

/// Pairs of a key name and the mapping of that key.
pub type KeymapData = Vec<(String, KeyMapping)>;

/// For each location (key-major: `key * layer_count + layer`), the token there, if any.
pub type Keymap = Table<Loc, Option<Num<Token>>>;

/// The location of a layer of a key.
pub open spec fn loc_of(layer_count: nat, key: nat, layer: nat) -> int {
    (key * layer_count + layer) as int
}

/// Every name in the mapping of a key is known.
pub open spec fn mapping_known(layers: Seq<String>, tokens: Seq<String>, m: Seq<(String, String)>) -> bool {
    forall|i: int|
        0 <= i < m.len() ==> lookup(layers, (#[trigger] m[i]).0@) is Some && lookup(tokens, m[i].1@) is Some
}

/// Every name in the keymap is known.
pub open spec fn keymap_known(keys: Seq<String>, layers: Seq<String>, tokens: Seq<String>, data: Seq<(String, KeyMapping)>) -> bool {
    forall|i: int|
        0 <= i < data.len() ==> lookup(keys, (#[trigger] data[i]).0@) is Some && mapping_known(
            layers,
            tokens,
            data[i].1@,
        )
}

/// `map` with the entries of the mapping of key `key` set one after another.
pub open spec fn apply_mapping(map: Seq<Option<Num<Token>>>, key: nat, layers: Seq<String>, tokens: Seq<String>, m: Seq<(String, String)>) -> Seq<Option<Num<Token>>>
    decreases m.len(),
{
    if m.len() == 0 {
        map
    } else {
        apply_mapping(map, key, layers, tokens, m.drop_last()).update(
            loc_of(layers.len(), key, lookup(layers, m.last().0@)->0),
            Some(num_of(lookup(tokens, m.last().1@)->0 as usize)),
        )
    }
}

/// The keymap that the data give, set one key after another on a map with no token
/// anywhere.
pub open spec fn keymap_from(keys: Seq<String>, layers: Seq<String>, tokens: Seq<String>, data: Seq<(String, KeyMapping)>) -> Seq<Option<Num<Token>>>
    decreases data.len(),
{
    if data.len() == 0 {
        Seq::new(keys.len() * layers.len(), |i: int| None::<Num<Token>>)
    } else {
        apply_mapping(
            keymap_from(keys, layers, tokens, data.drop_last()),
            lookup(keys, data.last().0@)->0,
            layers,
            tokens,
            data.last().1@,
        )
    }
}

proof fn lemma_apply_mapping_len(map: Seq<Option<Num<Token>>>, key: nat, nkeys: nat, layers: Seq<String>, tokens: Seq<String>, m: Seq<(String, String)>)
    requires
        key < nkeys,
        map.len() == nkeys * layers.len(),
        mapping_known(layers, tokens, m),
    ensures
        apply_mapping(map, key, layers, tokens, m).len() == map.len(),
    decreases m.len(),
{
    if m.len() > 0 {
        assert forall|i: int| 0 <= i < m.drop_last().len() implies lookup(layers, (#[trigger] m.drop_last()[i]).0@) is Some
            && lookup(tokens, m.drop_last()[i].1@) is Some by {
            assert(m.drop_last()[i] == m[i]);
        }
        lemma_apply_mapping_len(map, key, nkeys, layers, tokens, m.drop_last());
        let l = lookup(layers, m.last().0@)->0;
        assert(lookup(layers, m[m.len() - 1].0@) is Some);
        lemma_lookup_bound(layers, m.last().0@);
        assert(key * layers.len() + l < nkeys * layers.len()) by (nonlinear_arith)
            requires
                key < nkeys,
                l < layers.len(),
        ;
    }
}

proof fn lemma_keymap_len(keys: Seq<String>, layers: Seq<String>, tokens: Seq<String>, data: Seq<(String, KeyMapping)>)
    requires
        keymap_known(keys, layers, tokens, data),
    ensures
        keymap_from(keys, layers, tokens, data).len() == keys.len() * layers.len(),
    decreases data.len(),
{
    if data.len() > 0 {
        let last = data[data.len() - 1];
        assert forall|i: int| 0 <= i < data.drop_last().len() implies lookup(keys, (#[trigger] data.drop_last()[i]).0@) is Some
            && mapping_known(layers, tokens, data.drop_last()[i].1@) by {
            assert(data.drop_last()[i] == data[i]);
        }
        lemma_keymap_len(keys, layers, tokens, data.drop_last());
        lemma_lookup_bound(keys, last.0@);
        lemma_apply_mapping_len(
            keymap_from(keys, layers, tokens, data.drop_last()),
            lookup(keys, data.last().0@)->0,
            keys.len(),
            layers,
            tokens,
            data.last().1@,
        );
    }
}

/// Reads a keymap by the names of keys, layers and tokens.
pub struct KeymapReader<'a> {
    kb_reader: KbReader<'a>,
    keymap: Keymap,
}

impl<'a> KeymapReader<'a> {
    pub closed spec fn reader_spec(&self) -> KbReader<'a> {
        self.kb_reader
    }

    pub closed spec fn keymap_spec(&self) -> Seq<Option<Num<Token>>> {
        self.keymap@
    }

    /// A reader whose keymap has no token anywhere.
    pub fn new(kb_reader: KbReader<'a>) -> (r: Self)
        requires
            kb_reader.keys@.len() * kb_reader.layers@.len() <= usize::MAX,
        ensures
            r.reader_spec() == kb_reader,
            r.keymap_spec() == Seq::new(
                kb_reader.keys@.len() * kb_reader.layers@.len(),
                |i: int| None::<Num<Token>>,
            ),
    {
        let n = kb_reader.keys.len() * kb_reader.layers.len();
        let mut v: Vec<Option<Num<Token>>> = Vec::with_capacity(n);
        let mut k: usize = 0;
        while k < n
            invariant
                k <= n,
                v@ =~= Seq::new(k as nat, |i: int| None::<Num<Token>>),
            decreases n - k,
        {
            v.push(None);
            k = k + 1;
        }
        KeymapReader { kb_reader, keymap: Table::from_vec(v) }
    }

    /// Sets, for each entry of the mapping of key `key_id`, the entry's token at the
    /// entry's layer of the key.
    fn read_key_mapping(&mut self, key_id: Num<Key>, key_mapping: &KeyMapping) -> (r: Result<(), ReadError>)
        requires
            key_id@ < old(self).kb_reader.keys@.len(),
            old(self).keymap@.len() == old(self).kb_reader.keys@.len() * old(self).kb_reader.layers@.len(),
        ensures
            final(self).kb_reader == old(self).kb_reader,
            final(self).keymap@.len() == old(self).keymap@.len(),
            mapping_known(old(self).kb_reader.layers@, old(self).kb_reader.tokens@, key_mapping@) ==> r is Ok
                && final(self).keymap@ == apply_mapping(
                old(self).keymap@,
                key_id@ as nat,
                old(self).kb_reader.layers@,
                old(self).kb_reader.tokens@,
                key_mapping@,
            ),
            !mapping_known(old(self).kb_reader.layers@, old(self).kb_reader.tokens@, key_mapping@) ==> r is Err,
    {
        let ghost layers = self.kb_reader.layers@;
        let ghost tokens = self.kb_reader.tokens@;
        let ghost map0 = self.keymap@;
        let layer_count = self.kb_reader.layers.len();
        let mut i: usize = 0;
        proof {
            assert(key_mapping@.subrange(0, 0) =~= Seq::<(String, String)>::empty());
        }
        while i < key_mapping.len()
            invariant
                self.kb_reader == old(self).kb_reader,
                layers == self.kb_reader.layers@,
                tokens == self.kb_reader.tokens@,
                layer_count == layers.len(),
                map0 == old(self).keymap@,
                self.keymap@.len() == map0.len(),
                key_id@ < self.kb_reader.keys@.len(),
                self.keymap@.len() == self.kb_reader.keys@.len() * layers.len(),
                i <= key_mapping@.len(),
                mapping_known(layers, tokens, key_mapping@.subrange(0, i as int)),
                self.keymap@ == apply_mapping(map0, key_id@ as nat, layers, tokens, key_mapping@.subrange(0, i as int)),
            decreases key_mapping@.len() - i,
        {
            let entry = &key_mapping[i];
            let layer_id = match self.kb_reader.read_layer(&entry.0) {
                Ok(id) => id,
                Err(e) => {
                    proof {
                        assert(key_mapping@[i as int] == *entry);
                    }
                    return Err(e);
                },
            };
            let token_id = match self.kb_reader.read_token(&entry.1) {
                Ok(id) => id,
                Err(e) => {
                    proof {
                        assert(key_mapping@[i as int] == *entry);
                    }
                    return Err(e);
                },
            };
            proof {
                lemma_lookup_bound(layers, entry.0@);
                lemma_lookup_bound(tokens, entry.1@);
                crate::cat::table::lemma_table_len(*self.kb_reader.layers);
                crate::cat::table::lemma_table_len(*self.kb_reader.tokens);
                let kc = self.kb_reader.keys@.len();
                crate::cat::table::lemma_table_len(self.keymap);
                assert(kc * layer_count == self.keymap@.len());
                assert(key_id@ * layer_count <= key_id@ * layer_count + layer_id@) by (nonlinear_arith);
                assert(key_id@ * layer_count + layer_id@ < kc * layer_count) by (nonlinear_arith)
                    requires
                        key_id@ < kc,
                        layer_id@ < layer_count,
                ;
            }
            let loc = key_id.as_usize() * layer_count + layer_id.as_usize();
            let ghost before = self.keymap@;
            self.keymap.set(crate::cat::num::to_num(loc), Some(token_id));
            proof {
                let pre = key_mapping@.subrange(0, i + 1);
                assert(pre.drop_last() =~= key_mapping@.subrange(0, i as int));
                assert(pre.last() == *entry);
                assert(token_id == num_of::<Token>(lookup(tokens, entry.1@)->0 as usize));
                assert forall|j: int| 0 <= j < pre.len() implies lookup(layers, (#[trigger] pre[j]).0@) is Some
                    && lookup(tokens, pre[j].1@) is Some by {
                    if j < i {
                        assert(pre[j] == key_mapping@.subrange(0, i as int)[j]);
                    }
                }
            }
            i = i + 1;
        }
        proof {
            assert(key_mapping@.subrange(0, key_mapping@.len() as int) =~= key_mapping@);
        }
        Ok(())
    }

    /// Sets the mapping of every key, one after another.
    fn read_keymap(&mut self, keymap: &KeymapData) -> (r: Result<(), ReadError>)
        requires
            old(self).keymap@ == Seq::new(
                old(self).kb_reader.keys@.len() * old(self).kb_reader.layers@.len(),
                |i: int| None::<Num<Token>>,
            ),
        ensures
            final(self).kb_reader == old(self).kb_reader,
            keymap_known(old(self).kb_reader.keys@, old(self).kb_reader.layers@, old(self).kb_reader.tokens@, keymap@)
                ==> r is Ok && final(self).keymap@ == keymap_from(
                old(self).kb_reader.keys@,
                old(self).kb_reader.layers@,
                old(self).kb_reader.tokens@,
                keymap@,
            ),
            !keymap_known(old(self).kb_reader.keys@, old(self).kb_reader.layers@, old(self).kb_reader.tokens@, keymap@)
                ==> r is Err,
    {
        let ghost keys = self.kb_reader.keys@;
        let ghost layers = self.kb_reader.layers@;
        let ghost tokens = self.kb_reader.tokens@;
        let mut i: usize = 0;
        proof {
            assert(keymap@.subrange(0, 0) =~= Seq::<(String, KeyMapping)>::empty());
        }
        while i < keymap.len()
            invariant
                self.kb_reader == old(self).kb_reader,
                keys == self.kb_reader.keys@,
                layers == self.kb_reader.layers@,
                tokens == self.kb_reader.tokens@,
                i <= keymap@.len(),
                keymap_known(keys, layers, tokens, keymap@.subrange(0, i as int)),
                self.keymap@ == keymap_from(keys, layers, tokens, keymap@.subrange(0, i as int)),
            decreases keymap@.len() - i,
        {
            let entry = &keymap[i];
            let key_id = match self.kb_reader.read_key(&entry.0) {
                Ok(id) => id,
                Err(e) => {
                    proof {
                        assert(keymap@[i as int] == *entry);
                    }
                    return Err(e);
                },
            };
            proof {
                lemma_lookup_bound(keys, entry.0@);
                crate::cat::table::lemma_table_len(*self.kb_reader.keys);
                lemma_keymap_len(keys, layers, tokens, keymap@.subrange(0, i as int));
                assert(key_id@ == lookup(keys, entry.0@)->0);
            }
            match self.read_key_mapping(key_id, &entry.1) {
                Ok(()) => {},
                Err(e) => {
                    proof {
                        assert(keymap@[i as int] == *entry);
                    }
                    return Err(e);
                },
            }
            proof {
                let pre = keymap@.subrange(0, i + 1);
                assert(pre.drop_last() =~= keymap@.subrange(0, i as int));
                assert(pre.last() == *entry);
                assert forall|j: int| 0 <= j < pre.len() implies lookup(keys, (#[trigger] pre[j]).0@) is Some
                    && mapping_known(layers, tokens, pre[j].1@) by {
                    if j < i {
                        assert(pre[j] == keymap@.subrange(0, i as int)[j]);
                    }
                }
            }
            i = i + 1;
        }
        proof {
            assert(keymap@.subrange(0, keymap@.len() as int) =~= keymap@);
        }
        Ok(())
    }
}

/// Reads a keymap from its data by the names of `kb_reader`: for each key, the token at
/// each of its layers, where one is given.
pub fn read_keymap_data<'a>(kb_reader: KbReader<'a>, data: &KeymapData) -> (r: Result<Keymap, ReadError>)
    requires
        kb_reader.keys@.len() * kb_reader.layers@.len() <= usize::MAX,
    ensures
        keymap_known(kb_reader.keys@, kb_reader.layers@, kb_reader.tokens@, data@) ==> r is Ok && r->Ok_0@
            == keymap_from(kb_reader.keys@, kb_reader.layers@, kb_reader.tokens@, data@),
        !keymap_known(kb_reader.keys@, kb_reader.layers@, kb_reader.tokens@, data@) ==> r is Err,
{
    let mut reader = KeymapReader::new(kb_reader);
    reader.read_keymap(data)?;
    Ok(reader.keymap)
}

} // verus!

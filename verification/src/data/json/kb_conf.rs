use vstd::prelude::*;

use crate::cat::num::{Num, num_of, to_num};
use crate::cat::table::Table;
use crate::data::kb_def::{Layer, Token};
use crate::data::types::Key;

verus! {

broadcast use crate::cat::num::lemma_num_view_eq, crate::cat::num::lemma_num_of_view;

/// A name that no element of its kind has.
#[derive(Debug)]
pub enum ReadError {
    UnknownToken(String),
    UnknownLayer(String),
    UnknownKey(String),
}

/// The names of the keys, layers and tokens of a keyboard.
#[derive(Debug)]
pub struct KbConf {
    pub keys: Table<Key, String>,
    pub layers: Table<Layer, String>,
    pub tokens: Table<Token, String>,
}

impl KbConf {
    pub fn build(keys: Vec<String>, layers: Vec<String>, tokens: Vec<String>) -> (r: Self)
        ensures
            r.keys@ == keys@,
            r.layers@ == layers@,
            r.tokens@ == tokens@,
    {
        KbConf { keys: Table::from_vec(keys), layers: Table::from_vec(layers), tokens: Table::from_vec(tokens) }
    }

    pub fn reader<'a>(&'a self) -> (r: KbReader<'a>)
        ensures
            r.keys == &self.keys,
            r.layers == &self.layers,
            r.tokens == &self.tokens,
    {
        KbReader::new(&self.keys, &self.layers, &self.tokens)
    }
}

/// The number of the last of `names` that equals `name`, if any.
pub open spec fn lookup(names: Seq<String>, name: Seq<char>) -> Option<nat>
    decreases names.len(),
{
    if names.len() == 0 {
        None
    } else if names.last()@ == name {
        Some((names.len() - 1) as nat)
    } else {
        lookup(names.drop_last(), name)
    }
}

/// The number of the last of `names` that equals `name`.
fn find<D>(names: &Table<D, String>, name: &String) -> (r: Option<Num<D>>)
    ensures
        match lookup(names@, name@) {
            Some(i) => r == Some(num_of::<D>(i as usize)),
            None => r is None,
        },
{
    let mut i = names.len();
    proof {
        assert(names@.subrange(0, i as int) =~= names@);
    }
    while i > 0
        invariant
            i <= names@.len(),
            lookup(names@, name@) == lookup(names@.subrange(0, i as int), name@),
        decreases i,
    {
        let ghost pre = names@.subrange(0, i as int);
        if names.get(to_num(i - 1)).eq(name) {
            proof {
                assert(pre.last() == names@[i - 1]);
            }
            return Some(to_num(i - 1));
        }
        proof {
            assert(pre.drop_last() =~= names@.subrange(0, i - 1));
        }
        i = i - 1;
    }
    None
}

/// Reads the numbers of keys, layers and tokens from their names.
pub struct KbReader<'a> {
    pub keys: &'a Table<Key, String>,
    pub layers: &'a Table<Layer, String>,
    pub tokens: &'a Table<Token, String>,
}

impl<'a> KbReader<'a> {
    pub fn new(keys: &'a Table<Key, String>, layers: &'a Table<Layer, String>, tokens: &'a Table<Token, String>) -> (r: Self)
        ensures
            r.keys == keys,
            r.layers == layers,
            r.tokens == tokens,
    {
        KbReader { keys, layers, tokens }
    }

    /// The number of the token named `repr`; where several tokens have that name, the
    /// last of them.
    pub fn read_token(&self, repr: &String) -> (r: Result<Num<Token>, ReadError>)
        ensures
            match lookup(self.tokens@, repr@) {
                Some(i) => r == Ok::<Num<Token>, ReadError>(num_of(i as usize)),
                None => r is Err && r->Err_0 is UnknownToken && r->Err_0->UnknownToken_0@ == repr@,
            },
    {
        match find(self.tokens, repr) {
            Some(id) => Ok(id),
            None => Err(ReadError::UnknownToken(repr.clone())),
        }
    }

    /// The number of the layer named `repr`; where several layers have that name, the
    /// last of them.
    pub fn read_layer(&self, repr: &String) -> (r: Result<Num<Layer>, ReadError>)
        ensures
            match lookup(self.layers@, repr@) {
                Some(i) => r == Ok::<Num<Layer>, ReadError>(num_of(i as usize)),
                None => r is Err && r->Err_0 is UnknownLayer && r->Err_0->UnknownLayer_0@ == repr@,
            },
    {
        match find(self.layers, repr) {
            Some(id) => Ok(id),
            None => Err(ReadError::UnknownLayer(repr.clone())),
        }
    }

    /// The number of the key named `repr`; where several keys have that name, the last
    /// of them.
    pub fn read_key(&self, repr: &String) -> (r: Result<Num<Key>, ReadError>)
        ensures
            match lookup(self.keys@, repr@) {
                Some(i) => r == Ok::<Num<Key>, ReadError>(num_of(i as usize)),
                None => r is Err && r->Err_0 is UnknownKey && r->Err_0->UnknownKey_0@ == repr@,
            },
    {
        match find(self.keys, repr) {
            Some(id) => Ok(id),
            None => Err(ReadError::UnknownKey(repr.clone())),
        }
    }
}

/// A name found by `lookup` is that of an element within the names.
pub proof fn lemma_lookup_bound(names: Seq<String>, name: Seq<char>)
    ensures
        lookup(names, name) matches Some(i) ==> i < names.len() && names[i as int]@ == name,
    decreases names.len(),
{
    if names.len() > 0 {
        lemma_lookup_bound(names.drop_last(), name);
    }
}

} // verus!

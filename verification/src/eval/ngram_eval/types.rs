use std::marker::PhantomData;
use vstd::prelude::*;

use crate::cat::num::Num;
use crate::cat::seq_table::SeqTable;
use crate::cat::table::Table;

verus! {

/// Marker type for an n-gram sequence.
#[derive(Debug)]
pub struct NGram<T> {
    phantom: PhantomData<T>,
}

/// A collection of n-grams, each a row of elements of `T`, along with their frequency
/// of type `F`.
#[derive(Debug)]
pub struct NGrams<T, F> {
    pub elements: SeqTable<NGram<T>, Num<T>>,
    pub freqs: Table<NGram<T>, F>,
}

} // verus!

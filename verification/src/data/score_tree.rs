use vstd::prelude::*;

verus! {

/// A location on the keyboard, by the names of its key and layer.
#[derive(Debug, Clone)]
pub struct Loc {
    pub key: String,
    pub layer: String,
}

} // verus!

//! Affixes.

use vstd::prelude::*;

verus! {

/// Identifies an affix: whether it is a suffix, its name, and its
/// pronunciation and spelling.
#[derive(Debug)]
pub struct AffixKey {
    pub is_suffix: bool,
    pub name: String,
    pub phono: String,
    pub ortho: String,
}

impl AffixKey {
    pub fn new(is_suffix: bool, name: String, phono: String, ortho: String) -> (r: AffixKey)
        ensures
            r.is_suffix == is_suffix,
            r.name == name,
            r.phono == phono,
            r.ortho == ortho,
    {
        AffixKey { is_suffix, name, phono, ortho }
    }
}

} // verus!

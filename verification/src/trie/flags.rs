//! Transition flags: named annotations attached to the cost keys of
//! transitions.

use vstd::prelude::*;
use crate::trie::source::clone_flags;
use crate::trie::table::{Table, add_to, find, lemma_bind, list_of, lists};
use crate::trie::transition::TransitionCostKey;

verus! {

/// A named flag.
#[derive(Debug)]
pub struct TransitionFlag {
    pub label: String,
}

impl Clone for TransitionFlag {
    fn clone(&self) -> (r: Self)
        ensures
            r.label@ == self.label@,
    {
        TransitionFlag { label: self.label.clone() }
    }
}

impl TransitionFlag {
    pub fn new(label: String) -> (r: Self)
        ensures
            r.label == label,
    {
        TransitionFlag { label }
    }
}

/// The mathematical value of a [`TransitionFlagManager`]: the labels of
/// the flags, by flag id, and the flags attached to each cost key, in the
/// order in which they were attached.
pub struct FlagManagerSpec {
    pub labels: Seq<Seq<char>>,
    pub flags: Map<TransitionCostKey, Seq<usize>>,
}

/// Interns named flags and attaches them to cost keys.
#[derive(Debug)]
pub struct TransitionFlagManager {
    mappings: Table<TransitionCostKey, Vec<usize>>,
    flag_types: Vec<TransitionFlag>,
}

impl View for TransitionFlagManager {
    type V = FlagManagerSpec;

    closed spec fn view(&self) -> FlagManagerSpec {
        FlagManagerSpec {
            labels: self.flag_types@.map_values(|f: TransitionFlag| f.label@),
            flags: Map::new(
                |k: TransitionCostKey| find(self.mappings.lists(), k) is Some,
                |k: TransitionCostKey| list_of(self.mappings.lists(), k),
            ),
        }
    }
}

impl FlagManagerSpec {
    /// The flags attached to a cost key; none if nothing was attached.
    pub open spec fn flags_of(self, key: TransitionCostKey) -> Seq<usize> {
        if self.flags.contains_key(key) {
            self.flags[key]
        } else {
            Seq::empty()
        }
    }
}

impl TransitionFlagManager {
    pub fn new() -> (r: Self)
        ensures
            r@.labels.len() == 0,
            forall|key: TransitionCostKey| r@.flags_of(key).len() == 0,
    {
        TransitionFlagManager { mappings: Table::new(), flag_types: Vec::new() }
    }

    /// Interns a flag named `label`; its id is the number of flags interned
    /// before it.
    pub fn new_flag(&mut self, label: String) -> (r: usize)
        ensures
            r == old(self)@.labels.len(),
            final(self)@.labels == old(self)@.labels.push(label@),
            final(self)@.flags == old(self)@.flags,
    {
        let flag = TransitionFlag::new(label);
        self.flag_types.push(flag);
        proof {
            assert(self@.labels =~= old(self)@.labels.push(label@));
        }
        self.flag_types.len() - 1
    }

    /// Attaches a flag to a cost key.
    pub fn flag_transition(&mut self, transition_cost_key: TransitionCostKey, flag_index: usize)
        ensures
            final(self)@.labels == old(self)@.labels,
            final(self)@.flags == old(self)@.flags.insert(
                transition_cost_key,
                old(self)@.flags_of(transition_cost_key).push(flag_index),
            ),
    {
        self.mappings.push_to(transition_cost_key, flag_index);
        proof {
            let before = old(self).mappings.lists();
            assert forall|k: TransitionCostKey|
                find(self.mappings.lists(), k) == if k == transition_cost_key {
                    Some(list_of(before, transition_cost_key).push(flag_index))
                } else {
                    find(before, k)
                } by {
                lemma_bind(
                    before,
                    transition_cost_key,
                    list_of(before, transition_cost_key).push(flag_index),
                    k,
                );
            }
            assert(self@.flags =~= old(self)@.flags.insert(
                transition_cost_key,
                old(self)@.flags_of(transition_cost_key).push(flag_index),
            ));
        }
    }

    /// The number of flags interned.
    pub fn n_flags(&self) -> (r: usize)
        ensures
            r == self@.labels.len(),
    {
        self.flag_types.len()
    }

    /// The label of a flag.
    pub fn get_label(&self, flag_index: usize) -> (r: &str)
        requires
            flag_index < self@.labels.len(),
        ensures
            r@ == self@.labels[flag_index as int],
    {
        self.flag_types[flag_index].label.as_str()
    }

    /// The flags attached to a cost key, in the order of attachment.
    pub fn get_flags(&self, transition_cost_key: TransitionCostKey) -> (r: Vec<usize>)
        ensures
            r@ == self@.flags_of(transition_cost_key),
    {
        match self.mappings.get_list(&transition_cost_key) {
            Some(flags) => clone_flags(flags),
            None => Vec::new(),
        }
    }
}

} // verus!

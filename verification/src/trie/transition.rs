//! The identities of transitions and of their costs, and paths through the
//! trie.

use vstd::prelude::*;
use crate::trie::table::TableKey;

verus! {

/// Identifies a transition: the node it leaves, its key (`None` for an
/// empty transition), and its position among the transitions that leave
/// that node under that key.
#[derive(Clone, Copy, Debug, PartialEq, Eq, Hash)]
pub struct TransitionKey {
    pub src_node_index: usize,
    pub key_id: Option<usize>,
    pub transition_index: usize,
}

impl TransitionKey {
    pub fn new(src_node_index: usize, key_id: Option<usize>, transition_index: usize) -> (r: Self)
        ensures
            r == (TransitionKey { src_node_index, key_id, transition_index }),
    {
        TransitionKey { src_node_index, key_id, transition_index }
    }
}

impl TableKey for TransitionKey {
    fn same(&self, other: &Self) -> (r: bool) {
        self.src_node_index == other.src_node_index && self.key_id.same(&other.key_id)
            && self.transition_index == other.transition_index
    }
}

/// Identifies the cost of a transition for one translation.
#[derive(Clone, Copy, Debug, PartialEq, Eq, Hash)]
pub struct TransitionCostKey {
    pub transition_key: TransitionKey,
    pub translation_id: usize,
}

impl TransitionCostKey {
    pub fn new(transition_key: TransitionKey, translation_id: usize) -> (r: Self)
        ensures
            r == (TransitionCostKey { transition_key, translation_id }),
    {
        TransitionCostKey { transition_key, translation_id }
    }
}

impl TableKey for TransitionCostKey {
    fn same(&self, other: &Self) -> (r: bool) {
        self.transition_key.same(&other.transition_key) && self.translation_id
            == other.translation_id
    }
}

/// The cost that a construction step records, and the translation it
/// records it for. Costs are whole numbers of cost units.
#[derive(Clone, Copy, Debug)]
pub struct TransitionCostInfo {
    pub cost: u64,
    pub translation_id: usize,
}

impl TransitionCostInfo {
    pub fn new(cost: u64, translation_id: usize) -> (r: Self)
        ensures
            r == (TransitionCostInfo { cost, translation_id }),
    {
        TransitionCostInfo { cost, translation_id }
    }
}

/// The mathematical value of a [`TriePath`].
pub struct TriePathSpec {
    pub dst_node_id: usize,
    pub transitions: Seq<TransitionKey>,
}

/// A path through the trie: the node it arrives at and the transitions
/// taken.
#[derive(Debug)]
pub struct TriePath {
    pub dst_node_id: usize,
    pub transitions: Vec<TransitionKey>,
}

impl View for TriePath {
    type V = TriePathSpec;

    open spec fn view(&self) -> TriePathSpec {
        TriePathSpec { dst_node_id: self.dst_node_id, transitions: self.transitions@ }
    }
}

/// Copies a list of transitions.
pub fn clone_transitions(transitions: &Vec<TransitionKey>) -> (r: Vec<TransitionKey>)
    ensures
        r@ == transitions@,
{
    let mut out: Vec<TransitionKey> = Vec::new();
    let mut i: usize = 0;
    while i < transitions.len()
        invariant
            i <= transitions.len(),
            out@ == transitions@.take(i as int),
        decreases transitions.len() - i,
    {
        out.push(transitions[i]);
        proof {
            assert(out@ =~= transitions@.take(i as int + 1));
        }
        i += 1;
    }
    proof {
        assert(transitions@.take(i as int) =~= transitions@);
    }
    out
}

impl Clone for TriePath {
    fn clone(&self) -> (r: Self)
        ensures
            r@ == self@,
    {
        TriePath {
            dst_node_id: self.dst_node_id,
            transitions: clone_transitions(&self.transitions),
        }
    }
}

impl TriePath {
    pub fn new(dst_node_id: usize, transitions: Vec<TransitionKey>) -> (r: Self)
        ensures
            r.dst_node_id == dst_node_id,
            r.transitions == transitions,
    {
        TriePath { dst_node_id, transitions }
    }

    /// The empty path, which stays at the root.
    pub fn root() -> (r: Self)
        ensures
            r@ == (TriePathSpec { dst_node_id: 0, transitions: Seq::empty() }),
    {
        TriePath { dst_node_id: 0, transitions: Vec::new() }
    }
}

/// The mathematical value of a [`LookupResult`].
pub struct LookupResultSpec {
    pub translation_id: usize,
    pub cost: u64,
    pub transitions: Seq<TransitionKey>,
}

/// A translation found by a lookup, with the cost and the transitions of
/// the path that leads to it.
#[derive(Debug)]
pub struct LookupResult {
    pub translation_id: usize,
    pub cost: u64,
    pub transitions: Vec<TransitionKey>,
}

impl View for LookupResult {
    type V = LookupResultSpec;

    open spec fn view(&self) -> LookupResultSpec {
        LookupResultSpec {
            translation_id: self.translation_id,
            cost: self.cost,
            transitions: self.transitions@,
        }
    }
}

impl Clone for LookupResult {
    fn clone(&self) -> (r: Self)
        ensures
            r@ == self@,
    {
        LookupResult {
            translation_id: self.translation_id,
            cost: self.cost,
            transitions: clone_transitions(&self.transitions),
        }
    }
}

impl LookupResult {
    pub fn new(translation_id: usize, cost: u64, transitions: Vec<TransitionKey>) -> (r: Self)
        ensures
            r.translation_id == translation_id,
            r.cost == cost,
            r.transitions == transitions,
    {
        LookupResult { translation_id, cost, transitions }
    }
}

/// The transitions that a join made for one pair of source and key chain.
#[derive(Debug)]
pub struct JoinedTransitionSeq {
    pub transitions: Vec<TransitionKey>,
}

impl JoinedTransitionSeq {
    pub fn new(transitions: Vec<TransitionKey>) -> (r: Self)
        ensures
            r.transitions == transitions,
    {
        JoinedTransitionSeq { transitions }
    }
}

/// The outcome of a join: the destination node, if any pair was processed,
/// and one transition sequence per pair, in pair order.
#[derive(Debug)]
pub struct JoinedTriePaths {
    pub dst_node_id: Option<usize>,
    pub transition_seqs: Vec<JoinedTransitionSeq>,
}

impl JoinedTriePaths {
    pub fn new(dst_node_id: Option<usize>, transition_seqs: Vec<JoinedTransitionSeq>) -> (r: Self)
        ensures
            r.dst_node_id == dst_node_id,
            r.transition_seqs == transition_seqs,
    {
        JoinedTriePaths { dst_node_id, transition_seqs }
    }
}

/// The transition sequences of a join, as sequences.
pub open spec fn joined_view(seqs: Seq<JoinedTransitionSeq>) -> Seq<Seq<TransitionKey>> {
    seqs.map_values(|s: JoinedTransitionSeq| s.transitions@)
}

/// The sum of two costs; it stays at the largest cost when that is reached.
pub open spec fn add_costs(a: u64, b: u64) -> u64 {
    if a + b > u64::MAX {
        u64::MAX
    } else {
        (a + b) as u64
    }
}

/// Adds two costs.
pub fn sum_costs(a: u64, b: u64) -> (r: u64)
    ensures
        r == add_costs(a, b),
{
    if a <= u64::MAX - b {
        a + b
    } else {
        u64::MAX
    }
}

} // verus!

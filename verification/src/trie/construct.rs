//! The trie and the operations that build it.

use vstd::prelude::*;
use crate::trie::model::{
    Built, JoinedSpec, TrieSpec, ends_at, first_index_of, first_unused, keeps,
    lemma_ends_at_kept, lemma_first_index_of, lemma_first_unused, lemma_follow_keeps,
    lemma_keeps_trans, lemma_link_keeps, one_step, pairs_of,
};
use crate::trie::source::{SourceNodeSpec, TransitionSourceNode, sources_view};
use crate::trie::table::{Table, add_to, bind, find, find_index, lemma_find_index, list_of, lists};
use crate::trie::transition::{
    JoinedTransitionSeq, JoinedTriePaths, TransitionCostInfo, TransitionCostKey, TransitionKey,
    TriePath, TriePathSpec, joined_view,
};

verus! {

/// Appending to a list of a table keeps every element that was there, and
/// every element is an old one or the new one.
pub proof fn lemma_add_to_elements(
    entries: Seq<(Option<usize>, Seq<usize>)>,
    key: Option<usize>,
    x: usize,
    bound: nat,
)
    requires
        x < bound,
        forall|e: int, i: int|
            0 <= e < entries.len() && 0 <= i < entries[e].1.len() ==> (#[trigger] entries[e].1[i])
                < bound,
    ensures
        forall|e: int, i: int|
            0 <= e < add_to(entries, key, x).len() && 0 <= i < add_to(entries, key, x)[e].1.len()
                ==> (#[trigger] add_to(entries, key, x)[e].1[i]) < bound,
{
    lemma_find_index(entries, key);
    let after = add_to(entries, key, x);
    assert forall|e: int, i: int| 0 <= e < after.len() && 0 <= i < after[e].1.len() implies (
    #[trigger] after[e].1[i]) < bound by {
        if e < entries.len() && Some(e) != find_index(entries, key) {
            assert(after[e] == entries[e]);
            assert(entries[e].1[i] < bound);
        } else if e < entries.len() {
            if i < entries[e].1.len() {
                assert(entries[e].1[i] < bound);
            }
        }
    }
}

/// Following keeps a trie well formed and arrives at one of its nodes.
pub proof fn lemma_follow_wf(t: TrieSpec, src: usize, key: Option<usize>, info: TransitionCostInfo)
    requires
        t.wf(),
        src < t.n_nodes(),
        t.n_nodes() <= usize::MAX,
    ensures
        t.follow(src, key, info).trie.wf(),
        t.follow(src, key, info).value.dst_node_id < t.follow(src, key, info).trie.n_nodes(),
        t.follow(src, key, info).trie.n_nodes() >= t.n_nodes(),
        t.follow(src, key, info).trie.n_nodes() <= t.n_nodes() + 1,
{
    let ds = t.dsts(src, key);
    lemma_first_unused(ds, t.used_by(info.translation_id));
    lemma_find_index(t.transitions[src as int], key);
    match first_unused(ds, t.used_by(info.translation_id)) {
        Some(i) => {
            let e = find_index(t.transitions[src as int], key)->Some_0;
            assert(t.transitions[src as int][e].1[i] < t.n_nodes());
        },
        None => {
            let fresh = t.n_nodes() as usize;
            let grown = t.with_node();
            assert forall|node: int, e: int, i: int|
                0 <= node < grown.n_nodes() && 0 <= e < grown.transitions[node].len() && 0 <= i
                    < grown.transitions[node][e].1.len() implies (
            #[trigger] grown.transitions[node][e].1[i]) < grown.n_nodes() by {
                if node < t.n_nodes() {
                    assert(t.transitions[node][e].1[i] < t.n_nodes());
                }
            }
            let linked = grown.claim(info.translation_id, fresh).with_dst(src, key, fresh);
            lemma_add_to_elements(grown.transitions[src as int], key, fresh, grown.n_nodes());
            assert forall|node: int, e: int, i: int|
                0 <= node < linked.n_nodes() && 0 <= e < linked.transitions[node].len() && 0 <= i
                    < linked.transitions[node][e].1.len() implies (
            #[trigger] linked.transitions[node][e].1[i]) < linked.n_nodes() by {
                if node != src {
                    assert(grown.transitions[node][e].1[i] < grown.n_nodes());
                }
            }
        },
    }
}

/// Linking keeps a trie well formed.
pub proof fn lemma_link_wf(
    t: TrieSpec,
    src: usize,
    dst: usize,
    key: Option<usize>,
    info: TransitionCostInfo,
)
    requires
        t.wf(),
        src < t.n_nodes(),
        dst < t.n_nodes(),
    ensures
        t.link(src, dst, key, info).trie.wf(),
        t.link(src, dst, key, info).trie.n_nodes() == t.n_nodes(),
{
    let ds = t.dsts(src, key);
    if first_index_of(ds, dst) is None {
        let linked = t.with_dst(src, key, dst);
        lemma_add_to_elements(t.transitions[src as int], key, dst, t.n_nodes());
        assert forall|node: int, e: int, i: int|
            0 <= node < linked.n_nodes() && 0 <= e < linked.transitions[node].len() && 0 <= i
                < linked.transitions[node][e].1.len() implies (
        #[trigger] linked.transitions[node][e].1[i]) < linked.n_nodes() by {
            if node != src {
                assert(t.transitions[node][e].1[i] < t.n_nodes());
            }
        }
    }
}

/// Whether a list holds a value.
pub fn list_contains(list: &Vec<usize>, x: usize) -> (r: bool)
    ensures
        r == list@.contains(x),
{
    let mut i: usize = 0;
    while i < list.len()
        invariant
            i <= list.len(),
            forall|j: int| 0 <= j < i ==> list@[j] != x,
        decreases list.len() - i,
    {
        if list[i] == x {
            return true;
        }
        i += 1;
    }
    false
}

/// The position of the first element of `ds` that `used` does not hold.
fn first_unused_in(ds: &Vec<usize>, used: Option<&Vec<usize>>) -> (r: Option<usize>)
    ensures
        match r {
            Some(i) => first_unused(
                ds@,
                match used {
                    Some(u) => u@,
                    None => Seq::empty(),
                },
            ) == Some(i as int) && i < ds.len(),
            None => first_unused(
                ds@,
                match used {
                    Some(u) => u@,
                    None => Seq::empty(),
                },
            ) is None,
        },
{
    let ghost used_seq = match used {
        Some(u) => u@,
        None => Seq::<usize>::empty(),
    };
    proof {
        lemma_first_unused(ds@, used_seq);
    }
    let mut i: usize = 0;
    while i < ds.len()
        invariant
            i <= ds.len(),
            used_seq == match used {
                Some(u) => u@,
                None => Seq::<usize>::empty(),
            },
            forall|j: int| 0 <= j < i ==> used_seq.contains(#[trigger] ds@[j]),
        decreases ds.len() - i,
    {
        let taken = match used {
            Some(u) => list_contains(u, ds[i]),
            None => false,
        };
        if !taken {
            proof {
                lemma_first_unused(ds@, used_seq);
                assert(!used_seq.contains(ds@[i as int]));
                let k = first_unused(ds@, used_seq);
                assert(k is Some);
                if k->Some_0 > i {
                    assert(used_seq.contains(ds@[i as int]));
                }
                if k->Some_0 < i {
                    assert(used_seq.contains(ds@[k->Some_0]));
                }
            }
            return Some(i);
        }
        i += 1;
    }
    proof {
        lemma_first_unused(ds@, used_seq);
    }
    None
}

/// The position of the first occurrence of `x` in `ds`.
fn first_position(ds: &Vec<usize>, x: usize) -> (r: Option<usize>)
    ensures
        match r {
            Some(i) => first_index_of(ds@, x) == Some(i as int) && i < ds.len(),
            None => first_index_of(ds@, x) is None,
        },
{
    proof {
        lemma_first_index_of(ds@, x);
    }
    let mut i: usize = 0;
    while i < ds.len()
        invariant
            i <= ds.len(),
            forall|j: int| 0 <= j < i ==> (#[trigger] ds@[j]) != x,
        decreases ds.len() - i,
    {
        if ds[i] == x {
            proof {
                lemma_first_index_of(ds@, x);
            }
            return Some(i);
        }
        i += 1;
    }
    proof {
        lemma_first_index_of(ds@, x);
    }
    None
}

/// A nondeterministic trie: a lookup can be in several nodes at once.
#[derive(Debug)]
pub struct NondeterministicTrie {
    transitions: Vec<Table<Option<usize>, Vec<usize>>>,
    node_translations: Table<usize, Vec<usize>>,
    transition_costs: Table<TransitionCostKey, u64>,
    used_nodes_by_translation: Table<usize, Vec<usize>>,
}

impl View for NondeterministicTrie {
    type V = TrieSpec;

    closed spec fn view(&self) -> TrieSpec {
        TrieSpec {
            transitions: Seq::new(
                self.transitions.len() as nat,
                |i: int| self.transitions[i].lists(),
            ),
            node_translations: self.node_translations.lists(),
            transition_costs: self.transition_costs@,
            used_nodes: self.used_nodes_by_translation.lists(),
        }
    }
}

/// The values of the key chains of a join.
pub open spec fn chains_view(chains: Seq<Vec<Option<usize>>>) -> Seq<Seq<Option<usize>>> {
    chains.map_values(|c: Vec<Option<usize>>| c@)
}

/// The value of what a join hands back.
pub open spec fn joined_paths_view(r: JoinedTriePaths) -> JoinedSpec {
    JoinedSpec { dst_node_id: r.dst_node_id, transition_seqs: joined_view(r.transition_seqs@) }
}

impl NondeterministicTrie {
    /// The id of the root.
    pub const ROOT: usize = 0;

    pub fn new() -> (r: Self)
        ensures
            r@ == TrieSpec::empty(),
            r@.wf(),
    {
        let mut transitions: Vec<Table<Option<usize>, Vec<usize>>> = Vec::new();
        transitions.push(Table::new());
        let r = NondeterministicTrie {
            transitions,
            node_translations: Table::new(),
            transition_costs: Table::new(),
            used_nodes_by_translation: Table::new(),
        };
        proof {
            assert(r.transitions@[0].lists() =~= Seq::<(Option<usize>, Seq<usize>)>::empty());
            assert(r@.transitions =~= seq![Seq::<(Option<usize>, Seq<usize>)>::empty()]);
            assert(r@.node_translations =~= Seq::empty());
            assert(r@.transition_costs =~= Seq::empty());
            assert(r@.used_nodes =~= Seq::empty());
        }
        r
    }

    /// The trie fits the machine's indexes.
    pub proof fn lemma_fits(&self)
        ensures
            self@.fits(),
    {
        assert forall|node: int, e: int|
            0 <= node < self@.n_nodes() && 0 <= e < self@.transitions[node].len() implies (
        #[trigger] self@.transitions[node][e]).1.len() <= usize::MAX by {
            let list = self.transitions@[node].entries@[e].1;
            assert(self@.transitions[node][e].1 == list@);
            assert(list@.len() == list.len());
        }
    }

    /// The number of nodes.
    pub fn n_nodes(&self) -> (r: usize)
        ensures
            r == self@.n_nodes(),
    {
        self.transitions.len()
    }

    fn create_new_node(&mut self) -> (r: usize)
        ensures
            r == old(self)@.n_nodes(),
            final(self)@ == old(self)@.with_node(),
    {
        let new_node_id = self.transitions.len();
        self.transitions.push(Table::new());
        proof {
            assert(self.transitions@[new_node_id as int].lists() =~= Seq::<
                (Option<usize>, Seq<usize>),
            >::empty());
            assert(self@.transitions =~= old(self)@.transitions.push(Seq::empty()));
        }
        new_node_id
    }

    fn assign_transition_cost(
        &mut self,
        src_node_id: usize,
        key_id: Option<usize>,
        transition_index: usize,
        cost_info: &TransitionCostInfo,
    )
        ensures
            final(self)@ == old(self)@.charge(
                TransitionKey { src_node_index: src_node_id, key_id, transition_index },
                *cost_info,
            ),
    {
        let cost_key = TransitionCostKey::new(
            TransitionKey::new(src_node_id, key_id, transition_index),
            cost_info.translation_id,
        );
        let cost = match self.transition_costs.get(&cost_key) {
            Some(existing) => if cost_info.cost < *existing {
                cost_info.cost
            } else {
                *existing
            },
            None => cost_info.cost,
        };
        self.transition_costs.insert(cost_key, cost);
        proof {
            assert(self@.transitions =~= old(self)@.transitions);
        }
    }

    fn claim(&mut self, translation_id: usize, node: usize)
        ensures
            final(self)@ == old(self)@.claim(translation_id, node),
    {
        let claimed = match self.used_nodes_by_translation.get_list(&translation_id) {
            Some(used) => list_contains(used, node),
            None => false,
        };
        if !claimed {
            self.used_nodes_by_translation.push_to(translation_id, node);
            proof {
                assert(self@.transitions =~= old(self)@.transitions);
            }
        }
    }

    fn add_dst(&mut self, src_node_id: usize, key_id: Option<usize>, dst_node_id: usize)
        requires
            src_node_id < old(self)@.n_nodes(),
        ensures
            final(self)@ == old(self)@.with_dst(src_node_id, key_id, dst_node_id),
    {
        self.transitions[src_node_id].push_to(key_id, dst_node_id);
        proof {
            assert(self@.transitions =~= old(self)@.transitions.update(
                src_node_id as int,
                add_to(old(self)@.transitions[src_node_id as int], key_id, dst_node_id),
            ));
        }
    }

    /// The first transition from `src_node_id` under `key_id` whose
    /// destination the translation has not claimed: its index and
    /// destination. Without one, the number of transitions under the key.
    fn reusable(&self, src_node_id: usize, key_id: Option<usize>, translation_id: usize) -> (r: Result<
        (usize, usize),
        usize,
    >)
        requires
            src_node_id < self@.n_nodes(),
        ensures
            match r {
                Ok((i, dst)) => first_unused(
                    self@.dsts(src_node_id, key_id),
                    self@.used_by(translation_id),
                ) == Some(i as int) && dst == self@.dsts(src_node_id, key_id)[i as int],
                Err(n) => first_unused(
                    self@.dsts(src_node_id, key_id),
                    self@.used_by(translation_id),
                ) is None && n == self@.dsts(src_node_id, key_id).len(),
            },
    {
        match self.transitions[src_node_id].get_list(&key_id) {
            Some(ds) => {
                match first_unused_in(
                    ds,
                    self.used_nodes_by_translation.get_list(&translation_id),
                ) {
                    Some(i) => Ok((i, ds[i])),
                    None => Err(ds.len()),
                }
            },
            None => Err(0),
        }
    }

    /// Follows `key_id` from `src_node_id`, reusing a transition that the
    /// translation may still take, or else creating a node.
    pub fn follow(&mut self, src_node_id: usize, key_id: Option<usize>, cost_info: &TransitionCostInfo) -> (r:
        TriePath)
        requires
            old(self)@.wf(),
            src_node_id < old(self)@.n_nodes(),
        ensures
            final(self)@ == old(self)@.follow(src_node_id, key_id, *cost_info).trie,
            r@ == old(self)@.follow(src_node_id, key_id, *cost_info).value,
            final(self)@.wf(),
            r.dst_node_id < final(self)@.n_nodes(),
            final(self)@.n_nodes() >= old(self)@.n_nodes(),
            keeps(old(self)@, final(self)@),
            ends_at(final(self)@, r@.transitions, r.dst_node_id),
    {
        let translation_id = cost_info.translation_id;
        proof {
            self.lemma_fits();
            lemma_follow_wf(self@, src_node_id, key_id, *cost_info);
            lemma_follow_keeps(self@, src_node_id, key_id, *cost_info);
        }
        match self.reusable(src_node_id, key_id, translation_id) {
            Ok((transition_index, dst_node_id)) => {
                self.claim(translation_id, dst_node_id);
                self.assign_transition_cost(src_node_id, key_id, transition_index, cost_info);
                let mut transitions: Vec<TransitionKey> = Vec::new();
                transitions.push(TransitionKey::new(src_node_id, key_id, transition_index));
                let path = TriePath::new(dst_node_id, transitions);
                proof {
                    assert(path@.transitions =~= one_step(
                        src_node_id,
                        key_id,
                        transition_index as int,
                        dst_node_id,
                    ).transitions);
                }
                path
            },
            Err(new_transition_index) => {
                let new_node_id = self.create_new_node();
                self.claim(translation_id, new_node_id);
                self.add_dst(src_node_id, key_id, new_node_id);
                self.assign_transition_cost(src_node_id, key_id, new_transition_index, cost_info);
                let mut transitions: Vec<TransitionKey> = Vec::new();
                transitions.push(TransitionKey::new(src_node_id, key_id, new_transition_index));
                let path = TriePath::new(new_node_id, transitions);
                proof {
                    assert(path@.transitions =~= one_step(
                        src_node_id,
                        key_id,
                        new_transition_index as int,
                        new_node_id,
                    ).transitions);
                }
                path
            },
        }
    }

    /// Ensures a transition from `src_node_id` to `dst_node_id` under
    /// `key_id`.
    pub fn link(
        &mut self,
        src_node_id: usize,
        dst_node_id: usize,
        key_id: Option<usize>,
        cost_info: &TransitionCostInfo,
    ) -> (r: TransitionKey)
        requires
            old(self)@.wf(),
            src_node_id < old(self)@.n_nodes(),
            dst_node_id < old(self)@.n_nodes(),
        ensures
            final(self)@ == old(self)@.link(src_node_id, dst_node_id, key_id, *cost_info).trie,
            r == old(self)@.link(src_node_id, dst_node_id, key_id, *cost_info).value,
            final(self)@.wf(),
            final(self)@.n_nodes() == old(self)@.n_nodes(),
            keeps(old(self)@, final(self)@),
            ends_at(final(self)@, seq![r], dst_node_id),
    {
        proof {
            self.lemma_fits();
            lemma_link_wf(self@, src_node_id, dst_node_id, key_id, *cost_info);
            lemma_link_keeps(self@, src_node_id, dst_node_id, key_id, *cost_info);
        }
        let existing: Result<usize, usize> = match self.transitions[src_node_id].get_list(&key_id) {
            Some(ds) => match first_position(ds, dst_node_id) {
                Some(i) => Ok(i),
                None => Err(ds.len()),
            },
            None => Err(0),
        };
        let transition_index = match existing {
            Ok(i) => i,
            Err(n) => {
                self.add_dst(src_node_id, key_id, dst_node_id);
                n
            },
        };
        self.assign_transition_cost(src_node_id, key_id, transition_index, cost_info);
        self.claim(cost_info.translation_id, dst_node_id);
        TransitionKey::new(src_node_id, key_id, transition_index)
    }

    /// Follows the first `upto` keys of `key_ids` in turn, at no cost.
    fn follow_each(&mut self, src_node_id: usize, key_ids: &[Option<usize>], upto: usize, translation_id: usize) -> (r:
        TriePath)
        requires
            old(self)@.wf(),
            src_node_id < old(self)@.n_nodes(),
            upto <= key_ids@.len(),
        ensures
            final(self)@ == old(self)@.follow_each(
                src_node_id,
                key_ids@.take(upto as int),
                translation_id,
            ).trie,
            r@ == old(self)@.follow_each(
                src_node_id,
                key_ids@.take(upto as int),
                translation_id,
            ).value,
            final(self)@.wf(),
            r.dst_node_id < final(self)@.n_nodes(),
            final(self)@.n_nodes() >= old(self)@.n_nodes(),
            keeps(old(self)@, final(self)@),
    {
        let ghost keys = key_ids@;
        let zero = TransitionCostInfo::new(0, translation_id);
        let mut current_node = src_node_id;
        let mut all_transitions: Vec<TransitionKey> = Vec::new();
        let mut i: usize = 0;
        proof {
            assert(keys.take(0) =~= Seq::<Option<usize>>::empty());
        }
        while i < upto
            invariant
                i <= upto,
                upto <= key_ids@.len(),
                keys == key_ids@,
                zero == (TransitionCostInfo { cost: 0, translation_id }),
                self@.wf(),
                current_node < self@.n_nodes(),
                self@.n_nodes() >= old(self)@.n_nodes(),
                keeps(old(self)@, self@),
                self@ == old(self)@.follow_each(src_node_id, keys.take(i as int), translation_id).trie,
                (TriePathSpec { dst_node_id: current_node, transitions: all_transitions@ }) == old(
                    self,
                )@.follow_each(src_node_id, keys.take(i as int), translation_id).value,
            decreases upto - i,
        {
            proof {
                assert(keys.take(i as int + 1).drop_last() =~= keys.take(i as int));
                assert(keys.take(i as int + 1).last() == keys[i as int]);
            }
            let ghost before = all_transitions@;
            let ghost trie_before = self@;
            let step = self.follow(current_node, key_ids[i], &zero);
            current_node = step.dst_node_id;
            all_transitions.push(step.transitions[0]);
            proof {
                assert(all_transitions@ =~= before + step@.transitions);
                lemma_keeps_trans(old(self)@, trie_before, self@);
            }
            i += 1;
        }
        TriePath::new(current_node, all_transitions)
    }

    /// Follows a chain of keys from a node; only the last step carries the
    /// cost.
    pub fn follow_chain(&mut self, src_node_id: usize, key_ids: &[Option<usize>], cost_info: &TransitionCostInfo) -> (r:
        TriePath)
        requires
            old(self)@.wf(),
            src_node_id < old(self)@.n_nodes(),
        ensures
            final(self)@ == old(self)@.follow_chain(src_node_id, key_ids@, *cost_info).trie,
            r@ == old(self)@.follow_chain(src_node_id, key_ids@, *cost_info).value,
            final(self)@.wf(),
            r.dst_node_id < final(self)@.n_nodes(),
            final(self)@.n_nodes() >= old(self)@.n_nodes(),
            keeps(old(self)@, final(self)@),
            key_ids@.len() > 0 ==> ends_at(final(self)@, r@.transitions, r.dst_node_id),
    {
        let n: usize = key_ids.len();
        if n == 0 {
            return TriePath::new(src_node_id, Vec::new());
        }
        proof {
            assert(key_ids@.take(n - 1) =~= key_ids@.drop_last());
        }
        let path = self.follow_each(src_node_id, key_ids, n - 1, cost_info.translation_id);
        let ghost trie_before = self@;
        let last = self.follow(path.dst_node_id, key_ids[n - 1], cost_info);
        let mut all_transitions = path.transitions;
        all_transitions.push(last.transitions[0]);
        proof {
            assert(all_transitions@ =~= path@.transitions + last@.transitions);
            lemma_keeps_trans(old(self)@, trie_before, self@);
            assert(all_transitions@.last() == last@.transitions.last());
        }
        TriePath::new(last.dst_node_id, all_transitions)
    }

    /// Follows all keys but the last, then links the last to
    /// `dst_node_id`.
    pub fn link_chain(
        &mut self,
        src_node_id: usize,
        dst_node_id: usize,
        key_ids: &[Option<usize>],
        cost_info: &TransitionCostInfo,
    ) -> (r: Vec<TransitionKey>)
        requires
            old(self)@.wf(),
            src_node_id < old(self)@.n_nodes(),
            dst_node_id < old(self)@.n_nodes(),
        ensures
            final(self)@ == old(self)@.link_chain(src_node_id, dst_node_id, key_ids@, *cost_info).trie,
            r@ == old(self)@.link_chain(src_node_id, dst_node_id, key_ids@, *cost_info).value,
            final(self)@.wf(),
            final(self)@.n_nodes() >= old(self)@.n_nodes(),
            keeps(old(self)@, final(self)@),
            key_ids@.len() > 0 ==> ends_at(final(self)@, r@, dst_node_id),
    {
        let n: usize = key_ids.len();
        if n == 0 {
            return Vec::new();
        }
        proof {
            assert(key_ids@.take(n - 1) =~= key_ids@.drop_last());
        }
        let path = self.follow_each(src_node_id, key_ids, n - 1, cost_info.translation_id);
        let ghost trie_before = self@;
        let transition = self.link(path.dst_node_id, dst_node_id, key_ids[n - 1], cost_info);
        let mut transitions = path.transitions;
        transitions.push(transition);
        proof {
            lemma_keeps_trans(old(self)@, trie_before, self@);
            assert(transitions@.last() == seq![transition].last());
        }
        transitions
    }

    /// The pairs of a source node and a key chain, source by source, as
    /// positions in the two lists.
    fn pair_up(src_nodes: &[TransitionSourceNode], key_id_chains: &[Vec<Option<usize>>]) -> (r: Vec<
        (usize, usize),
    >)
        ensures
            r@.len() == pairs_of(sources_view(src_nodes@), chains_view(key_id_chains@)).len(),
            forall|p: int|
                0 <= p < r@.len() ==> (#[trigger] r@[p]).0 < src_nodes@.len() && r@[p].1
                    < key_id_chains@.len() && pairs_of(
                    sources_view(src_nodes@),
                    chains_view(key_id_chains@),
                )[p] == (src_nodes@[r@[p].0 as int]@, key_id_chains@[r@[p].1 as int]@),
    {
        let ghost srcs = sources_view(src_nodes@);
        let ghost chains = chains_view(key_id_chains@);
        let mut pairs: Vec<(usize, usize)> = Vec::new();
        let mut s: usize = 0;
        proof {
            assert(srcs.take(0) =~= Seq::<SourceNodeSpec>::empty());
        }
        while s < src_nodes.len()
            invariant
                s <= src_nodes.len(),
                srcs == sources_view(src_nodes@),
                chains == chains_view(key_id_chains@),
                pairs@.len() == pairs_of(srcs.take(s as int), chains).len(),
                forall|p: int|
                    0 <= p < pairs@.len() ==> (#[trigger] pairs@[p]).0 < src_nodes@.len()
                        && pairs@[p].1 < key_id_chains@.len() && pairs_of(
                        srcs.take(s as int),
                        chains,
                    )[p] == (src_nodes@[pairs@[p].0 as int]@, key_id_chains@[pairs@[p].1 as int]@),
            decreases src_nodes.len() - s,
        {
            let ghost done = pairs_of(srcs.take(s as int), chains);
            let ghost row = chains.map_values(|chain: Seq<Option<usize>>| (srcs[s as int], chain));
            proof {
                assert(srcs.take(s as int + 1).drop_last() =~= srcs.take(s as int));
                assert(srcs.take(s as int + 1).last() == srcs[s as int]);
                assert(pairs_of(srcs.take(s as int + 1), chains) == done + row);
            }
            let mut c: usize = 0;
            while c < key_id_chains.len()
                invariant
                    s < src_nodes.len(),
                    c <= key_id_chains.len(),
                    srcs == sources_view(src_nodes@),
                    chains == chains_view(key_id_chains@),
                    row == chains.map_values(|chain: Seq<Option<usize>>| (srcs[s as int], chain)),
                    done == pairs_of(srcs.take(s as int), chains),
                    pairs@.len() == done.len() + c,
                    forall|p: int|
                        0 <= p < pairs@.len() ==> (#[trigger] pairs@[p]).0 < src_nodes@.len()
                            && pairs@[p].1 < key_id_chains@.len() && (done + row)[p] == (
                            src_nodes@[pairs@[p].0 as int]@,
                            key_id_chains@[pairs@[p].1 as int]@,
                        ),
                decreases key_id_chains.len() - c,
            {
                pairs.push((s, c));
                c += 1;
            }
            s += 1;
        }
        proof {
            assert(srcs.take(s as int) =~= srcs);
        }
        pairs
    }

    /// Links several source nodes to one destination, one key per join.
    pub fn link_join(
        &mut self,
        src_nodes: &[TransitionSourceNode],
        dst_node_id: Option<usize>,
        key_ids: &[Option<usize>],
        translation_id: usize,
    ) -> (r: JoinedTriePaths)
        requires
            old(self)@.wf(),
            forall|i: int|
                0 <= i < src_nodes@.len() ==> (#[trigger] src_nodes@[i]).src_node_index < old(
                    self,
                )@.n_nodes(),
            dst_node_id matches Some(d) ==> d < old(self)@.n_nodes(),
        ensures
            final(self)@ == old(self)@.link_join_chain(
                sources_view(src_nodes@),
                dst_node_id,
                key_ids@.map_values(|k: Option<usize>| seq![k]),
                translation_id,
            ).trie,
            joined_paths_view(r) == old(self)@.link_join_chain(
                sources_view(src_nodes@),
                dst_node_id,
                key_ids@.map_values(|k: Option<usize>| seq![k]),
                translation_id,
            ).value,
            final(self)@.wf(),
            keeps(old(self)@, final(self)@),
            final(self)@.n_nodes() >= old(self)@.n_nodes(),
            r.dst_node_id matches Some(d) ==> d < final(self)@.n_nodes(),
            forall|k: int|
                0 <= k < r.transition_seqs@.len() ==> ends_at(
                    final(self)@,
                    (#[trigger] r.transition_seqs@[k]).transitions@,
                    r.dst_node_id->Some_0,
                ),
    {
        let mut chains: Vec<Vec<Option<usize>>> = Vec::new();
        let mut i: usize = 0;
        while i < key_ids.len()
            invariant
                i <= key_ids.len(),
                chains@.len() == i,
                forall|j: int| 0 <= j < i ==> (#[trigger] chains@[j])@ == seq![key_ids@[j]],
            decreases key_ids.len() - i,
        {
            let mut chain: Vec<Option<usize>> = Vec::new();
            chain.push(key_ids[i]);
            proof {
                assert(chain@ =~= seq![key_ids@[i as int]]);
            }
            chains.push(chain);
            i += 1;
        }
        proof {
            assert(chains_view(chains@) =~= key_ids@.map_values(|k: Option<usize>| seq![k]));
            assert(forall|c: int| 0 <= c < chains@.len() ==> (#[trigger] chains@[c])@.len() > 0);
        }
        self.link_join_chain(src_nodes, dst_node_id, chains.as_slice(), translation_id)
    }

    /// Links several source nodes to one destination under key chains. If
    /// no destination is given, the first pair of source and chain is
    /// followed, which gives the destination.
    pub fn link_join_chain(
        &mut self,
        src_nodes: &[TransitionSourceNode],
        dst_node_id: Option<usize>,
        key_id_chains: &[Vec<Option<usize>>],
        translation_id: usize,
    ) -> (r: JoinedTriePaths)
        requires
            old(self)@.wf(),
            forall|i: int|
                0 <= i < src_nodes@.len() ==> (#[trigger] src_nodes@[i]).src_node_index < old(
                    self,
                )@.n_nodes(),
            dst_node_id matches Some(d) ==> d < old(self)@.n_nodes(),
        ensures
            final(self)@ == old(self)@.link_join_chain(
                sources_view(src_nodes@),
                dst_node_id,
                chains_view(key_id_chains@),
                translation_id,
            ).trie,
            joined_paths_view(r) == old(self)@.link_join_chain(
                sources_view(src_nodes@),
                dst_node_id,
                chains_view(key_id_chains@),
                translation_id,
            ).value,
            final(self)@.wf(),
            keeps(old(self)@, final(self)@),
            final(self)@.n_nodes() >= old(self)@.n_nodes(),
            r.dst_node_id matches Some(d) ==> d < final(self)@.n_nodes(),
            (forall|c: int|
                0 <= c < key_id_chains@.len() ==> (#[trigger] key_id_chains@[c])@.len() > 0)
                ==> forall|k: int|
                0 <= k < r.transition_seqs@.len() ==> ends_at(
                    final(self)@,
                    (#[trigger] r.transition_seqs@[k]).transitions@,
                    r.dst_node_id->Some_0,
                ),
    {
        let ghost all = pairs_of(sources_view(src_nodes@), chains_view(key_id_chains@));
        let pairs = Self::pair_up(src_nodes, key_id_chains);
        let mut transition_seqs: Vec<JoinedTransitionSeq> = Vec::new();
        if pairs.len() == 0 {
            proof {
                assert(joined_view(transition_seqs@) =~= Seq::<Seq<TransitionKey>>::empty());
            }
            return JoinedTriePaths { dst_node_id: None, transition_seqs };
        }
        let ghost base: TrieSpec;
        let ghost head: Seq<Seq<TransitionKey>>;
        let start: usize;
        let actual_dst_node_id: usize;
        match dst_node_id {
            Some(dst) => {
                actual_dst_node_id = dst;
                start = 0;
                proof {
                    base = self@;
                    head = Seq::empty();
                    assert(all.subrange(0, 0) =~= Seq::empty());
                    assert(joined_view(transition_seqs@) =~= head);
                }
            },
            None => {
                let first_src = &src_nodes[pairs[0].0];
                let cost_info = TransitionCostInfo::new(first_src.outgoing_cost, translation_id);
                let first_path = self.follow_chain(
                    first_src.src_node_index,
                    key_id_chains[pairs[0].1].as_slice(),
                    &cost_info,
                );
                actual_dst_node_id = first_path.dst_node_id;
                transition_seqs.push(JoinedTransitionSeq { transitions: first_path.transitions });
                start = 1;
                proof {
                    base = self@;
                    head = seq![first_path@.transitions];
                    assert(pairs@[0].1 < key_id_chains@.len());
                    assert(all.subrange(1, 1) =~= Seq::empty());
                    assert(joined_view(transition_seqs@) =~= head);
                }
            },
        }
        let mut p: usize = start;
        proof {
            assert(head + Seq::<Seq<TransitionKey>>::empty() =~= head);
        }
        while p < pairs.len()
            invariant
                start <= p <= pairs.len(),
                pairs@.len() == all.len(),
                all == pairs_of(sources_view(src_nodes@), chains_view(key_id_chains@)),
                forall|q: int|
                    0 <= q < pairs@.len() ==> (#[trigger] pairs@[q]).0 < src_nodes@.len()
                        && pairs@[q].1 < key_id_chains@.len() && all[q] == (
                        src_nodes@[pairs@[q].0 as int]@,
                        key_id_chains@[pairs@[q].1 as int]@,
                    ),
                forall|i: int|
                    0 <= i < src_nodes@.len() ==> (#[trigger] src_nodes@[i]).src_node_index < old(
                        self,
                    )@.n_nodes(),
                self@.wf(),
                self@.n_nodes() >= old(self)@.n_nodes(),
                actual_dst_node_id < self@.n_nodes(),
                keeps(old(self)@, self@),
                (forall|c: int|
                    0 <= c < key_id_chains@.len() ==> (#[trigger] key_id_chains@[c])@.len() > 0)
                    ==> forall|k: int|
                    0 <= k < transition_seqs@.len() ==> ends_at(
                        self@,
                        (#[trigger] transition_seqs@[k]).transitions@,
                        actual_dst_node_id,
                    ),
                self@ == base.link_all(
                    all.subrange(start as int, p as int),
                    actual_dst_node_id,
                    translation_id,
                ).trie,
                joined_view(transition_seqs@) == head + base.link_all(
                    all.subrange(start as int, p as int),
                    actual_dst_node_id,
                    translation_id,
                ).value,
            decreases pairs.len() - p,
        {
            proof {
                assert(all.subrange(start as int, p as int + 1).drop_last() =~= all.subrange(
                    start as int,
                    p as int,
                ));
                assert(all.subrange(start as int, p as int + 1).last() == all[p as int]);
            }
            let src = &src_nodes[pairs[p].0];
            let cost_info = TransitionCostInfo::new(src.outgoing_cost, translation_id);
            let ghost before = joined_view(transition_seqs@);
            let ghost trie_before = self@;
            let ghost seqs_before = transition_seqs@;
            let transitions = self.link_chain(
                src.src_node_index,
                actual_dst_node_id,
                key_id_chains[pairs[p].1].as_slice(),
                &cost_info,
            );
            proof {
                let step = base.link_all(
                    all.subrange(start as int, p as int),
                    actual_dst_node_id,
                    translation_id,
                );
                assert(head + step.value.push(transitions@) =~= (head + step.value).push(
                    transitions@,
                ));
            }
            transition_seqs.push(JoinedTransitionSeq { transitions });
            proof {
                assert(joined_view(transition_seqs@) =~= before.push(transitions@));
                lemma_keeps_trans(old(self)@, trie_before, self@);
                if forall|c: int|
                    0 <= c < key_id_chains@.len() ==> (#[trigger] key_id_chains@[c])@.len() > 0 {
                    assert forall|k: int| 0 <= k < transition_seqs@.len() implies ends_at(
                        self@,
                        (#[trigger] transition_seqs@[k]).transitions@,
                        actual_dst_node_id,
                    ) by {
                        if k < seqs_before.len() {
                            assert(transition_seqs@[k] == seqs_before[k]);
                            lemma_ends_at_kept(
                                trie_before,
                                self@,
                                seqs_before[k].transitions@,
                                actual_dst_node_id,
                            );
                        } else {
                            assert(key_id_chains@[pairs@[p as int].1 as int]@.len() > 0);
                        }
                    }
                }
            }
            p += 1;
        }
        proof {
            assert(all.subrange(0, all.len() as int) =~= all);
            assert(all.subrange(1, all.len() as int) =~= all.drop_first());
        }
        JoinedTriePaths { dst_node_id: Some(actual_dst_node_id), transition_seqs }
    }

    /// The cost on record under a cost key.
    pub fn cost_of(&self, cost_key: &TransitionCostKey) -> (r: Option<u64>)
        ensures
            r == find(self@.transition_costs, *cost_key),
    {
        match self.transition_costs.get(cost_key) {
            Some(cost) => Some(*cost),
            None => None,
        }
    }

    /// The number of transitions that leave a node under a key.
    pub fn n_dsts(&self, node_id: usize, key_id: Option<usize>) -> (r: usize)
        ensures
            r == self@.dsts(node_id, key_id).len(),
    {
        if node_id < self.transitions.len() {
            match self.transitions[node_id].get_list(&key_id) {
                Some(ds) => ds.len(),
                None => 0,
            }
        } else {
            0
        }
    }

    /// The destination of a transition.
    pub fn dst_at(&self, node_id: usize, key_id: Option<usize>, transition_index: usize) -> (r: usize)
        requires
            self@.wf(),
            transition_index < self@.dsts(node_id, key_id).len(),
        ensures
            r == self@.dsts(node_id, key_id)[transition_index as int],
            r < self@.n_nodes(),
    {
        proof {
            lemma_find_index(self@.transitions[node_id as int], key_id);
        }
        match self.transitions[node_id].get_list(&key_id) {
            Some(ds) => ds[transition_index],
            None => 0,
        }
    }

    /// The translations anchored at a node, if any were set.
    pub fn get_node_translations(&self, node_id: usize) -> (r: Option<&Vec<usize>>)
        ensures
            match r {
                Some(ids) => ids@ == self@.translations_at(node_id) && find(
                    self@.node_translations,
                    node_id,
                ) is Some,
                None => self@.translations_at(node_id).len() == 0 && find(
                    self@.node_translations,
                    node_id,
                ) is None,
            },
    {
        self.node_translations.get_list(&node_id)
    }

    /// The transitions that leave a node, by key, if the node exists.
    pub fn get_transitions_from_node(&self, node_id: usize) -> (r: Option<
        &Table<Option<usize>, Vec<usize>>,
    >)
        ensures
            match r {
                Some(table) => node_id < self@.n_nodes() && table.lists()
                    == self@.transitions[node_id as int],
                None => node_id >= self@.n_nodes(),
            },
    {
        if node_id < self.transitions.len() {
            Some(&self.transitions[node_id])
        } else {
            None
        }
    }

    /// The table of the translations anchored at each node.
    pub fn anchors(&self) -> (r: &Table<usize, Vec<usize>>)
        ensures
            r.lists() == self@.node_translations,
    {
        &self.node_translations
    }

    /// Anchors a translation at a node.
    pub fn set_translation(&mut self, node_id: usize, translation_id: usize)
        ensures
            final(self)@ == old(self)@.set_translation(node_id, translation_id),
            old(self)@.wf() ==> final(self)@.wf(),
    {
        self.node_translations.push_to(node_id, translation_id);
        proof {
            assert(self@.transitions =~= old(self)@.transitions);
        }
    }
}

impl Default for NondeterministicTrie {
    fn default() -> (r: Self)
        ensures
            r@ == TrieSpec::empty(),
    {
        NondeterministicTrie::new()
    }
}

} // verus!

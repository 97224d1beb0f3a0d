//! Forward queries on the trie: traversal along keys, with the empty
//! transitions that may follow each step, and the translations found at
//! the end of a path with their costs.

use vstd::prelude::*;
use crate::trie::construct::NondeterministicTrie;
use crate::trie::model::TrieSpec;
use crate::trie::table::{Table, find, list_of};
use crate::trie::transition::{
    LookupResult, LookupResultSpec, TransitionCostKey, TransitionKey, TriePath, TriePathSpec,
    add_costs, clone_transitions, sum_costs,
};

verus! {

/// A path with one more transition.
pub open spec fn extended(path: TriePathSpec, transition: TransitionKey, dst: usize) -> TriePathSpec {
    TriePathSpec { dst_node_id: dst, transitions: path.transitions.push(transition) }
}

/// The empty transition that leaves `node` at `index`.
pub open spec fn empty_transition(node: usize, index: int) -> TransitionKey {
    TransitionKey { src_node_index: node, key_id: None, transition_index: index as usize }
}

/// The values of a list of paths.
pub open spec fn paths_view(paths: Seq<TriePath>) -> Seq<TriePathSpec> {
    paths.map_values(|p: TriePath| p@)
}

/// The values of a list of lookup results.
pub open spec fn results_view(results: Seq<LookupResult>) -> Seq<LookupResultSpec> {
    results.map_values(|r: LookupResult| r@)
}

/// The position of the first result for a translation.
pub open spec fn result_index(results: Seq<LookupResultSpec>, translation_id: usize) -> Option<int>
    decreases results.len(),
{
    if results.len() == 0 {
        None
    } else {
        match result_index(results.drop_last(), translation_id) {
            Some(i) => Some(i),
            None => if results.last().translation_id == translation_id {
                Some(results.len() - 1)
            } else {
                None
            },
        }
    }
}

/// `result_index` finds the first result for the translation, if any.
pub proof fn lemma_result_index(results: Seq<LookupResultSpec>, translation_id: usize)
    ensures
        match result_index(results, translation_id) {
            Some(i) => 0 <= i < results.len() && results[i].translation_id == translation_id
                && forall|j: int|
                0 <= j < i ==> (#[trigger] results[j]).translation_id != translation_id,
            None => forall|j: int|
                0 <= j < results.len() ==> (#[trigger] results[j]).translation_id
                    != translation_id,
        },
    decreases results.len(),
{
    if results.len() > 0 {
        lemma_result_index(results.drop_last(), translation_id);
        assert(forall|j: int|
            0 <= j < results.len() - 1 ==> results[j] == results.drop_last()[j]);
    }
}

/// The cheapest results so far, with one more result taken into account:
/// it replaces a dearer result for its translation, and joins the list if
/// its translation has none yet.
pub open spec fn keep_cheaper(best: Seq<LookupResultSpec>, r: LookupResultSpec) -> Seq<
    LookupResultSpec,
> {
    match result_index(best, r.translation_id) {
        Some(i) => if r.cost < best[i].cost {
            best.update(i, r)
        } else {
            best
        },
        None => best.push(r),
    }
}

/// The cheapest result for each translation, in the order in which the
/// translations first appear.
pub open spec fn cheapest(results: Seq<LookupResultSpec>) -> Seq<LookupResultSpec>
    decreases results.len(),
{
    if results.len() == 0 {
        Seq::empty()
    } else {
        keep_cheaper(cheapest(results.drop_last()), results.last())
    }
}

impl TrieSpec {
    /// The paths reached from `path` by empty transitions alone: `path`
    /// itself, then for each empty transition that leaves its node and is
    /// not in `visited`, in index order, the paths reached through it. A
    /// path that cannot grow is not extended.
    pub open spec fn eps_closure(self, path: TriePathSpec, visited: Seq<TransitionKey>) -> Seq<
        TriePathSpec,
    >
        decreases usize::MAX - path.transitions.len(), self.dsts(path.dst_node_id, None).len() + 1,
    {
        seq![path] + self.eps_through(
            path,
            visited,
            self.dsts(path.dst_node_id, None).len() as int,
        )
    }

    /// The paths reached from `path` through its first `upto` empty
    /// transitions.
    pub open spec fn eps_through(self, path: TriePathSpec, visited: Seq<TransitionKey>, upto: int) -> Seq<
        TriePathSpec,
    >
        decreases usize::MAX - path.transitions.len(), upto,
    {
        if upto <= 0 || upto > self.dsts(path.dst_node_id, None).len() {
            Seq::empty()
        } else {
            let transition = empty_transition(path.dst_node_id, upto - 1);
            self.eps_through(path, visited, upto - 1) + (if visited.contains(transition)
                || path.transitions.len() >= usize::MAX {
                Seq::empty()
            } else {
                self.eps_closure(
                    extended(path, transition, self.dsts(path.dst_node_id, None)[upto - 1]),
                    visited.push(transition),
                )
            })
        }
    }

    /// The paths reached from `path` by one of its first `upto`
    /// transitions under `key`, and the empty transitions after it.
    pub open spec fn traverse_through(self, path: TriePathSpec, key: Option<usize>, upto: int) -> Seq<
        TriePathSpec,
    >
        decreases upto,
    {
        if upto <= 0 || upto > self.dsts(path.dst_node_id, key).len() {
            Seq::empty()
        } else {
            self.traverse_through(path, key, upto - 1) + self.eps_closure(
                extended(
                    path,
                    TransitionKey {
                        src_node_index: path.dst_node_id,
                        key_id: key,
                        transition_index: (upto - 1) as usize,
                    },
                    self.dsts(path.dst_node_id, key)[upto - 1],
                ),
                Seq::empty(),
            )
        }
    }

    /// The paths reached from `path` under `key`.
    pub open spec fn traverse_from(self, path: TriePathSpec, key: Option<usize>) -> Seq<TriePathSpec> {
        self.traverse_through(path, key, self.dsts(path.dst_node_id, key).len() as int)
    }

    /// The paths reached from each of `paths`, in order, under `key`.
    pub open spec fn traverse(self, paths: Seq<TriePathSpec>, key: Option<usize>) -> Seq<TriePathSpec>
        decreases paths.len(),
    {
        if paths.len() == 0 {
            Seq::empty()
        } else {
            self.traverse(paths.drop_last(), key) + self.traverse_from(paths.last(), key)
        }
    }

    /// The paths reached from `paths` under each key of `keys` in turn.
    pub open spec fn traverse_chain(self, paths: Seq<TriePathSpec>, keys: Seq<Option<usize>>) -> Seq<
        TriePathSpec,
    >
        decreases keys.len(),
    {
        if keys.len() == 0 {
            paths
        } else {
            self.traverse(self.traverse_chain(paths, keys.drop_last()), keys.last())
        }
    }

    /// The cost of a sequence of transitions for a translation: the sum of
    /// their costs; `None` if the translation does not use one of them.
    pub open spec fn total_cost(self, transitions: Seq<TransitionKey>, translation_id: usize) -> Option<
        u64,
    >
        decreases transitions.len(),
    {
        if transitions.len() == 0 {
            Some(0u64)
        } else {
            match (
                self.total_cost(transitions.drop_last(), translation_id),
                self.cost(transitions.last(), translation_id),
            ) {
                (Some(sum), Some(cost)) => Some(add_costs(sum, cost)),
                _ => None,
            }
        }
    }

    /// The translations among `translation_ids` that use every transition
    /// of `transitions`, in order, each with its total cost.
    pub open spec fn costed(self, translation_ids: Seq<usize>, transitions: Seq<TransitionKey>) -> Seq<
        (usize, u64),
    >
        decreases translation_ids.len(),
    {
        if translation_ids.len() == 0 {
            Seq::empty()
        } else {
            let before = self.costed(translation_ids.drop_last(), transitions);
            match self.total_cost(transitions, translation_ids.last()) {
                Some(cost) => before.push((translation_ids.last(), cost)),
                None => before,
            }
        }
    }

    /// The translations anchored at `node` that use every transition of
    /// `transitions`, each with its total cost.
    pub open spec fn translations_and_costs_single(self, node: usize, transitions: Seq<TransitionKey>) -> Seq<
        (usize, u64),
    > {
        self.costed(self.translations_at(node), transitions)
    }

    /// The lookup results of a path.
    pub open spec fn results_of(self, path: TriePathSpec) -> Seq<LookupResultSpec> {
        self.translations_and_costs_single(path.dst_node_id, path.transitions).map_values(
            |found: (usize, u64)|
                LookupResultSpec {
                    translation_id: found.0,
                    cost: found.1,
                    transitions: path.transitions,
                },
        )
    }

    /// The lookup results of each of `paths`, in order.
    pub open spec fn translations_and_costs(self, paths: Seq<TriePathSpec>) -> Seq<LookupResultSpec>
        decreases paths.len(),
    {
        if paths.len() == 0 {
            Seq::empty()
        } else {
            self.translations_and_costs(paths.drop_last()) + self.results_of(paths.last())
        }
    }
}

/// A total cost exists only if every transition has a cost.
pub proof fn lemma_total_cost_all_costed(
    t: TrieSpec,
    transitions: Seq<TransitionKey>,
    translation_id: usize,
)
    requires
        t.total_cost(transitions, translation_id) is Some,
    ensures
        forall|i: int|
            0 <= i < transitions.len() ==> t.cost(#[trigger] transitions[i], translation_id) is Some,
    decreases transitions.len(),
{
    if transitions.len() > 0 {
        lemma_total_cost_all_costed(t, transitions.drop_last(), translation_id);
        assert forall|i: int| 0 <= i < transitions.len() implies t.cost(
            #[trigger] transitions[i],
            translation_id,
        ) is Some by {
            if i < transitions.len() - 1 {
                assert(transitions[i] == transitions.drop_last()[i]);
            }
        }
    }
}

/// Every translation reported with a cost for a sequence of transitions
/// has a cost on record for each of them.
pub proof fn lemma_costed_all_costed(
    t: TrieSpec,
    translation_ids: Seq<usize>,
    transitions: Seq<TransitionKey>,
    k: int,
)
    requires
        0 <= k < t.costed(translation_ids, transitions).len(),
    ensures
        forall|i: int|
            0 <= i < transitions.len() ==> t.cost(
                #[trigger] transitions[i],
                t.costed(translation_ids, transitions)[k].0,
            ) is Some,
        t.total_cost(transitions, t.costed(translation_ids, transitions)[k].0) == Some(
            t.costed(translation_ids, transitions)[k].1,
        ),
    decreases translation_ids.len(),
{
    if translation_ids.len() > 0 {
        let before = t.costed(translation_ids.drop_last(), transitions);
        if k < before.len() {
            lemma_costed_all_costed(t, translation_ids.drop_last(), transitions, k);
        } else {
            lemma_total_cost_all_costed(t, transitions, translation_ids.last());
        }
    }
}

impl NondeterministicTrie {
    /// The cost of a transition for a translation.
    pub fn get_transition_cost(&self, transition: &TransitionKey, translation_id: usize) -> (r: Option<
        u64,
    >)
        ensures
            r == self@.cost(*transition, translation_id),
    {
        let cost_key = TransitionCostKey::new(*transition, translation_id);
        self.cost_of(&cost_key)
    }

    /// Whether a transition has the key `key_id`.
    pub fn transition_has_key(&self, transition: &TransitionKey, key_id: Option<usize>) -> (r: bool)
        ensures
            r == (transition.key_id == key_id),
    {
        match (transition.key_id, key_id) {
            (Some(a), Some(b)) => a == b,
            (None, None) => true,
            _ => false,
        }
    }

    /// Whether a translation uses a transition.
    pub fn transition_has_cost_for_translation(
        &self,
        src_node_id: usize,
        key_id: Option<usize>,
        transition_index: usize,
        translation_id: usize,
    ) -> (r: bool)
        ensures
            r == self@.cost(
                TransitionKey { src_node_index: src_node_id, key_id, transition_index },
                translation_id,
            ) is Some,
    {
        let cost_key = TransitionCostKey::new(
            TransitionKey::new(src_node_id, key_id, transition_index),
            translation_id,
        );
        self.cost_of(&cost_key).is_some()
    }

    /// The paths reached from `src_node_path` by empty transitions alone.
    fn dfs_empty_transitions(
        &self,
        src_node_path: &TriePath,
        visited_transitions: &Vec<TransitionKey>,
        results: &mut Vec<TriePath>,
    )
        requires
            self@.wf(),
            src_node_path.dst_node_id < self@.n_nodes(),
        ensures
            paths_view(final(results)@) == paths_view(old(results)@) + self@.eps_closure(
                src_node_path@,
                visited_transitions@,
            ),
            forall|i: int|
                0 <= i < final(results)@.len() ==> (#[trigger] final(results)@[i]).dst_node_id
                    < self@.n_nodes() || i < old(results)@.len(),
            forall|i: int|
                0 <= i < old(results)@.len() ==> final(results)@[i] == old(results)@[i],
            final(results)@.len() >= old(results)@.len(),
        decreases usize::MAX - src_node_path.transitions@.len(),
    {
        let ghost path = src_node_path@;
        let ghost visited = visited_transitions@;
        results.push(src_node_path.clone());
        proof {
            assert(paths_view(results@) =~= paths_view(old(results)@) + seq![path]);
            assert(self@.eps_through(path, visited, 0) =~= Seq::<TriePathSpec>::empty());
        }
        let n: usize = self.n_dsts(src_node_path.dst_node_id, None);
        let mut transition_index: usize = 0;
        while transition_index < n
            invariant
                transition_index <= n,
                self@.wf(),
                src_node_path.dst_node_id < self@.n_nodes(),
                path == src_node_path@,
                visited == visited_transitions@,
                n == self@.dsts(path.dst_node_id, None).len(),
                paths_view(results@) == paths_view(old(results)@) + seq![path] + self@.eps_through(
                    path,
                    visited,
                    transition_index as int,
                ),
                forall|i: int|
                    0 <= i < results@.len() ==> (#[trigger] results@[i]).dst_node_id
                        < self@.n_nodes() || i < old(results)@.len(),
                forall|i: int| 0 <= i < old(results)@.len() ==> results@[i] == old(results)@[i],
                results@.len() >= old(results)@.len(),
            decreases n - transition_index,
        {
            let dst_node_id = self.dst_at(src_node_path.dst_node_id, None, transition_index);
            let transition_key = TransitionKey::new(
                src_node_path.dst_node_id,
                None,
                transition_index,
            );
            let ghost so_far = self@.eps_through(path, visited, transition_index as int);
            if !contains_transition(visited_transitions, &transition_key)
                && src_node_path.transitions.len() < usize::MAX {
                let mut new_transitions = clone_transitions(&src_node_path.transitions);
                new_transitions.push(transition_key);
                let mut new_visited = clone_transitions(visited_transitions);
                new_visited.push(transition_key);
                let next = TriePath::new(dst_node_id, new_transitions);
                let ghost before = paths_view(results@);
                self.dfs_empty_transitions(&next, &new_visited, results);
                proof {
                    let more = self@.eps_closure(next@, new_visited@);
                    assert(before + more =~= paths_view(old(results)@) + seq![path] + (so_far
                        + more));
                }
            } else {
                proof {
                    assert(so_far + Seq::<TriePathSpec>::empty() =~= so_far);
                }
            }
            transition_index += 1;
        }
        proof {
            assert(paths_view(old(results)@) + seq![path] + self@.eps_through(
                path,
                visited,
                n as int,
            ) =~= paths_view(old(results)@) + self@.eps_closure(path, visited));
        }
    }

    /// The paths reached from each of `src_node_paths` under `key_id`, and
    /// by the empty transitions that follow.
    pub fn traverse(&self, src_node_paths: &Vec<TriePath>, key_id: Option<usize>) -> (r: Vec<TriePath>)
        requires
            self@.wf(),
            forall|i: int|
                0 <= i < src_node_paths@.len() ==> (#[trigger] src_node_paths@[i]).dst_node_id
                    < self@.n_nodes(),
        ensures
            paths_view(r@) == self@.traverse(paths_view(src_node_paths@), key_id),
            forall|i: int| 0 <= i < r@.len() ==> (#[trigger] r@[i]).dst_node_id < self@.n_nodes(),
    {
        let ghost paths = paths_view(src_node_paths@);
        let mut results: Vec<TriePath> = Vec::new();
        let mut p: usize = 0;
        proof {
            assert(paths.take(0) =~= Seq::<TriePathSpec>::empty());
            assert(paths_view(results@) =~= Seq::<TriePathSpec>::empty());
        }
        while p < src_node_paths.len()
            invariant
                p <= src_node_paths.len(),
                self@.wf(),
                paths == paths_view(src_node_paths@),
                forall|i: int|
                    0 <= i < src_node_paths@.len() ==> (#[trigger] src_node_paths@[i]).dst_node_id
                        < self@.n_nodes(),
                paths_view(results@) == self@.traverse(paths.take(p as int), key_id),
                forall|i: int|
                    0 <= i < results@.len() ==> (#[trigger] results@[i]).dst_node_id
                        < self@.n_nodes(),
            decreases src_node_paths.len() - p,
        {
            let path = &src_node_paths[p];
            let ghost done = self@.traverse(paths.take(p as int), key_id);
            proof {
                assert(paths.take(p as int + 1).drop_last() =~= paths.take(p as int));
                assert(paths.take(p as int + 1).last() == path@);
                assert(self@.traverse_through(path@, key_id, 0) =~= Seq::<TriePathSpec>::empty());
                assert(done + Seq::<TriePathSpec>::empty() =~= done);
            }
            let n: usize = self.n_dsts(path.dst_node_id, key_id);
            let mut transition_index: usize = 0;
            while transition_index < n
                invariant
                    transition_index <= n,
                    self@.wf(),
                    p < src_node_paths.len(),
                    path == &src_node_paths@[p as int],
                    path.dst_node_id < self@.n_nodes(),
                    n == self@.dsts(path.dst_node_id, key_id).len(),
                    done == self@.traverse(paths.take(p as int), key_id),
                    paths_view(results@) == done + self@.traverse_through(
                        path@,
                        key_id,
                        transition_index as int,
                    ),
                    forall|i: int|
                        0 <= i < results@.len() ==> (#[trigger] results@[i]).dst_node_id
                            < self@.n_nodes(),
                decreases n - transition_index,
            {
                let dst_node_id = self.dst_at(path.dst_node_id, key_id, transition_index);
                let transition_key = TransitionKey::new(path.dst_node_id, key_id, transition_index);
                let mut new_transitions = clone_transitions(&path.transitions);
                new_transitions.push(transition_key);
                let next = TriePath::new(dst_node_id, new_transitions);
                let visited: Vec<TransitionKey> = Vec::new();
                let ghost so_far = self@.traverse_through(path@, key_id, transition_index as int);
                self.dfs_empty_transitions(&next, &visited, &mut results);
                proof {
                    let more = self@.eps_closure(next@, Seq::empty());
                    assert(visited@ =~= Seq::<TransitionKey>::empty());
                    assert((done + so_far) + more =~= done + (so_far + more));
                }
                transition_index += 1;
            }
            p += 1;
        }
        proof {
            assert(paths.take(p as int) =~= paths);
        }
        results
    }

    /// The paths reached from `src_node_paths` under the keys of
    /// `key_ids`, in turn.
    pub fn traverse_chain(&self, src_node_paths: Vec<TriePath>, key_ids: &[Option<usize>]) -> (r: Vec<
        TriePath,
    >)
        requires
            self@.wf(),
            forall|i: int|
                0 <= i < src_node_paths@.len() ==> (#[trigger] src_node_paths@[i]).dst_node_id
                    < self@.n_nodes(),
        ensures
            paths_view(r@) == self@.traverse_chain(paths_view(src_node_paths@), key_ids@),
            forall|i: int| 0 <= i < r@.len() ==> (#[trigger] r@[i]).dst_node_id < self@.n_nodes(),
    {
        let ghost start = paths_view(src_node_paths@);
        let mut current = src_node_paths;
        let mut k: usize = 0;
        proof {
            assert(key_ids@.take(0) =~= Seq::<Option<usize>>::empty());
        }
        while k < key_ids.len()
            invariant
                k <= key_ids.len(),
                self@.wf(),
                paths_view(current@) == self@.traverse_chain(start, key_ids@.take(k as int)),
                forall|i: int|
                    0 <= i < current@.len() ==> (#[trigger] current@[i]).dst_node_id
                        < self@.n_nodes(),
            decreases key_ids.len() - k,
        {
            proof {
                assert(key_ids@.take(k as int + 1).drop_last() =~= key_ids@.take(k as int));
                assert(key_ids@.take(k as int + 1).last() == key_ids@[k as int]);
            }
            current = self.traverse(&current, key_ids[k]);
            k += 1;
        }
        proof {
            assert(key_ids@.take(k as int) =~= key_ids@);
        }
        current
    }

    /// The total cost of a sequence of transitions for a translation.
    fn sum_costs_of(&self, transitions: &[TransitionKey], translation_id: usize) -> (r: Option<u64>)
        ensures
            r == self@.total_cost(transitions@, translation_id),
    {
        let mut cumsum_cost: u64 = 0;
        let mut i: usize = 0;
        proof {
            assert(transitions@.take(0) =~= Seq::<TransitionKey>::empty());
        }
        while i < transitions.len()
            invariant
                i <= transitions.len(),
                self@.total_cost(transitions@.take(i as int), translation_id) == Some(cumsum_cost),
            decreases transitions.len() - i,
        {
            proof {
                assert(transitions@.take(i as int + 1).drop_last() =~= transitions@.take(i as int));
                assert(transitions@.take(i as int + 1).last() == transitions@[i as int]);
            }
            match self.get_transition_cost(&transitions[i], translation_id) {
                Some(cost) => {
                    cumsum_cost = sum_costs(cumsum_cost, cost);
                },
                None => {
                    proof {
                        lemma_total_cost_none(self@, transitions@, translation_id, i as int + 1);
                    }
                    return None;
                },
            }
            i += 1;
        }
        proof {
            assert(transitions@.take(i as int) =~= transitions@);
        }
        Some(cumsum_cost)
    }

    /// The translations anchored at `node_id` that use every transition of
    /// `transitions`, each with its total cost.
    pub fn get_translations_and_costs_single(&self, node_id: usize, transitions: &[TransitionKey]) -> (r:
        Vec<(usize, u64)>)
        ensures
            r@ == self@.translations_and_costs_single(node_id, transitions@),
            forall|k: int, i: int|
                0 <= k < r@.len() && 0 <= i < transitions@.len() ==> self@.cost(
                    #[trigger] transitions@[i],
                    (#[trigger] r@[k]).0,
                ) is Some,
    {
        let mut results: Vec<(usize, u64)> = Vec::new();
        match self.get_node_translations(node_id) {
            Some(translation_ids) => {
                let mut t: usize = 0;
                proof {
                    assert(translation_ids@.take(0) =~= Seq::<usize>::empty());
                }
                while t < translation_ids.len()
                    invariant
                        t <= translation_ids.len(),
                        translation_ids@ == self@.translations_at(node_id),
                        results@ == self@.costed(translation_ids@.take(t as int), transitions@),
                    decreases translation_ids.len() - t,
                {
                    proof {
                        assert(translation_ids@.take(t as int + 1).drop_last()
                            =~= translation_ids@.take(t as int));
                        assert(translation_ids@.take(t as int + 1).last() == translation_ids@[t as int]);
                    }
                    match self.sum_costs_of(transitions, translation_ids[t]) {
                        Some(cost) => {
                            results.push((translation_ids[t], cost));
                        },
                        None => {},
                    }
                    t += 1;
                }
                proof {
                    assert(translation_ids@.take(t as int) =~= translation_ids@);
                }
            },
            None => {},
        }
        proof {
            assert forall|k: int, i: int|
                0 <= k < results@.len() && 0 <= i < transitions@.len() implies self@.cost(
                #[trigger] transitions@[i],
                (#[trigger] results@[k]).0,
            ) is Some by {
                lemma_costed_all_costed(
                    self@,
                    self@.translations_at(node_id),
                    transitions@,
                    k,
                );
            }
        }
        results
    }

    /// The lookup results of a path.
    fn results_of(&self, path: &TriePath) -> (r: Vec<LookupResult>)
        ensures
            results_view(r@) == self@.results_of(path@),
    {
        let found = self.get_translations_and_costs_single(
            path.dst_node_id,
            path.transitions.as_slice(),
        );
        let mut results: Vec<LookupResult> = Vec::new();
        let mut i: usize = 0;
        while i < found.len()
            invariant
                i <= found.len(),
                results.len() == i,
                forall|j: int|
                    0 <= j < i ==> (#[trigger] results@[j])@ == (LookupResultSpec {
                        translation_id: found@[j].0,
                        cost: found@[j].1,
                        transitions: path@.transitions,
                    }),
            decreases found.len() - i,
        {
            results.push(
                LookupResult::new(found[i].0, found[i].1, clone_transitions(&path.transitions)),
            );
            i += 1;
        }
        proof {
            assert(results_view(results@) =~= self@.results_of(path@));
        }
        results
    }

    /// The lookup results of each of `node_paths`, in order.
    pub fn get_translations_and_costs(&self, node_paths: &Vec<TriePath>) -> (r: Vec<LookupResult>)
        ensures
            results_view(r@) == self@.translations_and_costs(paths_view(node_paths@)),
    {
        let ghost paths = paths_view(node_paths@);
        let mut results: Vec<LookupResult> = Vec::new();
        let mut p: usize = 0;
        proof {
            assert(paths.take(0) =~= Seq::<TriePathSpec>::empty());
            assert(results_view(results@) =~= Seq::<LookupResultSpec>::empty());
        }
        while p < node_paths.len()
            invariant
                p <= node_paths.len(),
                paths == paths_view(node_paths@),
                results_view(results@) == self@.translations_and_costs(paths.take(p as int)),
            decreases node_paths.len() - p,
        {
            proof {
                assert(paths.take(p as int + 1).drop_last() =~= paths.take(p as int));
                assert(paths.take(p as int + 1).last() == node_paths@[p as int]@);
            }
            let mut more = self.results_of(&node_paths[p]);
            let ghost before = results_view(results@);
            let ghost added = results_view(more@);
            results.append(&mut more);
            proof {
                assert(results_view(results@) =~= before + added);
            }
            p += 1;
        }
        proof {
            assert(paths.take(p as int) =~= paths);
        }
        results
    }

    /// The cheapest lookup result for each translation found along
    /// `node_paths`.
    pub fn get_translations_and_min_costs(&self, node_paths: &Vec<TriePath>) -> (r: Vec<LookupResult>)
        ensures
            results_view(r@) == cheapest(self@.translations_and_costs(paths_view(node_paths@))),
    {
        let all = self.get_translations_and_costs(node_paths);
        let ghost every = results_view(all@);
        let mut best: Vec<LookupResult> = Vec::new();
        let mut i: usize = 0;
        proof {
            assert(every.take(0) =~= Seq::<LookupResultSpec>::empty());
            assert(results_view(best@) =~= Seq::<LookupResultSpec>::empty());
        }
        while i < all.len()
            invariant
                i <= all.len(),
                every == results_view(all@),
                results_view(best@) == cheapest(every.take(i as int)),
            decreases all.len() - i,
        {
            proof {
                assert(every.take(i as int + 1).drop_last() =~= every.take(i as int));
                assert(every.take(i as int + 1).last() == all@[i as int]@);
            }
            let candidate = all[i].clone();
            let ghost before = results_view(best@);
            match position_of(&best, candidate.translation_id) {
                Some(k) => {
                    if candidate.cost < best[k].cost {
                        best[k] = candidate;
                        proof {
                            assert(results_view(best@) =~= before.update(k as int, candidate@));
                        }
                    }
                },
                None => {
                    best.push(candidate);
                    proof {
                        assert(results_view(best@) =~= before.push(candidate@));
                    }
                },
            }
            i += 1;
        }
        proof {
            assert(every.take(i as int) =~= every);
        }
        best
    }
}

/// Once a prefix of the transitions has no total cost, none of the longer
/// prefixes has one.
pub proof fn lemma_total_cost_none(
    t: TrieSpec,
    transitions: Seq<TransitionKey>,
    translation_id: usize,
    k: int,
)
    requires
        0 <= k <= transitions.len(),
        t.total_cost(transitions.take(k), translation_id) is None,
    ensures
        t.total_cost(transitions, translation_id) is None,
    decreases transitions.len() - k,
{
    if k < transitions.len() {
        assert(transitions.take(k + 1).drop_last() =~= transitions.take(k));
        lemma_total_cost_none(t, transitions, translation_id, k + 1);
    } else {
        assert(transitions.take(k) =~= transitions);
    }
}

/// Whether a list holds a transition.
pub fn contains_transition(list: &Vec<TransitionKey>, x: &TransitionKey) -> (r: bool)
    ensures
        r == list@.contains(*x),
{
    let mut i: usize = 0;
    while i < list.len()
        invariant
            i <= list.len(),
            forall|j: int| 0 <= j < i ==> list@[j] != *x,
        decreases list.len() - i,
    {
        if crate::trie::table::TableKey::same(&list[i], x) {
            return true;
        }
        i += 1;
    }
    false
}

/// The position of the first result for a translation.
fn position_of(results: &Vec<LookupResult>, translation_id: usize) -> (r: Option<usize>)
    ensures
        match r {
            Some(i) => result_index(results_view(results@), translation_id) == Some(i as int) && i
                < results@.len(),
            None => result_index(results_view(results@), translation_id) is None,
        },
{
    let ghost all = results_view(results@);
    let mut i: usize = 0;
    while i < results.len()
        invariant
            i <= results.len(),
            all == results_view(results@),
            forall|j: int| 0 <= j < i ==> (#[trigger] all[j]).translation_id != translation_id,
        decreases results.len() - i,
    {
        if results[i].translation_id == translation_id {
            proof {
                lemma_result_index(all, translation_id);
                assert(all[i as int].translation_id == translation_id);
            }
            return Some(i);
        }
        i += 1;
    }
    proof {
        lemma_result_index(all, translation_id);
    }
    None
}

} // verus!

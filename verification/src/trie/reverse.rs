//! The reverse index of a trie, and the lookups that walk it from the
//! anchors of a translation back to the root.

use vstd::prelude::*;
use crate::trie::construct::{NondeterministicTrie, list_contains};
use crate::trie::model::TrieSpec;
use crate::trie::query::results_view;
use crate::trie::table::{Table, add_to, find, list_of};
use crate::trie::transition::{
    LookupResult, LookupResultSpec, TransitionKey, add_costs, sum_costs,
};

verus! {

/// The value of a reverse node index: for a destination node and a key,
/// the transitions under that key that arrive at the node, each given by
/// its source node and transition index.
pub type ReverseNodesSpec = Seq<((usize, Option<usize>), Seq<(usize, usize)>)>;

/// The value of a reverse translation index: for a translation, the nodes
/// at which it is anchored.
pub type ReverseTranslationsSpec = Seq<(usize, Seq<usize>)>;

/// The reverse node index.
pub type ReverseNodes = Table<(usize, Option<usize>), Vec<(usize, usize)>>;

/// The reverse translation index.
pub type ReverseTranslations = Table<usize, Vec<usize>>;

/// The index with the first `upto` transitions of one destination list
/// entered.
pub open spec fn reverse_list(
    acc: ReverseNodesSpec,
    node: usize,
    key: Option<usize>,
    ds: Seq<usize>,
    upto: int,
) -> ReverseNodesSpec
    decreases upto,
{
    if upto <= 0 {
        acc
    } else {
        add_to(
            reverse_list(acc, node, key, ds, upto - 1),
            (ds[upto - 1], key),
            (node, (upto - 1) as usize),
        )
    }
}

/// The index with the first `upto` keys of one node entered.
pub open spec fn reverse_keys(
    acc: ReverseNodesSpec,
    node: usize,
    entries: Seq<(Option<usize>, Seq<usize>)>,
    upto: int,
) -> ReverseNodesSpec
    decreases upto,
{
    if upto <= 0 {
        acc
    } else {
        reverse_list(
            reverse_keys(acc, node, entries, upto - 1),
            node,
            entries[upto - 1].0,
            entries[upto - 1].1,
            entries[upto - 1].1.len() as int,
        )
    }
}

/// The index of the first `upto` nodes.
pub open spec fn reverse_nodes(
    transitions: Seq<Seq<(Option<usize>, Seq<usize>)>>,
    upto: int,
) -> ReverseNodesSpec
    decreases upto,
{
    if upto <= 0 {
        Seq::empty()
    } else {
        reverse_keys(
            reverse_nodes(transitions, upto - 1),
            (upto - 1) as usize,
            transitions[upto - 1],
            transitions[upto - 1].len() as int,
        )
    }
}

/// The index with `node` entered under the first `upto` of its
/// translations.
pub open spec fn reverse_anchor(
    acc: ReverseTranslationsSpec,
    node: usize,
    ids: Seq<usize>,
    upto: int,
) -> ReverseTranslationsSpec
    decreases upto,
{
    if upto <= 0 {
        acc
    } else {
        add_to(reverse_anchor(acc, node, ids, upto - 1), ids[upto - 1], node)
    }
}

/// The index of the first `upto` anchored nodes.
pub open spec fn reverse_anchors(anchors: Seq<(usize, Seq<usize>)>, upto: int) -> ReverseTranslationsSpec
    decreases upto,
{
    if upto <= 0 {
        Seq::empty()
    } else {
        reverse_anchor(
            reverse_anchors(anchors, upto - 1),
            anchors[upto - 1].0,
            anchors[upto - 1].1,
            anchors[upto - 1].1.len() as int,
        )
    }
}

/// The ids with the first `upto` of `more` joined to them, each once.
pub open spec fn join_ids(acc: Seq<usize>, more: Seq<usize>, upto: int) -> Seq<usize>
    decreases upto,
{
    if upto <= 0 {
        acc
    } else {
        let before = join_ids(acc, more, upto - 1);
        if before.contains(more[upto - 1]) {
            before
        } else {
            before.push(more[upto - 1])
        }
    }
}

/// The translations of the first `upto` anchored nodes, each once, in the
/// order in which they are first met.
pub open spec fn all_ids(anchors: Seq<(usize, Seq<usize>)>, upto: int) -> Seq<usize>
    decreases upto,
{
    if upto <= 0 {
        Seq::empty()
    } else {
        join_ids(all_ids(anchors, upto - 1), anchors[upto - 1].1, anchors[upto - 1].1.len() as int)
    }
}

impl TrieSpec {
    /// The reverse node index of the trie.
    pub open spec fn reversed_nodes(self) -> ReverseNodesSpec {
        reverse_nodes(self.transitions, self.transitions.len() as int)
    }

    /// The reverse translation index of the trie.
    pub open spec fn reversed_translations(self) -> ReverseTranslationsSpec {
        reverse_anchors(self.node_translations, self.node_translations.len() as int)
    }

    /// The translations that are anchored somewhere, each once.
    pub open spec fn all_translation_ids(self) -> Seq<usize> {
        all_ids(self.node_translations, self.node_translations.len() as int)
    }

    /// The walks from `node` back to the root along transitions that the
    /// translation uses, without passing a node of `visited` again:
    /// `reversed` holds the transitions walked so far, last first, and
    /// `cost` their total cost. At the root the walk is complete. A walk
    /// that cannot grow is not extended.
    pub open spec fn reverse_walks(
        self,
        rev: ReverseNodesSpec,
        translation_id: usize,
        node: usize,
        reversed: Seq<TransitionKey>,
        cost: u64,
        visited: Seq<usize>,
    ) -> Seq<LookupResultSpec>
        decreases usize::MAX - reversed.len(), rev.len() + 1, 0int,
    {
        if node == 0 {
            seq![LookupResultSpec { translation_id, cost, transitions: reversed.reverse() }]
        } else {
            self.reverse_walks_keys(
                rev,
                translation_id,
                node,
                reversed,
                cost,
                visited,
                rev.len() as int,
            )
        }
    }

    /// The walks that continue through the first `upto` entries of the
    /// index.
    pub open spec fn reverse_walks_keys(
        self,
        rev: ReverseNodesSpec,
        translation_id: usize,
        node: usize,
        reversed: Seq<TransitionKey>,
        cost: u64,
        visited: Seq<usize>,
        upto: int,
    ) -> Seq<LookupResultSpec>
        decreases usize::MAX - reversed.len(), upto, 0int,
    {
        if upto <= 0 || upto > rev.len() {
            Seq::empty()
        } else {
            self.reverse_walks_keys(rev, translation_id, node, reversed, cost, visited, upto - 1)
                + (if rev[upto - 1].0.0 == node {
                self.reverse_walks_sources(
                    rev,
                    translation_id,
                    node,
                    reversed,
                    cost,
                    visited,
                    upto - 1,
                    rev[upto - 1].1.len() as int,
                )
            } else {
                Seq::empty()
            })
        }
    }

    /// The walks that continue through the first `upto` transitions of
    /// one entry of the index.
    pub open spec fn reverse_walks_sources(
        self,
        rev: ReverseNodesSpec,
        translation_id: usize,
        node: usize,
        reversed: Seq<TransitionKey>,
        cost: u64,
        visited: Seq<usize>,
        entry: int,
        upto: int,
    ) -> Seq<LookupResultSpec>
        decreases usize::MAX - reversed.len(), entry, upto,
    {
        if upto <= 0 || entry < 0 || entry >= rev.len() || upto > rev[entry].1.len() {
            Seq::empty()
        } else {
            let transition = TransitionKey {
                src_node_index: rev[entry].1[upto - 1].0,
                key_id: rev[entry].0.1,
                transition_index: rev[entry].1[upto - 1].1,
            };
            self.reverse_walks_sources(
                rev,
                translation_id,
                node,
                reversed,
                cost,
                visited,
                entry,
                upto - 1,
            ) + (if visited.contains(transition.src_node_index) || self.cost(
                transition,
                translation_id,
            ) is None || reversed.len() >= usize::MAX {
                Seq::empty()
            } else {
                self.reverse_walks(
                    rev,
                    translation_id,
                    transition.src_node_index,
                    reversed.push(transition),
                    add_costs(cost, self.cost(transition, translation_id)->Some_0),
                    visited.push(transition.src_node_index),
                )
            })
        }
    }

    /// The walks to the root from the first `upto` of the nodes `anchors`.
    pub open spec fn reverse_lookup_from(
        self,
        rev: ReverseNodesSpec,
        translation_id: usize,
        anchors: Seq<usize>,
        upto: int,
    ) -> Seq<LookupResultSpec>
        decreases upto,
    {
        if upto <= 0 {
            Seq::empty()
        } else {
            self.reverse_lookup_from(rev, translation_id, anchors, upto - 1) + self.reverse_walks(
                rev,
                translation_id,
                anchors[upto - 1],
                Seq::empty(),
                0,
                seq![anchors[upto - 1]],
            )
        }
    }

    /// The walks to the root from every anchor of a translation, each with
    /// its transitions in walking order from the root and its total cost.
    pub open spec fn reverse_lookup_results(
        self,
        rev: ReverseNodesSpec,
        rev_translations: ReverseTranslationsSpec,
        translation_id: usize,
    ) -> Seq<LookupResultSpec> {
        self.reverse_lookup_from(
            rev,
            translation_id,
            list_of(rev_translations, translation_id),
            list_of(rev_translations, translation_id).len() as int,
        )
    }
}

/// A copy of a list of transitions, last first.
pub fn reversed_copy(list: &Vec<TransitionKey>) -> (r: Vec<TransitionKey>)
    ensures
        r@ == list@.reverse(),
{
    let n: usize = list.len();
    let mut out: Vec<TransitionKey> = Vec::new();
    let mut i: usize = 0;
    while i < n
        invariant
            i <= n,
            n == list@.len(),
            out@.len() == i,
            forall|j: int| 0 <= j < i ==> out@[j] == list@[n - 1 - j],
        decreases n - i,
    {
        out.push(list[n - 1 - i]);
        i += 1;
    }
    proof {
        assert(out@ =~= list@.reverse());
    }
    out
}

impl NondeterministicTrie {
    /// Builds the reverse node index.
    pub fn reversed_nodes(&self) -> (r: ReverseNodes)
        ensures
            r.lists() == self@.reversed_nodes(),
    {
        let mut reverse: ReverseNodes = Table::new();
        let n: usize = self.n_nodes();
        let mut src_node_id: usize = 0;
        proof {
            assert(reverse.lists() =~= reverse_nodes(self@.transitions, 0));
        }
        while src_node_id < n
            invariant
                src_node_id <= n,
                n == self@.n_nodes(),
                reverse.lists() == reverse_nodes(self@.transitions, src_node_id as int),
            decreases n - src_node_id,
        {
            let table = match self.get_transitions_from_node(src_node_id) {
                Some(table) => table,
                None => {
                    return reverse;
                },
            };
            let ghost entries = self@.transitions[src_node_id as int];
            let ghost base = reverse_nodes(self@.transitions, src_node_id as int);
            let mut e: usize = 0;
            while e < table.entries.len()
                invariant
                    e <= table.entries.len(),
                    src_node_id < n,
                    n == self@.n_nodes(),
                    table.lists() == entries,
                    entries == self@.transitions[src_node_id as int],
                    base == reverse_nodes(self@.transitions, src_node_id as int),
                    reverse.lists() == reverse_keys(base, src_node_id, entries, e as int),
                decreases table.entries.len() - e,
            {
                let key_id = table.entries[e].0;
                let dst_node_ids = &table.entries[e].1;
                let ghost inner = reverse_keys(base, src_node_id, entries, e as int);
                proof {
                    assert(entries[e as int] == (key_id, dst_node_ids@));
                }
                let mut transition_index: usize = 0;
                while transition_index < dst_node_ids.len()
                    invariant
                        transition_index <= dst_node_ids.len(),
                        reverse.lists() == reverse_list(
                            inner,
                            src_node_id,
                            key_id,
                            dst_node_ids@,
                            transition_index as int,
                        ),
                    decreases dst_node_ids.len() - transition_index,
                {
                    reverse.push_to(
                        (dst_node_ids[transition_index], key_id),
                        (src_node_id, transition_index),
                    );
                    transition_index += 1;
                }
                e += 1;
            }
            proof {
                assert(table.entries@.len() == entries.len());
            }
            src_node_id += 1;
        }
        reverse
    }

    /// Builds the reverse translation index.
    pub fn reversed_translations(&self) -> (r: ReverseTranslations)
        ensures
            r.lists() == self@.reversed_translations(),
    {
        let mut reverse: ReverseTranslations = Table::new();
        let anchors = self.anchors();
        let ghost entries = self@.node_translations;
        let mut a: usize = 0;
        proof {
            assert(reverse.lists() =~= reverse_anchors(entries, 0));
        }
        while a < anchors.entries.len()
            invariant
                a <= anchors.entries.len(),
                anchors.lists() == entries,
                reverse.lists() == reverse_anchors(entries, a as int),
            decreases anchors.entries.len() - a,
        {
            let node_id = anchors.entries[a].0;
            let translation_ids = &anchors.entries[a].1;
            let ghost base = reverse_anchors(entries, a as int);
            proof {
                assert(entries[a as int] == (node_id, translation_ids@));
            }
            let mut t: usize = 0;
            while t < translation_ids.len()
                invariant
                    t <= translation_ids.len(),
                    reverse.lists() == reverse_anchor(base, node_id, translation_ids@, t as int),
                decreases translation_ids.len() - t,
            {
                reverse.push_to(translation_ids[t], node_id);
                t += 1;
            }
            a += 1;
        }
        proof {
            assert(anchors.entries@.len() == entries.len());
        }
        reverse
    }

    /// The translations that are anchored somewhere, each once.
    pub fn get_all_translation_ids(&self) -> (r: Vec<usize>)
        ensures
            r@ == self@.all_translation_ids(),
    {
        let mut ids: Vec<usize> = Vec::new();
        let anchors = self.anchors();
        let ghost entries = self@.node_translations;
        let mut a: usize = 0;
        proof {
            assert(ids@ =~= all_ids(entries, 0));
        }
        while a < anchors.entries.len()
            invariant
                a <= anchors.entries.len(),
                anchors.lists() == entries,
                ids@ == all_ids(entries, a as int),
            decreases anchors.entries.len() - a,
        {
            let translation_ids = &anchors.entries[a].1;
            let ghost base = all_ids(entries, a as int);
            proof {
                assert(entries[a as int].1 == translation_ids@);
            }
            let mut t: usize = 0;
            while t < translation_ids.len()
                invariant
                    t <= translation_ids.len(),
                    ids@ == join_ids(base, translation_ids@, t as int),
                decreases translation_ids.len() - t,
            {
                if !list_contains(&ids, translation_ids[t]) {
                    ids.push(translation_ids[t]);
                }
                t += 1;
            }
            a += 1;
        }
        proof {
            assert(anchors.entries@.len() == entries.len());
        }
        ids
    }

    fn dfs_reverse_lookup(
        &self,
        node: usize,
        translation_id: usize,
        transitions_reversed: &mut Vec<TransitionKey>,
        cost: u64,
        visited_nodes: &mut Vec<usize>,
        reverse_nodes: &ReverseNodes,
        results: &mut Vec<LookupResult>,
    )
        ensures
            results_view(final(results)@) == results_view(old(results)@) + self@.reverse_walks(
                reverse_nodes.lists(),
                translation_id,
                node,
                old(transitions_reversed)@,
                cost,
                old(visited_nodes)@,
            ),
            final(transitions_reversed)@ == old(transitions_reversed)@,
            final(visited_nodes)@ == old(visited_nodes)@,
        decreases usize::MAX - old(transitions_reversed)@.len(),
    {
        let ghost rev = reverse_nodes.lists();
        let ghost reversed = transitions_reversed@;
        let ghost visited = visited_nodes@;
        let ghost start = results_view(results@);
        if node == Self::ROOT {
            let final_transitions = reversed_copy(transitions_reversed);
            results.push(LookupResult::new(translation_id, cost, final_transitions));
            proof {
                assert(results_view(results@) =~= start + seq![
                    LookupResultSpec {
                        translation_id,
                        cost,
                        transitions: reversed.reverse(),
                    },
                ]);
            }
            return ;
        }
        let mut e: usize = 0;
        proof {
            assert(start + Seq::<LookupResultSpec>::empty() =~= start);
        }
        while e < reverse_nodes.entries.len()
            invariant
                e <= reverse_nodes.entries.len(),
                node != 0,
                rev == reverse_nodes.lists(),
                reversed == old(transitions_reversed)@,
                visited == old(visited_nodes)@,
                start == results_view(old(results)@),
                transitions_reversed@ == reversed,
                visited_nodes@ == visited,
                results_view(results@) == start + self@.reverse_walks_keys(
                    rev,
                    translation_id,
                    node,
                    reversed,
                    cost,
                    visited,
                    e as int,
                ),
            decreases reverse_nodes.entries.len() - e,
        {
            let ghost keys_done = self@.reverse_walks_keys(
                rev,
                translation_id,
                node,
                reversed,
                cost,
                visited,
                e as int,
            );
            if reverse_nodes.entries[e].0.0 == node {
                let key_id = reverse_nodes.entries[e].0.1;
                let src_nodes = &reverse_nodes.entries[e].1;
                proof {
                    assert(rev[e as int] == ((node, key_id), src_nodes@));
                    assert(keys_done + Seq::<LookupResultSpec>::empty() =~= keys_done);
                }
                let mut s: usize = 0;
                while s < src_nodes.len()
                    invariant
                        s <= src_nodes.len(),
                        e < reverse_nodes.entries.len(),
                        rev == reverse_nodes.lists(),
                        rev[e as int] == ((node, key_id), src_nodes@),
                        reversed == old(transitions_reversed)@,
                        transitions_reversed@ == reversed,
                        visited_nodes@ == visited,
                        results_view(results@) == start + (keys_done + self@.reverse_walks_sources(
                            rev,
                            translation_id,
                            node,
                            reversed,
                            cost,
                            visited,
                            e as int,
                            s as int,
                        )),
                    decreases src_nodes.len() - s,
                {
                    let src_node_id = src_nodes[s].0;
                    let transition_index = src_nodes[s].1;
                    let transition_key = TransitionKey::new(src_node_id, key_id, transition_index);
                    let ghost sources_done = self@.reverse_walks_sources(
                        rev,
                        translation_id,
                        node,
                        reversed,
                        cost,
                        visited,
                        e as int,
                        s as int,
                    );
                    let step_cost = self.get_transition_cost(&transition_key, translation_id);
                    if list_contains(visited_nodes, src_node_id) || step_cost.is_none()
                        || transitions_reversed.len() >= usize::MAX {
                        proof {
                            assert(sources_done + Seq::<LookupResultSpec>::empty() =~= sources_done);
                        }
                    } else {
                        let transition_cost = step_cost.unwrap();
                        transitions_reversed.push(transition_key);
                        visited_nodes.push(src_node_id);
                        let ghost before = results_view(results@);
                        self.dfs_reverse_lookup(
                            src_node_id,
                            translation_id,
                            transitions_reversed,
                            sum_costs(cost, transition_cost),
                            visited_nodes,
                            reverse_nodes,
                            results,
                        );
                        visited_nodes.pop();
                        transitions_reversed.pop();
                        proof {
                            let more = self@.reverse_walks(
                                rev,
                                translation_id,
                                src_node_id,
                                reversed.push(transition_key),
                                add_costs(cost, transition_cost),
                                visited.push(src_node_id),
                            );
                            assert(transitions_reversed@ =~= reversed);
                            assert(visited_nodes@ =~= visited);
                            assert(before + more =~= start + (keys_done + (sources_done + more)));
                        }
                    }
                    s += 1;
                }
            } else {
                proof {
                    assert(keys_done + Seq::<LookupResultSpec>::empty() =~= keys_done);
                }
            }
            e += 1;
        }
        proof {
            assert(reverse_nodes.entries@.len() == rev.len());
        }
    }

    /// The walks from the anchors of a translation back to the root.
    pub fn get_reverse_lookup_results(
        &self,
        reverse_nodes: &ReverseNodes,
        reverse_translations: &ReverseTranslations,
        translation_id: usize,
    ) -> (r: Vec<LookupResult>)
        ensures
            results_view(r@) == self@.reverse_lookup_results(
                reverse_nodes.lists(),
                reverse_translations.lists(),
                translation_id,
            ),
    {
        let mut results: Vec<LookupResult> = Vec::new();
        proof {
            assert(results_view(results@) =~= Seq::<LookupResultSpec>::empty());
        }
        match reverse_translations.get_list(&translation_id) {
            Some(nodes) => {
                let mut i: usize = 0;
                while i < nodes.len()
                    invariant
                        i <= nodes.len(),
                        nodes@ == list_of(reverse_translations.lists(), translation_id),
                        results_view(results@) == self@.reverse_lookup_from(
                            reverse_nodes.lists(),
                            translation_id,
                            nodes@,
                            i as int,
                        ),
                    decreases nodes.len() - i,
                {
                    let node = nodes[i];
                    let mut visited_nodes: Vec<usize> = Vec::new();
                    visited_nodes.push(node);
                    let mut transitions_reversed: Vec<TransitionKey> = Vec::new();
                    proof {
                        assert(visited_nodes@ =~= seq![node]);
                        assert(transitions_reversed@ =~= Seq::<TransitionKey>::empty());
                    }
                    self.dfs_reverse_lookup(
                        node,
                        translation_id,
                        &mut transitions_reversed,
                        0,
                        &mut visited_nodes,
                        reverse_nodes,
                        &mut results,
                    );
                    i += 1;
                }
            },
            None => {},
        }
        results
    }
}

} // verus!

//! Extracting the part of a trie that one translation uses.

use vstd::prelude::*;
use crate::trie::construct::{NondeterministicTrie, list_contains};
use crate::trie::model::TrieSpec;
use crate::trie::reverse::{ReverseNodes, ReverseNodesSpec, ReverseTranslations, ReverseTranslationsSpec};
use crate::trie::source::clone_flags;
use crate::trie::table::{Table, add_to, find, list_of};
use crate::trie::transition::TransitionKey;

verus! {

/// The value of the edges met so far: for a source and a destination node,
/// the key and index of each transition between them.
pub type EdgesSpec = Seq<((usize, usize), Seq<(Option<usize>, usize)>)>;

/// The state of a walk that collects a subtrie.
pub struct SubtrieWalk {
    /// The nodes entered.
    pub visited: Seq<usize>,
    /// The edges met.
    pub edges: EdgesSpec,
    /// The nodes left, in the order in which the walk left them: every
    /// node comes after the nodes that the walk reached from it.
    pub order: Seq<usize>,
}

/// The mathematical value of a [`SubtrieTransition`].
pub struct SubtrieTransitionSpec {
    pub src_node_id: usize,
    pub dst_node_id: usize,
    pub key_infos: Seq<(Option<usize>, usize, u64)>,
}

/// The transitions from one node to another that a translation uses, each
/// with its key, its index and its cost.
#[derive(Debug)]
pub struct SubtrieTransition {
    pub src_node_id: usize,
    pub dst_node_id: usize,
    pub key_infos: Vec<(Option<usize>, usize, u64)>,
}

impl View for SubtrieTransition {
    type V = SubtrieTransitionSpec;

    open spec fn view(&self) -> SubtrieTransitionSpec {
        SubtrieTransitionSpec {
            src_node_id: self.src_node_id,
            dst_node_id: self.dst_node_id,
            key_infos: self.key_infos@,
        }
    }
}

/// The mathematical value of a [`SubtrieData`].
pub struct SubtrieDataSpec {
    pub nodes: Seq<usize>,
    pub transitions: Seq<SubtrieTransitionSpec>,
    pub translation_nodes: Seq<usize>,
}

/// The part of a trie that one translation uses.
#[derive(Debug)]
pub struct SubtrieData {
    pub nodes: Vec<usize>,
    pub transitions: Vec<SubtrieTransition>,
    pub translation_nodes: Vec<usize>,
}

impl View for SubtrieData {
    type V = SubtrieDataSpec;

    open spec fn view(&self) -> SubtrieDataSpec {
        SubtrieDataSpec {
            nodes: self.nodes@,
            transitions: self.transitions@.map_values(|t: SubtrieTransition| t@),
            translation_nodes: self.translation_nodes@,
        }
    }
}

/// The value of an optional subtrie.
pub open spec fn subtrie_view(r: Option<SubtrieData>) -> Option<SubtrieDataSpec> {
    match r {
        Some(d) => Some(d@),
        None => None,
    }
}

impl TrieSpec {
    /// The walk after visiting `node`, at the depth `depth` below the
    /// anchors: a node entered before is passed over; otherwise the node
    /// is entered, the transitions that arrive at it and that the
    /// translation uses are walked back, and the node is left.
    pub open spec fn subtrie_visit(
        self,
        rev: ReverseNodesSpec,
        translation_id: usize,
        node: usize,
        walk: SubtrieWalk,
        depth: nat,
    ) -> SubtrieWalk
        decreases usize::MAX - depth, rev.len() + 1, 0int,
    {
        if walk.visited.contains(node) {
            walk
        } else {
            let inside = self.subtrie_keys(
                rev,
                translation_id,
                node,
                SubtrieWalk { visited: walk.visited.push(node), ..walk },
                depth,
                rev.len() as int,
            );
            SubtrieWalk { order: inside.order.push(node), ..inside }
        }
    }

    /// The walk after the first `upto` entries of the index.
    pub open spec fn subtrie_keys(
        self,
        rev: ReverseNodesSpec,
        translation_id: usize,
        node: usize,
        walk: SubtrieWalk,
        depth: nat,
        upto: int,
    ) -> SubtrieWalk
        decreases usize::MAX - depth, upto, 0int,
    {
        if upto <= 0 || upto > rev.len() {
            walk
        } else {
            let before = self.subtrie_keys(rev, translation_id, node, walk, depth, upto - 1);
            if rev[upto - 1].0.0 == node {
                self.subtrie_sources(
                    rev,
                    translation_id,
                    node,
                    before,
                    depth,
                    upto - 1,
                    rev[upto - 1].1.len() as int,
                )
            } else {
                before
            }
        }
    }

    /// The walk after the first `upto` transitions of one entry of the
    /// index: each transition that the translation uses is walked back to
    /// its source, and then entered among the edges. A walk that is too
    /// deep to go on passes the transition over.
    pub open spec fn subtrie_sources(
        self,
        rev: ReverseNodesSpec,
        translation_id: usize,
        node: usize,
        walk: SubtrieWalk,
        depth: nat,
        entry: int,
        upto: int,
    ) -> SubtrieWalk
        decreases usize::MAX - depth, entry, upto,
    {
        if upto <= 0 || entry < 0 || entry >= rev.len() || upto > rev[entry].1.len() {
            walk
        } else {
            let before = self.subtrie_sources(
                rev,
                translation_id,
                node,
                walk,
                depth,
                entry,
                upto - 1,
            );
            let transition = TransitionKey {
                src_node_index: rev[entry].1[upto - 1].0,
                key_id: rev[entry].0.1,
                transition_index: rev[entry].1[upto - 1].1,
            };
            if self.cost(transition, translation_id) is None || depth >= usize::MAX {
                before
            } else {
                let after = self.subtrie_visit(
                    rev,
                    translation_id,
                    transition.src_node_index,
                    before,
                    depth + 1,
                );
                SubtrieWalk {
                    edges: add_to(
                        after.edges,
                        (transition.src_node_index, node),
                        (transition.key_id, transition.transition_index),
                    ),
                    ..after
                }
            }
        }
    }

    /// The walk after visiting the first `upto` of the nodes `anchors`.
    pub open spec fn subtrie_from(
        self,
        rev: ReverseNodesSpec,
        translation_id: usize,
        anchors: Seq<usize>,
        upto: int,
    ) -> SubtrieWalk
        decreases upto,
    {
        if upto <= 0 {
            SubtrieWalk { visited: Seq::empty(), edges: Seq::empty(), order: Seq::empty() }
        } else {
            self.subtrie_visit(
                rev,
                translation_id,
                anchors[upto - 1],
                self.subtrie_from(rev, translation_id, anchors, upto - 1),
                0,
            )
        }
    }

    /// The transitions of one edge with their costs; a transition without
    /// a cost on record counts as free.
    pub open spec fn key_infos(self, src: usize, infos: Seq<(Option<usize>, usize)>, translation_id: usize) -> Seq<
        (Option<usize>, usize, u64),
    > {
        infos.map_values(
            |info: (Option<usize>, usize)|
                (
                    info.0,
                    info.1,
                    match self.cost(
                        TransitionKey {
                            src_node_index: src,
                            key_id: info.0,
                            transition_index: info.1,
                        },
                        translation_id,
                    ) {
                        Some(cost) => cost,
                        None => 0u64,
                    },
                ),
        )
    }

    /// The subtrie of a translation: nothing if the translation is
    /// anchored nowhere; else the nodes walked back from its anchors, the
    /// edges between them, and the anchors.
    pub open spec fn subtrie_data(
        self,
        rev: ReverseNodesSpec,
        rev_translations: ReverseTranslationsSpec,
        translation_id: usize,
    ) -> Option<SubtrieDataSpec> {
        match find(rev_translations, translation_id) {
            None => None,
            Some(anchors) => {
                let walk = self.subtrie_from(rev, translation_id, anchors, anchors.len() as int);
                Some(
                    SubtrieDataSpec {
                        nodes: walk.order,
                        transitions: walk.edges.map_values(
                            |edge: ((usize, usize), Seq<(Option<usize>, usize)>)|
                                SubtrieTransitionSpec {
                                    src_node_id: edge.0.0,
                                    dst_node_id: edge.0.1,
                                    key_infos: self.key_infos(edge.0.0, edge.1, translation_id),
                                },
                        ),
                        translation_nodes: anchors,
                    },
                )
            },
        }
    }
}

/// The walk that three accumulators stand for.
pub open spec fn walk_of(
    visited: Seq<usize>,
    edges: Table<(usize, usize), Vec<(Option<usize>, usize)>>,
    order: Seq<usize>,
) -> SubtrieWalk {
    SubtrieWalk { visited, edges: edges.lists(), order }
}

impl NondeterministicTrie {
    fn dfs_subtrie(
        &self,
        node: usize,
        translation_id: usize,
        visited_nodes: &mut Vec<usize>,
        reverse_nodes: &ReverseNodes,
        visited_transitions: &mut Table<(usize, usize), Vec<(Option<usize>, usize)>>,
        nodes_toposort: &mut Vec<usize>,
        Ghost(depth): Ghost<nat>,
    )
        requires
            depth <= old(visited_nodes)@.len(),
        ensures
            walk_of(final(visited_nodes)@, *final(visited_transitions), final(nodes_toposort)@)
                == self@.subtrie_visit(
                reverse_nodes.lists(),
                translation_id,
                node,
                walk_of(old(visited_nodes)@, *old(visited_transitions), old(nodes_toposort)@),
                depth,
            ),
            final(visited_nodes)@.len() >= old(visited_nodes)@.len(),
        decreases usize::MAX - depth,
    {
        let ghost rev = reverse_nodes.lists();
        let ghost start = walk_of(visited_nodes@, *visited_transitions, nodes_toposort@);
        if list_contains(visited_nodes, node) {
            return ;
        }
        visited_nodes.push(node);
        let ghost entered = SubtrieWalk { visited: start.visited.push(node), ..start };
        let mut e: usize = 0;
        while e < reverse_nodes.entries.len()
            invariant
                e <= reverse_nodes.entries.len(),
                rev == reverse_nodes.lists(),
                depth < visited_nodes@.len(),
                visited_nodes@.len() > old(visited_nodes)@.len(),
                entered == (SubtrieWalk { visited: start.visited.push(node), ..start }),
                walk_of(visited_nodes@, *visited_transitions, nodes_toposort@)
                    == self@.subtrie_keys(rev, translation_id, node, entered, depth, e as int),
            decreases reverse_nodes.entries.len() - e,
        {
            if reverse_nodes.entries[e].0.0 == node {
                let key_id = reverse_nodes.entries[e].0.1;
                let src_nodes = &reverse_nodes.entries[e].1;
                let ghost keys_done = self@.subtrie_keys(
                    rev,
                    translation_id,
                    node,
                    entered,
                    depth,
                    e as int,
                );
                proof {
                    assert(rev[e as int] == ((node, key_id), src_nodes@));
                }
                let mut s: usize = 0;
                while s < src_nodes.len()
                    invariant
                        s <= src_nodes.len(),
                        e < reverse_nodes.entries.len(),
                        rev == reverse_nodes.lists(),
                        rev[e as int] == ((node, key_id), src_nodes@),
                        depth < visited_nodes@.len(),
                        visited_nodes@.len() > old(visited_nodes)@.len(),
                        walk_of(visited_nodes@, *visited_transitions, nodes_toposort@)
                            == self@.subtrie_sources(
                            rev,
                            translation_id,
                            node,
                            keys_done,
                            depth,
                            e as int,
                            s as int,
                        ),
                    decreases src_nodes.len() - s,
                {
                    let src_node_id = src_nodes[s].0;
                    let transition_index = src_nodes[s].1;
                    let n_visited: usize = visited_nodes.len();
                    if self.transition_has_cost_for_translation(
                        src_node_id,
                        key_id,
                        transition_index,
                        translation_id,
                    ) {
                        self.dfs_subtrie(
                            src_node_id,
                            translation_id,
                            visited_nodes,
                            reverse_nodes,
                            visited_transitions,
                            nodes_toposort,
                            Ghost(depth + 1),
                        );
                        visited_transitions.push_to(
                            (src_node_id, node),
                            (key_id, transition_index),
                        );
                    }
                    s += 1;
                }
            }
            e += 1;
        }
        proof {
            assert(reverse_nodes.entries@.len() == rev.len());
        }
        nodes_toposort.push(node);
    }

    /// The part of the trie that a translation uses.
    pub fn get_subtrie_data(
        &self,
        reverse_nodes: &ReverseNodes,
        reverse_translations: &ReverseTranslations,
        translation_id: usize,
    ) -> (r: Option<SubtrieData>)
        ensures
            subtrie_view(r) == self@.subtrie_data(
                reverse_nodes.lists(),
                reverse_translations.lists(),
                translation_id,
            ),
    {
        let nodes = match reverse_translations.get_list(&translation_id) {
            Some(nodes) => nodes,
            None => {
                return None;
            },
        };
        let ghost rev = reverse_nodes.lists();
        let mut visited_nodes: Vec<usize> = Vec::new();
        let mut nodes_toposort: Vec<usize> = Vec::new();
        let mut visited_transitions: Table<(usize, usize), Vec<(Option<usize>, usize)>> =
            Table::new();
        let mut i: usize = 0;
        proof {
            assert(visited_transitions.lists() =~= Seq::empty());
        }
        while i < nodes.len()
            invariant
                i <= nodes.len(),
                rev == reverse_nodes.lists(),
                walk_of(visited_nodes@, visited_transitions, nodes_toposort@)
                    == self@.subtrie_from(rev, translation_id, nodes@, i as int),
            decreases nodes.len() - i,
        {
            self.dfs_subtrie(
                nodes[i],
                translation_id,
                &mut visited_nodes,
                reverse_nodes,
                &mut visited_transitions,
                &mut nodes_toposort,
                Ghost(0),
            );
            i += 1;
        }
        let ghost walk = self@.subtrie_from(rev, translation_id, nodes@, nodes@.len() as int);
        let mut transitions: Vec<SubtrieTransition> = Vec::new();
        let mut e: usize = 0;
        while e < visited_transitions.entries.len()
            invariant
                e <= visited_transitions.entries.len(),
                visited_transitions.lists() == walk.edges,
                transitions@.len() == e,
                forall|j: int|
                    0 <= j < e ==> (#[trigger] transitions@[j])@ == (SubtrieTransitionSpec {
                        src_node_id: walk.edges[j].0.0,
                        dst_node_id: walk.edges[j].0.1,
                        key_infos: self@.key_infos(walk.edges[j].0.0, walk.edges[j].1, translation_id),
                    }),
            decreases visited_transitions.entries.len() - e,
        {
            let src_node_id = visited_transitions.entries[e].0.0;
            let dst_node_id = visited_transitions.entries[e].0.1;
            let key_indices = &visited_transitions.entries[e].1;
            proof {
                assert(walk.edges[e as int] == ((src_node_id, dst_node_id), key_indices@));
            }
            let mut key_infos: Vec<(Option<usize>, usize, u64)> = Vec::new();
            let mut k: usize = 0;
            while k < key_indices.len()
                invariant
                    k <= key_indices.len(),
                    key_infos@.len() == k,
                    forall|j: int|
                        0 <= j < k ==> (#[trigger] key_infos@[j]) == self@.key_infos(
                            src_node_id,
                            key_indices@,
                            translation_id,
                        )[j],
                decreases key_indices.len() - k,
            {
                let key_id = key_indices[k].0;
                let transition_index = key_indices[k].1;
                let cost = match self.get_transition_cost(
                    &TransitionKey::new(src_node_id, key_id, transition_index),
                    translation_id,
                ) {
                    Some(cost) => cost,
                    None => 0,
                };
                key_infos.push((key_id, transition_index, cost));
                k += 1;
            }
            proof {
                assert(key_infos@ =~= self@.key_infos(src_node_id, key_indices@, translation_id));
            }
            transitions.push(SubtrieTransition { src_node_id, dst_node_id, key_infos });
            e += 1;
        }
        let data = SubtrieData {
            nodes: nodes_toposort,
            transitions,
            translation_nodes: clone_flags(nodes),
        };
        proof {
            assert(visited_transitions.entries@.len() == walk.edges.len());
            assert(data@.transitions =~= self@.subtrie_data(
                rev,
                reverse_translations.lists(),
                translation_id,
            )->Some_0.transitions);
        }
        Some(data)
    }
}

} // verus!

//! The mathematical model of the trie and of the operations that build it.

use vstd::prelude::*;
use crate::trie::source::SourceNodeSpec;
use crate::trie::table::{add_to, bind, find, find_index, lemma_bind, lemma_find_index, list_of};
use crate::trie::transition::{TransitionCostInfo, TransitionCostKey, TransitionKey, TriePathSpec};

verus! {

/// The mathematical value of a trie. Every table keeps its entries in the
/// order in which their keys first arrived.
pub struct TrieSpec {
    /// For each node, by node id: the destination lists of its outgoing
    /// transitions, by key.
    pub transitions: Seq<Seq<(Option<usize>, Seq<usize>)>>,
    /// The translations anchored at each node.
    pub node_translations: Seq<(usize, Seq<usize>)>,
    /// The cost book.
    pub transition_costs: Seq<(TransitionCostKey, u64)>,
    /// The nodes claimed by each translation.
    pub used_nodes: Seq<(usize, Seq<usize>)>,
}

/// A trie after an operation, with what the operation hands back.
pub struct Built<T> {
    pub trie: TrieSpec,
    pub value: T,
}

/// The position of the first element of `ds` that is not in `used`.
pub open spec fn first_unused(ds: Seq<usize>, used: Seq<usize>) -> Option<int>
    decreases ds.len(),
{
    if ds.len() == 0 {
        None
    } else {
        match first_unused(ds.drop_last(), used) {
            Some(i) => Some(i),
            None => if !used.contains(ds.last()) {
                Some(ds.len() - 1)
            } else {
                None
            },
        }
    }
}

/// `first_unused` finds the first unused element, if there is one.
pub proof fn lemma_first_unused(ds: Seq<usize>, used: Seq<usize>)
    ensures
        match first_unused(ds, used) {
            Some(i) => 0 <= i < ds.len() && !used.contains(ds[i]) && forall|j: int|
                0 <= j < i ==> used.contains(#[trigger] ds[j]),
            None => forall|j: int| 0 <= j < ds.len() ==> used.contains(#[trigger] ds[j]),
        },
    decreases ds.len(),
{
    if ds.len() > 0 {
        lemma_first_unused(ds.drop_last(), used);
        assert(forall|j: int| 0 <= j < ds.len() - 1 ==> ds[j] == ds.drop_last()[j]);
    }
}

/// The position of the first occurrence of `x` in `ds`.
pub open spec fn first_index_of(ds: Seq<usize>, x: usize) -> Option<int>
    decreases ds.len(),
{
    if ds.len() == 0 {
        None
    } else {
        match first_index_of(ds.drop_last(), x) {
            Some(i) => Some(i),
            None => if ds.last() == x {
                Some(ds.len() - 1)
            } else {
                None
            },
        }
    }
}

/// `first_index_of` finds the first occurrence, if there is one.
pub proof fn lemma_first_index_of(ds: Seq<usize>, x: usize)
    ensures
        match first_index_of(ds, x) {
            Some(i) => 0 <= i < ds.len() && ds[i] == x && forall|j: int|
                0 <= j < i ==> (#[trigger] ds[j]) != x,
            None => forall|j: int| 0 <= j < ds.len() ==> (#[trigger] ds[j]) != x,
        },
    decreases ds.len(),
{
    if ds.len() > 0 {
        lemma_first_index_of(ds.drop_last(), x);
        assert(forall|j: int| 0 <= j < ds.len() - 1 ==> ds[j] == ds.drop_last()[j]);
    }
}

/// The path of one transition.
pub open spec fn one_step(src: usize, key: Option<usize>, index: int, dst: usize) -> TriePathSpec {
    TriePathSpec {
        dst_node_id: dst,
        transitions: seq![
            TransitionKey { src_node_index: src, key_id: key, transition_index: index as usize },
        ],
    }
}

/// The destination of the transition that leaves `node` under `key` at
/// `index`, if there is such a transition.
pub open spec fn dst_of(t: TrieSpec, node: usize, key: Option<usize>, index: int) -> Option<usize> {
    if 0 <= index < t.dsts(node, key).len() {
        Some(t.dsts(node, key)[index])
    } else {
        None
    }
}

/// Every transition of `a` is a transition of `b`, with the same
/// destination.
pub open spec fn keeps(a: TrieSpec, b: TrieSpec) -> bool {
    forall|node: usize, key: Option<usize>, index: int|
        dst_of(a, node, key, index) is Some ==> #[trigger] dst_of(b, node, key, index) == dst_of(
            a,
            node,
            key,
            index,
        )
}

/// The last of the transitions `ts` leads to the node `n`.
pub open spec fn ends_at(t: TrieSpec, ts: Seq<TransitionKey>, n: usize) -> bool {
    ts.len() > 0 && dst_of(
        t,
        ts.last().src_node_index,
        ts.last().key_id,
        ts.last().transition_index as int,
    ) == Some(n)
}

/// The pairs of a source node and a key chain, source by source.
pub open spec fn pairs_of(
    srcs: Seq<SourceNodeSpec>,
    chains: Seq<Seq<Option<usize>>>,
) -> Seq<(SourceNodeSpec, Seq<Option<usize>>)>
    decreases srcs.len(),
{
    if srcs.len() == 0 {
        Seq::empty()
    } else {
        pairs_of(srcs.drop_last(), chains) + chains.map_values(
            |chain: Seq<Option<usize>>| (srcs.last(), chain),
        )
    }
}

/// What a join hands back.
pub struct JoinedSpec {
    pub dst_node_id: Option<usize>,
    pub transition_seqs: Seq<Seq<TransitionKey>>,
}

impl TrieSpec {
    /// A trie of one node, the root, without transitions.
    pub open spec fn empty() -> TrieSpec {
        TrieSpec {
            transitions: seq![Seq::empty()],
            node_translations: Seq::empty(),
            transition_costs: Seq::empty(),
            used_nodes: Seq::empty(),
        }
    }

    pub open spec fn n_nodes(self) -> nat {
        self.transitions.len()
    }

    /// The destinations of the transitions that leave `node` under `key`,
    /// by transition index.
    pub open spec fn dsts(self, node: usize, key: Option<usize>) -> Seq<usize> {
        if node < self.n_nodes() {
            list_of(self.transitions[node as int], key)
        } else {
            Seq::empty()
        }
    }

    /// The cost of a transition for a translation; `None` when the
    /// translation does not use the transition.
    pub open spec fn cost(self, transition: TransitionKey, translation_id: usize) -> Option<u64> {
        find(
            self.transition_costs,
            TransitionCostKey { transition_key: transition, translation_id },
        )
    }

    /// The nodes claimed by a translation.
    pub open spec fn used_by(self, translation_id: usize) -> Seq<usize> {
        list_of(self.used_nodes, translation_id)
    }

    /// The translations anchored at a node, in the order in which they were
    /// set.
    pub open spec fn translations_at(self, node: usize) -> Seq<usize> {
        list_of(self.node_translations, node)
    }

    /// Every transition leads to a node of the trie, and the root exists.
    pub open spec fn wf(self) -> bool {
        &&& self.n_nodes() > 0
        &&& forall|node: int, e: int, i: int|
            0 <= node < self.n_nodes() && 0 <= e < self.transitions[node].len() && 0 <= i
                < self.transitions[node][e].1.len() ==> (#[trigger] self.transitions[node][e].1[i])
                < self.n_nodes()
    }

    /// The node count and every destination list fit the machine's
    /// indexes.
    pub open spec fn fits(self) -> bool {
        &&& self.n_nodes() <= usize::MAX
        &&& forall|node: int, e: int|
            0 <= node < self.n_nodes() && 0 <= e < self.transitions[node].len() ==> (
            #[trigger] self.transitions[node][e]).1.len() <= usize::MAX
    }

    /// The trie with the cost of a transition recorded: the smaller of the
    /// new cost and the cost on record.
    pub open spec fn charge(self, transition: TransitionKey, info: TransitionCostInfo) -> TrieSpec {
        let key = TransitionCostKey {
            transition_key: transition,
            translation_id: info.translation_id,
        };
        TrieSpec {
            transition_costs: bind(
                self.transition_costs,
                key,
                match find(self.transition_costs, key) {
                    Some(existing) => if info.cost < existing {
                        info.cost
                    } else {
                        existing
                    },
                    None => info.cost,
                },
            ),
            ..self
        }
    }

    /// The trie with `node` claimed by a translation.
    pub open spec fn claim(self, translation_id: usize, node: usize) -> TrieSpec {
        if self.used_by(translation_id).contains(node) {
            self
        } else {
            TrieSpec { used_nodes: add_to(self.used_nodes, translation_id, node), ..self }
        }
    }

    /// The trie with one more node, without transitions.
    pub open spec fn with_node(self) -> TrieSpec {
        TrieSpec { transitions: self.transitions.push(Seq::empty()), ..self }
    }

    /// The trie with one more transition from `src` under `key`, to `dst`.
    pub open spec fn with_dst(self, src: usize, key: Option<usize>, dst: usize) -> TrieSpec
        recommends
            src < self.n_nodes(),
    {
        TrieSpec {
            transitions: self.transitions.update(
                src as int,
                add_to(self.transitions[src as int], key, dst),
            ),
            ..self
        }
    }

    /// Following `key` from `src` for a translation: the first transition
    /// under that key whose destination the translation has not claimed is
    /// taken; if there is none, a transition to a new node is added. The
    /// destination is claimed and the cost recorded.
    pub open spec fn follow(self, src: usize, key: Option<usize>, info: TransitionCostInfo) -> Built<
        TriePathSpec,
    > {
        let ds = self.dsts(src, key);
        match first_unused(ds, self.used_by(info.translation_id)) {
            Some(i) => Built {
                trie: self.claim(info.translation_id, ds[i]).charge(
                    TransitionKey { src_node_index: src, key_id: key, transition_index: i as usize },
                    info,
                ),
                value: one_step(src, key, i, ds[i]),
            },
            None => {
                let fresh = self.n_nodes() as usize;
                Built {
                    trie: self.with_node().claim(info.translation_id, fresh).with_dst(
                        src,
                        key,
                        fresh,
                    ).charge(
                        TransitionKey {
                            src_node_index: src,
                            key_id: key,
                            transition_index: ds.len() as usize,
                        },
                        info,
                    ),
                    value: one_step(src, key, ds.len() as int, fresh),
                }
            },
        }
    }

    /// Following each key of `keys` in turn, at no cost.
    pub open spec fn follow_each(self, src: usize, keys: Seq<Option<usize>>, translation_id: usize) -> Built<
        TriePathSpec,
    >
        decreases keys.len(),
    {
        if keys.len() == 0 {
            Built { trie: self, value: TriePathSpec { dst_node_id: src, transitions: Seq::empty() } }
        } else {
            let before = self.follow_each(src, keys.drop_last(), translation_id);
            let last = before.trie.follow(
                before.value.dst_node_id,
                keys.last(),
                TransitionCostInfo { cost: 0, translation_id },
            );
            Built {
                trie: last.trie,
                value: TriePathSpec {
                    dst_node_id: last.value.dst_node_id,
                    transitions: before.value.transitions + last.value.transitions,
                },
            }
        }
    }

    /// Following a chain of keys: every step but the last at no cost, the
    /// last at the full cost.
    pub open spec fn follow_chain(self, src: usize, keys: Seq<Option<usize>>, info: TransitionCostInfo) -> Built<
        TriePathSpec,
    > {
        if keys.len() == 0 {
            Built { trie: self, value: TriePathSpec { dst_node_id: src, transitions: Seq::empty() } }
        } else {
            let before = self.follow_each(src, keys.drop_last(), info.translation_id);
            let last = before.trie.follow(before.value.dst_node_id, keys.last(), info);
            Built {
                trie: last.trie,
                value: TriePathSpec {
                    dst_node_id: last.value.dst_node_id,
                    transitions: before.value.transitions + last.value.transitions,
                },
            }
        }
    }

    /// Linking `src` to `dst` under `key`: the first transition under that
    /// key that leads to `dst` is taken; if there is none, one is added.
    /// The cost is recorded and `dst` claimed.
    pub open spec fn link(self, src: usize, dst: usize, key: Option<usize>, info: TransitionCostInfo) -> Built<
        TransitionKey,
    > {
        let ds = self.dsts(src, key);
        let index = match first_index_of(ds, dst) {
            Some(i) => i,
            None => ds.len() as int,
        };
        let transition = TransitionKey {
            src_node_index: src,
            key_id: key,
            transition_index: index as usize,
        };
        let linked = if first_index_of(ds, dst) is Some {
            self
        } else {
            self.with_dst(src, key, dst)
        };
        Built { trie: linked.charge(transition, info).claim(info.translation_id, dst), value: transition }
    }

    /// Linking a chain of keys: all keys but the last are followed at no
    /// cost, the last links to `dst` at the full cost. An empty chain does
    /// nothing.
    pub open spec fn link_chain(
        self,
        src: usize,
        dst: usize,
        keys: Seq<Option<usize>>,
        info: TransitionCostInfo,
    ) -> Built<Seq<TransitionKey>> {
        if keys.len() == 0 {
            Built { trie: self, value: Seq::empty() }
        } else {
            let before = self.follow_each(src, keys.drop_last(), info.translation_id);
            let last = before.trie.link(before.value.dst_node_id, dst, keys.last(), info);
            Built { trie: last.trie, value: before.value.transitions.push(last.value) }
        }
    }

    /// Linking every pair to `dst`, each at the cost of its source node.
    pub open spec fn link_all(
        self,
        pairs: Seq<(SourceNodeSpec, Seq<Option<usize>>)>,
        dst: usize,
        translation_id: usize,
    ) -> Built<Seq<Seq<TransitionKey>>>
        decreases pairs.len(),
    {
        if pairs.len() == 0 {
            Built { trie: self, value: Seq::empty() }
        } else {
            let before = self.link_all(pairs.drop_last(), dst, translation_id);
            let last = before.trie.link_chain(
                pairs.last().0.src_node_index,
                dst,
                pairs.last().1,
                TransitionCostInfo { cost: pairs.last().0.outgoing_cost, translation_id },
            );
            Built { trie: last.trie, value: before.value.push(last.value) }
        }
    }

    /// Joining source nodes at one destination under key chains. Without
    /// pairs nothing happens. With a destination, every pair is linked to
    /// it. Without one, the first pair is followed, which gives the
    /// destination, and the other pairs are linked to that.
    pub open spec fn link_join_chain(
        self,
        srcs: Seq<SourceNodeSpec>,
        dst: Option<usize>,
        chains: Seq<Seq<Option<usize>>>,
        translation_id: usize,
    ) -> Built<JoinedSpec> {
        let pairs = pairs_of(srcs, chains);
        if pairs.len() == 0 {
            Built { trie: self, value: JoinedSpec { dst_node_id: None, transition_seqs: Seq::empty() } }
        } else {
            match dst {
                Some(d) => {
                    let all = self.link_all(pairs, d, translation_id);
                    Built {
                        trie: all.trie,
                        value: JoinedSpec { dst_node_id: Some(d), transition_seqs: all.value },
                    }
                },
                None => {
                    let first = self.follow_chain(
                        pairs[0].0.src_node_index,
                        pairs[0].1,
                        TransitionCostInfo { cost: pairs[0].0.outgoing_cost, translation_id },
                    );
                    let rest = first.trie.link_all(
                        pairs.drop_first(),
                        first.value.dst_node_id,
                        translation_id,
                    );
                    Built {
                        trie: rest.trie,
                        value: JoinedSpec {
                            dst_node_id: Some(first.value.dst_node_id),
                            transition_seqs: seq![first.value.transitions] + rest.value,
                        },
                    }
                },
            }
        }
    }

    /// The trie with a translation anchored at a node.
    pub open spec fn set_translation(self, node: usize, translation_id: usize) -> TrieSpec {
        TrieSpec { node_translations: add_to(self.node_translations, node, translation_id), ..self }
    }
}


/// One more transition changes the destinations under its key at its
/// source, and no others.
pub proof fn lemma_with_dst(t: TrieSpec, src: usize, key: Option<usize>, x: usize)
    requires
        src < t.n_nodes(),
    ensures
        forall|node: usize, k: Option<usize>| #[trigger]
            t.with_dst(src, key, x).dsts(node, k) == if node == src && k == key {
                t.dsts(src, key).push(x)
            } else {
                t.dsts(node, k)
            },
{
    let after = t.with_dst(src, key, x);
    let table = t.transitions[src as int];
    assert forall|node: usize, k: Option<usize>| #[trigger]
        after.dsts(node, k) == if node == src && k == key {
            t.dsts(src, key).push(x)
        } else {
            t.dsts(node, k)
        } by {
        if node == src {
            lemma_bind(table, key, list_of(table, key).push(x), k);
        }
    }
}

/// Following keeps every transition, and the path it hands back ends at
/// the node it names.
pub proof fn lemma_follow_keeps(t: TrieSpec, src: usize, key: Option<usize>, info: TransitionCostInfo)
    requires
        src < t.n_nodes(),
        t.fits(),
    ensures
        keeps(t, t.follow(src, key, info).trie),
        ends_at(
            t.follow(src, key, info).trie,
            t.follow(src, key, info).value.transitions,
            t.follow(src, key, info).value.dst_node_id,
        ),
{
    let ds = t.dsts(src, key);
    let after = t.follow(src, key, info).trie;
    lemma_first_unused(ds, t.used_by(info.translation_id));
    lemma_find_index(t.transitions[src as int], key);
    match first_unused(ds, t.used_by(info.translation_id)) {
        Some(i) => {
            assert(forall|node: usize, k: Option<usize>| after.dsts(node, k) == t.dsts(node, k));
            assert(dst_of(after, src, key, i) == Some(ds[i]));
        },
        None => {
            let fresh = t.n_nodes() as usize;
            let grown = t.with_node().claim(info.translation_id, fresh);
            assert(forall|node: usize, k: Option<usize>| #[trigger]
                grown.dsts(node, k) == t.dsts(node, k));
            lemma_with_dst(grown, src, key, fresh);
            let linked = grown.with_dst(src, key, fresh);
            assert(forall|node: usize, k: Option<usize>| #[trigger]
                after.dsts(node, k) == linked.dsts(node, k));
            assert forall|node: usize, k: Option<usize>, index: int|
                dst_of(t, node, k, index) is Some implies #[trigger] dst_of(after, node, k, index)
                == dst_of(t, node, k, index) by {
                assert(after.dsts(node, k) == linked.dsts(node, k));
            }
            assert(after.dsts(src, key) == ds.push(fresh));
            assert(dst_of(after, src, key, ds.len() as int) == Some(fresh));
        },
    }
}

/// Linking keeps every transition, and the transition it hands back leads
/// to the destination.
pub proof fn lemma_link_keeps(
    t: TrieSpec,
    src: usize,
    dst: usize,
    key: Option<usize>,
    info: TransitionCostInfo,
)
    requires
        src < t.n_nodes(),
        t.fits(),
    ensures
        keeps(t, t.link(src, dst, key, info).trie),
        ends_at(t.link(src, dst, key, info).trie, seq![t.link(src, dst, key, info).value], dst),
{
    let ds = t.dsts(src, key);
    let after = t.link(src, dst, key, info).trie;
    lemma_first_index_of(ds, dst);
    lemma_find_index(t.transitions[src as int], key);
    match first_index_of(ds, dst) {
        Some(i) => {
            assert(forall|node: usize, k: Option<usize>| after.dsts(node, k) == t.dsts(node, k));
            assert(dst_of(after, src, key, i) == Some(dst));
        },
        None => {
            lemma_with_dst(t, src, key, dst);
            let linked = t.with_dst(src, key, dst);
            assert(forall|node: usize, k: Option<usize>| #[trigger]
                after.dsts(node, k) == linked.dsts(node, k));
            assert forall|node: usize, k: Option<usize>, index: int|
                dst_of(t, node, k, index) is Some implies #[trigger] dst_of(after, node, k, index)
                == dst_of(t, node, k, index) by {
                assert(after.dsts(node, k) == linked.dsts(node, k));
            }
            assert(after.dsts(src, key) == ds.push(dst));
            assert(dst_of(after, src, key, ds.len() as int) == Some(dst));
        },
    }
}

/// Keeping transitions carries over two steps.
pub proof fn lemma_keeps_trans(a: TrieSpec, b: TrieSpec, c: TrieSpec)
    requires
        keeps(a, b),
        keeps(b, c),
    ensures
        keeps(a, c),
{
    assert forall|node: usize, key: Option<usize>, index: int|
        dst_of(a, node, key, index) is Some implies #[trigger] dst_of(c, node, key, index)
        == dst_of(a, node, key, index) by {
        assert(dst_of(b, node, key, index) == dst_of(a, node, key, index));
    }
}

/// Transitions that end at a node still end there after a step that keeps
/// every transition.
pub proof fn lemma_ends_at_kept(a: TrieSpec, b: TrieSpec, ts: Seq<TransitionKey>, n: usize)
    requires
        keeps(a, b),
        ends_at(a, ts, n),
    ensures
        ends_at(b, ts, n),
{
    assert(dst_of(
        b,
        ts.last().src_node_index,
        ts.last().key_id,
        ts.last().transition_index as int,
    ) == dst_of(a, ts.last().src_node_index, ts.last().key_id, ts.last().transition_index as int));
}

} // verus!

//! Laws of the trie: what the paths of a traversal look like, where the
//! transition sequences of a join end, and which transitions a reverse
//! lookup can report.

use vstd::prelude::*;
use crate::trie::model::{Built, JoinedSpec, TrieSpec, pairs_of};
use crate::trie::reverse::ReverseTranslationsSpec;
use crate::trie::source::SourceNodeSpec;
use crate::trie::table::list_of;
use crate::trie::transition::TransitionCostInfo;
use crate::trie::query::{empty_transition, extended};
use crate::trie::reverse::ReverseNodesSpec;
use crate::trie::transition::{LookupResultSpec, TransitionKey, TriePathSpec};

verus! {

/// `ts` continues `base` by empty transitions only.
pub open spec fn continues_empty(base: Seq<TransitionKey>, ts: Seq<TransitionKey>) -> bool {
    &&& base.len() <= ts.len()
    &&& forall|i: int| 0 <= i < base.len() ==> #[trigger] ts[i] == base[i]
    &&& forall|i: int| base.len() <= i < ts.len() ==> (#[trigger] ts[i]).key_id is None
}

/// `ts` continues `base` by one transition under `key` and then by empty
/// transitions only.
pub open spec fn continues_by(base: Seq<TransitionKey>, key: Option<usize>, ts: Seq<TransitionKey>) -> bool {
    &&& base.len() < ts.len()
    &&& forall|i: int| 0 <= i < base.len() ==> #[trigger] ts[i] == base[i]
    &&& ts[base.len() as int].key_id == key
    &&& forall|i: int| base.len() < i < ts.len() ==> (#[trigger] ts[i]).key_id is None
}

/// The transitions `ts` spell the keys `keys`: one transition under each
/// key, in order, each followed by any number of empty transitions.
pub open spec fn spells(ts: Seq<TransitionKey>, keys: Seq<Option<usize>>) -> bool
    decreases ts.len(),
{
    if ts.len() == 0 {
        keys.len() == 0
    } else {
        keys.len() > 0 && ((ts.last().key_id is None && spells(ts.drop_last(), keys)) || (
        ts.last().key_id == keys.last() && spells(ts.drop_last(), keys.drop_last())))
    }
}

/// `ts` continues `base` by transitions that spell `keys`.
pub open spec fn continues_spelling(
    base: Seq<TransitionKey>,
    keys: Seq<Option<usize>>,
    ts: Seq<TransitionKey>,
) -> bool {
    &&& base.len() <= ts.len()
    &&& ts.take(base.len() as int) == base
    &&& spells(ts.skip(base.len() as int), keys)
}

/// Transitions that spell keys are at least as many as the keys.
pub proof fn lemma_spells_len(ts: Seq<TransitionKey>, keys: Seq<Option<usize>>)
    requires
        spells(ts, keys),
    ensures
        ts.len() >= keys.len(),
    decreases ts.len(),
{
    if ts.len() > 0 {
        if ts.last().key_id is None && spells(ts.drop_last(), keys) {
            lemma_spells_len(ts.drop_last(), keys);
        } else {
            lemma_spells_len(ts.drop_last(), keys.drop_last());
        }
    }
}

/// The paths reached by empty transitions continue the path they start
/// from by empty transitions only.
pub proof fn lemma_eps_closure(t: TrieSpec, path: TriePathSpec, visited: Seq<TransitionKey>, j: int)
    requires
        0 <= j < t.eps_closure(path, visited).len(),
    ensures
        continues_empty(path.transitions, t.eps_closure(path, visited)[j].transitions),
    decreases usize::MAX - path.transitions.len(), t.dsts(path.dst_node_id, None).len() + 1,
{
    if j > 0 {
        lemma_eps_through(t, path, visited, t.dsts(path.dst_node_id, None).len() as int, j - 1);
    }
}

/// The paths reached through empty transitions continue the path they
/// start from by empty transitions only.
pub proof fn lemma_eps_through(
    t: TrieSpec,
    path: TriePathSpec,
    visited: Seq<TransitionKey>,
    upto: int,
    j: int,
)
    requires
        0 <= j < t.eps_through(path, visited, upto).len(),
    ensures
        continues_empty(path.transitions, t.eps_through(path, visited, upto)[j].transitions),
    decreases usize::MAX - path.transitions.len(), upto,
{
    if upto <= 0 || upto > t.dsts(path.dst_node_id, None).len() {
    } else {
        let before = t.eps_through(path, visited, upto - 1);
        if j < before.len() {
            lemma_eps_through(t, path, visited, upto - 1, j);
        } else {
            let transition = empty_transition(path.dst_node_id, upto - 1);
            let next = extended(path, transition, t.dsts(path.dst_node_id, None)[upto - 1]);
            lemma_eps_closure(t, next, visited.push(transition), j - before.len());
            let ts = t.eps_closure(next, visited.push(transition))[j - before.len()].transitions;
            assert forall|i: int| 0 <= i < path.transitions.len() implies #[trigger] ts[i]
                == path.transitions[i] by {
                assert(ts[i] == next.transitions[i]);
            }
            assert forall|i: int| path.transitions.len() <= i < ts.len() implies (
            #[trigger] ts[i]).key_id is None by {
                if i == path.transitions.len() {
                    assert(ts[i] == next.transitions[i]);
                }
            }
        }
    }
}

/// The paths reached under a key continue the path they start from by one
/// transition under the key, then by empty transitions only.
pub proof fn lemma_traverse_through(
    t: TrieSpec,
    path: TriePathSpec,
    key: Option<usize>,
    upto: int,
    j: int,
)
    requires
        0 <= j < t.traverse_through(path, key, upto).len(),
    ensures
        continues_by(path.transitions, key, t.traverse_through(path, key, upto)[j].transitions),
    decreases upto,
{
    if upto <= 0 || upto > t.dsts(path.dst_node_id, key).len() {
    } else {
        let before = t.traverse_through(path, key, upto - 1);
        if j < before.len() {
            lemma_traverse_through(t, path, key, upto - 1, j);
        } else {
            let transition = TransitionKey {
                src_node_index: path.dst_node_id,
                key_id: key,
                transition_index: (upto - 1) as usize,
            };
            let next = extended(path, transition, t.dsts(path.dst_node_id, key)[upto - 1]);
            lemma_eps_closure(t, next, Seq::empty(), j - before.len());
            let ts = t.eps_closure(next, Seq::empty())[j - before.len()].transitions;
            assert forall|i: int| 0 <= i < path.transitions.len() implies #[trigger] ts[i]
                == path.transitions[i] by {
                assert(ts[i] == next.transitions[i]);
            }
            assert(ts[path.transitions.len() as int] == next.transitions[path.transitions.len() as int]);
        }
    }
}

/// Each path of a traversal under a key continues one of the paths that
/// the traversal starts from; the lemma hands back which.
pub proof fn lemma_traverse(t: TrieSpec, paths: Seq<TriePathSpec>, key: Option<usize>, j: int) -> (i:
    int)
    requires
        0 <= j < t.traverse(paths, key).len(),
    ensures
        0 <= i < paths.len(),
        continues_by(paths[i].transitions, key, t.traverse(paths, key)[j].transitions),
    decreases paths.len(),
{
    let before = t.traverse(paths.drop_last(), key);
    if j < before.len() {
        let i = lemma_traverse(t, paths.drop_last(), key, j);
        assert(paths.drop_last()[i] == paths[i]);
        i
    } else {
        lemma_traverse_through(
            t,
            paths.last(),
            key,
            t.dsts(paths.last().dst_node_id, key).len() as int,
            j - before.len(),
        );
        paths.len() - 1
    }
}

/// A spelling goes on by one more key: a transition under the key, then
/// empty transitions.
pub proof fn lemma_spells_more(
    base: Seq<TransitionKey>,
    keys: Seq<Option<usize>>,
    mid: Seq<TransitionKey>,
    key: Option<usize>,
    ts: Seq<TransitionKey>,
)
    requires
        continues_spelling(base, keys, mid),
        continues_by(mid, key, ts),
    ensures
        continues_spelling(base, keys.push(key), ts),
    decreases ts.len(),
{
    let b = base.len() as int;
    assert(ts.take(b) =~= base) by {
        assert forall|i: int| 0 <= i < b implies ts.take(b)[i] == base[i] by {
            assert(ts[i] == mid[i]);
            assert(mid.take(b)[i] == mid[i]);
        }
    }
    let tail = ts.skip(b);
    assert(tail.last() == ts.last());
    assert(tail.drop_last() =~= ts.drop_last().skip(b));
    assert(keys.push(key).drop_last() =~= keys);
    if ts.len() == mid.len() + 1 {
        assert(ts.drop_last() =~= mid);
    } else {
        let shorter = ts.drop_last();
        assert(continues_by(mid, key, shorter)) by {
            assert forall|i: int| 0 <= i < mid.len() implies #[trigger] shorter[i] == mid[i] by {
                assert(ts[i] == mid[i]);
            }
        }
        lemma_spells_more(base, keys, mid, key, shorter);
    }
}

/// Every path that a traversal along `keys` arrives at continues one of
/// the paths it started from, by transitions that spell the keys: one
/// transition under each key, in order, each followed by empty
/// transitions only. The transitions added are at least as many as the
/// keys. The lemma hands back the starting path.
pub proof fn lemma_traverse_chain_spells(
    t: TrieSpec,
    starts: Seq<TriePathSpec>,
    keys: Seq<Option<usize>>,
    j: int,
) -> (s: int)
    requires
        0 <= j < t.traverse_chain(starts, keys).len(),
    ensures
        0 <= s < starts.len(),
        continues_spelling(starts[s].transitions, keys, t.traverse_chain(starts, keys)[j].transitions),
        t.traverse_chain(starts, keys)[j].transitions.len() >= starts[s].transitions.len()
            + keys.len(),
    decreases keys.len(),
{
    if keys.len() == 0 {
        let ts = starts[j].transitions;
        assert(ts.take(ts.len() as int) =~= ts);
        assert(ts.skip(ts.len() as int) =~= Seq::<TransitionKey>::empty());
        j
    } else {
        let mid = t.traverse_chain(starts, keys.drop_last());
        let i = lemma_traverse(t, mid, keys.last(), j);
        let s = lemma_traverse_chain_spells(t, starts, keys.drop_last(), i);
        let ts = t.traverse_chain(starts, keys)[j].transitions;
        lemma_spells_more(starts[s].transitions, keys.drop_last(), mid[i].transitions, keys.last(), ts);
        assert(keys.drop_last().push(keys.last()) =~= keys);
        lemma_spells_len(ts.skip(starts[s].transitions.len() as int), keys);
        s
    }
}

/// There are pairs of a source node and a key chain exactly when there
/// are source nodes and key chains.
pub proof fn lemma_pairs_nonempty(srcs: Seq<SourceNodeSpec>, chains: Seq<Seq<Option<usize>>>)
    ensures
        pairs_of(srcs, chains).len() > 0 <==> srcs.len() > 0 && chains.len() > 0,
        srcs.len() > 0 && chains.len() > 0 ==> pairs_of(srcs, chains)[0] == (srcs[0], chains[0]),
    decreases srcs.len(),
{
    if srcs.len() > 0 {
        lemma_pairs_nonempty(srcs.drop_last(), chains);
        let before = pairs_of(srcs.drop_last(), chains);
        let row = chains.map_values(|chain: Seq<Option<usize>>| (srcs.last(), chain));
        if chains.len() > 0 {
            if srcs.len() == 1 {
                assert(before.len() == 0);
                assert((before + row)[0] == row[0]);
            } else {
                assert((before + row)[0] == before[0]);
                assert(srcs.drop_last()[0] == srcs[0]);
            }
        }
    }
}

/// A join without a destination, over at least one source node and one
/// key chain, has a destination: the node that following the first chain
/// from the first source node arrives at. The first transition sequence is
/// the path followed, and every other pair is linked to that node, in
/// order.
pub proof fn lemma_join_makes_destination(
    t: TrieSpec,
    srcs: Seq<SourceNodeSpec>,
    chains: Seq<Seq<Option<usize>>>,
    translation_id: usize,
)
    requires
        srcs.len() > 0,
        chains.len() > 0,
    ensures
        ({
            let joined = t.link_join_chain(srcs, None, chains, translation_id);
            let first = t.follow_chain(
                srcs[0].src_node_index,
                chains[0],
                TransitionCostInfo { cost: srcs[0].outgoing_cost, translation_id },
            );
            let rest = first.trie.link_all(
                pairs_of(srcs, chains).drop_first(),
                first.value.dst_node_id,
                translation_id,
            );
            &&& joined.value.dst_node_id == Some(first.value.dst_node_id)
            &&& joined.value.transition_seqs == seq![first.value.transitions] + rest.value
            &&& joined.trie == rest.trie
        }),
{
    lemma_pairs_nonempty(srcs, chains);
}

/// Every transition of a walk back to the root has a cost on record for
/// the translation, provided the transitions walked before have.
pub proof fn lemma_reverse_walks_costed(
    t: TrieSpec,
    rev: ReverseNodesSpec,
    translation_id: usize,
    node: usize,
    reversed: Seq<TransitionKey>,
    cost: u64,
    visited: Seq<usize>,
    j: int,
)
    requires
        forall|i: int| 0 <= i < reversed.len() ==> t.cost(#[trigger] reversed[i], translation_id) is Some,
        0 <= j < t.reverse_walks(rev, translation_id, node, reversed, cost, visited).len(),
    ensures
        ({
            let found = t.reverse_walks(rev, translation_id, node, reversed, cost, visited)[j];
            &&& found.translation_id == translation_id
            &&& forall|i: int|
                0 <= i < found.transitions.len() ==> t.cost(
                    #[trigger] found.transitions[i],
                    translation_id,
                ) is Some
        }),
    decreases usize::MAX - reversed.len(), rev.len() + 1, 0int,
{
    if node == 0 {
        let found = t.reverse_walks(rev, translation_id, node, reversed, cost, visited)[j];
        assert forall|i: int| 0 <= i < found.transitions.len() implies t.cost(
            #[trigger] found.transitions[i],
            translation_id,
        ) is Some by {
            assert(found.transitions[i] == reversed[reversed.len() - 1 - i]);
        }
    } else {
        lemma_reverse_walks_keys_costed(
            t,
            rev,
            translation_id,
            node,
            reversed,
            cost,
            visited,
            rev.len() as int,
            j,
        );
    }
}

/// As `lemma_reverse_walks_costed`, for the walks through the first entries
/// of the index.
pub proof fn lemma_reverse_walks_keys_costed(
    t: TrieSpec,
    rev: ReverseNodesSpec,
    translation_id: usize,
    node: usize,
    reversed: Seq<TransitionKey>,
    cost: u64,
    visited: Seq<usize>,
    upto: int,
    j: int,
)
    requires
        forall|i: int| 0 <= i < reversed.len() ==> t.cost(#[trigger] reversed[i], translation_id) is Some,
        0 <= j < t.reverse_walks_keys(rev, translation_id, node, reversed, cost, visited, upto).len(),
    ensures
        ({
            let found = t.reverse_walks_keys(
                rev,
                translation_id,
                node,
                reversed,
                cost,
                visited,
                upto,
            )[j];
            &&& found.translation_id == translation_id
            &&& forall|i: int|
                0 <= i < found.transitions.len() ==> t.cost(
                    #[trigger] found.transitions[i],
                    translation_id,
                ) is Some
        }),
    decreases usize::MAX - reversed.len(), upto, 0int,
{
    if upto <= 0 || upto > rev.len() {
    } else {
        let before = t.reverse_walks_keys(
            rev,
            translation_id,
            node,
            reversed,
            cost,
            visited,
            upto - 1,
        );
        if j < before.len() {
            lemma_reverse_walks_keys_costed(
                t,
                rev,
                translation_id,
                node,
                reversed,
                cost,
                visited,
                upto - 1,
                j,
            );
        } else {
            lemma_reverse_walks_sources_costed(
                t,
                rev,
                translation_id,
                node,
                reversed,
                cost,
                visited,
                upto - 1,
                rev[upto - 1].1.len() as int,
                j - before.len(),
            );
        }
    }
}

/// As `lemma_reverse_walks_costed`, for the walks through the first
/// transitions of one entry of the index.
pub proof fn lemma_reverse_walks_sources_costed(
    t: TrieSpec,
    rev: ReverseNodesSpec,
    translation_id: usize,
    node: usize,
    reversed: Seq<TransitionKey>,
    cost: u64,
    visited: Seq<usize>,
    entry: int,
    upto: int,
    j: int,
)
    requires
        forall|i: int| 0 <= i < reversed.len() ==> t.cost(#[trigger] reversed[i], translation_id) is Some,
        0 <= j < t.reverse_walks_sources(
            rev,
            translation_id,
            node,
            reversed,
            cost,
            visited,
            entry,
            upto,
        ).len(),
    ensures
        ({
            let found = t.reverse_walks_sources(
                rev,
                translation_id,
                node,
                reversed,
                cost,
                visited,
                entry,
                upto,
            )[j];
            &&& found.translation_id == translation_id
            &&& forall|i: int|
                0 <= i < found.transitions.len() ==> t.cost(
                    #[trigger] found.transitions[i],
                    translation_id,
                ) is Some
        }),
    decreases usize::MAX - reversed.len(), entry, upto,
{
    if upto <= 0 || entry < 0 || entry >= rev.len() || upto > rev[entry].1.len() {
    } else {
        let before = t.reverse_walks_sources(
            rev,
            translation_id,
            node,
            reversed,
            cost,
            visited,
            entry,
            upto - 1,
        );
        if j < before.len() {
            lemma_reverse_walks_sources_costed(
                t,
                rev,
                translation_id,
                node,
                reversed,
                cost,
                visited,
                entry,
                upto - 1,
                j,
            );
        } else {
            let transition = TransitionKey {
                src_node_index: rev[entry].1[upto - 1].0,
                key_id: rev[entry].0.1,
                transition_index: rev[entry].1[upto - 1].1,
            };
            let longer = reversed.push(transition);
            assert forall|i: int| 0 <= i < longer.len() implies t.cost(
                #[trigger] longer[i],
                translation_id,
            ) is Some by {
                if i < reversed.len() {
                    assert(longer[i] == reversed[i]);
                }
            }
            lemma_reverse_walks_costed(
                t,
                rev,
                translation_id,
                transition.src_node_index,
                longer,
                crate::trie::transition::add_costs(
                    cost,
                    t.cost(transition, translation_id)->Some_0,
                ),
                visited.push(transition.src_node_index),
                j - before.len(),
            );
        }
    }
}

/// As `lemma_reverse_walks_costed`, for the walks from the first anchors.
pub proof fn lemma_reverse_lookup_from_costed(
    t: TrieSpec,
    rev: ReverseNodesSpec,
    translation_id: usize,
    anchors: Seq<usize>,
    upto: int,
    j: int,
)
    requires
        0 <= j < t.reverse_lookup_from(rev, translation_id, anchors, upto).len(),
    ensures
        ({
            let found = t.reverse_lookup_from(rev, translation_id, anchors, upto)[j];
            &&& found.translation_id == translation_id
            &&& forall|i: int|
                0 <= i < found.transitions.len() ==> t.cost(
                    #[trigger] found.transitions[i],
                    translation_id,
                ) is Some
        }),
    decreases upto,
{
    if upto > 0 {
        let before = t.reverse_lookup_from(rev, translation_id, anchors, upto - 1);
        if j < before.len() {
            lemma_reverse_lookup_from_costed(t, rev, translation_id, anchors, upto - 1, j);
        } else {
            lemma_reverse_walks_costed(
                t,
                rev,
                translation_id,
                anchors[upto - 1],
                Seq::empty(),
                0,
                seq![anchors[upto - 1]],
                j - before.len(),
            );
        }
    }
}

/// Every transition that a reverse lookup reports for a translation has a
/// cost on record for that translation.
pub proof fn lemma_reverse_lookup_reports_costed(
    t: TrieSpec,
    rev: ReverseNodesSpec,
    rev_translations: ReverseTranslationsSpec,
    translation_id: usize,
    j: int,
    i: int,
)
    requires
        0 <= j < t.reverse_lookup_results(rev, rev_translations, translation_id).len(),
        0 <= i < t.reverse_lookup_results(rev, rev_translations, translation_id)[j].transitions.len(),
    ensures
        t.cost(
            t.reverse_lookup_results(rev, rev_translations, translation_id)[j].transitions[i],
            translation_id,
        ) is Some,
{
    let anchors = list_of(rev_translations, translation_id);
    lemma_reverse_lookup_from_costed(t, rev, translation_id, anchors, anchors.len() as int, j);
}

} // verus!

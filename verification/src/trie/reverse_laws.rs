//! Laws of the reverse index: it knows every transition of the trie, and a
//! reverse lookup finds every walk from an anchor back to the root.

use vstd::prelude::*;
use crate::trie::laws::lemma_reverse_lookup_reports_costed;
use crate::trie::model::{TrieSpec, dst_of};
use crate::trie::reverse::{
    ReverseNodesSpec, ReverseTranslationsSpec, reverse_keys, reverse_list, reverse_nodes,
};
use crate::trie::table::{add_to, bind, find_index, lemma_find_index, list_of};
use crate::trie::transition::{LookupResultSpec, TransitionKey, add_costs};

verus! {

/// The index lists the transition from `src` at `index` among those that
/// arrive at `dst` under `key`, at entry `e` and position `u`.
pub open spec fn lists_transition(
    rev: ReverseNodesSpec,
    dst: usize,
    key: Option<usize>,
    src: usize,
    index: usize,
    e: int,
    u: int,
) -> bool {
    &&& 0 <= e < rev.len()
    &&& rev[e].0 == (dst, key)
    &&& 0 <= u < rev[e].1.len()
    &&& rev[e].1[u] == (src, index)
}

/// Appending to a list of the index keeps what the index lists, where it
/// lists it.
pub proof fn lemma_add_keeps(
    rev: ReverseNodesSpec,
    k: (usize, Option<usize>),
    x: (usize, usize),
    dst: usize,
    key: Option<usize>,
    src: usize,
    index: usize,
    e: int,
    u: int,
)
    requires
        lists_transition(rev, dst, key, src, index, e, u),
    ensures
        lists_transition(add_to(rev, k, x), dst, key, src, index, e, u),
{
    lemma_find_index(rev, k);
}

/// Appending to a list of the index makes the index list what was
/// appended; the lemma hands back where.
pub proof fn lemma_add_lists(rev: ReverseNodesSpec, k: (usize, Option<usize>), x: (usize, usize)) -> (at:
    (int, int))
    ensures
        lists_transition(add_to(rev, k, x), k.0, k.1, x.0, x.1, at.0, at.1),
{
    lemma_find_index(rev, k);
    match find_index(rev, k) {
        Some(i) => (i, rev[i].1.len() as int),
        None => (rev.len() as int, 0),
    }
}

/// Entering the transitions of one destination list keeps what the index
/// lists.
pub proof fn lemma_reverse_list_keeps(
    acc: ReverseNodesSpec,
    node: usize,
    k: Option<usize>,
    ds: Seq<usize>,
    upto: int,
    dst: usize,
    key: Option<usize>,
    src: usize,
    index: usize,
    e: int,
    u: int,
)
    requires
        lists_transition(acc, dst, key, src, index, e, u),
    ensures
        lists_transition(reverse_list(acc, node, k, ds, upto), dst, key, src, index, e, u),
    decreases upto,
{
    if upto > 0 {
        lemma_reverse_list_keeps(acc, node, k, ds, upto - 1, dst, key, src, index, e, u);
        lemma_add_keeps(
            reverse_list(acc, node, k, ds, upto - 1),
            (ds[upto - 1], k),
            (node, (upto - 1) as usize),
            dst,
            key,
            src,
            index,
            e,
            u,
        );
    }
}

/// Entering the first `upto` transitions of a destination list makes the
/// index list each of them; the lemma hands back where.
pub proof fn lemma_reverse_list_lists(
    acc: ReverseNodesSpec,
    node: usize,
    k: Option<usize>,
    ds: Seq<usize>,
    upto: int,
    i: int,
) -> (at: (int, int))
    requires
        0 <= i < upto <= ds.len(),
        ds.len() <= usize::MAX,
    ensures
        lists_transition(
            reverse_list(acc, node, k, ds, upto),
            ds[i],
            k,
            node,
            i as usize,
            at.0,
            at.1,
        ),
    decreases upto,
{
    let before = reverse_list(acc, node, k, ds, upto - 1);
    if i == upto - 1 {
        lemma_add_lists(before, (ds[i], k), (node, i as usize))
    } else {
        let at = lemma_reverse_list_lists(acc, node, k, ds, upto - 1, i);
        lemma_add_keeps(
            before,
            (ds[upto - 1], k),
            (node, (upto - 1) as usize),
            ds[i],
            k,
            node,
            i as usize,
            at.0,
            at.1,
        );
        at
    }
}

/// Entering the keys of one node keeps what the index lists.
pub proof fn lemma_reverse_keys_keeps(
    acc: ReverseNodesSpec,
    node: usize,
    entries: Seq<(Option<usize>, Seq<usize>)>,
    upto: int,
    dst: usize,
    key: Option<usize>,
    src: usize,
    index: usize,
    e: int,
    u: int,
)
    requires
        lists_transition(acc, dst, key, src, index, e, u),
    ensures
        lists_transition(reverse_keys(acc, node, entries, upto), dst, key, src, index, e, u),
    decreases upto,
{
    if upto > 0 {
        lemma_reverse_keys_keeps(acc, node, entries, upto - 1, dst, key, src, index, e, u);
        lemma_reverse_list_keeps(
            reverse_keys(acc, node, entries, upto - 1),
            node,
            entries[upto - 1].0,
            entries[upto - 1].1,
            entries[upto - 1].1.len() as int,
            dst,
            key,
            src,
            index,
            e,
            u,
        );
    }
}

/// Entering the first `upto` keys of a node makes the index list every
/// transition under each of them; the lemma hands back where.
pub proof fn lemma_reverse_keys_lists(
    acc: ReverseNodesSpec,
    node: usize,
    entries: Seq<(Option<usize>, Seq<usize>)>,
    upto: int,
    j: int,
    i: int,
) -> (at: (int, int))
    requires
        0 <= j < upto <= entries.len(),
        0 <= i < entries[j].1.len(),
        entries[j].1.len() <= usize::MAX,
    ensures
        lists_transition(
            reverse_keys(acc, node, entries, upto),
            entries[j].1[i],
            entries[j].0,
            node,
            i as usize,
            at.0,
            at.1,
        ),
    decreases upto,
{
    let before = reverse_keys(acc, node, entries, upto - 1);
    if j == upto - 1 {
        lemma_reverse_list_lists(
            before,
            node,
            entries[j].0,
            entries[j].1,
            entries[j].1.len() as int,
            i,
        )
    } else {
        let at = lemma_reverse_keys_lists(acc, node, entries, upto - 1, j, i);
        lemma_reverse_list_keeps(
            before,
            node,
            entries[upto - 1].0,
            entries[upto - 1].1,
            entries[upto - 1].1.len() as int,
            entries[j].1[i],
            entries[j].0,
            node,
            i as usize,
            at.0,
            at.1,
        );
        at
    }
}

/// The index of the first `upto` nodes lists every transition that leaves
/// one of them; the lemma hands back where.
pub proof fn lemma_reverse_nodes_lists(
    transitions: Seq<Seq<(Option<usize>, Seq<usize>)>>,
    upto: int,
    node: int,
    j: int,
    i: int,
) -> (at: (int, int))
    requires
        0 <= node < upto <= transitions.len(),
        upto <= usize::MAX,
        0 <= j < transitions[node].len(),
        0 <= i < transitions[node][j].1.len(),
        transitions[node][j].1.len() <= usize::MAX,
    ensures
        lists_transition(
            reverse_nodes(transitions, upto),
            transitions[node][j].1[i],
            transitions[node][j].0,
            node as usize,
            i as usize,
            at.0,
            at.1,
        ),
    decreases upto,
{
    let before = reverse_nodes(transitions, upto - 1);
    if node == upto - 1 {
        lemma_reverse_keys_lists(
            before,
            node as usize,
            transitions[node],
            transitions[node].len() as int,
            j,
            i,
        )
    } else {
        let at = lemma_reverse_nodes_lists(transitions, upto - 1, node, j, i);
        lemma_reverse_keys_keeps(
            before,
            (upto - 1) as usize,
            transitions[upto - 1],
            transitions[upto - 1].len() as int,
            transitions[node][j].1[i],
            transitions[node][j].0,
            node as usize,
            i as usize,
            at.0,
            at.1,
        );
        at
    }
}

/// The reverse node index of a trie lists every transition of the trie
/// under its destination and key; the lemma hands back where.
pub proof fn lemma_reversed_nodes_lists(t: TrieSpec, transition: TransitionKey) -> (at: (int, int))
    requires
        t.fits(),
        dst_of(
            t,
            transition.src_node_index,
            transition.key_id,
            transition.transition_index as int,
        ) is Some,
    ensures
        lists_transition(
            t.reversed_nodes(),
            dst_of(
                t,
                transition.src_node_index,
                transition.key_id,
                transition.transition_index as int,
            )->Some_0,
            transition.key_id,
            transition.src_node_index,
            transition.transition_index,
            at.0,
            at.1,
        ),
{
    let src = transition.src_node_index;
    let table = t.transitions[src as int];
    lemma_find_index(table, transition.key_id);
    let j = find_index(table, transition.key_id)->Some_0;
    lemma_reverse_nodes_lists(
        t.transitions,
        t.transitions.len() as int,
        src as int,
        j,
        transition.transition_index as int,
    )
}

/// The transitions `ts` are a walk that a reverse lookup follows: they
/// lead from the root to the node `to`, the translation uses each of them,
/// and walking them back from `to` meets neither the root before the end
/// nor a node of `visited` or a node met before.
pub open spec fn is_walk_back(
    t: TrieSpec,
    translation_id: usize,
    ts: Seq<TransitionKey>,
    to: usize,
    visited: Seq<usize>,
) -> bool
    decreases ts.len(),
{
    if to == 0 {
        ts.len() == 0
    } else {
        ts.len() > 0 && {
            let last = ts.last();
            &&& dst_of(t, last.src_node_index, last.key_id, last.transition_index as int) == Some(
                to,
            )
            &&& t.cost(last, translation_id) is Some
            &&& !visited.contains(last.src_node_index)
            &&& is_walk_back(
                t,
                translation_id,
                ts.drop_last(),
                last.src_node_index,
                visited.push(last.src_node_index),
            )
        }
    }
}

/// The walks through one entry of the index are among the walks through
/// the first entries; the lemma hands back where.
pub proof fn lemma_in_keys(
    t: TrieSpec,
    rev: ReverseNodesSpec,
    translation_id: usize,
    node: usize,
    reversed: Seq<TransitionKey>,
    cost: u64,
    visited: Seq<usize>,
    upto: int,
    e: int,
    k: int,
) -> (j: int)
    requires
        0 <= e < upto <= rev.len(),
        rev[e].0.0 == node,
        0 <= k < t.reverse_walks_sources(
            rev,
            translation_id,
            node,
            reversed,
            cost,
            visited,
            e,
            rev[e].1.len() as int,
        ).len(),
    ensures
        0 <= j < t.reverse_walks_keys(rev, translation_id, node, reversed, cost, visited, upto).len(),
        t.reverse_walks_keys(rev, translation_id, node, reversed, cost, visited, upto)[j]
            == t.reverse_walks_sources(
            rev,
            translation_id,
            node,
            reversed,
            cost,
            visited,
            e,
            rev[e].1.len() as int,
        )[k],
    decreases upto,
{
    let before = t.reverse_walks_keys(
        rev,
        translation_id,
        node,
        reversed,
        cost,
        visited,
        upto - 1,
    );
    if e == upto - 1 {
        before.len() + k
    } else {
        lemma_in_keys(t, rev, translation_id, node, reversed, cost, visited, upto - 1, e, k)
    }
}

/// The walks that continue through one transition of an entry are among
/// the walks through the first transitions of the entry; the lemma hands
/// back where.
pub proof fn lemma_in_sources(
    t: TrieSpec,
    rev: ReverseNodesSpec,
    translation_id: usize,
    node: usize,
    reversed: Seq<TransitionKey>,
    cost: u64,
    visited: Seq<usize>,
    entry: int,
    upto: int,
    u: int,
    k: int,
) -> (j: int)
    requires
        0 <= entry < rev.len(),
        0 <= u < upto <= rev[entry].1.len(),
        reversed.len() < usize::MAX,
        !visited.contains(rev[entry].1[u].0),
        t.cost(
            TransitionKey {
                src_node_index: rev[entry].1[u].0,
                key_id: rev[entry].0.1,
                transition_index: rev[entry].1[u].1,
            },
            translation_id,
        ) is Some,
        0 <= k < t.reverse_walks(
            rev,
            translation_id,
            rev[entry].1[u].0,
            reversed.push(
                TransitionKey {
                    src_node_index: rev[entry].1[u].0,
                    key_id: rev[entry].0.1,
                    transition_index: rev[entry].1[u].1,
                },
            ),
            add_costs(
                cost,
                t.cost(
                    TransitionKey {
                        src_node_index: rev[entry].1[u].0,
                        key_id: rev[entry].0.1,
                        transition_index: rev[entry].1[u].1,
                    },
                    translation_id,
                )->Some_0,
            ),
            visited.push(rev[entry].1[u].0),
        ).len(),
    ensures
        0 <= j < t.reverse_walks_sources(
            rev,
            translation_id,
            node,
            reversed,
            cost,
            visited,
            entry,
            upto,
        ).len(),
        t.reverse_walks_sources(rev, translation_id, node, reversed, cost, visited, entry, upto)[j]
            == t.reverse_walks(
            rev,
            translation_id,
            rev[entry].1[u].0,
            reversed.push(
                TransitionKey {
                    src_node_index: rev[entry].1[u].0,
                    key_id: rev[entry].0.1,
                    transition_index: rev[entry].1[u].1,
                },
            ),
            add_costs(
                cost,
                t.cost(
                    TransitionKey {
                        src_node_index: rev[entry].1[u].0,
                        key_id: rev[entry].0.1,
                        transition_index: rev[entry].1[u].1,
                    },
                    translation_id,
                )->Some_0,
            ),
            visited.push(rev[entry].1[u].0),
        )[k],
    decreases upto,
{
    let before = t.reverse_walks_sources(
        rev,
        translation_id,
        node,
        reversed,
        cost,
        visited,
        entry,
        upto - 1,
    );
    if u == upto - 1 {
        before.len() + k
    } else {
        lemma_in_sources(
            t,
            rev,
            translation_id,
            node,
            reversed,
            cost,
            visited,
            entry,
            upto - 1,
            u,
            k,
        )
    }
}

/// A reverse lookup from a node finds every walk back from it: among its
/// results is one whose transitions are the walk, followed by the
/// transitions walked before. The lemma hands back which.
pub proof fn lemma_walk_is_found(
    t: TrieSpec,
    translation_id: usize,
    ts: Seq<TransitionKey>,
    to: usize,
    reversed: Seq<TransitionKey>,
    cost: u64,
    visited: Seq<usize>,
) -> (j: int)
    requires
        t.fits(),
        is_walk_back(t, translation_id, ts, to, visited),
        reversed.len() + ts.len() <= usize::MAX,
    ensures
        0 <= j < t.reverse_walks(
            t.reversed_nodes(),
            translation_id,
            to,
            reversed,
            cost,
            visited,
        ).len(),
        t.reverse_walks(t.reversed_nodes(), translation_id, to, reversed, cost, visited)[j].transitions
            == ts + reversed.reverse(),
    decreases ts.len(),
{
    let rev = t.reversed_nodes();
    if to == 0 {
        assert(ts + reversed.reverse() =~= reversed.reverse());
        0
    } else {
        let last = ts.last();
        let at = lemma_reversed_nodes_lists(t, last);
        let e = at.0;
        let u = at.1;
        assert(rev[e].0 == (to, last.key_id));
        assert(rev[e].1[u] == (last.src_node_index, last.transition_index));
        let longer = reversed.push(last);
        let k = lemma_walk_is_found(
            t,
            translation_id,
            ts.drop_last(),
            last.src_node_index,
            longer,
            add_costs(cost, t.cost(last, translation_id)->Some_0),
            visited.push(last.src_node_index),
        );
        assert(ts.drop_last() + longer.reverse() =~= ts + reversed.reverse()) by {
            let a = ts.drop_last() + longer.reverse();
            let b = ts + reversed.reverse();
            assert(a.len() == b.len());
            assert forall|i: int| 0 <= i < a.len() implies a[i] == b[i] by {
                if i < ts.len() - 1 {
                } else if i == ts.len() - 1 {
                    assert(longer.reverse()[0] == longer[longer.len() - 1]);
                } else {
                    let r = i - (ts.len() - 1);
                    assert(longer.reverse()[r] == longer[longer.len() - 1 - r]);
                    assert(reversed.reverse()[r - 1] == reversed[reversed.len() - 1 - (r - 1)]);
                }
            }
        }
        let k2 = lemma_in_sources(
            t,
            rev,
            translation_id,
            to,
            reversed,
            cost,
            visited,
            e,
            rev[e].1.len() as int,
            u,
            k,
        );
        lemma_in_keys(
            t,
            rev,
            translation_id,
            to,
            reversed,
            cost,
            visited,
            rev.len() as int,
            e,
            k2,
        )
    }
}

/// The results of the walks from the first anchors are among the results
/// from all; the lemma hands back where.
pub proof fn lemma_in_lookup(
    t: TrieSpec,
    rev: ReverseNodesSpec,
    translation_id: usize,
    anchors: Seq<usize>,
    upto: int,
    a: int,
    k: int,
) -> (j: int)
    requires
        0 <= a < upto <= anchors.len(),
        0 <= k < t.reverse_walks(
            rev,
            translation_id,
            anchors[a],
            Seq::empty(),
            0,
            seq![anchors[a]],
        ).len(),
    ensures
        0 <= j < t.reverse_lookup_from(rev, translation_id, anchors, upto).len(),
        t.reverse_lookup_from(rev, translation_id, anchors, upto)[j] == t.reverse_walks(
            rev,
            translation_id,
            anchors[a],
            Seq::empty(),
            0,
            seq![anchors[a]],
        )[k],
    decreases upto,
{
    let before = t.reverse_lookup_from(rev, translation_id, anchors, upto - 1);
    if a == upto - 1 {
        before.len() + k
    } else {
        lemma_in_lookup(t, rev, translation_id, anchors, upto - 1, a, k)
    }
}

/// Whether one of the lookup results holds the transition.
pub open spec fn reported(results: Seq<LookupResultSpec>, transition: TransitionKey) -> bool {
    exists|j: int, i: int|
        0 <= j < results.len() && 0 <= i < results[j].transitions.len()
            && #[trigger] results[j].transitions[i] == transition
}

/// A reverse lookup through the reverse index of a trie reports only
/// transitions that the translation uses; and it reports every transition
/// that lies on a walk back to the root from one of the anchors that the
/// reverse translation index names for the translation.
pub proof fn lemma_reverse_lookup_reports(
    t: TrieSpec,
    rev_translations: ReverseTranslationsSpec,
    translation_id: usize,
    transition: TransitionKey,
    ts: Seq<TransitionKey>,
    a: int,
)
    requires
        t.fits(),
    ensures
        reported(
            t.reverse_lookup_results(t.reversed_nodes(), rev_translations, translation_id),
            transition,
        ) ==> t.cost(transition, translation_id) is Some,
        ({
            let anchors = list_of(rev_translations, translation_id);
            &&& 0 <= a < anchors.len()
            &&& is_walk_back(t, translation_id, ts, anchors[a], seq![anchors[a]])
            &&& ts.len() <= usize::MAX
            &&& ts.contains(transition)
        }) ==> reported(
            t.reverse_lookup_results(t.reversed_nodes(), rev_translations, translation_id),
            transition,
        ),
{
    let rev = t.reversed_nodes();
    let results = t.reverse_lookup_results(rev, rev_translations, translation_id);
    let anchors = list_of(rev_translations, translation_id);
    if reported(results, transition) {
        let (j, i) = choose|j: int, i: int|
            0 <= j < results.len() && 0 <= i < results[j].transitions.len()
                && #[trigger] results[j].transitions[i] == transition;
        lemma_reverse_lookup_reports_costed(t, rev, rev_translations, translation_id, j, i);
    }
    if 0 <= a < anchors.len() && is_walk_back(
        t,
        translation_id,
        ts,
        anchors[a],
        seq![anchors[a]],
    ) && ts.len() <= usize::MAX && ts.contains(transition) {
        let k = lemma_walk_is_found(
            t,
            translation_id,
            ts,
            anchors[a],
            Seq::empty(),
            0,
            seq![anchors[a]],
        );
        let j = lemma_in_lookup(t, rev, translation_id, anchors, anchors.len() as int, a, k);
        assert(ts + Seq::<TransitionKey>::empty().reverse() =~= ts);
        let i = choose|i: int| 0 <= i < ts.len() && ts[i] == transition;
        assert(results[j].transitions[i] == transition);
    }
}

} // verus!

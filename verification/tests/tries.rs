use plover_hatchery::trie::construct::NondeterministicTrie;
use plover_hatchery::trie::entry::{EntryBuilder, StepOut, TipKind};
use plover_hatchery::trie::flags::TransitionFlagManager;
use plover_hatchery::trie::source::TransitionSourceNode;
use plover_hatchery::trie::transition::{
    TransitionCostInfo, TransitionCostKey, TransitionKey, TriePath,
};

fn key(src: usize, key_id: Option<usize>, index: usize) -> TransitionKey {
    TransitionKey::new(src, key_id, index)
}

#[test]
fn test_new_trie() {
    let trie = NondeterministicTrie::new();
    assert_eq!(trie.n_nodes(), 1);
}

#[test]
fn test_follow_creates_node() {
    let mut trie = NondeterministicTrie::new();
    let cost_info = TransitionCostInfo::new(1, 0);
    let path = trie.follow(0, Some(1), &cost_info);
    assert_eq!(path.dst_node_id, 1);
    assert_eq!(path.transitions.len(), 1);
}

#[test]
fn translation_needs_its_own_costs() {
    let mut trie = NondeterministicTrie::new();
    let cost_info = TransitionCostInfo::new(1, 0);
    let path = trie.follow(0, Some(1), &cost_info);
    trie.set_translation(path.dst_node_id, 42);
    assert!(trie.get_translations_and_costs_single(path.dst_node_id, &path.transitions).is_empty());
    trie.set_translation(path.dst_node_id, 0);
    assert_eq!(
        trie.get_translations_and_costs_single(path.dst_node_id, &path.transitions),
        vec![(0, 1)]
    );
}

#[test]
fn follow_then_traverse() {
    let mut trie = NondeterministicTrie::new();
    let path = trie.follow(0, Some(1), &TransitionCostInfo::new(1000, 7));
    assert_eq!(path.dst_node_id, 1);
    assert_eq!(path.transitions, vec![key(0, Some(1), 0)]);
    trie.set_translation(1, 7);
    let reached = trie.traverse(&vec![TriePath::root()], Some(1));
    assert_eq!(reached.len(), 1);
    assert_eq!(reached[0].dst_node_id, 1);
    assert_eq!(reached[0].transitions, vec![key(0, Some(1), 0)]);
    let found = trie.get_translations_and_min_costs(&reached);
    assert_eq!(found.len(), 1);
    assert_eq!(found[0].translation_id, 7);
    assert_eq!(found[0].cost, 1000);
    assert_eq!(found[0].transitions, vec![key(0, Some(1), 0)]);
    assert!(trie.traverse(&vec![TriePath::root()], Some(2)).is_empty());
}

#[test]
fn join_links_sources_to_one_destination() {
    let tid = 3;
    let mut trie = NondeterministicTrie::new();
    let zero = TransitionCostInfo::new(0, tid);
    let a = trie.follow_chain(0, &[Some(1), Some(2)], &zero);
    let b = trie.follow_chain(0, &[Some(3)], &zero);
    assert_eq!(a.dst_node_id, 2);
    assert_eq!(b.dst_node_id, 3);
    let joined = trie.link_join_chain(
        &[
            TransitionSourceNode::new(a.dst_node_id, 500, vec![]),
            TransitionSourceNode::new(b.dst_node_id, 100, vec![]),
        ],
        None,
        &[vec![Some(9)]],
        tid,
    );
    assert_eq!(joined.dst_node_id, Some(4));
    assert_eq!(joined.transition_seqs.len(), 2);
    assert_eq!(joined.transition_seqs[0].transitions, vec![key(2, Some(9), 0)]);
    assert_eq!(joined.transition_seqs[1].transitions, vec![key(3, Some(9), 0)]);
    assert_eq!(trie.n_nodes(), 5);
    assert_eq!(trie.dst_at(2, Some(9), 0), 4);
    assert_eq!(trie.dst_at(3, Some(9), 0), 4);
    assert_eq!(trie.get_transition_cost(&key(2, Some(9), 0), tid), Some(500));
    assert_eq!(trie.get_transition_cost(&key(3, Some(9), 0), tid), Some(100));
    assert_eq!(trie.get_transition_cost(&key(3, Some(9), 0), tid + 1), None);
}

#[test]
fn join_with_destination_and_chains() {
    let tid = 1;
    let mut trie = NondeterministicTrie::new();
    let zero = TransitionCostInfo::new(0, tid);
    let target = trie.follow(0, Some(5), &zero).dst_node_id;
    let joined = trie.link_join_chain(
        &[TransitionSourceNode::root(), TransitionSourceNode::new(target, 7, vec![])],
        Some(target),
        &[vec![Some(1), Some(2)], vec![Some(3)]],
        tid,
    );
    assert_eq!(joined.dst_node_id, Some(target));
    assert_eq!(joined.transition_seqs.len(), 4);
    for seq in &joined.transition_seqs {
        let last = seq.transitions.last().unwrap();
        assert_eq!(trie.dst_at(last.src_node_index, last.key_id, last.transition_index), target);
    }
    assert_eq!(joined.transition_seqs[0].transitions.len(), 2);
    assert_eq!(joined.transition_seqs[1].transitions, vec![key(0, Some(3), 0)]);
    let none = trie.link_join_chain(&[], None, &[vec![Some(1)]], tid);
    assert_eq!(none.dst_node_id, None);
    assert!(none.transition_seqs.is_empty());
    let none = trie.link_join(&[TransitionSourceNode::root()], None, &[], tid);
    assert_eq!(none.dst_node_id, None);
    let one = trie.link_join(&[TransitionSourceNode::root()], Some(target), &[Some(8)], tid);
    assert_eq!(one.transition_seqs[0].transitions, vec![key(0, Some(8), 0)]);
}

#[test]
fn follow_reuses_unclaimed_destinations() {
    let mut trie = NondeterministicTrie::new();
    let first = trie.follow(0, Some(1), &TransitionCostInfo::new(5, 1));
    let again = trie.follow(0, Some(1), &TransitionCostInfo::new(3, 1));
    let other = trie.follow(0, Some(1), &TransitionCostInfo::new(9, 2));
    assert_eq!(first.dst_node_id, 1);
    assert_eq!(again.dst_node_id, 2);
    assert_eq!(again.transitions, vec![key(0, Some(1), 1)]);
    assert_eq!(other.dst_node_id, 1);
    assert_eq!(trie.n_nodes(), 3);
    assert_eq!(trie.get_transition_cost(&key(0, Some(1), 0), 1), Some(5));
    assert_eq!(trie.get_transition_cost(&key(0, Some(1), 1), 1), Some(3));
    assert_eq!(trie.get_transition_cost(&key(0, Some(1), 0), 2), Some(9));
    assert!(trie.transition_has_cost_for_translation(0, Some(1), 0, 2));
    assert!(!trie.transition_has_cost_for_translation(0, Some(1), 1, 2));
    assert!(trie.transition_has_key(&key(0, Some(1), 0), Some(1)));
    assert!(!trie.transition_has_key(&key(0, Some(1), 0), None));
}

#[test]
fn link_is_idempotent_and_keeps_the_lower_cost() {
    let mut trie = NondeterministicTrie::new();
    let dst = trie.follow(0, Some(1), &TransitionCostInfo::new(0, 1)).dst_node_id;
    let first = trie.link(0, dst, Some(2), &TransitionCostInfo::new(8, 1));
    let second = trie.link(0, dst, Some(2), &TransitionCostInfo::new(3, 1));
    let third = trie.link(0, dst, Some(2), &TransitionCostInfo::new(6, 1));
    assert_eq!(first, key(0, Some(2), 0));
    assert_eq!(second, first);
    assert_eq!(third, first);
    assert_eq!(trie.n_dsts(0, Some(2)), 1);
    assert_eq!(trie.get_transition_cost(&first, 1), Some(3));
    let chain = trie.link_chain(0, dst, &[Some(4), Some(5)], &TransitionCostInfo::new(2, 1));
    assert_eq!(chain.len(), 2);
    assert_eq!(trie.get_transition_cost(&chain[0], 1), Some(0));
    assert_eq!(trie.get_transition_cost(&chain[1], 1), Some(2));
    assert!(trie.link_chain(0, dst, &[], &TransitionCostInfo::new(2, 1)).is_empty());
}

#[test]
fn follow_chain_charges_the_last_step() {
    let mut trie = NondeterministicTrie::new();
    let path = trie.follow_chain(0, &[Some(1), Some(2), Some(3)], &TransitionCostInfo::new(4, 1));
    assert_eq!(path.dst_node_id, 3);
    assert_eq!(path.transitions.len(), 3);
    assert_eq!(trie.get_transition_cost(&path.transitions[0], 1), Some(0));
    assert_eq!(trie.get_transition_cost(&path.transitions[1], 1), Some(0));
    assert_eq!(trie.get_transition_cost(&path.transitions[2], 1), Some(4));
    let nowhere = trie.follow_chain(0, &[], &TransitionCostInfo::new(4, 1));
    assert_eq!(nowhere.dst_node_id, 0);
    assert!(nowhere.transitions.is_empty());
}

#[test]
fn traversal_takes_empty_transitions() {
    let tid = 1;
    let mut trie = NondeterministicTrie::new();
    let zero = TransitionCostInfo::new(0, tid);
    let a = trie.follow(0, Some(1), &zero).dst_node_id;
    let b = trie.follow(a, None, &zero).dst_node_id;
    trie.link(b, a, None, &zero);
    let c = trie.follow(b, Some(2), &zero).dst_node_id;
    let reached = trie.traverse(&vec![TriePath::root()], Some(1));
    let ends: Vec<usize> = reached.iter().map(|p| p.dst_node_id).collect();
    assert_eq!(ends, vec![a, b, a]);
    assert_eq!(reached[1].transitions, vec![key(0, Some(1), 0), key(a, None, 0)]);
    assert_eq!(
        reached[2].transitions,
        vec![key(0, Some(1), 0), key(a, None, 0), key(b, None, 0)]
    );
    let keys = [Some(1), Some(2)];
    let chained = trie.traverse_chain(vec![TriePath::root()], &keys);
    assert!(!chained.is_empty());
    for path in &chained {
        assert_eq!(path.dst_node_id, c);
        assert!(path.transitions.len() >= keys.len());
        let spelled: Vec<Option<usize>> =
            path.transitions.iter().map(|t| t.key_id).filter(|k| k.is_some()).collect();
        assert_eq!(spelled, keys);
    }
    assert_eq!(trie.traverse_chain(vec![TriePath::root()], &[]).len(), 1);
}

#[test]
fn costs_add_up_along_a_path() {
    let mut trie = NondeterministicTrie::new();
    let first = trie.follow(0, Some(1), &TransitionCostInfo::new(2, 1));
    let second = trie.follow(first.dst_node_id, Some(2), &TransitionCostInfo::new(5, 1));
    trie.follow(0, Some(1), &TransitionCostInfo::new(1, 2));
    trie.set_translation(second.dst_node_id, 1);
    trie.set_translation(second.dst_node_id, 2);
    let transitions = vec![first.transitions[0], second.transitions[0]];
    let found = trie.get_translations_and_costs_single(second.dst_node_id, &transitions);
    assert_eq!(found, vec![(1, 7)]);
    for (translation_id, _) in &found {
        for transition in &transitions {
            assert!(trie.get_transition_cost(transition, *translation_id).is_some());
        }
    }
    assert!(trie.get_translations_and_costs_single(0, &transitions).is_empty());
    assert_eq!(trie.get_node_translations(second.dst_node_id), Some(&vec![1, 2]));
    assert_eq!(trie.get_node_translations(0), None);
    let far = trie.follow(0, Some(3), &TransitionCostInfo::new(u64::MAX, 1));
    let farther = trie.follow(far.dst_node_id, Some(3), &TransitionCostInfo::new(9, 1));
    trie.set_translation(farther.dst_node_id, 1);
    assert_eq!(
        trie.get_translations_and_costs_single(
            farther.dst_node_id,
            &[far.transitions[0], farther.transitions[0]],
        ),
        vec![(1, u64::MAX)]
    );
}

#[test]
fn cheapest_result_per_translation() {
    let mut trie = NondeterministicTrie::new();
    let dear = trie.follow(0, Some(1), &TransitionCostInfo::new(9, 1));
    let end = dear.dst_node_id;
    trie.link(0, end, Some(2), &TransitionCostInfo::new(4, 1));
    trie.link(0, end, Some(2), &TransitionCostInfo::new(6, 2));
    trie.set_translation(end, 1);
    trie.set_translation(end, 2);
    let mut paths = trie.traverse(&vec![TriePath::root()], Some(1));
    paths.extend(trie.traverse(&vec![TriePath::root()], Some(2)));
    let all = trie.get_translations_and_costs(&paths);
    let listed: Vec<(usize, u64)> = all.iter().map(|r| (r.translation_id, r.cost)).collect();
    assert_eq!(listed, vec![(1, 9), (1, 4), (2, 6)]);
    let best = trie.get_translations_and_min_costs(&paths);
    let listed: Vec<(usize, u64)> = best.iter().map(|r| (r.translation_id, r.cost)).collect();
    assert_eq!(listed, vec![(1, 4), (2, 6)]);
    assert_eq!(best[0].transitions, vec![key(0, Some(2), 0)]);
    assert_eq!(trie.get_all_translation_ids(), vec![1, 2]);
}

#[test]
fn reverse_lookup_walks_back_to_the_root() {
    let tid = 5;
    let mut trie = NondeterministicTrie::new();
    let a = trie.follow_chain(0, &[Some(1), Some(2)], &TransitionCostInfo::new(3, tid));
    trie.link(0, a.dst_node_id, Some(7), &TransitionCostInfo::new(10, tid));
    trie.follow(0, Some(1), &TransitionCostInfo::new(1, tid + 1));
    trie.set_translation(a.dst_node_id, tid);
    let reverse_nodes = trie.reversed_nodes();
    let reverse_translations = trie.reversed_translations();
    let results = trie.get_reverse_lookup_results(&reverse_nodes, &reverse_translations, tid);
    let listed: Vec<(u64, Vec<TransitionKey>)> =
        results.iter().map(|r| (r.cost, r.transitions.clone())).collect();
    assert_eq!(
        listed,
        vec![
            (10, vec![key(0, Some(7), 0)]),
            (3, vec![key(0, Some(1), 0), key(1, Some(2), 0)]),
        ]
    );
    for result in &results {
        assert_eq!(result.translation_id, tid);
        for transition in &result.transitions {
            assert!(trie.get_transition_cost(transition, tid).is_some());
        }
    }
    assert!(trie
        .get_reverse_lookup_results(&reverse_nodes, &reverse_translations, tid + 1)
        .is_empty());
    assert_eq!(reverse_translations.get(&tid), Some(&vec![a.dst_node_id]));
    assert_eq!(reverse_nodes.get(&(a.dst_node_id, Some(2))), Some(&vec![(1, 0)]));
    assert_eq!(reverse_nodes.get(&(a.dst_node_id, Some(7))), Some(&vec![(0, 0)]));
    assert_eq!(reverse_nodes.get(&(1, Some(1))), Some(&vec![(0, 0)]));
}

#[test]
fn subtrie_of_a_translation() {
    let tid = 5;
    let mut trie = NondeterministicTrie::new();
    let a = trie.follow_chain(0, &[Some(1), Some(2)], &TransitionCostInfo::new(3, tid));
    trie.link(0, a.dst_node_id, Some(7), &TransitionCostInfo::new(10, tid));
    trie.follow(0, Some(9), &TransitionCostInfo::new(1, tid + 1));
    trie.set_translation(a.dst_node_id, tid);
    let reverse_nodes = trie.reversed_nodes();
    let reverse_translations = trie.reversed_translations();
    let data = trie.get_subtrie_data(&reverse_nodes, &reverse_translations, tid).unwrap();
    assert_eq!(data.nodes, vec![0, 1, 2]);
    assert_eq!(data.translation_nodes, vec![2]);
    let edges: Vec<(usize, usize, Vec<(Option<usize>, usize, u64)>)> = data
        .transitions
        .iter()
        .map(|t| (t.src_node_id, t.dst_node_id, t.key_infos.clone()))
        .collect();
    assert_eq!(
        edges,
        vec![
            (0, 2, vec![(Some(7), 0, 10)]),
            (0, 1, vec![(Some(1), 0, 0)]),
            (1, 2, vec![(Some(2), 0, 3)]),
        ]
    );
    assert!(trie.get_subtrie_data(&reverse_nodes, &reverse_translations, tid + 1).is_none());
}

#[test]
fn flags_are_interned_and_attached() {
    let mut flags = TransitionFlagManager::new();
    let skip = flags.new_flag("skip".to_string());
    let other = flags.new_flag("other".to_string());
    assert_eq!((skip, other), (0, 1));
    assert_eq!(flags.get_label(skip), "skip");
    assert_eq!(flags.get_label(other), "other");
    let first = TransitionCostKey::new(key(0, Some(1), 0), 4);
    let second = TransitionCostKey::new(key(0, Some(1), 0), 5);
    assert!(flags.get_flags(first).is_empty());
    flags.flag_transition(first, skip);
    flags.flag_transition(first, other);
    flags.flag_transition(first, skip);
    flags.flag_transition(second, other);
    assert_eq!(flags.get_flags(first), vec![skip, other, skip]);
    assert_eq!(flags.get_flags(second), vec![other]);
}

#[test]
fn source_nodes_are_transformed() {
    let srcs = vec![
        TransitionSourceNode::new(3, 2, vec![1]),
        TransitionSourceNode::new(4, u64::MAX - 1, vec![]),
        TransitionSourceNode::root(),
    ];
    let dearer = TransitionSourceNode::increment_costs(srcs, 5);
    let costs: Vec<(usize, u64)> =
        dearer.iter().map(|s| (s.src_node_index, s.outgoing_cost)).collect();
    assert_eq!(costs, vec![(3, 7), (4, u64::MAX), (0, 5)]);
    let flagged = TransitionSourceNode::add_flags(dearer, vec![8, 9]);
    let flags: Vec<Vec<usize>> =
        flagged.iter().map(|s| s.outgoing_transition_flags.clone()).collect();
    assert_eq!(flags, vec![vec![1, 8, 9], vec![8, 9], vec![8, 9]]);
    assert_eq!(flagged[0].outgoing_cost, 7);
}

#[test]
fn filing_an_entry_joins_the_items_left() {
    let entry_id = 9;
    let skip_flag = 2;
    let mut trie = NondeterministicTrie::new();
    let mut builder = EntryBuilder::new();
    assert_eq!(builder.depth(), 0);
    // A walk over one sopheme with an optional keysymbol, then a second sopheme.
    let walk: Vec<(Vec<usize>, TipKind, Vec<Option<usize>>)> = vec![
        (vec![0], TipKind::Other, vec![]),
        (vec![0, 0], TipKind::OptionalKeysymbol, vec![Some(4)]),
        (vec![1], TipKind::Other, vec![]),
        (vec![1, 0], TipKind::Keysymbol, vec![Some(6)]),
    ];
    let tips = |cursor: &Vec<usize>| {
        walk.iter().find(|(c, _, _)| c == cursor).map(|(_, tip, keys)| (*tip, keys.clone())).unwrap()
    };
    let mut flagged_all = Vec::new();
    let mut leave = |builder: &mut EntryBuilder, trie: &mut NondeterministicTrie, n: usize| {
        let mut out = StepOut::new();
        for _ in 0..n {
            let item = builder.pop().unwrap();
            let (tip, keys) = tips(&item.cursor);
            assert!(builder.fits(trie));
            let report =
                out.leave(trie, &item.source_nodes, tip, &keys, entry_id, 5000, skip_flag);
            flagged_all.extend(report.flagged);
        }
        builder.finish_step_out(out);
    };
    for (cursor, _, _) in &walk {
        let n = builder.steps_to_leave(cursor.len());
        if n > 0 {
            leave(&mut builder, &mut trie, n);
        }
        builder.step_in(cursor);
    }
    assert_eq!(builder.depth(), 2);
    let depth = builder.depth();
    leave(&mut builder, &mut trie, depth);
    assert_eq!(builder.depth(), 0);
    builder.finish(&mut trie, entry_id);
    let last = builder.last_dst_node_id().unwrap();
    assert_eq!(trie.get_node_translations(last), Some(&vec![entry_id]));
    // The optional keysymbol can be taken (key 4) or skipped at a cost.
    let with_first = trie.traverse_chain(vec![TriePath::root()], &[Some(4), Some(6)]);
    let found = trie.get_translations_and_min_costs(&with_first);
    assert_eq!(found.len(), 1);
    assert_eq!((found[0].translation_id, found[0].cost), (entry_id, 0));
    let skipping = trie.traverse_chain(vec![TriePath::root()], &[Some(6)]);
    let found = trie.get_translations_and_min_costs(&skipping);
    assert_eq!(found.len(), 1);
    assert_eq!((found[0].translation_id, found[0].cost), (entry_id, 5000));
    assert_eq!(flagged_all, vec![TransitionCostKey::new(key(0, Some(6), 0), entry_id)]);
}

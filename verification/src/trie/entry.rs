//! Filing a definition in the trie: the bookkeeping that turns a forward
//! walk of a view into joins of source nodes, one join for each item that
//! the walk leaves.

use vstd::prelude::*;
use crate::trie::construct::{NondeterministicTrie, joined_paths_view, list_contains};
use crate::trie::model::{JoinedSpec, TrieSpec, keeps};
use crate::trie::source::{SourceNodeSpec, TransitionSourceNode, clone_flags, sources_view};
use crate::trie::transition::{
    JoinedTriePaths, TransitionCostKey, TransitionKey, add_costs, joined_view,
};

verus! {

/// What stands at the tip of a cursor that the walk leaves.
#[derive(Clone, Copy, Debug, PartialEq, Eq)]
pub enum TipKind {
    /// A keysymbol that may be silent.
    OptionalKeysymbol,
    /// A keysymbol that is always pronounced.
    Keysymbol,
    /// Anything else.
    Other,
}

/// Whether one of the source nodes is the node `node` and carries the
/// flag `flag`.
pub open spec fn carries_flag(srcs: Seq<SourceNodeSpec>, node: usize, flag: usize) -> bool {
    exists|i: int|
        0 <= i < srcs.len() && (#[trigger] srcs[i]).src_node_index == node
            && srcs[i].outgoing_transition_flags.contains(flag)
}

/// The cost keys of the first `upto` transitions of `transitions` that
/// leave a source node carrying the flag.
pub open spec fn flagged_in(
    transitions: Seq<TransitionKey>,
    srcs: Seq<SourceNodeSpec>,
    flag: usize,
    entry_id: usize,
    upto: int,
) -> Seq<TransitionCostKey>
    decreases upto,
{
    if upto <= 0 {
        Seq::empty()
    } else {
        let before = flagged_in(transitions, srcs, flag, entry_id, upto - 1);
        if carries_flag(srcs, transitions[upto - 1].src_node_index, flag) {
            before.push(
                TransitionCostKey {
                    transition_key: transitions[upto - 1],
                    translation_id: entry_id,
                },
            )
        } else {
            before
        }
    }
}

/// The cost keys to flag among the first `upto` transition sequences.
pub open spec fn flagged_keys(
    seqs: Seq<Seq<TransitionKey>>,
    srcs: Seq<SourceNodeSpec>,
    flag: usize,
    entry_id: usize,
    upto: int,
) -> Seq<TransitionCostKey>
    decreases upto,
{
    if upto <= 0 {
        Seq::empty()
    } else {
        flagged_keys(seqs, srcs, flag, entry_id, upto - 1) + flagged_in(
            seqs[upto - 1],
            srcs,
            flag,
            entry_id,
            seqs[upto - 1].len() as int,
        )
    }
}

/// The source nodes, each dearer by `cost_change` and carrying `flag` in
/// addition.
pub open spec fn skipping(srcs: Seq<SourceNodeSpec>, cost_change: u64, flag: usize) -> Seq<
    SourceNodeSpec,
> {
    srcs.map_values(
        |s: SourceNodeSpec|
            SourceNodeSpec {
                src_node_index: s.src_node_index,
                outgoing_cost: add_costs(s.outgoing_cost, cost_change),
                outgoing_transition_flags: s.outgoing_transition_flags.push(flag),
            },
    )
}

/// The mathematical value of a [`StepOut`].
pub struct StepOutSpec {
    pub has_keysymbols: bool,
    pub new_source_nodes: Seq<SourceNodeSpec>,
    pub dst_node_id: Option<usize>,
}

/// The state of leaving a run of items: whether a keysymbol was among
/// them, the source nodes for what follows, and the node that the joins
/// arrive at.
#[derive(Debug)]
pub struct StepOut {
    pub has_keysymbols: bool,
    pub new_source_nodes: Vec<TransitionSourceNode>,
    pub dst_node_id: Option<usize>,
}

impl View for StepOut {
    type V = StepOutSpec;

    open spec fn view(&self) -> StepOutSpec {
        StepOutSpec {
            has_keysymbols: self.has_keysymbols,
            new_source_nodes: sources_view(self.new_source_nodes@),
            dst_node_id: self.dst_node_id,
        }
    }
}

/// What leaving one item did: the paths of the join, and the cost keys
/// that are to carry the skip flag.
#[derive(Debug)]
pub struct JoinReport {
    pub paths: JoinedTriePaths,
    pub flagged: Vec<TransitionCostKey>,
}

/// Every source node is a node of a trie with `n` nodes.
pub open spec fn sources_within(srcs: Seq<SourceNodeSpec>, n: nat) -> bool {
    forall|i: int| 0 <= i < srcs.len() ==> (#[trigger] srcs[i]).src_node_index < n
}

impl StepOutSpec {
    /// The state before any item is left.
    pub open spec fn start() -> StepOutSpec {
        StepOutSpec { has_keysymbols: false, new_source_nodes: Seq::empty(), dst_node_id: None }
    }

    /// The state fits a trie with `n` nodes.
    pub open spec fn within(self, n: nat) -> bool {
        &&& sources_within(self.new_source_nodes, n)
        &&& self.dst_node_id matches Some(d) ==> d < n
    }

    /// The source nodes that leaving an item adds for what follows: past
    /// an optional keysymbol, the item's source nodes, dearer and flagged
    /// as skipping; past another item, the item's source nodes, unless a
    /// keysymbol was left before.
    pub open spec fn passing(
        self,
        tip: TipKind,
        srcs: Seq<SourceNodeSpec>,
        skip_cost: u64,
        skip_flag: usize,
    ) -> Seq<SourceNodeSpec> {
        match tip {
            TipKind::OptionalKeysymbol => skipping(srcs, skip_cost, skip_flag),
            TipKind::Keysymbol => Seq::empty(),
            TipKind::Other => if self.has_keysymbols {
                Seq::empty()
            } else {
                srcs
            },
        }
    }

    /// The state after leaving an item whose join handed back `joined`.
    pub open spec fn left(
        self,
        tip: TipKind,
        srcs: Seq<SourceNodeSpec>,
        skip_cost: u64,
        skip_flag: usize,
        joined: JoinedSpec,
    ) -> StepOutSpec {
        StepOutSpec {
            has_keysymbols: self.has_keysymbols || tip != TipKind::Other,
            new_source_nodes: self.new_source_nodes + self.passing(
                tip,
                srcs,
                skip_cost,
                skip_flag,
            ),
            dst_node_id: if self.dst_node_id is None {
                joined.dst_node_id
            } else {
                self.dst_node_id
            },
        }
    }

    /// The source nodes for what follows, once every item is left: the
    /// node that the joins arrived at is one of them, at no cost.
    pub open spec fn sources_after(self) -> Seq<SourceNodeSpec> {
        match self.dst_node_id {
            Some(d) => self.new_source_nodes.push(
                SourceNodeSpec {
                    src_node_index: d,
                    outgoing_cost: 0,
                    outgoing_transition_flags: Seq::empty(),
                },
            ),
            None => self.new_source_nodes,
        }
    }
}

/// Copies a list of source nodes.
pub fn clone_sources(srcs: &Vec<TransitionSourceNode>) -> (r: Vec<TransitionSourceNode>)
    ensures
        sources_view(r@) == sources_view(srcs@),
{
    let mut out: Vec<TransitionSourceNode> = Vec::new();
    let mut i: usize = 0;
    while i < srcs.len()
        invariant
            i <= srcs.len(),
            out@.len() == i,
            forall|j: int| 0 <= j < i ==> (#[trigger] out@[j])@ == srcs@[j]@,
        decreases srcs.len() - i,
    {
        out.push(srcs[i].clone());
        i += 1;
    }
    proof {
        assert(sources_view(out@) =~= sources_view(srcs@));
    }
    out
}

/// Whether one of the source nodes is the node `node` and carries `flag`.
pub fn source_carries_flag(srcs: &[TransitionSourceNode], node: usize, flag: usize) -> (r: bool)
    ensures
        r == carries_flag(sources_view(srcs@), node, flag),
{
    let mut i: usize = 0;
    while i < srcs.len()
        invariant
            i <= srcs.len(),
            forall|j: int|
                0 <= j < i ==> !((#[trigger] sources_view(srcs@)[j]).src_node_index == node
                    && sources_view(srcs@)[j].outgoing_transition_flags.contains(flag)),
        decreases srcs.len() - i,
    {
        if srcs[i].src_node_index == node && list_contains(
            &srcs[i].outgoing_transition_flags,
            flag,
        ) {
            proof {
                assert(sources_view(srcs@)[i as int] == srcs@[i as int]@);
            }
            return true;
        }
        proof {
            assert(sources_view(srcs@)[i as int] == srcs@[i as int]@);
        }
        i += 1;
    }
    false
}

impl StepOut {
    pub fn new() -> (r: Self)
        ensures
            r@ == StepOutSpec::start(),
    {
        let r = StepOut { has_keysymbols: false, new_source_nodes: Vec::new(), dst_node_id: None };
        proof {
            assert(r@.new_source_nodes =~= Seq::empty());
        }
        r
    }

    /// Leaves one item: its source nodes are joined in the trie under the
    /// keys `key_ids`, and the state and the trie are brought up to date.
    pub fn leave(
        &mut self,
        trie: &mut NondeterministicTrie,
        source_nodes: &[TransitionSourceNode],
        tip: TipKind,
        key_ids: &[Option<usize>],
        entry_id: usize,
        skip_cost: u64,
        skip_flag: usize,
    ) -> (r: JoinReport)
        requires
            old(trie)@.wf(),
            sources_within(sources_view(source_nodes@), old(trie)@.n_nodes()),
            old(self)@.within(old(trie)@.n_nodes()),
        ensures
            final(trie)@ == old(trie)@.link_join_chain(
                sources_view(source_nodes@),
                old(self).dst_node_id,
                key_ids@.map_values(|k: Option<usize>| seq![k]),
                entry_id,
            ).trie,
            joined_paths_view(r.paths) == old(trie)@.link_join_chain(
                sources_view(source_nodes@),
                old(self).dst_node_id,
                key_ids@.map_values(|k: Option<usize>| seq![k]),
                entry_id,
            ).value,
            final(self)@ == old(self)@.left(
                tip,
                sources_view(source_nodes@),
                skip_cost,
                skip_flag,
                joined_paths_view(r.paths),
            ),
            r.flagged@ == flagged_keys(
                joined_view(r.paths.transition_seqs@),
                sources_view(source_nodes@),
                skip_flag,
                entry_id,
                r.paths.transition_seqs@.len() as int,
            ),
            final(trie)@.wf(),
            final(trie)@.n_nodes() >= old(trie)@.n_nodes(),
            final(self)@.within(final(trie)@.n_nodes()),
    {
        let ghost srcs = sources_view(source_nodes@);
        let ghost before = self@;
        match tip {
            TipKind::OptionalKeysymbol => {
                self.has_keysymbols = true;
                let mut i: usize = 0;
                while i < source_nodes.len()
                    invariant
                        i <= source_nodes.len(),
                        srcs == sources_view(source_nodes@),
                        self.has_keysymbols,
                        self.dst_node_id == before.dst_node_id,
                        sources_view(self.new_source_nodes@) == before.new_source_nodes + skipping(
                            srcs,
                            skip_cost,
                            skip_flag,
                        ).take(i as int),
                    decreases source_nodes.len() - i,
                {
                    let mut flags = clone_flags(&source_nodes[i].outgoing_transition_flags);
                    flags.push(skip_flag);
                    let ghost so_far = sources_view(self.new_source_nodes@);
                    let node = TransitionSourceNode::new(
                        source_nodes[i].src_node_index,
                        crate::trie::transition::sum_costs(source_nodes[i].outgoing_cost, skip_cost),
                        flags,
                    );
                    self.new_source_nodes.push(node);
                    proof {
                        assert(srcs[i as int] == source_nodes@[i as int]@);
                        assert(sources_view(self.new_source_nodes@) =~= so_far.push(node@));
                        assert(skipping(srcs, skip_cost, skip_flag).take(i as int + 1) =~= skipping(
                            srcs,
                            skip_cost,
                            skip_flag,
                        ).take(i as int).push(node@));
                        assert(sources_view(self.new_source_nodes@) =~= before.new_source_nodes
                            + skipping(srcs, skip_cost, skip_flag).take(i as int + 1));
                    }
                    i += 1;
                }
                proof {
                    assert(skipping(srcs, skip_cost, skip_flag).take(i as int) =~= skipping(
                        srcs,
                        skip_cost,
                        skip_flag,
                    ));
                }
            },
            TipKind::Keysymbol => {
                self.has_keysymbols = true;
                proof {
                    assert(before.new_source_nodes + Seq::<SourceNodeSpec>::empty()
                        =~= before.new_source_nodes);
                }
            },
            TipKind::Other => {
                if !self.has_keysymbols {
                    let mut i: usize = 0;
                    while i < source_nodes.len()
                        invariant
                            i <= source_nodes.len(),
                            srcs == sources_view(source_nodes@),
                            !self.has_keysymbols,
                            self.dst_node_id == before.dst_node_id,
                            sources_view(self.new_source_nodes@) == before.new_source_nodes
                                + srcs.take(i as int),
                        decreases source_nodes.len() - i,
                    {
                        let ghost so_far = sources_view(self.new_source_nodes@);
                        let node = source_nodes[i].clone();
                        self.new_source_nodes.push(node);
                        proof {
                            assert(srcs[i as int] == source_nodes@[i as int]@);
                            assert(sources_view(self.new_source_nodes@) =~= so_far.push(node@));
                            assert(srcs.take(i as int + 1) =~= srcs.take(i as int).push(node@));
                            assert(sources_view(self.new_source_nodes@) =~= before.new_source_nodes
                                + srcs.take(i as int + 1));
                        }
                        i += 1;
                    }
                    proof {
                        assert(srcs.take(i as int) =~= srcs);
                    }
                } else {
                    proof {
                        assert(before.new_source_nodes + Seq::<SourceNodeSpec>::empty()
                            =~= before.new_source_nodes);
                    }
                }
            },
        }
        proof {
            assert forall|i: int| 0 <= i < source_nodes@.len() implies (
            #[trigger] source_nodes@[i]).src_node_index < trie@.n_nodes() by {
                assert(srcs[i].src_node_index < trie@.n_nodes());
            }
        }
        let ghost trie_before = trie@;
        let paths = trie.link_join(source_nodes, self.dst_node_id, key_ids, entry_id);
        if self.dst_node_id.is_none() {
            self.dst_node_id = paths.dst_node_id;
        }
        let mut flagged: Vec<TransitionCostKey> = Vec::new();
        let ghost seqs = joined_view(paths.transition_seqs@);
        let mut s: usize = 0;
        while s < paths.transition_seqs.len()
            invariant
                s <= paths.transition_seqs.len(),
                srcs == sources_view(source_nodes@),
                seqs == joined_view(paths.transition_seqs@),
                flagged@ == flagged_keys(seqs, srcs, skip_flag, entry_id, s as int),
            decreases paths.transition_seqs.len() - s,
        {
            let transitions = &paths.transition_seqs[s].transitions;
            let ghost base = flagged@;
            proof {
                assert(seqs[s as int] == transitions@);
                assert(base + Seq::<TransitionCostKey>::empty() =~= base);
            }
            let mut t: usize = 0;
            while t < transitions.len()
                invariant
                    t <= transitions.len(),
                    srcs == sources_view(source_nodes@),
                    flagged@ == base + flagged_in(transitions@, srcs, skip_flag, entry_id, t as int),
                decreases transitions.len() - t,
            {
                let ghost inner = flagged_in(transitions@, srcs, skip_flag, entry_id, t as int);
                if source_carries_flag(source_nodes, transitions[t].src_node_index, skip_flag) {
                    let cost_key = TransitionCostKey::new(transitions[t], entry_id);
                    flagged.push(cost_key);
                    proof {
                        assert(flagged@ =~= base + inner.push(cost_key));
                    }
                }
                t += 1;
            }
            s += 1;
        }
        JoinReport { paths, flagged }
    }
}

/// The mathematical value of one item of the position stack.
pub struct StackItemSpec {
    pub cursor: Seq<usize>,
    pub source_nodes: Seq<SourceNodeSpec>,
}

/// A cursor position that the walk has entered, with the source nodes that
/// were current when it was entered.
#[derive(Debug)]
pub struct SourceNodePositionStackItem {
    pub cursor: Vec<usize>,
    pub source_nodes: Vec<TransitionSourceNode>,
}

impl View for SourceNodePositionStackItem {
    type V = StackItemSpec;

    open spec fn view(&self) -> StackItemSpec {
        StackItemSpec { cursor: self.cursor@, source_nodes: sources_view(self.source_nodes@) }
    }
}

/// The mathematical value of an [`EntryBuilder`].
pub struct EntryBuilderSpec {
    pub source_nodes: Seq<SourceNodeSpec>,
    pub stack: Seq<StackItemSpec>,
    pub last_dst_node_id: Option<usize>,
}

/// The bookkeeping of filing one definition: the source nodes that are
/// current, the positions entered and not yet left, and the node that the
/// last join arrived at.
#[derive(Debug)]
pub struct EntryBuilder {
    source_nodes: Vec<TransitionSourceNode>,
    stack: Vec<SourceNodePositionStackItem>,
    last_dst_node_id: Option<usize>,
}

impl View for EntryBuilder {
    type V = EntryBuilderSpec;

    closed spec fn view(&self) -> EntryBuilderSpec {
        EntryBuilderSpec {
            source_nodes: sources_view(self.source_nodes@),
            stack: self.stack@.map_values(|item: SourceNodePositionStackItem| item@),
            last_dst_node_id: self.last_dst_node_id,
        }
    }
}

impl EntryBuilderSpec {
    /// The state before the walk: the root is the one source node.
    pub open spec fn start() -> EntryBuilderSpec {
        EntryBuilderSpec {
            source_nodes: seq![
                SourceNodeSpec {
                    src_node_index: 0,
                    outgoing_cost: 0,
                    outgoing_transition_flags: Seq::empty(),
                },
            ],
            stack: Seq::empty(),
            last_dst_node_id: None,
        }
    }

    /// The state fits a trie with `n` nodes.
    pub open spec fn within(self, n: nat) -> bool {
        &&& sources_within(self.source_nodes, n)
        &&& forall|i: int|
            0 <= i < self.stack.len() ==> sources_within((#[trigger] self.stack[i]).source_nodes, n)
        &&& self.last_dst_node_id matches Some(d) ==> d < n
    }

    /// The number of positions to leave before a cursor with `len` frames
    /// is entered: all those that are at least as deep. (A cursor without
    /// frames is deeper than none.)
    pub open spec fn steps_to_leave(self, len: usize) -> nat {
        if len <= self.stack.len() && len > 0 {
            (self.stack.len() - len + 1) as nat
        } else if len == 0 {
            self.stack.len()
        } else {
            0
        }
    }

    /// The stack after a cursor is entered: it is pushed, with the current
    /// source nodes, until the stack is as deep as the cursor.
    pub open spec fn entered(self, cursor: Seq<usize>) -> Seq<StackItemSpec> {
        if cursor.len() <= self.stack.len() {
            self.stack
        } else {
            self.stack + Seq::new(
                (cursor.len() - self.stack.len()) as nat,
                |i: int| StackItemSpec { cursor, source_nodes: self.source_nodes },
            )
        }
    }
}

impl EntryBuilder {
    pub fn new() -> (r: Self)
        ensures
            r@ == EntryBuilderSpec::start(),
    {
        let mut source_nodes: Vec<TransitionSourceNode> = Vec::new();
        source_nodes.push(TransitionSourceNode::root());
        let r = EntryBuilder { source_nodes, stack: Vec::new(), last_dst_node_id: None };
        proof {
            assert(r@.source_nodes =~= EntryBuilderSpec::start().source_nodes);
            assert(r@.stack =~= Seq::empty());
        }
        r
    }

    /// The number of positions entered and not yet left.
    pub fn depth(&self) -> (r: usize)
        ensures
            r == self@.stack.len(),
    {
        self.stack.len()
    }

    /// The node that the last join arrived at.
    pub fn last_dst_node_id(&self) -> (r: Option<usize>)
        ensures
            r == self@.last_dst_node_id,
    {
        self.last_dst_node_id
    }

    /// The number of positions to leave before a cursor with
    /// `cursor_stack_len` frames is entered.
    pub fn steps_to_leave(&self, cursor_stack_len: usize) -> (r: usize)
        ensures
            r == self@.steps_to_leave(cursor_stack_len),
    {
        if cursor_stack_len == 0 {
            self.stack.len()
        } else if cursor_stack_len <= self.stack.len() {
            self.stack.len() - cursor_stack_len + 1
        } else {
            0
        }
    }

    /// Whether every node that the builder holds is a node of `trie`.
    pub fn fits(&self, trie: &NondeterministicTrie) -> (r: bool)
        ensures
            r == self@.within(trie@.n_nodes()),
    {
        let n: usize = trie.n_nodes();
        if !sources_fit(&self.source_nodes, n) {
            return false;
        }
        match self.last_dst_node_id {
            Some(d) => {
                if d >= n {
                    return false;
                }
            },
            None => {},
        }
        let mut i: usize = 0;
        while i < self.stack.len()
            invariant
                i <= self.stack.len(),
                n == trie@.n_nodes(),
                forall|j: int|
                    0 <= j < i ==> sources_within((#[trigger] self@.stack[j]).source_nodes, n as nat),
            decreases self.stack.len() - i,
        {
            if !sources_fit(&self.stack[i].source_nodes, n) {
                proof {
                    assert(self@.stack[i as int] == self.stack@[i as int]@);
                    assert(!sources_within(self@.stack[i as int].source_nodes, n as nat));
                }
                return false;
            }
            proof {
                assert(self@.stack[i as int] == self.stack@[i as int]@);
            }
            i += 1;
        }
        true
    }

    /// Enters a cursor, given by its index stack.
    pub fn step_in(&mut self, cursor: &Vec<usize>)
        ensures
            final(self)@ == (EntryBuilderSpec { stack: old(self)@.entered(cursor@), ..old(self)@ }),
    {
        let ghost before = self@;
        let ghost start = self.stack@.len();
        proof {
            assert(before.stack + Seq::<StackItemSpec>::empty() =~= before.stack);
        }
        while cursor.len() > self.stack.len()
            invariant
                start == before.stack.len(),
                start <= self.stack@.len(),
                self.stack@.len() <= cursor@.len() || self.stack@.len() == start,
                self@.source_nodes == before.source_nodes,
                self@.last_dst_node_id == before.last_dst_node_id,
                self@.stack == before.stack + Seq::new(
                    (self.stack@.len() - start) as nat,
                    |i: int| StackItemSpec { cursor: cursor@, source_nodes: before.source_nodes },
                ),
            decreases cursor@.len() - self.stack@.len(),
        {
            let ghost so_far = self@.stack;
            let item = SourceNodePositionStackItem {
                cursor: clone_flags(cursor),
                source_nodes: clone_sources(&self.source_nodes),
            };
            self.stack.push(item);
            proof {
                assert(self@.stack =~= so_far.push(item@));
                assert(self@.stack =~= before.stack + Seq::new(
                    (self.stack@.len() - start) as nat,
                    |i: int| StackItemSpec { cursor: cursor@, source_nodes: before.source_nodes },
                ));
            }
        }
    }

    /// Takes the position entered last off the stack.
    pub fn pop(&mut self) -> (r: Option<SourceNodePositionStackItem>)
        ensures
            match r {
                Some(item) => old(self)@.stack.len() > 0 && item@ == old(self)@.stack.last()
                    && final(self)@ == (EntryBuilderSpec {
                    stack: old(self)@.stack.drop_last(),
                    ..old(self)@
                }),
                None => old(self)@.stack.len() == 0 && final(self)@ == old(self)@,
            },
    {
        let r = self.stack.pop();
        proof {
            if r is Some {
                assert(self@.stack =~= old(self)@.stack.drop_last());
            }
        }
        r
    }

    /// Takes over the source nodes that a run of left items made.
    pub fn finish_step_out(&mut self, out: StepOut)
        ensures
            final(self)@ == (EntryBuilderSpec {
                source_nodes: out@.sources_after(),
                stack: old(self)@.stack,
                last_dst_node_id: if out.dst_node_id is Some {
                    out.dst_node_id
                } else {
                    old(self)@.last_dst_node_id
                },
            }),
    {
        let mut new_source_nodes = out.new_source_nodes;
        match out.dst_node_id {
            Some(dst) => {
                let ghost so_far = sources_view(new_source_nodes@);
                let node = TransitionSourceNode::new(dst, 0, Vec::new());
                new_source_nodes.push(node);
                proof {
                    assert(sources_view(new_source_nodes@) =~= so_far.push(node@));
                }
                self.last_dst_node_id = Some(dst);
            },
            None => {},
        }
        self.source_nodes = new_source_nodes;
    }

    /// Anchors the entry at the node that the last join arrived at, if
    /// there was a join.
    pub fn finish(&self, trie: &mut NondeterministicTrie, entry_id: usize)
        ensures
            final(trie)@ == match self@.last_dst_node_id {
                Some(dst) => old(trie)@.set_translation(dst, entry_id),
                None => old(trie)@,
            },
    {
        match self.last_dst_node_id {
            Some(dst) => {
                trie.set_translation(dst, entry_id);
            },
            None => {},
        }
    }
}

/// Whether every source node is a node of a trie with `n` nodes.
pub fn sources_fit(srcs: &Vec<TransitionSourceNode>, n: usize) -> (r: bool)
    ensures
        r == sources_within(sources_view(srcs@), n as nat),
{
    let mut i: usize = 0;
    while i < srcs.len()
        invariant
            i <= srcs.len(),
            forall|j: int| 0 <= j < i ==> (#[trigger] sources_view(srcs@)[j]).src_node_index < n,
        decreases srcs.len() - i,
    {
        if srcs[i].src_node_index >= n {
            proof {
                assert(sources_view(srcs@)[i as int] == srcs@[i as int]@);
            }
            return false;
        }
        proof {
            assert(sources_view(srcs@)[i as int] == srcs@[i as int]@);
        }
        i += 1;
    }
    true
}

} // verus!

//! Source nodes: the starting points from which trie entries are built.

use vstd::prelude::*;
use crate::trie::transition::{add_costs, sum_costs};

verus! {

/// The mathematical value of a [`TransitionSourceNode`].
pub struct SourceNodeSpec {
    pub src_node_index: usize,
    pub outgoing_cost: u64,
    pub outgoing_transition_flags: Seq<usize>,
}

/// A node to build from, with the cost and the flags that the transitions
/// leaving it are to carry.
#[derive(Debug)]
pub struct TransitionSourceNode {
    pub src_node_index: usize,
    pub outgoing_cost: u64,
    pub outgoing_transition_flags: Vec<usize>,
}

impl View for TransitionSourceNode {
    type V = SourceNodeSpec;

    open spec fn view(&self) -> SourceNodeSpec {
        SourceNodeSpec {
            src_node_index: self.src_node_index,
            outgoing_cost: self.outgoing_cost,
            outgoing_transition_flags: self.outgoing_transition_flags@,
        }
    }
}

/// The values of a list of source nodes.
pub open spec fn sources_view(srcs: Seq<TransitionSourceNode>) -> Seq<SourceNodeSpec> {
    srcs.map_values(|s: TransitionSourceNode| s@)
}

/// Copies a list of flags.
pub fn clone_flags(flags: &Vec<usize>) -> (r: Vec<usize>)
    ensures
        r@ == flags@,
{
    let mut out: Vec<usize> = Vec::new();
    let mut i: usize = 0;
    while i < flags.len()
        invariant
            i <= flags.len(),
            out@ == flags@.take(i as int),
        decreases flags.len() - i,
    {
        out.push(flags[i]);
        proof {
            assert(out@ =~= flags@.take(i as int + 1));
        }
        i += 1;
    }
    proof {
        assert(flags@.take(i as int) =~= flags@);
    }
    out
}

impl Clone for TransitionSourceNode {
    fn clone(&self) -> (r: Self)
        ensures
            r@ == self@,
    {
        TransitionSourceNode {
            src_node_index: self.src_node_index,
            outgoing_cost: self.outgoing_cost,
            outgoing_transition_flags: clone_flags(&self.outgoing_transition_flags),
        }
    }
}

impl TransitionSourceNode {
    pub fn new(src_node_index: usize, outgoing_cost: u64, outgoing_transition_flags: Vec<usize>) -> (r:
        Self)
        ensures
            r.src_node_index == src_node_index,
            r.outgoing_cost == outgoing_cost,
            r.outgoing_transition_flags == outgoing_transition_flags,
    {
        TransitionSourceNode { src_node_index, outgoing_cost, outgoing_transition_flags }
    }

    /// The root, at no cost and without flags.
    pub fn root() -> (r: Self)
        ensures
            r@ == (SourceNodeSpec {
                src_node_index: 0,
                outgoing_cost: 0,
                outgoing_transition_flags: Seq::empty(),
            }),
    {
        TransitionSourceNode {
            src_node_index: 0,
            outgoing_cost: 0,
            outgoing_transition_flags: Vec::new(),
        }
    }

    /// The source nodes with `cost_change` added to each cost.
    pub fn increment_costs(srcs: Vec<TransitionSourceNode>, cost_change: u64) -> (r: Vec<
        TransitionSourceNode,
    >)
        ensures
            sources_view(r@) == sources_view(srcs@).map_values(
                |s: SourceNodeSpec|
                    SourceNodeSpec {
                        src_node_index: s.src_node_index,
                        outgoing_cost: add_costs(s.outgoing_cost, cost_change),
                        outgoing_transition_flags: s.outgoing_transition_flags,
                    },
            ),
    {
        let mut out: Vec<TransitionSourceNode> = Vec::new();
        let mut i: usize = 0;
        while i < srcs.len()
            invariant
                i <= srcs.len(),
                out.len() == i,
                forall|j: int|
                    0 <= j < i ==> (#[trigger] out@[j])@ == (SourceNodeSpec {
                        src_node_index: srcs@[j].src_node_index,
                        outgoing_cost: add_costs(srcs@[j].outgoing_cost, cost_change),
                        outgoing_transition_flags: srcs@[j].outgoing_transition_flags@,
                    }),
            decreases srcs.len() - i,
        {
            out.push(
                TransitionSourceNode {
                    src_node_index: srcs[i].src_node_index,
                    outgoing_cost: sum_costs(srcs[i].outgoing_cost, cost_change),
                    outgoing_transition_flags: clone_flags(&srcs[i].outgoing_transition_flags),
                },
            );
            i += 1;
        }
        proof {
            assert(sources_view(out@) =~= sources_view(srcs@).map_values(
                |s: SourceNodeSpec|
                    SourceNodeSpec {
                        src_node_index: s.src_node_index,
                        outgoing_cost: add_costs(s.outgoing_cost, cost_change),
                        outgoing_transition_flags: s.outgoing_transition_flags,
                    },
            ));
        }
        out
    }

    /// The source nodes with `flags` appended to the flags of each.
    pub fn add_flags(srcs: Vec<TransitionSourceNode>, flags: Vec<usize>) -> (r: Vec<
        TransitionSourceNode,
    >)
        ensures
            sources_view(r@) == sources_view(srcs@).map_values(
                |s: SourceNodeSpec|
                    SourceNodeSpec {
                        src_node_index: s.src_node_index,
                        outgoing_cost: s.outgoing_cost,
                        outgoing_transition_flags: s.outgoing_transition_flags + flags@,
                    },
            ),
    {
        let mut out: Vec<TransitionSourceNode> = Vec::new();
        let mut i: usize = 0;
        while i < srcs.len()
            invariant
                i <= srcs.len(),
                out.len() == i,
                forall|j: int|
                    0 <= j < i ==> (#[trigger] out@[j])@ == (SourceNodeSpec {
                        src_node_index: srcs@[j].src_node_index,
                        outgoing_cost: srcs@[j].outgoing_cost,
                        outgoing_transition_flags: srcs@[j].outgoing_transition_flags@ + flags@,
                    }),
            decreases srcs.len() - i,
        {
            let mut new_flags = clone_flags(&srcs[i].outgoing_transition_flags);
            let mut k: usize = 0;
            while k < flags.len()
                invariant
                    k <= flags.len(),
                    i < srcs.len(),
                    new_flags@ == srcs@[i as int].outgoing_transition_flags@ + flags@.take(k as int),
                decreases flags.len() - k,
            {
                new_flags.push(flags[k]);
                proof {
                    assert(new_flags@ =~= srcs@[i as int].outgoing_transition_flags@
                        + flags@.take(k as int + 1));
                }
                k += 1;
            }
            proof {
                assert(flags@.take(k as int) =~= flags@);
            }
            out.push(
                TransitionSourceNode {
                    src_node_index: srcs[i].src_node_index,
                    outgoing_cost: srcs[i].outgoing_cost,
                    outgoing_transition_flags: new_flags,
                },
            );
            i += 1;
        }
        proof {
            assert(sources_view(out@) =~= sources_view(srcs@).map_values(
                |s: SourceNodeSpec|
                    SourceNodeSpec {
                        src_node_index: s.src_node_index,
                        outgoing_cost: s.outgoing_cost,
                        outgoing_transition_flags: s.outgoing_transition_flags + flags@,
                    },
            ));
        }
        out
    }
}

} // verus!

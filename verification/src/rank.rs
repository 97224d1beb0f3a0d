//! A measure on cursor positions: the frames of a cursor, read as the
//! digits of a number. A cursor on a machine has boundedly many frames
//! with bounded positions, so every forward step raises the number and
//! every backward step lowers it, whatever the view.

use vstd::prelude::*;
use crate::cursor::lemma_peek_is_item_at;
use crate::def_view::DefViewSpec;
use crate::item::ItemSpec;
use crate::position::{
    Moved, drills_to, end_index, frames_wf, next_index, peek, peek_top, prev_index, step_forward,
    step_in_at_start, step_over_forward, steps_backward, with_top,
};

verus! {

/// The base of the number: more than any digit.
pub open spec fn base() -> nat {
    (usize::MAX + 3) as nat
}

/// The number of digits: the most frames that a cursor can have.
pub open spec fn limit() -> nat {
    usize::MAX as nat
}

/// The weight of a digit with `k` digits after it.
pub open spec fn weight(k: nat) -> nat
    decreases k,
{
    if k == 0 {
        1
    } else {
        base() * weight((k - 1) as nat)
    }
}

/// The digit that a frame stands for: 1 before the first child, and two
/// more than the position on a child.
pub open spec fn digit(frame: Option<int>) -> nat {
    match frame {
        None => 1,
        Some(i) => (i + 2) as nat,
    }
}

/// The frames are such as a cursor on a machine can have.
pub open spec fn bounded(frames: Seq<Option<int>>) -> bool {
    &&& frames.len() <= limit()
    &&& forall|k: int|
        0 <= k < frames.len() && frames[k] is Some ==> 0 <= (#[trigger] frames[k])->Some_0
            <= usize::MAX
}

/// The number that the frames write, most significant digit first.
pub open spec fn rank(frames: Seq<Option<int>>) -> nat
    decreases frames.len(),
{
    if frames.len() == 0 {
        0
    } else {
        rank(frames.drop_last()) + digit(frames.last()) * weight(
            (limit() - frames.len()) as nat,
        )
    }
}

/// Every weight is positive.
pub proof fn lemma_weight_positive(k: nat)
    ensures
        weight(k) >= 1,
    decreases k,
{
    if k > 0 {
        lemma_weight_positive((k - 1) as nat);
        assert(base() * weight((k - 1) as nat) >= 1) by (nonlinear_arith)
            requires
                base() >= 1,
                weight((k - 1) as nat) >= 1,
        ;
    }
}

/// A prefix of bounded frames is bounded.
pub proof fn lemma_bounded_take(frames: Seq<Option<int>>, m: int)
    requires
        bounded(frames),
        0 <= m <= frames.len(),
    ensures
        bounded(frames.take(m)),
{
    assert forall|k: int| 0 <= k < frames.take(m).len() && frames.take(m)[k] is Some implies 0 <= (
    #[trigger] frames.take(m)[k])->Some_0 <= usize::MAX by {
        assert(frames.take(m)[k] == frames[k]);
    }
}

/// The digits after the first `m` add less than one unit of the `m`-th
/// digit from the end of the prefix.
pub proof fn lemma_rank_tail(frames: Seq<Option<int>>, m: int)
    requires
        bounded(frames),
        0 <= m <= frames.len(),
    ensures
        rank(frames) + weight((limit() - frames.len()) as nat) <= rank(frames.take(m)) + weight(
            (limit() - m) as nat,
        ),
    decreases frames.len() - m,
{
    if frames.len() == m {
        assert(frames.take(m) =~= frames);
    } else {
        let shorter = frames.drop_last();
        lemma_bounded_take(frames, frames.len() - 1);
        assert(shorter =~= frames.take(frames.len() - 1));
        lemma_rank_tail(shorter, m);
        assert(shorter.take(m) =~= frames.take(m));
        let w = weight((limit() - frames.len()) as nat);
        let d = digit(frames.last());
        assert(weight((limit() - shorter.len()) as nat) == base() * w);
        assert(d <= base() - 1) by {
            if frames.last() is Some {
                assert(frames[frames.len() - 1]->Some_0 <= usize::MAX);
            }
        }
        assert(d * w + w <= base() * w) by (nonlinear_arith)
            requires
                d <= base() - 1,
                w >= 0,
        ;
    }
}

/// The number of a prefix is at most the number of the frames.
pub proof fn lemma_rank_take(frames: Seq<Option<int>>, m: int)
    requires
        0 <= m <= frames.len(),
    ensures
        rank(frames.take(m)) <= rank(frames),
    decreases frames.len() - m,
{
    if frames.len() == m {
        assert(frames.take(m) =~= frames);
    } else {
        let shorter = frames.drop_last();
        lemma_rank_take(shorter, m);
        assert(shorter.take(m) =~= frames.take(m));
    }
}

/// Every number is below the weight of a digit before all others.
pub proof fn lemma_rank_bound(frames: Seq<Option<int>>)
    requires
        bounded(frames),
    ensures
        rank(frames) < weight(limit()),
{
    lemma_rank_tail(frames, 0);
    assert(frames.take(0) =~= Seq::<Option<int>>::empty());
    lemma_weight_positive((limit() - frames.len()) as nat);
}

/// Frames that agree on the first `m` frames compare by the next one: the
/// frames that end there, or have the smaller digit there, write the
/// smaller number.
pub proof fn lemma_rank_less(f: Seq<Option<int>>, g: Seq<Option<int>>, m: int)
    requires
        bounded(f),
        bounded(g),
        0 <= m <= f.len(),
        m < g.len(),
        f.take(m) == g.take(m),
        f.len() == m || digit(f[m]) < digit(g[m]),
    ensures
        rank(f) < rank(g),
{
    let w = weight((limit() - m - 1) as nat);
    lemma_weight_positive((limit() - m - 1) as nat);
    lemma_rank_take(g, m + 1);
    let g1 = g.take(m + 1);
    assert(g1.drop_last() =~= g.take(m));
    assert(g1.last() == g[m]);
    assert(rank(g1) == rank(g.take(m)) + digit(g[m]) * w);
    if f.len() == m {
        assert(f.take(m) =~= f);
        assert(digit(g[m]) * w >= 1) by (nonlinear_arith)
            requires
                digit(g[m]) >= 1,
                w >= 1,
        ;
    } else {
        lemma_rank_tail(f, m + 1);
        lemma_weight_positive((limit() - f.len()) as nat);
        let f1 = f.take(m + 1);
        assert(f1.drop_last() =~= f.take(m));
        assert(f1.last() == f[m]);
        assert(rank(f1) == rank(f.take(m)) + digit(f[m]) * w);
        assert(digit(f[m]) * w + w <= digit(g[m]) * w) by (nonlinear_arith)
            requires
                digit(f[m]) + 1 <= digit(g[m]),
                w >= 0,
        ;
    }
}

/// Stepping over forward to an item, or into an error, advances one frame
/// and drops those above it; the lemma hands back the level of that
/// frame.
pub proof fn lemma_step_over_shape(v: DefViewSpec, frames: Seq<Option<int>>) -> (m: int)
    requires
        !(step_over_forward(v, frames).result is Ok && step_over_forward(
            v,
            frames,
        ).result->Ok_0 is None),
    ensures
        0 <= m < frames.len(),
        step_over_forward(v, frames).frames == frames.take(m).push(Some(next_index(frames[m]))),
    decreases frames.len(),
{
    let moved = with_top(frames, Some(next_index(frames.last())));
    if peek(v, moved) is Ok && peek(v, moved)->Ok_0 is None {
        let m = lemma_step_over_shape(v, frames.drop_last());
        assert(frames.drop_last().take(m) =~= frames.take(m));
        m
    } else {
        assert(frames.drop_last() =~= frames.take(frames.len() - 1));
        frames.len() - 1
    }
}

/// A forward step that arrives at an item raises the number of the frames.
pub proof fn lemma_step_forward_rank(v: DefViewSpec, frames: Seq<Option<int>>)
    requires
        bounded(frames),
        bounded(step_forward(v, frames).frames),
        step_forward(v, frames).result is Ok,
        step_forward(v, frames).result->Ok_0 is Some,
    ensures
        rank(frames) < rank(step_forward(v, frames).frames),
{
    let inside = step_in_at_start(v, frames);
    let after = step_forward(v, frames).frames;
    let m = lemma_step_over_shape(v, inside.frames);
    if inside.frames.len() > frames.len() {
        assert(inside.frames == frames.push(None));
        if m == frames.len() {
            assert(inside.frames.take(m) =~= frames);
            assert(after.take(m) =~= frames.take(m));
            assert(frames.take(m) =~= frames);
        } else {
            assert(inside.frames.take(m) =~= frames.take(m));
            assert(inside.frames[m] == frames[m]);
            assert(after.take(m) =~= frames.take(m));
            assert(after[m] == Some(next_index(frames[m])));
            if frames[m] is Some {
                assert(frames[m]->Some_0 >= 0);
            }
        }
    } else {
        assert(inside.frames == frames);
        assert(after.take(m) =~= frames.take(m));
        assert(after[m] == Some(next_index(frames[m])));
        if frames[m] is Some {
            assert(frames[m]->Some_0 >= 0);
        }
    }
    lemma_rank_less(frames, after, m);
}

/// Drilling in from frames whose top stands on an item ends on frames
/// that continue them.
pub proof fn lemma_drills_extend(v: DefViewSpec, frames: Seq<Option<int>>, deep: Moved<()>)
    requires
        drills_to(v, frames, deep),
        peek_top(v, frames) is Ok,
        peek_top(v, frames)->Ok_0 is Some,
    ensures
        deep.frames.len() >= frames.len(),
        deep.frames.take(frames.len() as int) == frames,
    decreases deep.frames.len() + 1 - frames.len(),
{
    let item = peek_top(v, frames)->Ok_0->Some_0;
    let next = frames.push(end_index(item));
    reveal_with_fuel(drills_to, 2);
    match peek_top(v, next) {
        Ok(Some(_)) => {
            lemma_drills_extend(v, next, deep);
            assert(deep.frames.take(frames.len() as int) =~= deep.frames.take(
                next.len() as int,
            ).take(frames.len() as int));
            assert(next.take(frames.len() as int) =~= frames);
            assert(deep.frames.take(frames.len() as int) =~= frames);
        },
        Ok(None) => {
            assert(next.drop_last() =~= frames);
            assert(deep.frames =~= frames);
            assert(deep.frames.take(frames.len() as int) =~= frames);
        },
        Err(_) => {
            assert(deep.frames == next);
            assert(next.take(frames.len() as int) =~= frames);
            assert(deep.frames.take(frames.len() as int) =~= frames);
        },
    }
}

/// A backward step that arrives at an item lowers the number of the
/// frames.
pub proof fn lemma_step_backward_rank(
    v: DefViewSpec,
    frames: Seq<Option<int>>,
    back: Moved<Option<ItemSpec>>,
)
    requires
        bounded(frames),
        bounded(back.frames),
        steps_backward(v, frames, back),
        back.result is Ok,
        back.result->Ok_0 is Some,
    ensures
        rank(back.frames) < rank(frames),
{
    let n = frames.len() as int;
    let retreated = with_top(frames, prev_index(frames.last()));
    assert(retreated.take(n - 1) =~= frames.take(n - 1));
    match peek(v, retreated) {
        Ok(Some(_)) => {
            let deep = choose|deep: Moved<()>| #[trigger]
                drills_to(v, retreated, deep) && back.frames == deep.frames && back.result
                    == match deep.result {
                    Ok(_) => peek_top(v, deep.frames),
                    Err(e) => Err(e),
                };
            lemma_drills_extend(v, retreated, deep);
            assert(back.frames.take(n - 1) =~= back.frames.take(n).take(n - 1));
            assert(back.frames[n - 1] == retreated[n - 1]);
            assert(retreated[n - 1] is Some);
            lemma_rank_less(back.frames, frames, n - 1);
        },
        Ok(None) => {
            if n == 1 && retreated.last() is None {
                assert(back.frames == retreated);
                assert(peek_top(v, retreated) == peek(v, retreated));
            } else {
                assert(back.frames =~= frames.take(n - 1));
                assert(back.frames.take(n - 1) =~= frames.take(n - 1));
                lemma_rank_less(back.frames, frames, n - 1);
            }
        },
        Err(_) => {},
    }
}

} // verus!

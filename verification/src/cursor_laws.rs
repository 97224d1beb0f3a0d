//! Laws of cursor movement: what reading a cursor's index stack yields,
//! and that a backward step undoes a forward step.

use vstd::prelude::*;
use crate::cursor::{
    DefViewCursor, lemma_drop_frame, lemma_move_top, lemma_peek_is_item_at, lemma_push_frame,
};
use crate::scan::{KeysymbolClass, class_items, is_of_class, searches_forward, searches_from_start};
use crate::def_view::DefViewSpec;
use crate::item::{DefViewErrSpec, ItemSpec};
use crate::position::{
    Moved, drills_to, end_index, frames_wf, next_index, path_of, peek, peek_top, positions,
    prev_index, step_forward, step_in_at_start, step_over_forward, steps_backward, top_item,
    with_top,
};

verus! {

/// A prefix of well-formed frames is well formed and leads the same way.
pub proof fn lemma_prefix_wf(v: DefViewSpec, f: Seq<Option<int>>, m: int)
    requires
        frames_wf(v, f),
        0 <= m <= f.len(),
    ensures
        frames_wf(v, f.take(m)),
        forall|k: int| 0 <= k <= m ==> #[trigger] positions(f.take(m)).take(k) == positions(f).take(k),
        positions(f.take(m)) == positions(f).take(m),
{
    let h = f.take(m);
    assert forall|k: int| 0 <= k <= m implies #[trigger] positions(h).take(k) == positions(f).take(
        k,
    ) by {
        assert(positions(h).take(k) =~= positions(f).take(k));
    }
    assert(positions(h) =~= positions(f).take(m));
    assert forall|k: int| 0 <= k < h.len() implies v.has_item(#[trigger] positions(h).take(k)) by {
        assert(v.has_item(positions(f).take(k)));
    }
    assert forall|k: int| 0 <= k < h.len() - 1 implies (#[trigger] h[k]) is Some by {
        assert(f[k] is Some);
    }
    assert forall|k: int| 0 <= k < h.len() && h[k] is Some implies (#[trigger] h[k])->Some_0 >= 0 by {
        assert(f[k] is Some ==> f[k]->Some_0 >= 0);
    }
}

/// Reading the index stack of a cursor yields the item at its focus,
/// provided the top frame does not stand before the first child.
pub proof fn lemma_read_index_stack_is_peek(c: DefViewCursor)
    requires
        c.wf(),
        c.frames().len() == 0 || c.frames().last() is Some,
    ensures
        c.target().item_at(c.path()) == peek(c.target(), c.frames()),
{
    c.lemma_wf_frames();
    if c.frames().len() > 0 {
        lemma_peek_is_item_at(c.target(), c.frames());
    } else {
        assert(positions(c.frames()) =~= Seq::<int>::empty());
    }
}

/// Stepping backward from the start of a view reports nothing and leaves
/// the frames as they were.
pub proof fn lemma_step_backward_at_start(v: DefViewSpec, back: Moved<Option<ItemSpec>>)
    requires
        steps_backward(v, seq![None::<int>], back),
    ensures
        back.frames == seq![None::<int>],
        back.result == Ok::<Option<ItemSpec>, DefViewErrSpec>(None),
{
    let frames = seq![None::<int>];
    let retreated = with_top(frames, prev_index(frames.last()));
    assert(retreated =~= frames);
}

/// From level `m` up, every frame stands on the last child of its item
/// (or before the first child of an item without children).
pub open spec fn on_last_children(v: DefViewSpec, f: Seq<Option<int>>, m: int) -> bool {
    forall|k: int| m <= k < f.len() ==> #[trigger] f[k] == end_index(v.item(positions(f).take(k)))
}

/// If the top frame stands on a child, that child has no children.
pub open spec fn bottomed(v: DefViewSpec, f: Seq<Option<int>>) -> bool {
    f.len() > 0 && f.last() is Some ==> peek(v, f) is Ok && peek(v, f)->Ok_0 is Some && peek(
        v,
        f,
    )->Ok_0->Some_0.n_children() == 0
}

/// Drilling in from a prefix of frames that stand on last children, above
/// it, down to an item without children, arrives at those frames.
pub proof fn lemma_drill_along(v: DefViewSpec, f: Seq<Option<int>>, m: int, deep: Moved<()>)
    requires
        frames_wf(v, f),
        1 <= m <= f.len(),
        on_last_children(v, f, m),
        bottomed(v, f),
        m < f.len() || f.last() is Some,
        drills_to(v, f.take(m), deep),
    ensures
        deep.result is Ok,
        deep.frames == if f.last() is None {
            f.drop_last()
        } else {
            f
        },
    decreases f.len() - m,
{
    let h = f.take(m);
    lemma_prefix_wf(v, f, m);
    assert(h.last() == f[m - 1]);
    if m < f.len() {
        assert(f[m - 1] is Some);
        lemma_peek_is_item_at(v, h);
        assert(v.has_item(positions(f).take(m)));
        let z = v.item(positions(f).take(m));
        assert(peek(v, h) == Ok::<Option<ItemSpec>, DefViewErrSpec>(Some(z)));
        assert(f[m] == end_index(z));
        assert(h.push(f[m]) =~= f.take(m + 1));
        assert(drills_to(v, f.take(m + 1), deep));
        if m + 1 < f.len() || f[m] is Some {
            lemma_drill_along(v, f, m + 1, deep);
        } else {
            assert(f.take(m + 1) =~= f);
            assert(peek_top(v, f) == Ok::<Option<ItemSpec>, DefViewErrSpec>(None));
        }
    } else {
        assert(h =~= f);
        let x = peek(v, f)->Ok_0->Some_0;
        assert(end_index(x) == None::<int>);
        let g = f.push(None);
        assert(drills_to(v, g, deep));
        assert(peek_top(v, g) == Ok::<Option<ItemSpec>, DefViewErrSpec>(None));
        assert(g.drop_last() =~= f);
    }
}

/// The frames made of the first `m` frames of `f`, the top one advanced.
pub open spec fn advanced_prefix(f: Seq<Option<int>>, m: int) -> Seq<Option<int>>
    recommends
        1 <= m <= f.len(),
{
    with_top(f.take(m), Some(next_index(f[m - 1])))
}

/// The focus of an advanced prefix is a child of the item that the frame
/// at that level walks.
pub proof fn lemma_advanced_prefix_peek(v: DefViewSpec, f: Seq<Option<int>>, m: int)
    requires
        frames_wf(v, f),
        1 <= m <= f.len(),
    ensures
        peek(v, advanced_prefix(f, m)) == v.item(positions(f).take(m - 1)).child(
            next_index(f[m - 1]),
            v.dict,
        ),
        step_over_forward(v, f.take(m)) == match peek(v, advanced_prefix(f, m)) {
            Ok(None) => step_over_forward(v, f.take(m - 1)),
            other => Moved { frames: advanced_prefix(f, m), result: other },
        },
{
    let h = f.take(m);
    let moved = advanced_prefix(f, m);
    assert(h.last() == f[m - 1]);
    assert(positions(moved).take(m - 1) =~= positions(f).take(m - 1));
    assert(h.drop_last() =~= f.take(m - 1));
}

/// A frame whose successor position holds no child stands on the last
/// child of its item, or before the first child of an item without any.
pub proof fn lemma_exhausted_frame(v: DefViewSpec, f: Seq<Option<int>>, m: int)
    requires
        frames_wf(v, f),
        1 <= m <= f.len(),
        bottomed(v, f),
        peek(v, advanced_prefix(f, m)) == Ok::<Option<ItemSpec>, DefViewErrSpec>(None),
    ensures
        f[m - 1] == end_index(v.item(positions(f).take(m - 1))),
{
    lemma_advanced_prefix_peek(v, f, m);
    let it = v.item(positions(f).take(m - 1));
    match f[m - 1] {
        Some(i) => {
            assert(i >= 0);
            if m < f.len() {
                assert(v.has_item(positions(f).take(m)));
                assert(positions(f).take(m).drop_last() =~= positions(f).take(m - 1));
                assert(positions(f).take(m).last() == i);
                assert(v.has_item(positions(f).take(m - 1)));
            } else {
                assert(f.last() is Some);
                assert(positions(f).take(m - 1) =~= positions(f).take(f.len() - 1));
            }
            assert(it.child(i, v.dict) is Ok && it.child(i, v.dict)->Ok_0 is Some);
        },
        None => {},
    }
}

/// A backward step from an advanced prefix that holds an item, where the
/// frames above stand on last children, arrives at the frames' path.
pub proof fn lemma_back_from_advanced(
    v: DefViewSpec,
    f: Seq<Option<int>>,
    m: int,
    back: Moved<Option<ItemSpec>>,
)
    requires
        frames_wf(v, f),
        1 <= m <= f.len(),
        on_last_children(v, f, m),
        bottomed(v, f),
        steps_backward(v, advanced_prefix(f, m), back),
    ensures
        path_of(back.frames) == path_of(f),
        f.last() is Some || f.len() == 1 ==> back.frames == f,
{
    let h = f.take(m);
    let moved = advanced_prefix(f, m);
    lemma_prefix_wf(v, f, m);
    assert(h.last() == f[m - 1]);
    let retreated = with_top(moved, prev_index(moved.last()));
    assert(moved.len() == m);
    match f[m - 1] {
        None => {
            assert(m == f.len()) by {
                if m < f.len() {
                    assert(f[m - 1] is Some);
                }
            }
            assert(f =~= h);
            assert(retreated =~= h);
            assert(peek(v, retreated) == Ok::<Option<ItemSpec>, DefViewErrSpec>(None));
            if m == 1 {
                assert(back.frames == retreated);
            } else {
                assert(back.frames == f.drop_last());
                assert(f.drop_last().last() == f[m - 2]);
                assert(f[m - 2] is Some);
            }
        },
        Some(i) => {
            assert(i >= 0);
            assert(retreated =~= h);
            if m < f.len() {
                lemma_peek_is_item_at(v, h);
                assert(v.has_item(positions(f).take(m)));
            } else {
                assert(f =~= h);
            }
            assert(peek(v, h) is Ok && peek(v, h)->Ok_0 is Some);
            let deep = choose|deep: Moved<()>| #[trigger]
                drills_to(v, retreated, deep) && back.frames == deep.frames && back.result
                    == match deep.result {
                    Ok(_) => peek_top(v, deep.frames),
                    Err(e) => Err(e),
                };
            lemma_drill_along(v, f, m, deep);
            if f.last() is None {
                assert(f.drop_last().last() == f[f.len() - 2]);
                assert(f[f.len() - 2] is Some);
            }
        },
    }
}

/// A backward step after stepping over forward from the first `m` frames,
/// where the frames above stand on last children, arrives back at the
/// frames' path.
pub proof fn lemma_over_and_back(
    v: DefViewSpec,
    f: Seq<Option<int>>,
    m: int,
    back: Moved<Option<ItemSpec>>,
)
    requires
        frames_wf(v, f),
        0 <= m <= f.len(),
        on_last_children(v, f, m),
        bottomed(v, f),
        step_over_forward(v, f.take(m)).result is Ok,
        step_over_forward(v, f.take(m)).result->Ok_0 is Some,
        steps_backward(v, step_over_forward(v, f.take(m)).frames, back),
    ensures
        path_of(back.frames) == path_of(f),
        f.last() is Some || f.len() == 1 ==> back.frames == f,
    decreases m,
{
    if m > 0 {
        lemma_advanced_prefix_peek(v, f, m);
        match peek(v, advanced_prefix(f, m)) {
            Ok(None) => {
                lemma_exhausted_frame(v, f, m);
                assert(on_last_children(v, f, m - 1));
                lemma_over_and_back(v, f, m - 1, back);
            },
            Ok(Some(_)) => {
                lemma_back_from_advanced(v, f, m, back);
            },
            Err(_) => {},
        }
    }
}

/// A forward step that arrives at an item is undone by the backward step
/// that follows: the cursor designates the same path as before. This holds
/// of every cursor whose top frame stands on an item or before the first
/// child. Where the top frame stands on an item, and for the cursor at the
/// start of the view, the frames themselves are as before, so that the
/// backward step drops or pushes as many frames as the forward step
/// pushed or dropped.
pub proof fn lemma_forward_then_backward(
    v: DefViewSpec,
    frames: Seq<Option<int>>,
    back: Moved<Option<ItemSpec>>,
)
    requires
        frames_wf(v, frames),
        frames.len() > 0 ==> frames.last() is None || (peek(v, frames) is Ok && peek(
            v,
            frames,
        )->Ok_0 is Some),
        step_forward(v, frames).result is Ok,
        step_forward(v, frames).result->Ok_0 is Some,
        steps_backward(v, step_forward(v, frames).frames, back),
    ensures
        path_of(back.frames) == path_of(frames),
        frames.last() is Some || frames.len() == 1 ==> back.frames == frames,
{
    let n = frames.len() as int;
    if n > 0 {
        assert(frames.take(n) =~= frames);
        match peek_top(v, frames) {
            Ok(Some(x)) => {
                let inside = frames.push(None);
                assert(step_in_at_start(v, frames).frames == inside);
                let moved = with_top(inside, Some(next_index(inside.last())));
                assert(moved =~= frames.push(Some(0int)));
                lemma_peek_is_item_at(v, frames);
                assert(positions(moved).take(n) =~= positions(frames));
                assert(top_item(v, moved) == x);
                assert(inside.drop_last() =~= frames);
                match peek(v, moved) {
                    Ok(Some(_)) => {
                        let retreated = with_top(moved, prev_index(moved.last()));
                        assert(retreated =~= inside);
                        assert(peek(v, retreated) == Ok::<Option<ItemSpec>, DefViewErrSpec>(None));
                        assert(retreated.drop_last() =~= frames);
                    },
                    Ok(None) => {
                        assert(x.n_children() == 0);
                        assert(step_forward(v, frames) == step_over_forward(v, frames));
                        lemma_over_and_back(v, frames, n, back);
                    },
                    Err(_) => {},
                }
            },
            Ok(None) => {
                lemma_over_and_back(v, frames, n, back);
            },
            Err(_) => {},
        }
    }
}

/// Stepping over forward keeps frames well formed, and an item that it
/// reports is the item at the path arrived at.
pub proof fn lemma_step_over_forward_item(v: DefViewSpec, frames: Seq<Option<int>>)
    requires
        frames_wf(v, frames),
    ensures
        frames_wf(v, step_over_forward(v, frames).frames),
        step_over_forward(v, frames).result matches Ok(Some(x)) ==> v.has_item(
            path_of(step_over_forward(v, frames).frames),
        ) && v.item(path_of(step_over_forward(v, frames).frames)) == x,
    decreases frames.len(),
{
    if frames.len() > 0 {
        let moved = with_top(frames, Some(next_index(frames.last())));
        lemma_move_top(v, frames, Some(next_index(frames.last())));
        match peek(v, moved) {
            Ok(None) => {
                lemma_drop_frame(v, frames);
                lemma_step_over_forward_item(v, frames.drop_last());
            },
            Ok(Some(x)) => {
                lemma_peek_is_item_at(v, moved);
            },
            Err(_) => {},
        }
    }
}

/// Stepping forward keeps frames well formed, and an item that it reports
/// is the item at the path arrived at.
pub proof fn lemma_step_forward_item(v: DefViewSpec, frames: Seq<Option<int>>)
    requires
        frames_wf(v, frames),
    ensures
        frames_wf(v, step_forward(v, frames).frames),
        step_forward(v, frames).result matches Ok(Some(x)) ==> v.has_item(
            path_of(step_forward(v, frames).frames),
        ) && v.item(path_of(step_forward(v, frames).frames)) == x,
{
    let inside = step_in_at_start(v, frames);
    match peek_top(v, frames) {
        Ok(Some(_)) => {
            lemma_push_frame(v, frames, None);
        },
        _ => {},
    }
    if inside.result is Ok {
        lemma_step_over_forward_item(v, inside.frames);
    }
}

/// A forward search that finds something arrives at an item of the view
/// that is wanted.
pub proof fn lemma_search_finds_item(
    v: DefViewSpec,
    frames: Seq<Option<int>>,
    want: spec_fn(ItemSpec) -> bool,
    n: nat,
    out: Moved<bool>,
)
    requires
        frames_wf(v, frames),
        searches_forward(v, frames, want, n, out),
        out.result == Ok::<bool, DefViewErrSpec>(true),
    ensures
        v.has_item(path_of(out.frames)),
        want(v.item(path_of(out.frames))),
    decreases n,
{
    lemma_step_forward_item(v, frames);
    let step = step_forward(v, frames);
    match step.result {
        Ok(Some(x)) => {
            if !want(x) {
                lemma_search_finds_item(v, step.frames, want, (n - 1) as nat, out);
            }
        },
        _ => {},
    }
}

/// In a view without consonants, the search for the first consonant finds
/// nothing.
pub proof fn lemma_no_consonant_none_found(v: DefViewSpec, n: nat, out: Moved<bool>)
    requires
        forall|p: Seq<int>| #[trigger]
            v.has_item(p) ==> !is_of_class(KeysymbolClass::Consonant, v.item(p)),
        searches_from_start(v, class_items(KeysymbolClass::Consonant), n, out),
    ensures
        out.result != Ok::<bool, DefViewErrSpec>(true),
{
    let frames = seq![None::<int>];
    assert(positions(frames).take(0) =~= Seq::<int>::empty());
    assert(frames_wf(v, frames));
    if out.result == Ok::<bool, DefViewErrSpec>(true) {
        lemma_search_finds_item(v, frames, class_items(KeysymbolClass::Consonant), n, out);
    }
}

} // verus!

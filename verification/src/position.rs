//! The mathematics of cursor positions: a cursor is a stack of frames, one
//! per level of the expanded tree, each holding a child position (or
//! standing before the first child). The functions here say where each
//! cursor movement leads.

use vstd::prelude::*;
use crate::def_view::DefViewSpec;
use crate::item::{DefViewErrSpec, ItemSpec};

verus! {

/// The child positions that the frames hold; a before-first frame counts
/// as position 0 here and is left out by [`path_of`].
pub open spec fn positions(frames: Seq<Option<int>>) -> Seq<int> {
    Seq::new(
        frames.len(),
        |k: int|
            match frames[k] {
                Some(i) => i,
                None => 0,
            },
    )
}

/// The path to the item that a stack of frames designates: the frames'
/// positions, without a before-first frame on top.
pub open spec fn path_of(frames: Seq<Option<int>>) -> Seq<int> {
    if frames.len() > 0 && frames.last() is None {
        positions(frames.drop_last())
    } else {
        positions(frames)
    }
}

/// A stack of frames is well formed in a view when every frame but the top
/// one stands on a child, no position is negative, and the item that each
/// frame walks exists.
pub open spec fn frames_wf(v: DefViewSpec, frames: Seq<Option<int>>) -> bool {
    &&& forall|k: int| 0 <= k < frames.len() - 1 ==> (#[trigger] frames[k]) is Some
    &&& forall|k: int| 0 <= k < frames.len() && frames[k] is Some ==> (#[trigger] frames[k])->Some_0 >= 0
    &&& forall|k: int| 0 <= k < frames.len() ==> v.has_item(#[trigger] positions(frames).take(k))
}

/// The item whose children the top frame walks.
pub open spec fn top_item(v: DefViewSpec, frames: Seq<Option<int>>) -> ItemSpec
    recommends
        frames.len() > 0,
{
    v.item(positions(frames).take(frames.len() - 1))
}

/// The position of the last child of `item`, if it has children.
pub open spec fn end_index(item: ItemSpec) -> Option<int> {
    if item.n_children() > 0 {
        Some(item.n_children() - 1)
    } else {
        None
    }
}

/// The item at the focus: the root for an empty stack, nothing for a
/// before-first top frame, else the child that the top frame stands on.
pub open spec fn peek(v: DefViewSpec, frames: Seq<Option<int>>) -> Result<
    Option<ItemSpec>,
    DefViewErrSpec,
> {
    if frames.len() == 0 {
        Ok(Some(v.root_item()))
    } else {
        match frames.last() {
            Some(i) => top_item(v, frames).child(i, v.dict),
            None => Ok(None),
        }
    }
}

/// What the top frame stands on; nothing when there is no frame.
pub open spec fn peek_top(v: DefViewSpec, frames: Seq<Option<int>>) -> Result<
    Option<ItemSpec>,
    DefViewErrSpec,
> {
    if frames.len() == 0 {
        Ok(None)
    } else {
        peek(v, frames)
    }
}

/// A cursor movement: the frames it leaves and what it reports.
pub struct Moved<T> {
    pub frames: Seq<Option<int>>,
    pub result: Result<T, DefViewErrSpec>,
}

/// Stepping into the item under the top frame: a new frame over that item's
/// children is pushed, at the position that `place` gives for the item.
/// Nothing is pushed when there is no frame or the top frame is on no item.
pub open spec fn step_in(
    v: DefViewSpec,
    frames: Seq<Option<int>>,
    place: spec_fn(ItemSpec) -> Option<int>,
) -> Moved<bool> {
    match peek_top(v, frames) {
        Ok(Some(item)) => Moved { frames: frames.push(place(item)), result: Ok(true) },
        Ok(None) => Moved { frames, result: Ok(false) },
        Err(e) => Moved { frames, result: Err(e) },
    }
}

pub open spec fn step_in_at_start(v: DefViewSpec, frames: Seq<Option<int>>) -> Moved<bool> {
    step_in(v, frames, |item: ItemSpec| None::<int>)
}

pub open spec fn step_in_at_end(v: DefViewSpec, frames: Seq<Option<int>>) -> Moved<bool> {
    step_in(v, frames, |item: ItemSpec| end_index(item))
}

pub open spec fn step_in_at(v: DefViewSpec, frames: Seq<Option<int>>, index: Option<int>) -> Moved<
    bool,
> {
    step_in(v, frames, |item: ItemSpec| index)
}

/// The position after `index` among siblings.
pub open spec fn next_index(index: Option<int>) -> int {
    match index {
        Some(i) => i + 1,
        None => 0,
    }
}

/// The position before `index` among siblings; before the first child there
/// is only the before-first position.
pub open spec fn prev_index(index: Option<int>) -> Option<int> {
    match index {
        Some(i) => if i <= 0 {
            None
        } else {
            Some(i - 1)
        },
        None => None,
    }
}

/// The frames with the top frame moved to `index`.
pub open spec fn with_top(frames: Seq<Option<int>>, index: Option<int>) -> Seq<Option<int>>
    recommends
        frames.len() > 0,
{
    frames.drop_last().push(index)
}

/// Stepping over, forward: the top frame advances; when it runs out of
/// children it is dropped and the frame below advances instead. Reports the
/// item arrived at, or nothing once every frame has run out.
pub open spec fn step_over_forward(v: DefViewSpec, frames: Seq<Option<int>>) -> Moved<
    Option<ItemSpec>,
>
    decreases frames.len(),
{
    if frames.len() == 0 {
        Moved { frames, result: Ok(None) }
    } else {
        let moved = with_top(frames, Some(next_index(frames.last())));
        match peek(v, moved) {
            Ok(None) => step_over_forward(v, frames.drop_last()),
            other => Moved { frames: moved, result: other },
        }
    }
}

/// Stepping forward: into the first child if there is one, else over to the
/// next item in depth-first preorder.
pub open spec fn step_forward(v: DefViewSpec, frames: Seq<Option<int>>) -> Moved<Option<ItemSpec>> {
    let inside = step_in_at_start(v, frames);
    match inside.result {
        Ok(_) => step_over_forward(v, inside.frames),
        Err(e) => Moved { frames: inside.frames, result: Err(e) },
    }
}

/// Drilling in backward from `frames` ends with the frames `deep`: frames
/// on last children are pushed for as long as the focus has children; the
/// frame pushed over an item without children is dropped again. Drilling
/// stops with an error, and where it stands, when a last child cannot be
/// resolved.
pub open spec fn drills_to(
    v: DefViewSpec,
    frames: Seq<Option<int>>,
    deep: Moved<()>,
) -> bool
    decreases deep.frames.len() + 1 - frames.len(),
{
    match peek_top(v, frames) {
        Ok(Some(item)) => deep.frames.len() >= frames.len() && drills_to(
            v,
            frames.push(end_index(item)),
            deep,
        ),
        Ok(None) => deep.frames == (if frames.len() > 0 {
            frames.drop_last()
        } else {
            frames
        }) && deep.result == Ok::<(), DefViewErrSpec>(()),
        Err(e) => deep.frames == frames && deep.result == Err::<(), DefViewErrSpec>(e),
    }
}

/// Stepping backward from `frames` ends as `back` says. The top frame
/// retreats. If it then stands on an item, the cursor drills in backward
/// from there. If it stands on nothing, the frame is dropped, except that
/// the bottom frame stays, before its first child. Reports what the top
/// frame then stands on.
pub open spec fn steps_backward(
    v: DefViewSpec,
    frames: Seq<Option<int>>,
    back: Moved<Option<ItemSpec>>,
) -> bool {
    if frames.len() == 0 {
        back.frames == frames && back.result == Ok::<Option<ItemSpec>, DefViewErrSpec>(None)
    } else {
        let retreated = with_top(frames, prev_index(frames.last()));
        match peek(v, retreated) {
            Ok(Some(_)) => exists|deep: Moved<()>| #[trigger]
                drills_to(v, retreated, deep) && back.frames == deep.frames && back.result
                    == match deep.result {
                    Ok(_) => peek_top(v, deep.frames),
                    Err(e) => Err(e),
                },
            Ok(None) => back.frames == (if frames.len() == 1 && retreated.last() is None {
                retreated
            } else {
                retreated.drop_last()
            }) && back.result == peek_top(v, back.frames),
            Err(e) => back.frames == retreated && back.result == Err::<
                Option<ItemSpec>,
                DefViewErrSpec,
            >(e),
        }
    }
}

/// The frames that a list of positions rebuilds, one frame per position:
/// each frame after the first is stepped into. `Ok(None)` when a frame to
/// step into stands on no item.
pub open spec fn rebuilt(v: DefViewSpec, indexes: Seq<Option<int>>) -> Result<
    Option<Seq<Option<int>>>,
    DefViewErrSpec,
>
    decreases indexes.len(),
{
    if indexes.len() <= 1 {
        Ok(Some(indexes))
    } else {
        match rebuilt(v, indexes.drop_last()) {
            Ok(Some(frames)) => match peek(v, frames) {
                Ok(Some(_)) => Ok(Some(indexes)),
                Ok(None) => Ok(None),
                Err(e) => Err(e),
            },
            Ok(None) => Ok(None),
            Err(e) => Err(e),
        }
    }
}

/// Strict lexicographic order on sequences: a proper prefix comes first.
pub open spec fn lex_less(a: Seq<int>, b: Seq<int>) -> bool
    decreases a.len(),
{
    if a.len() == 0 {
        b.len() > 0
    } else if b.len() == 0 {
        false
    } else if a[0] != b[0] {
        a[0] < b[0]
    } else {
        lex_less(a.drop_first(), b.drop_first())
    }
}

} // verus!

//! The full-depth cursor: a stack of children cursors that walks the tree
//! a definition view expands to, forward and backward.

use vstd::prelude::*;
use crate::child_cursor::{ChildCursorSpec, DefViewItemRefChildrenCursor};
use crate::def_view::{DefView, DefViewSpec, as_path};
use crate::item::{DefViewErr, DefViewErrSpec, DefViewItemRef, ItemSpec, item_result_view};
use crate::position::{
    Moved, drills_to, end_index, frames_wf, next_index, path_of, peek, peek_top, positions,
    prev_index, rebuilt, step_forward, step_in, step_in_at, step_in_at_end, step_in_at_start,
    step_over_forward, steps_backward, top_item, with_top,
};

verus! {

/// The frame position that a children cursor holds, as an integer.
pub open spec fn frame_index(c: ChildCursorSpec) -> Option<int> {
    match c.index {
        Some(i) => Some(i as int),
        None => None,
    }
}

/// The frame positions of a stack of children cursors.
pub open spec fn stack_frames(stack: Seq<DefViewItemRefChildrenCursor>) -> Seq<Option<int>> {
    Seq::new(stack.len(), |k: int| frame_index(stack[k]@))
}

/// A stack of children cursors agrees with a view when its frames are well
/// formed and each cursor walks the item that the frames below it lead to.
pub open spec fn stack_wf(v: DefViewSpec, stack: Seq<DefViewItemRefChildrenCursor>) -> bool {
    &&& frames_wf(v, stack_frames(stack))
    &&& forall|k: int|
        0 <= k < stack.len() ==> (#[trigger] stack[k])@.item == v.item(
            positions(stack_frames(stack)).take(k),
        )
}

/// The focus of a well-formed stack whose top frame stands on a position is
/// the item that the frames' positions lead to.
pub proof fn lemma_peek_is_item_at(v: DefViewSpec, frames: Seq<Option<int>>)
    requires
        frames_wf(v, frames),
        frames.len() > 0,
        frames.last() is Some,
    ensures
        peek(v, frames) == v.item_at(positions(frames)),
{
    let p = positions(frames);
    assert(p.drop_last() =~= p.take(frames.len() - 1));
    assert(v.has_item(p.take(frames.len() - 1)));
}

/// Pushing a frame onto a well-formed stack whose focus is an item keeps it
/// well formed, and the new frame walks that item.
pub proof fn lemma_push_frame(v: DefViewSpec, frames: Seq<Option<int>>, index: Option<int>)
    requires
        frames_wf(v, frames),
        peek(v, frames) is Ok,
        peek(v, frames)->Ok_0 is Some,
        frames.len() > 0,
        index is Some ==> index->Some_0 >= 0,
    ensures
        frames_wf(v, frames.push(index)),
        v.item(positions(frames.push(index)).take(frames.len() as int)) == peek(
            v,
            frames,
        )->Ok_0->Some_0,
        forall|k: int|
            0 <= k <= frames.len() ==> #[trigger] positions(frames.push(index)).take(k)
                == positions(frames).take(k),
{
    let pushed = frames.push(index);
    lemma_peek_is_item_at(v, frames);
    assert forall|k: int| 0 <= k <= frames.len() implies #[trigger] positions(pushed).take(k)
        == positions(frames).take(k) by {
        assert(positions(pushed).take(k) =~= positions(frames).take(k));
    }
    assert(positions(frames).take(frames.len() as int) =~= positions(frames));
    assert forall|k: int| 0 <= k < pushed.len() implies v.has_item(
        #[trigger] positions(pushed).take(k),
    ) by {
        assert(positions(pushed).take(k) == positions(frames).take(k));
        if k < frames.len() {
            assert(v.has_item(positions(frames).take(k)));
        }
    }
    assert forall|k: int| 0 <= k < pushed.len() - 1 implies (#[trigger] pushed[k]) is Some by {
        if k < frames.len() - 1 {
            assert(frames[k] is Some);
        }
    }
    assert forall|k: int| 0 <= k < pushed.len() && pushed[k] is Some implies (#[trigger] pushed[k])->Some_0 >= 0 by {
        if k < frames.len() {
            assert(frames[k] is Some ==> frames[k]->Some_0 >= 0);
        }
    }
}

/// Dropping the top frame of a well-formed stack keeps it well formed.
pub proof fn lemma_drop_frame(v: DefViewSpec, frames: Seq<Option<int>>)
    requires
        frames_wf(v, frames),
        frames.len() > 0,
    ensures
        frames_wf(v, frames.drop_last()),
        forall|k: int|
            0 <= k < frames.len() ==> #[trigger] positions(frames.drop_last()).take(k)
                == positions(frames).take(k),
{
    let dropped = frames.drop_last();
    assert forall|k: int| 0 <= k < frames.len() implies #[trigger] positions(dropped).take(k)
        == positions(frames).take(k) by {
        assert(positions(dropped).take(k) =~= positions(frames).take(k));
    }
    assert forall|k: int| 0 <= k < dropped.len() implies v.has_item(
        #[trigger] positions(dropped).take(k),
    ) by {
        assert(v.has_item(positions(frames).take(k)));
    }
    assert forall|k: int| 0 <= k < dropped.len() - 1 implies (#[trigger] dropped[k]) is Some by {
        assert(frames[k] is Some);
    }
    assert forall|k: int| 0 <= k < dropped.len() && dropped[k] is Some implies (#[trigger] dropped[k])->Some_0 >= 0 by {
        assert(frames[k] is Some ==> frames[k]->Some_0 >= 0);
    }
}

/// Moving the top frame of a well-formed stack keeps it well formed.
pub proof fn lemma_move_top(v: DefViewSpec, frames: Seq<Option<int>>, index: Option<int>)
    requires
        frames_wf(v, frames),
        frames.len() > 0,
        index is Some ==> index->Some_0 >= 0,
    ensures
        frames_wf(v, with_top(frames, index)),
        forall|k: int|
            0 <= k < frames.len() ==> #[trigger] positions(with_top(frames, index)).take(k)
                == positions(frames).take(k),
        top_item(v, with_top(frames, index)) == top_item(v, frames),
{
    let moved = with_top(frames, index);
    assert forall|k: int| 0 <= k < frames.len() implies #[trigger] positions(moved).take(k)
        == positions(frames).take(k) by {
        assert(positions(moved).take(k) =~= positions(frames).take(k));
    }
    assert forall|k: int| 0 <= k < moved.len() implies v.has_item(
        #[trigger] positions(moved).take(k),
    ) by {
        assert(v.has_item(positions(frames).take(k)));
    }
    assert forall|k: int| 0 <= k < moved.len() - 1 implies (#[trigger] moved[k]) is Some by {
        assert(frames[k] is Some);
    }
    assert forall|k: int| 0 <= k < moved.len() && moved[k] is Some implies (#[trigger] moved[k])->Some_0 >= 0 by {
        if k < frames.len() - 1 {
            assert(frames[k] is Some ==> frames[k]->Some_0 >= 0);
        }
    }
}

/// A stacked pointer into a definition view.
#[derive(Debug)]
pub struct DefViewCursor<'defs, 'view> where 'view: 'defs {
    view: &'view DefView<'defs>,
    stack: Vec<DefViewItemRefChildrenCursor<'defs>>,
}

impl<'defs, 'view> Clone for DefViewCursor<'defs, 'view> {
    fn clone(&self) -> (r: Self)
        ensures
            r.target() == self.target(),
            r.frames() == self.frames(),
            self.wf() ==> r.wf(),
    {
        let mut stack: Vec<DefViewItemRefChildrenCursor<'defs>> = Vec::new();
        let mut k: usize = 0;
        while k < self.stack.len()
            invariant
                k <= self.stack.len(),
                stack.len() == k,
                forall|j: int| 0 <= j < k ==> stack@[j] == self.stack@[j],
            decreases self.stack.len() - k,
        {
            stack.push(self.stack[k].clone());
            k += 1;
        }
        assert(stack@ =~= self.stack@);
        DefViewCursor { view: self.view, stack }
    }
}

impl<'defs, 'view> DefViewCursor<'defs, 'view> {
    /// The view that the cursor walks.
    pub closed spec fn target(&self) -> DefViewSpec {
        self.view@
    }

    /// The positions of the cursor's frames, bottom first; `None` is a frame
    /// that stands before the first child.
    pub closed spec fn frames(&self) -> Seq<Option<int>> {
        stack_frames(self.stack@)
    }

    /// The cursor agrees with its view.
    pub closed spec fn wf(&self) -> bool {
        stack_wf(self.view@, self.stack@)
    }

    /// The path to the item that the cursor designates.
    pub open spec fn path(&self) -> Seq<int> {
        path_of(self.frames())
    }

    /// The frames of a cursor are boundedly many, at bounded positions.
    pub proof fn lemma_bounded(&self)
        ensures
            crate::rank::bounded(self.frames()),
    {
        assert(self.stack@.len() == self.stack.len());
    }

    /// A well-formed cursor has well-formed frames.
    pub proof fn lemma_wf_frames(&self)
        requires
            self.wf(),
        ensures
            frames_wf(self.target(), self.frames()),
    {
    }

    /// The view that the cursor walks.
    pub fn view(&self) -> (r: &'view DefView<'defs>)
        ensures
            r@ == self.target(),
    {
        self.view
    }

    /// The number of frames.
    pub fn stack_len(&self) -> (r: usize)
        ensures
            r == self.frames().len(),
    {
        self.stack.len()
    }

    pub fn of_view_at_start(view: &'view DefView<'defs>) -> (r: Self)
        ensures
            r.wf(),
            r.target() == view@,
            r.frames() == seq![None::<int>],
    {
        let mut stack: Vec<DefViewItemRefChildrenCursor<'defs>> = Vec::new();
        stack.push(DefViewItemRefChildrenCursor::new_at_start(view.root().as_item_ref()));
        let r = DefViewCursor { view, stack };
        proof {
            assert(r.frames() =~= seq![None::<int>]);
            assert(positions(r.frames()).take(0) =~= Seq::<int>::empty());
        }
        r
    }

    pub fn peek(&self) -> (r: Result<Option<DefViewItemRef<'defs>>, DefViewErr>)
        requires
            self.wf(),
        ensures
            item_result_view(r) == peek(self.target(), self.frames()),
    {
        let n: usize = self.stack.len();
        if n == 0 {
            Ok(Some(self.view.root().as_item_ref()))
        } else {
            self.stack[n - 1].peek(self.view.defs())
        }
    }

    pub fn step_in_at_start(&mut self) -> (r: Result<bool, DefViewErr>)
        requires
            old(self).wf(),
        ensures
            final(self).wf(),
            final(self).target() == old(self).target(),
            (Moved { frames: final(self).frames(), result: result_view(r) }) == step_in_at_start(
                old(self).target(),
                old(self).frames(),
            ),
    {
        let n: usize = self.stack.len();
        if n == 0 {
            return Ok(false);
        }
        match self.stack[n - 1].create_child_iter_at_start(self.view.defs()) {
            Ok(Some(iter)) => {
                proof {
                    lemma_push_frame(self.view@, self.frames(), None);
                }
                self.stack.push(iter);
                proof {
                    assert(self.frames() =~= old(self).frames().push(None));
                }
                Ok(true)
            },
            Ok(None) => Ok(false),
            Err(e) => Err(e),
        }
    }

    pub fn step_in_at_end(&mut self) -> (r: Result<bool, DefViewErr>)
        requires
            old(self).wf(),
        ensures
            final(self).wf(),
            final(self).target() == old(self).target(),
            (Moved { frames: final(self).frames(), result: result_view(r) }) == step_in_at_end(
                old(self).target(),
                old(self).frames(),
            ),
    {
        let n: usize = self.stack.len();
        if n == 0 {
            return Ok(false);
        }
        match self.stack[n - 1].create_child_iter_at_end(self.view.defs()) {
            Ok(Some(iter)) => {
                proof {
                    iter.lemma_bounded();
                    lemma_push_frame(self.view@, self.frames(), frame_index(iter@));
                }
                self.stack.push(iter);
                proof {
                    assert(self.frames() =~= old(self).frames().push(frame_index(iter@)));
                }
                Ok(true)
            },
            Ok(None) => Ok(false),
            Err(e) => Err(e),
        }
    }

    pub fn step_in_at(&mut self, index: Option<usize>) -> (r: Result<bool, DefViewErr>)
        requires
            old(self).wf(),
        ensures
            final(self).wf(),
            final(self).target() == old(self).target(),
            (Moved { frames: final(self).frames(), result: result_view(r) }) == step_in_at(
                old(self).target(),
                old(self).frames(),
                index_view(index),
            ),
    {
        let n: usize = self.stack.len();
        if n == 0 {
            return Ok(false);
        }
        match self.stack[n - 1].create_child_iter_at(self.view.defs(), index) {
            Ok(Some(iter)) => {
                proof {
                    lemma_push_frame(self.view@, self.frames(), index_view(index));
                }
                self.stack.push(iter);
                proof {
                    assert(self.frames() =~= old(self).frames().push(index_view(index)));
                }
                Ok(true)
            },
            Ok(None) => Ok(false),
            Err(e) => Err(e),
        }
    }

    pub fn step_over_forward(&mut self) -> (r: Result<Option<DefViewItemRef<'defs>>, DefViewErr>)
        requires
            old(self).wf(),
        ensures
            final(self).wf(),
            final(self).target() == old(self).target(),
            (Moved { frames: final(self).frames(), result: item_result_view(r) })
                == step_over_forward(old(self).target(), old(self).frames()),
    {
        loop
            invariant
                self.wf(),
                self.target() == old(self).target(),
                step_over_forward(self.target(), self.frames()) == step_over_forward(
                    old(self).target(),
                    old(self).frames(),
                ),
            decreases self.stack.len(),
        {
            let n: usize = self.stack.len();
            if n == 0 {
                return Ok(None);
            }
            let ghost before = self.frames();
            let ghost moved = with_top(before, Some(next_index(before.last())));
            proof {
                lemma_move_top(self.view@, before, Some(next_index(before.last())));
                lemma_drop_frame(self.view@, before);
            }
            let mut top = self.stack.pop().unwrap();
            let ghost top_before = top@;
            let found = top.next(self.view.defs());
            proof {
                assert(self.frames() =~= before.drop_last());
                assert(top@.item == top_item(self.view@, moved));
                assert(item_result_view(found) == peek(self.view@, moved));
            }
            match found {
                Ok(None) => {},
                other => {
                    self.stack.push(top);
                    proof {
                        assert(self.frames() =~= moved);
                    }
                    return other;
                },
            }
        }
    }

    pub fn step_forward(&mut self) -> (r: Result<Option<DefViewItemRef<'defs>>, DefViewErr>)
        requires
            old(self).wf(),
        ensures
            final(self).wf(),
            final(self).target() == old(self).target(),
            (Moved { frames: final(self).frames(), result: item_result_view(r) }) == step_forward(
                old(self).target(),
                old(self).frames(),
            ),
    {
        match self.step_in_at_start() {
            Ok(_) => self.step_over_forward(),
            Err(e) => Err(e),
        }
    }

    fn drill_in_backward(&mut self) -> (r: Result<(), DefViewErr>)
        requires
            old(self).wf(),
        ensures
            final(self).wf(),
            final(self).target() == old(self).target(),
            drills_to(
                old(self).target(),
                old(self).frames(),
                Moved { frames: final(self).frames(), result: result_view(r) },
            ),
    {
        let ghost v = self.view@;
        let ghost start = self.frames();
        loop
            invariant
                self.wf(),
                v == self.view@,
                self.target() == old(self).target(),
                start == old(self).frames(),
                forall|deep: Moved<()>| #[trigger]
                    drills_to(v, self.frames(), deep) ==> drills_to(v, start, deep),
            decreases usize::MAX - self.stack.len(),
        {
            let ghost before = self.frames();
            match self.step_in_at_end() {
                Ok(true) => {
                    proof {
                        assert forall|deep: Moved<()>| #[trigger]
                            drills_to(v, self.frames(), deep) implies drills_to(v, start, deep) by {
                            lemma_drills_len(v, self.frames(), deep);
                            assert(drills_to(v, before, deep));
                        }
                    }
                },
                Ok(false) => {
                    self.step_out();
                    proof {
                        assert(drills_to(
                            v,
                            before,
                            Moved { frames: self.frames(), result: Ok::<(), DefViewErrSpec>(()) },
                        ));
                    }
                    return Ok(());
                },
                Err(e) => {
                    proof {
                        assert(drills_to(
                            v,
                            before,
                            Moved { frames: before, result: Err::<(), DefViewErrSpec>(e@) },
                        ));
                    }
                    return Err(e);
                },
            }
        }
    }

    pub fn step_backward(&mut self) -> (r: Result<Option<DefViewItemRef<'defs>>, DefViewErr>)
        requires
            old(self).wf(),
        ensures
            final(self).wf(),
            final(self).target() == old(self).target(),
            steps_backward(
                old(self).target(),
                old(self).frames(),
                Moved { frames: final(self).frames(), result: item_result_view(r) },
            ),
    {
        let n: usize = self.stack.len();
        if n == 0 {
            return Ok(None);
        }
        let ghost v = self.view@;
        let ghost before = self.frames();
        let ghost retreated = with_top(before, prev_index(before.last()));
        proof {
            lemma_move_top(v, before, prev_index(before.last()));
            lemma_drop_frame(v, before);
        }
        let mut top = self.stack.pop().unwrap();
        let found = top.prev(self.view.defs());
        let top_is_before_first = top.index().is_none();
        self.stack.push(top);
        proof {
            assert(self.frames() =~= retreated);
            assert(top@.item == top_item(v, retreated));
            assert(item_result_view(found) == peek(v, retreated));
        }
        match found {
            Err(e) => {
                return Err(e);
            },
            Ok(Some(_)) => {
                match self.drill_in_backward() {
                    Err(e) => {
                        proof {
                            assert(drills_to(
                                v,
                                retreated,
                                Moved { frames: self.frames(), result: Err::<(), DefViewErrSpec>(e@) },
                            ));
                        }
                        return Err(e);
                    },
                    Ok(()) => {
                        proof {
                            assert(drills_to(
                                v,
                                retreated,
                                Moved { frames: self.frames(), result: Ok::<(), DefViewErrSpec>(()) },
                            ));
                        }
                    },
                }
            },
            Ok(None) => {
                if !(n == 1 && top_is_before_first) {
                    self.step_out();
                }
            },
        }
        let m: usize = self.stack.len();
        if m == 0 {
            Ok(None)
        } else {
            self.stack[m - 1].peek(self.view.defs())
        }
    }

    pub fn of_view_at_end(view: &'view DefView<'defs>) -> (r: Result<Self, DefViewErr>)
        ensures
            match r {
                Ok(c) => c.wf() && c.target() == view@ && drills_to(
                    view@,
                    seq![end_index(view@.root_item())],
                    Moved { frames: c.frames(), result: Ok::<(), DefViewErrSpec>(()) },
                ),
                Err(e) => exists|frames: Seq<Option<int>>| #[trigger]
                    drills_to(
                        view@,
                        seq![end_index(view@.root_item())],
                        Moved { frames, result: Err::<(), DefViewErrSpec>(e@) },
                    ),
            },
    {
        let mut stack: Vec<DefViewItemRefChildrenCursor<'defs>> = Vec::new();
        let bottom = DefViewItemRefChildrenCursor::new_at_end(view.root().as_item_ref());
        proof {
            bottom.lemma_bounded();
        }
        stack.push(bottom);
        let mut cursor = DefViewCursor { view, stack };
        proof {
            assert(cursor.frames() =~= seq![end_index(view@.root_item())]);
            assert(positions(cursor.frames()).take(0) =~= Seq::<int>::empty());
        }
        match cursor.drill_in_backward() {
            Ok(()) => Ok(cursor),
            Err(e) => Err(e),
        }
    }

    /// Rebuilds a cursor from the positions of its frames.
    pub fn with_index_stack(view: &'view DefView<'defs>, indexes: &[Option<usize>]) -> (r: Result<
        Option<Self>,
        DefViewErr,
    >)
        ensures
            match r {
                Ok(Some(c)) => c.wf() && c.target() == view@ && rebuilt(
                    view@,
                    indexes_view(indexes@),
                ) == Ok::<Option<Seq<Option<int>>>, DefViewErrSpec>(Some(c.frames())),
                Ok(None) => rebuilt(view@, indexes_view(indexes@)) == Ok::<
                    Option<Seq<Option<int>>>,
                    DefViewErrSpec,
                >(None),
                Err(e) => rebuilt(view@, indexes_view(indexes@)) == Err::<
                    Option<Seq<Option<int>>>,
                    DefViewErrSpec,
                >(e@),
            },
    {
        let ghost all = indexes_view(indexes@);
        let mut stack: Vec<DefViewItemRefChildrenCursor<'defs>> = Vec::new();
        if indexes.len() == 0 {
            let cursor = DefViewCursor { view, stack };
            proof {
                assert(cursor.frames() =~= all);
            }
            return Ok(Some(cursor));
        }
        stack.push(DefViewItemRefChildrenCursor::new(view.root().as_item_ref(), indexes[0]));
        let mut cursor = DefViewCursor { view, stack };
        proof {
            assert(cursor.frames() =~= all.take(1));
            assert(positions(cursor.frames()).take(0) =~= Seq::<int>::empty());
        }
        let mut k: usize = 1;
        while k < indexes.len()
            invariant
                1 <= k <= indexes.len(),
                all == indexes_view(indexes@),
                cursor.wf(),
                cursor.target() == view@,
                cursor.frames() == all.take(k as int),
                rebuilt(view@, all.take(k as int)) == Ok::<
                    Option<Seq<Option<int>>>,
                    DefViewErrSpec,
                >(Some(all.take(k as int))),
            decreases indexes.len() - k,
        {
            proof {
                assert(all.take(k as int + 1).drop_last() =~= all.take(k as int));
                assert(all.take(k as int + 1) =~= all.take(k as int).push(index_view(indexes@[k as int])));
            }
            match cursor.step_in_at(indexes[k]) {
                Ok(true) => {},
                Ok(false) => {
                    proof {
                        lemma_rebuilt_stops(view@, all, k as int + 1);
                    }
                    return Ok(None);
                },
                Err(e) => {
                    proof {
                        lemma_rebuilt_stops(view@, all, k as int + 1);
                    }
                    return Err(e);
                },
            }
            k += 1;
        }
        proof {
            assert(all.take(k as int) =~= all);
        }
        Ok(Some(cursor))
    }

    /// The positions of the frames that stand on a child, bottom first.
    pub fn index_stack(&self) -> (r: Vec<usize>)
        requires
            self.wf(),
        ensures
            as_path(r@) == self.path(),
    {
        let mut out: Vec<usize> = Vec::new();
        let mut k: usize = 0;
        while k < self.stack.len()
            invariant
                self.wf(),
                k <= self.stack.len(),
                out.len() == k,
                forall|j: int| 0 <= j < k ==> self.frames()[j] == Some(#[trigger] out@[j] as int),
            decreases self.stack.len() - k,
        {
            match self.stack[k].index() {
                Some(i) => {
                    out.push(i);
                },
                None => {
                    proof {
                        assert(self.frames()[k as int] is None);
                        assert(k == self.stack.len() - 1);
                        assert forall|j: int| 0 <= j < k implies as_path(out@)[j] == self.path()[j] by {
                            assert(self.frames()[j] == Some(out@[j] as int));
                        }
                        assert(as_path(out@) =~= self.path());
                    }
                    return out;
                },
            }
            k += 1;
        }
        proof {
            if k > 0 {
                assert(self.frames()[k - 1] == Some(out@[k - 1] as int));
            }
            assert forall|j: int| 0 <= j < k implies as_path(out@)[j] == self.path()[j] by {
                assert(self.frames()[j] == Some(out@[j] as int));
            }
            assert(as_path(out@) =~= self.path());
        }
        out
    }

    pub fn step_out(&mut self)
        requires
            old(self).wf(),
        ensures
            final(self).wf(),
            final(self).target() == old(self).target(),
            final(self).frames() == if old(self).frames().len() > 0 {
                old(self).frames().drop_last()
            } else {
                old(self).frames()
            },
    {
        if self.stack.len() > 0 {
            proof {
                lemma_drop_frame(self.view@, self.frames());
            }
            self.stack.pop();
            proof {
                assert(self.frames() =~= old(self).frames().drop_last());
            }
        }
    }
}

/// A frame position given as a machine index, read as an integer.
pub open spec fn index_view(index: Option<usize>) -> Option<int> {
    match index {
        Some(i) => Some(i as int),
        None => None,
    }
}

/// Frame positions given as machine indexes, read as integers.
pub open spec fn indexes_view(indexes: Seq<Option<usize>>) -> Seq<Option<int>> {
    indexes.map_values(|i: Option<usize>| index_view(i))
}

/// Drilling in never ends more than one frame below where it began.
pub proof fn lemma_drills_len(v: DefViewSpec, frames: Seq<Option<int>>, deep: Moved<()>)
    requires
        drills_to(v, frames, deep),
    ensures
        deep.frames.len() + 1 >= frames.len(),
    decreases deep.frames.len() + 1 - frames.len(),
{
    match peek_top(v, frames) {
        Ok(Some(item)) => {
            lemma_drills_len(v, frames.push(end_index(item)), deep);
        },
        _ => {},
    }
}

/// Once rebuilding stops short or fails on a prefix of the positions, it
/// ends the same way on all of them.
pub proof fn lemma_rebuilt_stops(v: DefViewSpec, indexes: Seq<Option<int>>, k: int)
    requires
        0 <= k <= indexes.len(),
        !(rebuilt(v, indexes.take(k)) is Ok && rebuilt(v, indexes.take(k))->Ok_0 is Some),
    ensures
        rebuilt(v, indexes) == rebuilt(v, indexes.take(k)),
    decreases indexes.len() - k,
{
    if k < indexes.len() {
        assert(indexes.take(k + 1).drop_last() =~= indexes.take(k));
        assert(k >= 2) by {
            if k <= 1 {
                assert(rebuilt(v, indexes.take(k)) is Ok);
            }
        }
        lemma_rebuilt_stops(v, indexes, k + 1);
    } else {
        assert(indexes.take(k) =~= indexes);
    }
}

/// The value of an outcome that carries a plain value.
pub open spec fn result_view<T>(r: Result<T, DefViewErr>) -> Result<T, DefViewErrSpec> {
    match r {
        Ok(x) => Ok(x),
        Err(e) => Err(e@),
    }
}

} // verus!

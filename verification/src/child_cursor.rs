//! A single-level cursor over the children of one item.

use vstd::prelude::*;
use crate::dict::DefDict;
use crate::entity::EntitySpec;
use crate::item::{
    DefViewErr, DefViewErrSpec, DefViewItemRef, ItemSpec, item_result_view, lemma_children_bounded,
};

verus! {

/// The mathematical value of a children cursor: the item whose children it
/// walks and the position among them (`None` is before the first child).
pub struct ChildCursorSpec {
    pub item: ItemSpec,
    pub index: Option<usize>,
}

impl ChildCursorSpec {
    /// The child under the cursor, if the cursor is on one.
    pub open spec fn peek(self, dict: Map<Seq<char>, Seq<EntitySpec>>) -> Result<
        Option<ItemSpec>,
        DefViewErrSpec,
    > {
        match self.index {
            Some(i) => self.item.child(i as int, dict),
            None => Ok(None),
        }
    }

    /// The position one step later. The last representable position stays
    /// where it is.
    pub open spec fn advanced(self) -> ChildCursorSpec {
        ChildCursorSpec {
            item: self.item,
            index: match self.index {
                Some(i) => if i < usize::MAX {
                    Some((i + 1) as usize)
                } else {
                    Some(i)
                },
                None => Some(0),
            },
        }
    }

    /// The position one step earlier; before the first child there is only
    /// the before-first position.
    pub open spec fn retreated(self) -> ChildCursorSpec {
        ChildCursorSpec {
            item: self.item,
            index: match self.index {
                Some(i) => if i == 0 {
                    None
                } else {
                    Some((i - 1) as usize)
                },
                None => None,
            },
        }
    }

    /// The cursor over the children of `item`, before the first.
    pub open spec fn at_start(item: ItemSpec) -> ChildCursorSpec {
        ChildCursorSpec { item, index: None }
    }

    /// The cursor over the children of `item`, on the last one if any.
    pub open spec fn at_end(item: ItemSpec) -> ChildCursorSpec {
        ChildCursorSpec {
            item,
            index: if item.n_children() > 0 {
                Some((item.n_children() - 1) as usize)
            } else {
                None
            },
        }
    }

    /// The cursor over the children of the item under this cursor, placed by
    /// `place`: absent when this cursor is on no item.
    pub open spec fn spawn(
        self,
        dict: Map<Seq<char>, Seq<EntitySpec>>,
        place: spec_fn(ItemSpec) -> ChildCursorSpec,
    ) -> Result<Option<ChildCursorSpec>, DefViewErrSpec> {
        match self.peek(dict) {
            Ok(Some(child)) => Ok(Some(place(child))),
            Ok(None) => Ok(None),
            Err(e) => Err(e),
        }
    }
}

/// Walks the children of one item: forward, backward, or by index.
#[derive(Debug)]
pub struct DefViewItemRefChildrenCursor<'a> {
    item_ref: DefViewItemRef<'a>,
    index: Option<usize>,
}

impl<'a> View for DefViewItemRefChildrenCursor<'a> {
    type V = ChildCursorSpec;

    closed spec fn view(&self) -> ChildCursorSpec {
        ChildCursorSpec { item: self.item_ref@, index: self.index }
    }
}

impl<'a> Clone for DefViewItemRefChildrenCursor<'a> {
    fn clone(&self) -> (r: Self)
        ensures
            r == *self,
    {
        DefViewItemRefChildrenCursor { item_ref: self.item_ref.clone(), index: self.index }
    }
}

/// The value of an optional spawned cursor.
pub open spec fn spawn_result_view(
    r: Result<Option<DefViewItemRefChildrenCursor>, DefViewErr>,
) -> Result<Option<ChildCursorSpec>, DefViewErrSpec> {
    match r {
        Ok(Some(c)) => Ok(Some(c@)),
        Ok(None) => Ok(None),
        Err(e) => Err(e@),
    }
}

impl<'a> DefViewItemRefChildrenCursor<'a> {
    pub fn new(item_ref: DefViewItemRef<'a>, index: Option<usize>) -> (r: Self)
        ensures
            r@ == (ChildCursorSpec { item: item_ref@, index }),
    {
        DefViewItemRefChildrenCursor { item_ref, index }
    }

    pub fn new_at_start(item_ref: DefViewItemRef<'a>) -> (r: Self)
        ensures
            r@ == ChildCursorSpec::at_start(item_ref@),
    {
        DefViewItemRefChildrenCursor { item_ref, index: None }
    }

    pub fn new_at_end(item_ref: DefViewItemRef<'a>) -> (r: Self)
        ensures
            r@ == ChildCursorSpec::at_end(item_ref@),
    {
        let item_n_children = item_ref.n_children();
        DefViewItemRefChildrenCursor {
            item_ref,
            index: if item_n_children > 0 {
                Some(item_n_children - 1)
            } else {
                None
            },
        }
    }

    pub fn create_child_iter_at_start(&self, defs: &'a DefDict) -> (r: Result<Option<Self>, DefViewErr>)
        ensures
            spawn_result_view(r) == self@.spawn(
                defs@,
                |item: ItemSpec| ChildCursorSpec::at_start(item),
            ),
    {
        match self.index {
            Some(index) => match self.item_ref.get_child(index, defs) {
                Ok(Some(item_ref)) => Ok(Some(DefViewItemRefChildrenCursor::new_at_start(item_ref))),
                Ok(None) => Ok(None),
                Err(e) => Err(e),
            },
            None => Ok(None),
        }
    }

    pub fn create_child_iter_at_end(&self, defs: &'a DefDict) -> (r: Result<Option<Self>, DefViewErr>)
        ensures
            spawn_result_view(r) == self@.spawn(
                defs@,
                |item: ItemSpec| ChildCursorSpec::at_end(item),
            ),
    {
        match self.index {
            Some(index) => match self.item_ref.get_child(index, defs) {
                Ok(Some(item_ref)) => Ok(Some(DefViewItemRefChildrenCursor::new_at_end(item_ref))),
                Ok(None) => Ok(None),
                Err(e) => Err(e),
            },
            None => Ok(None),
        }
    }

    pub fn create_child_iter_at(&self, defs: &'a DefDict, child_index: Option<usize>) -> (r: Result<
        Option<Self>,
        DefViewErr,
    >)
        ensures
            spawn_result_view(r) == self@.spawn(
                defs@,
                |item: ItemSpec| (ChildCursorSpec { item, index: child_index }),
            ),
    {
        match self.index {
            Some(index) => match self.item_ref.get_child(index, defs) {
                Ok(Some(item_ref)) => Ok(
                    Some(DefViewItemRefChildrenCursor::new(item_ref, child_index)),
                ),
                Ok(None) => Ok(None),
                Err(e) => Err(e),
            },
            None => Ok(None),
        }
    }

    pub fn peek(&self, defs: &'a DefDict) -> (r: Result<Option<DefViewItemRef<'a>>, DefViewErr>)
        ensures
            item_result_view(r) == self@.peek(defs@),
    {
        match self.index {
            Some(index) => self.item_ref.get_child(index, defs),
            None => Ok(None),
        }
    }

    /// Advances, then peeks.
    pub fn next(&mut self, defs: &'a DefDict) -> (r: Result<Option<DefViewItemRef<'a>>, DefViewErr>)
        ensures
            final(self)@ == old(self)@.advanced(),
            item_result_view(r) == final(self)@.peek(defs@),
            final(self)@.item.n_children() <= usize::MAX,
    {
        self.incr();
        proof {
            lemma_children_bounded(self.item_ref);
        }
        self.peek(defs)
    }

    /// Retreats, then peeks.
    pub fn prev(&mut self, defs: &'a DefDict) -> (r: Result<Option<DefViewItemRef<'a>>, DefViewErr>)
        ensures
            final(self)@ == old(self)@.retreated(),
            item_result_view(r) == final(self)@.peek(defs@),
    {
        self.decr();
        self.peek(defs)
    }

    fn incr(&mut self)
        ensures
            final(self)@ == old(self)@.advanced(),
    {
        match self.index {
            Some(val) => {
                if val < usize::MAX {
                    self.index = Some(val + 1);
                }
            },
            None => {
                self.index = Some(0);
            },
        }
    }

    fn decr(&mut self)
        ensures
            final(self)@ == old(self)@.retreated(),
    {
        match self.index {
            Some(val) => {
                if val == 0 {
                    self.index = None;
                } else {
                    self.index = Some(val - 1);
                }
            },
            None => {},
        }
    }

    /// The item that the cursor walks has no more children than a machine
    /// index can count.
    pub proof fn lemma_bounded(&self)
        ensures
            self@.item.n_children() <= usize::MAX,
    {
        lemma_children_bounded(self.item_ref);
    }

    pub fn index(&self) -> (r: Option<usize>)
        ensures
            r == self@.index,
    {
        self.index
    }

    /// The number of children of the item that this cursor walks.
    pub fn n_children(&self) -> (r: usize)
        ensures
            r == self@.item.n_children(),
    {
        self.item_ref.n_children()
    }
}

} // verus!

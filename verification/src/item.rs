//! Item references: typed pointers into the tree that a definition expands
//! to, and the errors that navigating it can raise.

use vstd::prelude::*;
use vstd::string::StringExecFns;
use crate::keysymbol::{Keysymbol, KeysymbolSpec};
use crate::sopheme::{Sopheme, SophemeSpec};
use crate::entity::{Def, DefSpec, Entity, EntitySpec, entities_view};
use crate::dict::DefDict;

verus! {

/// The mathematical value of a [`DefViewErr`].
pub enum DefViewErrSpec {
    MissingEntry { varname: Seq<char> },
    EmptyStack,
    UnexpectedNone,
    CircularDependency { def_varname: Seq<char>, varname: Seq<char> },
    UnexpectedChildItemType,
}

impl DefViewErrSpec {
    /// The message that describes the error.
    pub open spec fn message(self) -> Seq<char> {
        match self {
            DefViewErrSpec::MissingEntry { varname } => "There is no entry for \""@ + varname
                + "\""@,
            DefViewErrSpec::EmptyStack => "Cursor stack is empty"@,
            DefViewErrSpec::UnexpectedNone => "Expected this cursor to be pointing to an item"@,
            DefViewErrSpec::CircularDependency { def_varname, varname } => "Definition for \""@
                + def_varname + "\" contains a circular dependency \""@ + varname + "\""@,
            DefViewErrSpec::UnexpectedChildItemType => "Unexpected child item type"@,
        }
    }
}

/// What can go wrong while a definition view is navigated.
#[derive(Debug)]
pub enum DefViewErr {
    /// A transclusion names a definition that the dictionary lacks.
    MissingEntry { varname: String },
    /// An operation that needs a cursor frame found none.
    EmptyStack,
    /// A cursor that had to point at an item did not.
    UnexpectedNone,
    /// A definition was entered again while it was still being expanded.
    CircularDependency { def_varname: String, varname: String },
    /// A rewriter met a kind of child that it does not handle.
    UnexpectedChildItemType,
}

impl View for DefViewErr {
    type V = DefViewErrSpec;

    open spec fn view(&self) -> DefViewErrSpec {
        match self {
            DefViewErr::MissingEntry { varname } => DefViewErrSpec::MissingEntry {
                varname: varname@,
            },
            DefViewErr::EmptyStack => DefViewErrSpec::EmptyStack,
            DefViewErr::UnexpectedNone => DefViewErrSpec::UnexpectedNone,
            DefViewErr::CircularDependency { def_varname, varname } => {
                DefViewErrSpec::CircularDependency { def_varname: def_varname@, varname: varname@ }
            },
            DefViewErr::UnexpectedChildItemType => DefViewErrSpec::UnexpectedChildItemType,
        }
    }
}

impl DefViewErr {
    pub fn message(&self) -> (r: String)
        ensures
            r@ == self@.message(),
    {
        match self {
            DefViewErr::MissingEntry { varname } => {
                let mut out = String::from_str("There is no entry for \"");
                out.append(varname.as_str());
                out.append("\"");
                out
            },
            DefViewErr::EmptyStack => String::from_str("Cursor stack is empty"),
            DefViewErr::UnexpectedNone => String::from_str(
                "Expected this cursor to be pointing to an item",
            ),
            DefViewErr::CircularDependency { def_varname, varname } => {
                let mut out = String::from_str("Definition for \"");
                out.append(def_varname.as_str());
                out.append("\" contains a circular dependency \"");
                out.append(varname.as_str());
                out.append("\"");
                out
            },
            DefViewErr::UnexpectedChildItemType => String::from_str("Unexpected child item type"),
        }
    }
}

/// The mathematical value of an item reference: a node of the expanded tree.
pub enum ItemSpec {
    /// A leaf.
    Keysymbol(KeysymbolSpec),
    /// A sopheme; its children are its keysymbols.
    Sopheme(SophemeSpec),
    /// A whole definition: the root of a view, or an inlined definition.
    Def(DefSpec),
    /// The entities that a transclusion resolved to, with the name it used.
    EntityList(Seq<EntitySpec>, Seq<char>),
}

/// The item that an entity stands for when a traversal reaches it. A
/// transclusion resolves through the dictionary, and fails when its target
/// is not bound.
pub open spec fn entity_item(e: EntitySpec, dict: Map<Seq<char>, Seq<EntitySpec>>) -> Result<
    Option<ItemSpec>,
    DefViewErrSpec,
> {
    match e {
        EntitySpec::Sopheme(s) => Ok(Some(ItemSpec::Sopheme(s))),
        EntitySpec::Transclusion(t) => if dict.contains_key(t.target_varname) {
            Ok(Some(ItemSpec::EntityList(dict[t.target_varname], t.target_varname)))
        } else {
            Err(DefViewErrSpec::MissingEntry { varname: t.target_varname })
        },
        EntitySpec::RawDef(d) => Ok(Some(ItemSpec::Def(d))),
    }
}

impl ItemSpec {
    pub open spec fn n_children(self) -> nat {
        match self {
            ItemSpec::Keysymbol(_) => 0,
            ItemSpec::Sopheme(s) => s.keysymbols.len(),
            ItemSpec::Def(d) => d.entities.len(),
            ItemSpec::EntityList(es, _) => es.len(),
        }
    }

    /// The `i`-th child: `Ok(None)` when `i` is out of range, an error when
    /// the child is a transclusion whose target is missing.
    pub open spec fn child(self, i: int, dict: Map<Seq<char>, Seq<EntitySpec>>) -> Result<
        Option<ItemSpec>,
        DefViewErrSpec,
    > {
        if 0 <= i < self.n_children() {
            match self {
                ItemSpec::Keysymbol(_) => Ok(None),
                ItemSpec::Sopheme(s) => Ok(Some(ItemSpec::Keysymbol(s.keysymbols[i]))),
                ItemSpec::Def(d) => entity_item(d.entities[i], dict),
                ItemSpec::EntityList(es, _) => entity_item(es[i], dict),
            }
        } else {
            Ok(None)
        }
    }
}

/// A typed borrow into the current frontier of a traversal.
#[derive(Debug)]
pub enum DefViewItemRef<'a> {
    Keysymbol(&'a Keysymbol),
    Sopheme(&'a Sopheme),
    Def(&'a Def),
    EntitySeq(&'a Vec<Entity>, String),
}

impl<'a> View for DefViewItemRef<'a> {
    type V = ItemSpec;

    open spec fn view(&self) -> ItemSpec {
        match self {
            DefViewItemRef::Keysymbol(k) => ItemSpec::Keysymbol(k@),
            DefViewItemRef::Sopheme(s) => ItemSpec::Sopheme(s@),
            DefViewItemRef::Def(d) => ItemSpec::Def(d@),
            DefViewItemRef::EntitySeq(es, varname) => ItemSpec::EntityList(
                entities_view(es@),
                varname@,
            ),
        }
    }
}

impl<'a> Clone for DefViewItemRef<'a> {
    fn clone(&self) -> (r: Self)
        ensures
            r == *self,
    {
        match self {
            DefViewItemRef::Keysymbol(k) => DefViewItemRef::Keysymbol(*k),
            DefViewItemRef::Sopheme(s) => DefViewItemRef::Sopheme(*s),
            DefViewItemRef::Def(d) => DefViewItemRef::Def(*d),
            DefViewItemRef::EntitySeq(es, varname) => DefViewItemRef::EntitySeq(
                *es,
                varname.clone(),
            ),
        }
    }
}

/// An item reference never has more children than a machine index can count.
pub proof fn lemma_children_bounded(item: DefViewItemRef)
    ensures
        item@.n_children() <= usize::MAX,
{
    match item {
        DefViewItemRef::Keysymbol(_) => {},
        DefViewItemRef::Sopheme(s) => {
            assert(s@.keysymbols.len() == s.keysymbols.len());
        },
        DefViewItemRef::Def(d) => {
            assert(d@.entities.len() == d.entities.len());
        },
        DefViewItemRef::EntitySeq(es, _) => {
            assert(entities_view(es@).len() == es.len());
        },
    }
}

/// The value of the outcome of a navigation step.
pub open spec fn item_result_view(r: Result<Option<DefViewItemRef>, DefViewErr>) -> Result<
    Option<ItemSpec>,
    DefViewErrSpec,
> {
    match r {
        Ok(Some(item)) => Ok(Some(item@)),
        Ok(None) => Ok(None),
        Err(e) => Err(e@),
    }
}

/// Resolves an entity to the item that a traversal sees in its place.
pub fn entity_item_ref<'a>(entity: &'a Entity, defs: &'a DefDict) -> (r: Result<
    Option<DefViewItemRef<'a>>,
    DefViewErr,
>)
    ensures
        item_result_view(r) == entity_item(entity@, defs@),
{
    match entity {
        Entity::Sopheme(sopheme) => Ok(Some(DefViewItemRef::Sopheme(sopheme))),
        Entity::Transclusion(transclusion) => match defs.get(
            transclusion.target_varname.as_str(),
        ) {
            Some(seq) => Ok(
                Some(DefViewItemRef::EntitySeq(seq, transclusion.target_varname.clone())),
            ),
            None => Err(
                DefViewErr::MissingEntry { varname: transclusion.target_varname.clone() },
            ),
        },
        Entity::RawDef(def) => Ok(Some(DefViewItemRef::Def(def))),
    }
}

impl<'a> DefViewItemRef<'a> {
    /// Resolves the child at `index`.
    pub fn get_child(&self, index: usize, defs: &'a DefDict) -> (r: Result<
        Option<DefViewItemRef<'a>>,
        DefViewErr,
    >)
        ensures
            item_result_view(r) == self@.child(index as int, defs@),
    {
        match self {
            DefViewItemRef::Sopheme(sopheme) => match sopheme.get(index) {
                Some(keysymbol) => Ok(Some(DefViewItemRef::Keysymbol(keysymbol))),
                None => Ok(None),
            },
            DefViewItemRef::Def(def) => match def.get_child(index) {
                Some(entity) => entity_item_ref(entity, defs),
                None => Ok(None),
            },
            DefViewItemRef::EntitySeq(seq, _) => {
                if index < seq.len() {
                    entity_item_ref(&seq[index], defs)
                } else {
                    Ok(None)
                }
            },
            DefViewItemRef::Keysymbol(_) => Ok(None),
        }
    }

    /// The sopheme, if the item is one.
    pub fn get_if_sopheme(&self) -> (r: Option<&'a Sopheme>)
        ensures
            match r {
                Some(s) => *self == DefViewItemRef::Sopheme(s),
                None => !(self is Sopheme),
            },
    {
        match self {
            DefViewItemRef::Sopheme(sopheme) => Some(*sopheme),
            _ => None,
        }
    }

    pub fn n_children(&self) -> (r: usize)
        ensures
            r == self@.n_children(),
    {
        match self {
            DefViewItemRef::Sopheme(sopheme) => sopheme.keysymbols.len(),
            DefViewItemRef::Def(def) => def.entities.len(),
            DefViewItemRef::EntitySeq(seq, _) => seq.len(),
            DefViewItemRef::Keysymbol(_) => 0,
        }
    }
}

/// An item reference together with a stress override that applies to it.
#[derive(Debug)]
pub struct DefViewItemRefModified<'a> {
    pub item_ref: DefViewItemRef<'a>,
    pub stress_modifier: u8,
}

impl<'a> DefViewItemRefModified<'a> {
    pub fn new(item_ref: DefViewItemRef<'a>, stress_modifier: u8) -> (r: DefViewItemRefModified<'a>)
        ensures
            r.item_ref == item_ref,
            r.stress_modifier == stress_modifier,
    {
        DefViewItemRefModified { item_ref, stress_modifier }
    }
}

} // verus!

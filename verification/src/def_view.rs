//! Definition views: a root definition seen through a dictionary, expanded
//! lazily into a tree of items.

use vstd::prelude::*;
use vstd::string::StringExecFns;
use crate::dict::DefDict;
use crate::entity::{Def, DefSpec, EntitySpec};
use crate::item::{DefViewErr, DefViewErrSpec, DefViewItemRef, ItemSpec, item_result_view};

verus! {

/// A path of child positions, as machine indexes, read as integers.
pub open spec fn as_path(indexes: Seq<usize>) -> Seq<int> {
    indexes.map_values(|i: usize| i as int)
}

/// The mathematical value of a [`DefView`].
pub struct DefViewSpec {
    pub dict: Map<Seq<char>, Seq<EntitySpec>>,
    pub root: DefSpec,
}

impl DefViewSpec {
    /// The item at the root of the expanded tree.
    pub open spec fn root_item(self) -> ItemSpec {
        ItemSpec::Def(self.root)
    }

    /// The item reached from the root by taking the child positions of
    /// `path` in turn: `Ok(None)` as soon as a position is out of range, an
    /// error as soon as a transclusion cannot be resolved.
    pub open spec fn item_at(self, path: Seq<int>) -> Result<Option<ItemSpec>, DefViewErrSpec>
        decreases path.len(),
    {
        if path.len() == 0 {
            Ok(Some(self.root_item()))
        } else {
            match self.item_at(path.drop_last()) {
                Ok(Some(parent)) => parent.child(path.last(), self.dict),
                Ok(None) => Ok(None),
                Err(e) => Err(e),
            }
        }
    }

    /// Whether `path` leads to an item.
    pub open spec fn has_item(self, path: Seq<int>) -> bool {
        self.item_at(path) is Ok && self.item_at(path)->Ok_0 is Some
    }

    /// The item that `path` leads to.
    pub open spec fn item(self, path: Seq<int>) -> ItemSpec
        recommends
            self.has_item(path),
    {
        self.item_at(path)->Ok_0->Some_0
    }
}

/// The root of a view: a definition that the view owns or borrows.
#[derive(Debug)]
pub enum DefViewRoot<'a> {
    Def(Def),
    DefRef(&'a Def),
}

impl<'a> View for DefViewRoot<'a> {
    type V = DefSpec;

    open spec fn view(&self) -> DefSpec {
        match self {
            DefViewRoot::Def(def) => def@,
            DefViewRoot::DefRef(def) => def@,
        }
    }
}

impl<'a> DefViewRoot<'a> {
    pub fn def_ref(&self) -> (r: &Def)
        ensures
            r@ == self@,
    {
        match self {
            DefViewRoot::Def(def) => def,
            DefViewRoot::DefRef(def) => def,
        }
    }

    pub fn as_item_ref(&self) -> (r: DefViewItemRef)
        ensures
            r@ == ItemSpec::Def(self@),
    {
        DefViewItemRef::Def(self.def_ref())
    }
}

/// A rooted, lazily expanded view over a dictionary of definitions.
#[derive(Debug)]
pub struct DefView<'a> {
    defs: &'a DefDict,
    root: DefViewRoot<'a>,
}

impl<'a> View for DefView<'a> {
    type V = DefViewSpec;

    closed spec fn view(&self) -> DefViewSpec {
        DefViewSpec { dict: self.defs@, root: self.root@ }
    }
}

impl<'a> DefView<'a> {
    pub fn new(defs: &'a DefDict, root_def: Def) -> (r: Self)
        ensures
            r@ == (DefViewSpec { dict: defs@, root: root_def@ }),
    {
        DefView { defs, root: DefViewRoot::Def(root_def) }
    }

    pub fn new_ref(defs: &'a DefDict, root_def: &'a Def) -> (r: Self)
        ensures
            r@ == (DefViewSpec { dict: defs@, root: root_def@ }),
    {
        DefView { defs, root: DefViewRoot::DefRef(root_def) }
    }

    pub fn defs(&self) -> (r: &'a DefDict)
        ensures
            r@ == self@.dict,
    {
        self.defs
    }

    pub fn root(&self) -> (r: &DefViewRoot<'a>)
        ensures
            r@ == self@.root,
    {
        &self.root
    }

    /// The view rooted at the definition that `defs` binds to `varname`.
    pub fn get_entry(defs: &'a DefDict, varname: &str) -> (r: Result<DefView<'a>, DefViewErr>)
        ensures
            match r {
                Ok(view) => defs@.contains_key(varname@) && view@ == (DefViewSpec {
                    dict: defs@,
                    root: DefSpec { entities: defs@[varname@], varname: varname@ },
                }),
                Err(e) => !defs@.contains_key(varname@) && e@ == (DefViewErrSpec::MissingEntry {
                    varname: varname@,
                }),
            },
    {
        match defs.get_def(varname) {
            Some(def) => Ok(DefView::new(defs, def)),
            None => Err(DefViewErr::MissingEntry { varname: String::from_str(varname) }),
        }
    }

    /// Descends from the root along `indexes`.
    pub fn read(&self, indexes: &[usize]) -> (r: Result<Option<DefViewItemRef>, DefViewErr>)
        ensures
            item_result_view(r) == self@.item_at(as_path(indexes@)),
    {
        let mut cur_item_ref = self.root.as_item_ref();
        let ghost path = as_path(indexes@);
        let mut k: usize = 0;
        while k < indexes.len()
            invariant
                k <= indexes.len(),
                path == as_path(indexes@),
                self@.item_at(path.take(k as int)) == Ok::<Option<ItemSpec>, DefViewErrSpec>(
                    Some(cur_item_ref@),
                ),
            decreases indexes.len() - k,
        {
            proof {
                assert(path.take(k as int + 1).drop_last() =~= path.take(k as int));
                assert(path.take(k as int + 1).last() == indexes@[k as int] as int);
            }
            match cur_item_ref.get_child(indexes[k], self.defs) {
                Ok(Some(item_ref)) => {
                    cur_item_ref = item_ref;
                },
                Ok(None) => {
                    proof {
                        lemma_item_at_none_extends(self@, path, k as int + 1);
                    }
                    return Ok(None);
                },
                Err(e) => {
                    proof {
                        lemma_item_at_err_extends(self@, path, k as int + 1);
                    }
                    return Err(e);
                },
            }
            k += 1;
        }
        proof {
            assert(path.take(k as int) =~= path);
        }
        Ok(Some(cur_item_ref))
    }

    /// Descends from the root along `indexes`.
    pub fn get(&self, indexes: &[usize]) -> (r: Result<Option<DefViewItemRef>, DefViewErr>)
        ensures
            item_result_view(r) == self@.item_at(as_path(indexes@)),
    {
        self.read(indexes)
    }
}

/// Once a prefix of a path leads nowhere, so does the whole path.
pub proof fn lemma_item_at_none_extends(v: DefViewSpec, path: Seq<int>, k: int)
    requires
        0 <= k <= path.len(),
        v.item_at(path.take(k)) == Ok::<Option<ItemSpec>, DefViewErrSpec>(None),
    ensures
        v.item_at(path) == Ok::<Option<ItemSpec>, DefViewErrSpec>(None),
    decreases path.len() - k,
{
    if k < path.len() {
        assert(path.take(k + 1).drop_last() =~= path.take(k));
        lemma_item_at_none_extends(v, path, k + 1);
    } else {
        assert(path.take(k) =~= path);
    }
}

/// Once a prefix of a path fails, the whole path fails in the same way.
pub proof fn lemma_item_at_err_extends(v: DefViewSpec, path: Seq<int>, k: int)
    requires
        0 <= k <= path.len(),
        v.item_at(path.take(k)) is Err,
    ensures
        v.item_at(path) == v.item_at(path.take(k)),
    decreases path.len() - k,
{
    if k < path.len() {
        assert(path.take(k + 1).drop_last() =~= path.take(k));
        lemma_item_at_err_extends(v, path, k + 1);
    } else {
        assert(path.take(k) =~= path);
    }
}

} // verus!

//! The dictionary of definitions: a map from variable names to entity
//! sequences.

use vstd::prelude::*;
use vstd::string::StringExecFns;
use crate::entity::{Def, Entity, EntitySpec, entities_view, clone_entities};
use crate::text::str_eq;

verus! {

/// One stored definition.
#[derive(Debug)]
pub struct DictEntry {
    pub varname: String,
    pub entities: Vec<Entity>,
}

/// The position of the first entry named `name`.
pub open spec fn entry_index(entries: Seq<DictEntry>, name: Seq<char>) -> Option<int>
    decreases entries.len(),
{
    if entries.len() == 0 {
        None
    } else {
        match entry_index(entries.drop_last(), name) {
            Some(i) => Some(i),
            None => if entries.last().varname@ == name {
                Some(entries.len() - 1)
            } else {
                None
            },
        }
    }
}

/// `entry_index` finds the first entry of the given name, if any has it.
pub proof fn lemma_entry_index(entries: Seq<DictEntry>, name: Seq<char>)
    ensures
        match entry_index(entries, name) {
            Some(i) => 0 <= i < entries.len() && entries[i].varname@ == name && forall|j: int|
                0 <= j < i ==> (#[trigger] entries[j]).varname@ != name,
            None => forall|j: int| 0 <= j < entries.len() ==> (#[trigger] entries[j]).varname@ != name,
        },
    decreases entries.len(),
{
    if entries.len() > 0 {
        lemma_entry_index(entries.drop_last(), name);
        assert(forall|j: int|
            0 <= j < entries.len() - 1 ==> entries[j] == entries.drop_last()[j]);
    }
}

/// The first entry of a given name is what `entry_index` finds.
pub proof fn lemma_entry_index_is(entries: Seq<DictEntry>, name: Seq<char>, i: int)
    requires
        0 <= i < entries.len(),
        entries[i].varname@ == name,
        forall|j: int| 0 <= j < i ==> (#[trigger] entries[j]).varname@ != name,
    ensures
        entry_index(entries, name) == Some(i),
{
    lemma_entry_index(entries, name);
}

/// The map that a list of entries stands for: each name is bound to the
/// entities of the first entry that carries it.
pub open spec fn entries_map(entries: Seq<DictEntry>) -> Map<Seq<char>, Seq<EntitySpec>> {
    Map::new(
        |name: Seq<char>| entry_index(entries, name) is Some,
        |name: Seq<char>| entities_view(entries[entry_index(entries, name).unwrap()].entities@),
    )
}

/// A list of entries binds finitely many names.
pub proof fn lemma_entries_map_finite(entries: Seq<DictEntry>)
    ensures
        entries_map(entries).dom().finite(),
    decreases entries.len(),
{
    if entries.len() == 0 {
        assert(entries_map(entries).dom() =~= Set::empty());
    } else {
        lemma_entries_map_finite(entries.drop_last());
        let smaller = entries_map(entries.drop_last()).dom();
        assert(entries_map(entries).dom() =~= smaller.insert(entries.last().varname@));
    }
}

/// A mapping from variable names to entity sequences.
#[derive(Debug)]
pub struct DefDict {
    entries: Vec<DictEntry>,
}

impl View for DefDict {
    type V = Map<Seq<char>, Seq<EntitySpec>>;

    closed spec fn view(&self) -> Map<Seq<char>, Seq<EntitySpec>> {
        entries_map(self.entries@)
    }
}

impl DefDict {
    pub fn new() -> (r: Self)
        ensures
            r@ == Map::<Seq<char>, Seq<EntitySpec>>::empty(),
    {
        let r = DefDict { entries: Vec::new() };
        assert(r@ =~= Map::empty());
        r
    }

    /// The number of names bound is finite.
    pub proof fn lemma_finite(&self)
        ensures
            self@.dom().finite(),
    {
        lemma_entries_map_finite(self.entries@);
    }

    fn position(&self, varname: &str) -> (r: Option<usize>)
        ensures
            match r {
                Some(i) => entry_index(self.entries@, varname@) == Some(i as int) && i
                    < self.entries.len(),
                None => entry_index(self.entries@, varname@) is None,
            },
    {
        let mut i: usize = 0;
        while i < self.entries.len()
            invariant
                i <= self.entries.len(),
                forall|j: int| 0 <= j < i ==> (#[trigger] self.entries@[j]).varname@ != varname@,
            decreases self.entries.len() - i,
        {
            if str_eq(self.entries[i].varname.as_str(), varname) {
                proof {
                    lemma_entry_index(self.entries@, varname@);
                }
                return Some(i);
            }
            i += 1;
        }
        proof {
            lemma_entry_index(self.entries@, varname@);
        }
        None
    }

    /// Binds `varname` to `entities`, replacing an earlier binding.
    pub fn add(&mut self, varname: String, entities: Vec<Entity>)
        ensures
            final(self)@ == old(self)@.insert(varname@, entities_view(entities@)),
    {
        let ghost before = self.entries@;
        match self.position(varname.as_str()) {
            Some(i) => {
                self.entries[i] = DictEntry { varname, entities };
            },
            None => {
                self.entries.push(DictEntry { varname, entities });
            },
        }
        proof {
            let after = self.entries@;
            assert forall|name: Seq<char>| #[trigger]
                entries_map(after).contains_key(name) == old(self)@.insert(
                    varname@,
                    entities_view(entities@),
                ).contains_key(name) && (entries_map(after).contains_key(name) ==> entries_map(
                    after,
                )[name] == old(self)@.insert(varname@, entities_view(entities@))[name]) by {
                lemma_entry_index(after, name);
                lemma_entry_index(before, name);
                lemma_entry_index(before, varname@);
                match entry_index(before, name) {
                    Some(k) => {
                        assert(after[k].varname@ == name);
                        assert(forall|j: int| 0 <= j < k ==> after[j].varname@ == before[j].varname@);
                        lemma_entry_index_is(after, name, k);
                    },
                    None => {
                        if name == varname@ {
                            assert(after.len() == before.len() + 1);
                            assert(forall|j: int|
                                0 <= j < before.len() ==> after[j].varname@ == before[j].varname@);
                            lemma_entry_index_is(after, name, before.len() as int);
                        } else {
                            assert(forall|j: int|
                                0 <= j < after.len() ==> (#[trigger] after[j]).varname@ != name) by {
                                assert(forall|j: int|
                                    0 <= j < before.len() ==> (#[trigger] after[j]).varname@
                                        == before[j].varname@);
                            }
                        }
                    },
                }
            }
            assert(self@ =~= old(self)@.insert(varname@, entities_view(entities@)));
        }
    }

    /// The entities bound to `varname`, if any.
    pub fn get(&self, varname: &str) -> (r: Option<&Vec<Entity>>)
        ensures
            match r {
                Some(es) => self@.contains_key(varname@) && entities_view(es@) == self@[varname@],
                None => !self@.contains_key(varname@),
            },
    {
        match self.position(varname) {
            Some(i) => Some(&self.entries[i].entities),
            None => None,
        }
    }

    /// A definition named `varname` that holds a copy of the entities bound
    /// to that name, if any.
    pub fn get_def(&self, varname: &str) -> (r: Option<Def>)
        ensures
            match r {
                Some(d) => self@.contains_key(varname@) && d@.entities == self@[varname@]
                    && d@.varname == varname@,
                None => !self@.contains_key(varname@),
            },
    {
        match self.get(varname) {
            Some(es) => Some(Def::of(clone_entities(es), String::from_str(varname))),
            None => None,
        }
    }
}

} // verus!

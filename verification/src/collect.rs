//! Flattening a view: the sophemes that a definition expands to, and the
//! spelling that they make up.

use vstd::prelude::*;
use vstd::string::StringExecFns;
use vstd::set_lib::lemma_len_subset;
use crate::def_view::{DefView, DefViewSpec};
use crate::dict::DefDict;
use crate::entity::{Entity, EntitySpec, entities_view};
use crate::item::{DefViewErr, DefViewErrSpec};
use crate::queries::text_result_view;
use crate::sopheme::{Sopheme, SophemeSeq, SophemeSpec, sophemes_view};
use crate::text::{concat_text, lemma_concat_text_step, str_eq};

verus! {

/// The number of names that the dictionary binds and that are not open.
pub open spec fn closed_names(
    dict: Map<Seq<char>, Seq<EntitySpec>>,
    open: Set<Seq<char>>,
) -> nat {
    dict.dom().difference(open).len()
}

/// Opening one more name does not add closed names, and opening a bound
/// name that was closed takes one away.
pub proof fn lemma_open_name(
    dict: Map<Seq<char>, Seq<EntitySpec>>,
    open: Set<Seq<char>>,
    name: Seq<char>,
)
    requires
        dict.dom().finite(),
    ensures
        closed_names(dict, open.insert(name)) <= closed_names(dict, open),
        dict.contains_key(name) && !open.contains(name) ==> closed_names(dict, open.insert(name))
            < closed_names(dict, open),
{
    let before = dict.dom().difference(open);
    let after = dict.dom().difference(open.insert(name));
    assert(after =~= before.remove(name));
    assert(before.finite());
}

/// The sophemes that an entity expands to while the names in `open` are
/// being expanded. A transclusion of an open name is a circular dependency
/// of the definition named `root`; a transclusion of a name that the
/// dictionary lacks is a missing entry.
pub open spec fn collect_entity(
    dict: Map<Seq<char>, Seq<EntitySpec>>,
    root: Seq<char>,
    open: Set<Seq<char>>,
    e: EntitySpec,
) -> Result<Seq<SophemeSpec>, DefViewErrSpec>
    decreases closed_names(dict, open), e,
    when dict.dom().finite()
{
    match e {
        EntitySpec::Sopheme(s) => Ok(seq![s]),
        EntitySpec::Transclusion(t) => if open.contains(t.target_varname) {
            Err(DefViewErrSpec::CircularDependency { def_varname: root, varname: t.target_varname })
        } else if !dict.contains_key(t.target_varname) {
            Err(DefViewErrSpec::MissingEntry { varname: t.target_varname })
        } else {
            proof {
                lemma_open_name(dict, open, t.target_varname);
            }
            collect_list(dict, root, open.insert(t.target_varname), dict[t.target_varname])
        },
        EntitySpec::RawDef(d) => {
            proof {
                lemma_open_name(dict, open, d.varname);
            }
            collect_list(dict, root, open.insert(d.varname), d.entities)
        },
    }
}

/// The sophemes that a sequence of entities expands to, in order; the first
/// failure wins.
pub open spec fn collect_list(
    dict: Map<Seq<char>, Seq<EntitySpec>>,
    root: Seq<char>,
    open: Set<Seq<char>>,
    es: Seq<EntitySpec>,
) -> Result<Seq<SophemeSpec>, DefViewErrSpec>
    decreases closed_names(dict, open), es,
    when dict.dom().finite()
{
    if es.len() == 0 {
        Ok(Seq::empty())
    } else {
        match collect_list(dict, root, open, es.drop_last()) {
            Ok(front) => match collect_entity(dict, root, open, es.last()) {
                Ok(more) => Ok(front + more),
                Err(e) => Err(e),
            },
            Err(e) => Err(e),
        }
    }
}

impl DefViewSpec {
    /// The sophemes that the view expands to.
    pub open spec fn sophemes(self) -> Result<Seq<SophemeSpec>, DefViewErrSpec> {
        collect_list(self.dict, self.root.varname, set![self.root.varname], self.root.entities)
    }

    /// The spelling of the view: the spellings of its sophemes, one after
    /// another.
    pub open spec fn translation(self) -> Result<Seq<char>, DefViewErrSpec> {
        match self.sophemes() {
            Ok(sophemes) => Ok(concat_text(sophemes.map_values(|s: SophemeSpec| s.chars))),
            Err(e) => Err(e),
        }
    }
}

/// Once collecting fails on a prefix of the entities, it fails the same
/// way on all of them.
pub proof fn lemma_collect_list_err(
    dict: Map<Seq<char>, Seq<EntitySpec>>,
    root: Seq<char>,
    open: Set<Seq<char>>,
    es: Seq<EntitySpec>,
    k: int,
)
    requires
        dict.dom().finite(),
        0 <= k <= es.len(),
        collect_list(dict, root, open, es.take(k)) is Err,
    ensures
        collect_list(dict, root, open, es) == collect_list(dict, root, open, es.take(k)),
    decreases es.len() - k,
{
    if k < es.len() {
        assert(es.take(k + 1).drop_last() =~= es.take(k));
        lemma_collect_list_err(dict, root, open, es, k + 1);
    } else {
        assert(es.take(k) =~= es);
    }
}

/// The names on a stack of open definitions.
pub open spec fn stack_names(open: Seq<String>) -> Set<Seq<char>> {
    Set::new(|name: Seq<char>| exists|i: int| 0 <= i < open.len() && (#[trigger] open[i])@ == name)
}

/// Pushing a name on the stack adds it to the names.
pub proof fn lemma_stack_names_push(open: Seq<String>, name: String)
    ensures
        stack_names(open.push(name)) == stack_names(open).insert(name@),
{
    let pushed = open.push(name);
    assert forall|n: Seq<char>| stack_names(pushed).contains(n) == stack_names(open).insert(
        name@,
    ).contains(n) by {
        if stack_names(pushed).contains(n) {
            let i = choose|i: int| 0 <= i < pushed.len() && (#[trigger] pushed[i])@ == n;
            if i < open.len() {
                assert(open[i]@ == n);
            }
        }
        if stack_names(open).contains(n) {
            let i = choose|i: int| 0 <= i < open.len() && (#[trigger] open[i])@ == n;
            assert(pushed[i]@ == n);
        }
        if n == name@ {
            assert(pushed[open.len() as int]@ == n);
        }
    }
    assert(stack_names(pushed) =~= stack_names(open).insert(name@));
}

/// Whether a stack of open definitions holds a name.
pub fn stack_contains(open: &Vec<String>, name: &str) -> (r: bool)
    ensures
        r == stack_names(open@).contains(name@),
{
    let mut i: usize = 0;
    while i < open.len()
        invariant
            i <= open.len(),
            forall|j: int| 0 <= j < i ==> (#[trigger] open@[j])@ != name@,
        decreases open.len() - i,
    {
        if str_eq(open[i].as_str(), name) {
            return true;
        }
        i += 1;
    }
    false
}

/// Expands an entity, appending its sophemes to `out`.
fn collect_entity_into(
    e: &Entity,
    dict: &DefDict,
    root: &str,
    open: &mut Vec<String>,
    out: &mut Vec<Sopheme>,
) -> (r: Result<(), DefViewErr>)
    ensures
        match r {
            Ok(_) => collect_entity(dict@, root@, stack_names(old(open)@), e@) is Ok
                && sophemes_view(final(out)@) == sophemes_view(old(out)@) + collect_entity(
                dict@,
                root@,
                stack_names(old(open)@),
                e@,
            )->Ok_0 && final(open)@ == old(open)@,
            Err(err) => collect_entity(dict@, root@, stack_names(old(open)@), e@) == Err::<
                Seq<SophemeSpec>,
                DefViewErrSpec,
            >(err@),
        },
    decreases closed_names(dict@, stack_names(old(open)@)), *e,
{
    proof {
        dict.lemma_finite();
    }
    match e {
        Entity::Sopheme(sopheme) => {
            out.push(sopheme.clone());
            proof {
                assert(sophemes_view(out@) =~= sophemes_view(old(out)@) + seq![sopheme@]);
            }
            Ok(())
        },
        Entity::Transclusion(transclusion) => {
            if stack_contains(open, transclusion.target_varname.as_str()) {
                return Err(
                    DefViewErr::CircularDependency {
                        def_varname: String::from_str(root),
                        varname: transclusion.target_varname.clone(),
                    },
                );
            }
            match dict.get(transclusion.target_varname.as_str()) {
                Some(inner) => {
                    proof {
                        lemma_open_name(dict@, stack_names(open@), transclusion.target_varname@);
                        lemma_stack_names_push(open@, transclusion.target_varname);
                    }
                    open.push(transclusion.target_varname.clone());
                    match collect_list_into(inner, dict, root, open, out) {
                        Ok(()) => {
                            open.pop();
                            proof {
                                assert(open@ =~= old(open)@);
                            }
                            Ok(())
                        },
                        Err(err) => Err(err),
                    }
                },
                None => Err(
                    DefViewErr::MissingEntry { varname: transclusion.target_varname.clone() },
                ),
            }
        },
        Entity::RawDef(def) => {
            proof {
                lemma_open_name(dict@, stack_names(open@), def.varname@);
                lemma_stack_names_push(open@, def.varname);
            }
            open.push(def.varname.clone());
            match collect_list_into(&def.entities, dict, root, open, out) {
                Ok(()) => {
                    open.pop();
                    proof {
                        assert(open@ =~= old(open)@);
                    }
                    Ok(())
                },
                Err(err) => Err(err),
            }
        },
    }
}

/// Expands a list of entities, appending their sophemes to `out`.
fn collect_list_into(
    es: &Vec<Entity>,
    dict: &DefDict,
    root: &str,
    open: &mut Vec<String>,
    out: &mut Vec<Sopheme>,
) -> (r: Result<(), DefViewErr>)
    ensures
        match r {
            Ok(_) => collect_list(dict@, root@, stack_names(old(open)@), entities_view(es@)) is Ok
                && sophemes_view(final(out)@) == sophemes_view(old(out)@) + collect_list(
                dict@,
                root@,
                stack_names(old(open)@),
                entities_view(es@),
            )->Ok_0 && final(open)@ == old(open)@,
            Err(err) => collect_list(dict@, root@, stack_names(old(open)@), entities_view(es@))
                == Err::<Seq<SophemeSpec>, DefViewErrSpec>(err@),
        },
    decreases closed_names(dict@, stack_names(old(open)@)), *es,
{
    proof {
        dict.lemma_finite();
    }
    let ghost names = stack_names(open@);
    let ghost all = entities_view(es@);
    let mut i: usize = 0;
    proof {
        assert(sophemes_view(out@) + Seq::<SophemeSpec>::empty() =~= sophemes_view(out@));
    }
    while i < es.len()
        invariant
            i <= es.len(),
            dict@.dom().finite(),
            open@ == old(open)@,
            names == stack_names(old(open)@),
            all == entities_view(es@),
            collect_list(dict@, root@, names, all.take(i as int)) is Ok,
            sophemes_view(out@) == sophemes_view(old(out)@) + collect_list(
                dict@,
                root@,
                names,
                all.take(i as int),
            )->Ok_0,
        decreases es.len() - i,
    {
        proof {
            assert(all.take(i as int + 1).drop_last() =~= all.take(i as int));
            assert(all.take(i as int + 1).last() == es@[i as int]@);
        }
        match collect_entity_into(&es[i], dict, root, open, out) {
            Ok(()) => {
                proof {
                    let front = collect_list(dict@, root@, names, all.take(i as int))->Ok_0;
                    let more = collect_entity(dict@, root@, names, es@[i as int]@)->Ok_0;
                    assert(sophemes_view(out@) =~= sophemes_view(old(out)@) + (front + more));
                }
            },
            Err(err) => {
                proof {
                    lemma_collect_list_err(dict@, root@, names, all, i as int + 1);
                }
                return Err(err);
            },
        }
        i += 1;
    }
    proof {
        assert(all.take(i as int) =~= all);
    }
    Ok(())
}

impl<'a> DefView<'a> {
    /// The sophemes that the view expands to, transclusions resolved.
    pub fn collect_sophemes(&self) -> (r: Result<SophemeSeq, DefViewErr>)
        ensures
            match r {
                Ok(found) => self@.sophemes() == Ok::<Seq<SophemeSpec>, DefViewErrSpec>(found@),
                Err(e) => self@.sophemes() == Err::<Seq<SophemeSpec>, DefViewErrSpec>(e@),
            },
    {
        let root = self.root().def_ref();
        let mut open: Vec<String> = Vec::new();
        let mut sophemes: Vec<Sopheme> = Vec::new();
        proof {
            lemma_stack_names_push(open@, root.varname);
            assert(stack_names(open@) =~= Set::<Seq<char>>::empty());
            assert(stack_names(open@).insert(root.varname@) =~= set![root.varname@]);
            assert(sophemes_view(sophemes@) =~= Seq::<SophemeSpec>::empty());
        }
        open.push(root.varname.clone());
        match collect_list_into(
            &root.entities,
            self.defs(),
            root.varname.as_str(),
            &mut open,
            &mut sophemes,
        ) {
            Ok(()) => {
                proof {
                    let found = self@.sophemes()->Ok_0;
                    assert(Seq::<SophemeSpec>::empty() + found =~= found);
                }
                Ok(SophemeSeq::new(sophemes))
            },
            Err(e) => Err(e),
        }
    }

    /// The spelling of the view.
    pub fn translation(&self) -> (r: Result<String, DefViewErr>)
        ensures
            text_result_view(r) == self@.translation(),
    {
        match self.collect_sophemes() {
            Ok(found) => {
                let ghost parts = found@.map_values(|s: SophemeSpec| s.chars);
                let mut out = String::new();
                let mut i: usize = 0;
                while i < found.items.len()
                    invariant
                        i <= found.items.len(),
                        parts == found@.map_values(|s: SophemeSpec| s.chars),
                        out@ == concat_text(parts.take(i as int)),
                    decreases found.items.len() - i,
                {
                    proof {
                        lemma_concat_text_step(parts, i as int);
                        assert(parts[i as int] == found.items@[i as int].chars@);
                    }
                    out.append(found.items[i].chars.as_str());
                    i += 1;
                }
                proof {
                    assert(parts.take(i as int) =~= parts);
                }
                Ok(out)
            },
            Err(e) => Err(e),
        }
    }
}

/// The spelling of a view is the concatenation of the spellings of the
/// sophemes that it expands to.
pub proof fn lemma_translation_is_concat(v: DefViewSpec)
    requires
        v.sophemes() is Ok,
    ensures
        v.translation() == Ok::<Seq<char>, DefViewErrSpec>(
            concat_text(v.sophemes()->Ok_0.map_values(|s: SophemeSpec| s.chars)),
        ),
{
}

/// A definition that transcludes itself is a circular dependency.
pub proof fn lemma_self_reference_is_circular(v: DefViewSpec, i: int)
    requires
        v.dict.dom().finite(),
        0 <= i < v.root.entities.len(),
        v.root.entities[i] matches EntitySpec::Transclusion(t) && t.target_varname == v.root.varname,
        collect_list(v.dict, v.root.varname, set![v.root.varname], v.root.entities.take(i)) is Ok,
    ensures
        v.sophemes() == Err::<Seq<SophemeSpec>, DefViewErrSpec>(
            DefViewErrSpec::CircularDependency {
                def_varname: v.root.varname,
                varname: v.root.varname,
            },
        ),
{
    let es = v.root.entities;
    let open = set![v.root.varname];
    let circular = DefViewErrSpec::CircularDependency {
        def_varname: v.root.varname,
        varname: v.root.varname,
    };
    assert(es.take(i + 1).drop_last() =~= es.take(i));
    assert(es.take(i + 1).last() == es[i]);
    assert(open.contains(v.root.varname));
    assert(collect_entity(v.dict, v.root.varname, open, es[i]) == Err::<
        Seq<SophemeSpec>,
        DefViewErrSpec,
    >(circular));
    assert(collect_list(v.dict, v.root.varname, open, es.take(i + 1)) == Err::<
        Seq<SophemeSpec>,
        DefViewErrSpec,
    >(circular));
    lemma_collect_list_err(v.dict, v.root.varname, set![v.root.varname], es, i + 1);
}

} // verus!

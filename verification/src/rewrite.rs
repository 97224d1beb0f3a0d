//! Rewriting the keysymbols of a view: the tree that a view expands to is
//! rebuilt as a definition, with each keysymbol replaced by a list of
//! keysymbols.

use vstd::prelude::*;
use vstd::string::StringExecFns;
use crate::collect::{
    closed_names, lemma_open_name, lemma_stack_names_push, stack_contains, stack_names,
};
use crate::def_view::{DefView, DefViewSpec};
use crate::dict::DefDict;
use crate::entity::{Def, DefSpec, Entity, EntitySpec, entities_view};
use crate::item::{DefViewErr, DefViewErrSpec};
use crate::keysymbol::{Keysymbol, KeysymbolSpec};
use crate::sopheme::{Sopheme, SophemeSpec, keysymbols_view};

verus! {

/// Something rebuilt, and the replacements that are left for what follows.
pub struct Rewritten<T> {
    pub value: T,
    pub rest: Seq<Seq<KeysymbolSpec>>,
}

/// The lists of keysymbols, one after another.
pub open spec fn concat_keysymbols(lists: Seq<Seq<KeysymbolSpec>>) -> Seq<KeysymbolSpec>
    decreases lists.len(),
{
    if lists.len() == 0 {
        Seq::empty()
    } else {
        concat_keysymbols(lists.drop_last()) + lists.last()
    }
}

/// The values of a list of replacement lists.
pub open spec fn replacements_view(replacements: Seq<Vec<Keysymbol>>) -> Seq<Seq<KeysymbolSpec>> {
    replacements.map_values(|list: Vec<Keysymbol>| keysymbols_view(list@))
}

/// A sopheme with each keysymbol replaced by the next list of
/// replacements. Too few replacements are an error.
pub open spec fn rewrite_sopheme(s: SophemeSpec, reps: Seq<Seq<KeysymbolSpec>>) -> Result<
    Rewritten<SophemeSpec>,
    DefViewErrSpec,
> {
    if reps.len() < s.keysymbols.len() {
        Err(DefViewErrSpec::UnexpectedNone)
    } else {
        Ok(
            Rewritten {
                value: SophemeSpec {
                    chars: s.chars,
                    keysymbols: concat_keysymbols(reps.take(s.keysymbols.len() as int)),
                },
                rest: reps.skip(s.keysymbols.len() as int),
            },
        )
    }
}

/// An entity rebuilt while the names in `open` are being expanded: a
/// sopheme has its keysymbols replaced; a transclusion becomes the inlined
/// definition of its target, rebuilt; an inlined definition is rebuilt.
pub open spec fn rewrite_entity(
    dict: Map<Seq<char>, Seq<EntitySpec>>,
    root: Seq<char>,
    open: Set<Seq<char>>,
    e: EntitySpec,
    reps: Seq<Seq<KeysymbolSpec>>,
) -> Result<Rewritten<EntitySpec>, DefViewErrSpec>
    decreases closed_names(dict, open), e,
    when dict.dom().finite()
{
    match e {
        EntitySpec::Sopheme(s) => match rewrite_sopheme(s, reps) {
            Ok(r) => Ok(Rewritten { value: EntitySpec::Sopheme(r.value), rest: r.rest }),
            Err(err) => Err(err),
        },
        EntitySpec::Transclusion(t) => if open.contains(t.target_varname) {
            Err(DefViewErrSpec::CircularDependency { def_varname: root, varname: t.target_varname })
        } else if !dict.contains_key(t.target_varname) {
            Err(DefViewErrSpec::MissingEntry { varname: t.target_varname })
        } else {
            proof {
                lemma_open_name(dict, open, t.target_varname);
            }
            match rewrite_list(
                dict,
                root,
                open.insert(t.target_varname),
                dict[t.target_varname],
                reps,
            ) {
                Ok(r) => Ok(
                    Rewritten {
                        value: EntitySpec::RawDef(
                            DefSpec { entities: r.value, varname: t.target_varname },
                        ),
                        rest: r.rest,
                    },
                ),
                Err(err) => Err(err),
            }
        },
        EntitySpec::RawDef(d) => {
            proof {
                lemma_open_name(dict, open, d.varname);
            }
            match rewrite_list(dict, root, open.insert(d.varname), d.entities, reps) {
                Ok(r) => Ok(
                    Rewritten {
                        value: EntitySpec::RawDef(DefSpec { entities: r.value, varname: d.varname }),
                        rest: r.rest,
                    },
                ),
                Err(err) => Err(err),
            }
        },
    }
}

/// A sequence of entities rebuilt, in order; the first failure wins.
pub open spec fn rewrite_list(
    dict: Map<Seq<char>, Seq<EntitySpec>>,
    root: Seq<char>,
    open: Set<Seq<char>>,
    es: Seq<EntitySpec>,
    reps: Seq<Seq<KeysymbolSpec>>,
) -> Result<Rewritten<Seq<EntitySpec>>, DefViewErrSpec>
    decreases closed_names(dict, open), es,
    when dict.dom().finite()
{
    if es.len() == 0 {
        Ok(Rewritten { value: Seq::empty(), rest: reps })
    } else {
        match rewrite_list(dict, root, open, es.drop_last(), reps) {
            Ok(front) => match rewrite_entity(dict, root, open, es.last(), front.rest) {
                Ok(last) => Ok(Rewritten { value: front.value.push(last.value), rest: last.rest }),
                Err(err) => Err(err),
            },
            Err(err) => Err(err),
        }
    }
}

impl DefViewSpec {
    /// The view rebuilt as a definition under the name of its root, with
    /// the keysymbols replaced, in the order of a forward walk, by the
    /// lists of `reps`.
    pub open spec fn rewritten(self, reps: Seq<Seq<KeysymbolSpec>>) -> Result<DefSpec, DefViewErrSpec> {
        match rewrite_list(
            self.dict,
            self.root.varname,
            set![self.root.varname],
            self.root.entities,
            reps,
        ) {
            Ok(r) => Ok(DefSpec { entities: r.value, varname: self.root.varname }),
            Err(err) => Err(err),
        }
    }
}

/// Once rebuilding fails on a prefix of the entities, it fails the same
/// way on all of them.
pub proof fn lemma_rewrite_list_err(
    dict: Map<Seq<char>, Seq<EntitySpec>>,
    root: Seq<char>,
    open: Set<Seq<char>>,
    es: Seq<EntitySpec>,
    reps: Seq<Seq<KeysymbolSpec>>,
    k: int,
)
    requires
        dict.dom().finite(),
        0 <= k <= es.len(),
        rewrite_list(dict, root, open, es.take(k), reps) is Err,
    ensures
        rewrite_list(dict, root, open, es, reps) == rewrite_list(dict, root, open, es.take(k), reps),
    decreases es.len() - k,
{
    if k < es.len() {
        assert(es.take(k + 1).drop_last() =~= es.take(k));
        lemma_rewrite_list_err(dict, root, open, es, reps, k + 1);
    } else {
        assert(es.take(k) =~= es);
    }
}

/// The keysymbol with the optional flag raised.
pub fn optionalized(keysymbol: &Keysymbol) -> (r: Keysymbol)
    ensures
        r@ == (KeysymbolSpec { optional: true, ..keysymbol@ }),
{
    Keysymbol::new_with_known_base_symbol(
        String::from_str(keysymbol.symbol()),
        String::from_str(keysymbol.base_symbol()),
        keysymbol.stress(),
        true,
    )
}

/// Rebuilds a sopheme from the replacements at `next` onward.
fn rewrite_sopheme_at(sopheme: &Sopheme, replacements: &Vec<Vec<Keysymbol>>, next: &mut usize) -> (r:
    Result<Sopheme, DefViewErr>)
    requires
        *old(next) <= replacements@.len(),
    ensures
        match r {
            Ok(s) => rewrite_sopheme(
                sopheme@,
                replacements_view(replacements@).skip(*old(next) as int),
            ) == Ok::<Rewritten<SophemeSpec>, DefViewErrSpec>(
                Rewritten {
                    value: s@,
                    rest: replacements_view(replacements@).skip(*final(next) as int),
                },
            ) && *old(next) <= *final(next) <= replacements@.len(),
            Err(e) => rewrite_sopheme(
                sopheme@,
                replacements_view(replacements@).skip(*old(next) as int),
            ) == Err::<Rewritten<SophemeSpec>, DefViewErrSpec>(e@),
        },
{
    let ghost all = replacements_view(replacements@);
    let ghost reps = all.skip(*next as int);
    let n: usize = sopheme.keysymbols.len();
    let start: usize = *next;
    let total: usize = replacements.len();
    if total - start < n {
        return Err(DefViewErr::UnexpectedNone);
    }
    let mut keysymbols: Vec<Keysymbol> = Vec::new();
    let mut i: usize = 0;
    proof {
        assert(reps.take(0) =~= Seq::<Seq<KeysymbolSpec>>::empty());
        assert(keysymbols_view(keysymbols@) =~= Seq::<KeysymbolSpec>::empty());
    }
    while i < n
        invariant
            i <= n,
            start + n <= total,
            total == replacements@.len(),
            all == replacements_view(replacements@),
            reps == all.skip(start as int),
            keysymbols_view(keysymbols@) == concat_keysymbols(reps.take(i as int)),
        decreases n - i,
    {
        let list = &replacements[start + i];
        let ghost before = keysymbols_view(keysymbols@);
        proof {
            assert(reps.take(i as int + 1).drop_last() =~= reps.take(i as int));
            assert(reps.take(i as int + 1).last() == keysymbols_view(list@));
        }
        let mut j: usize = 0;
        while j < list.len()
            invariant
                j <= list.len(),
                keysymbols_view(keysymbols@) == before + keysymbols_view(list@).take(j as int),
            decreases list.len() - j,
        {
            let ghost so_far = keysymbols_view(keysymbols@);
            keysymbols.push(list[j].clone());
            proof {
                assert(keysymbols_view(keysymbols@) =~= so_far.push(list@[j as int]@));
                assert(keysymbols_view(list@).take(j as int + 1) =~= keysymbols_view(list@).take(
                    j as int,
                ).push(list@[j as int]@));
                assert(keysymbols_view(keysymbols@) =~= before + keysymbols_view(list@).take(
                    j as int + 1,
                ));
            }
            j += 1;
        }
        proof {
            assert(keysymbols_view(list@).take(j as int) =~= keysymbols_view(list@));
        }
        i += 1;
    }
    *next = start + n;
    proof {
        assert(reps.skip(n as int) =~= all.skip(*next as int));
    }
    Ok(Sopheme::new(sopheme.chars.clone(), keysymbols))
}

/// Rebuilds an entity from the replacements at `next` onward.
fn rewrite_entity_at(
    e: &Entity,
    dict: &DefDict,
    root: &str,
    open: &mut Vec<String>,
    replacements: &Vec<Vec<Keysymbol>>,
    next: &mut usize,
) -> (r: Result<Entity, DefViewErr>)
    requires
        *old(next) <= replacements@.len(),
    ensures
        match r {
            Ok(rebuilt) => rewrite_entity(
                dict@,
                root@,
                stack_names(old(open)@),
                e@,
                replacements_view(replacements@).skip(*old(next) as int),
            ) == Ok::<Rewritten<EntitySpec>, DefViewErrSpec>(
                Rewritten {
                    value: rebuilt@,
                    rest: replacements_view(replacements@).skip(*final(next) as int),
                },
            ) && *old(next) <= *final(next) <= replacements@.len() && final(open)@ == old(open)@,
            Err(err) => rewrite_entity(
                dict@,
                root@,
                stack_names(old(open)@),
                e@,
                replacements_view(replacements@).skip(*old(next) as int),
            ) == Err::<Rewritten<EntitySpec>, DefViewErrSpec>(err@),
        },
    decreases closed_names(dict@, stack_names(old(open)@)), *e,
{
    proof {
        dict.lemma_finite();
    }
    match e {
        Entity::Sopheme(sopheme) => match rewrite_sopheme_at(sopheme, replacements, next) {
            Ok(rebuilt) => Ok(Entity::Sopheme(rebuilt)),
            Err(err) => Err(err),
        },
        Entity::Transclusion(transclusion) => {
            if stack_contains(open, transclusion.target_varname.as_str()) {
                return Err(
                    DefViewErr::CircularDependency {
                        def_varname: String::from_str(root),
                        varname: transclusion.target_varname.clone(),
                    },
                );
            }
            match dict.get(transclusion.target_varname.as_str()) {
                Some(inner) => {
                    proof {
                        lemma_open_name(dict@, stack_names(open@), transclusion.target_varname@);
                        lemma_stack_names_push(open@, transclusion.target_varname);
                    }
                    open.push(transclusion.target_varname.clone());
                    match rewrite_list_at(inner, dict, root, open, replacements, next) {
                        Ok(entities) => {
                            open.pop();
                            proof {
                                assert(open@ =~= old(open)@);
                            }
                            Ok(
                                Entity::RawDef(
                                    Def::new(entities, transclusion.target_varname.clone()),
                                ),
                            )
                        },
                        Err(err) => Err(err),
                    }
                },
                None => Err(
                    DefViewErr::MissingEntry { varname: transclusion.target_varname.clone() },
                ),
            }
        },
        Entity::RawDef(def) => {
            proof {
                lemma_open_name(dict@, stack_names(open@), def.varname@);
                lemma_stack_names_push(open@, def.varname);
            }
            open.push(def.varname.clone());
            match rewrite_list_at(&def.entities, dict, root, open, replacements, next) {
                Ok(entities) => {
                    open.pop();
                    proof {
                        assert(open@ =~= old(open)@);
                    }
                    Ok(Entity::RawDef(Def::new(entities, def.varname.clone())))
                },
                Err(err) => Err(err),
            }
        },
    }
}

/// Rebuilds a list of entities from the replacements at `next` onward.
fn rewrite_list_at(
    es: &Vec<Entity>,
    dict: &DefDict,
    root: &str,
    open: &mut Vec<String>,
    replacements: &Vec<Vec<Keysymbol>>,
    next: &mut usize,
) -> (r: Result<Vec<Entity>, DefViewErr>)
    requires
        *old(next) <= replacements@.len(),
    ensures
        match r {
            Ok(rebuilt) => rewrite_list(
                dict@,
                root@,
                stack_names(old(open)@),
                entities_view(es@),
                replacements_view(replacements@).skip(*old(next) as int),
            ) == Ok::<Rewritten<Seq<EntitySpec>>, DefViewErrSpec>(
                Rewritten {
                    value: entities_view(rebuilt@),
                    rest: replacements_view(replacements@).skip(*final(next) as int),
                },
            ) && *old(next) <= *final(next) <= replacements@.len() && final(open)@ == old(open)@,
            Err(err) => rewrite_list(
                dict@,
                root@,
                stack_names(old(open)@),
                entities_view(es@),
                replacements_view(replacements@).skip(*old(next) as int),
            ) == Err::<Rewritten<Seq<EntitySpec>>, DefViewErrSpec>(err@),
        },
    decreases closed_names(dict@, stack_names(old(open)@)), *es,
{
    proof {
        dict.lemma_finite();
    }
    let ghost names = stack_names(open@);
    let ghost all = entities_view(es@);
    let ghost reps = replacements_view(replacements@).skip(*next as int);
    let mut rebuilt: Vec<Entity> = Vec::new();
    let mut i: usize = 0;
    proof {
        assert(entities_view(rebuilt@) =~= Seq::<EntitySpec>::empty());
    }
    while i < es.len()
        invariant
            i <= es.len(),
            dict@.dom().finite(),
            open@ == old(open)@,
            names == stack_names(old(open)@),
            all == entities_view(es@),
            reps == replacements_view(replacements@).skip(*old(next) as int),
            *old(next) <= *next <= replacements@.len(),
            rewrite_list(dict@, root@, names, all.take(i as int), reps) == Ok::<
                Rewritten<Seq<EntitySpec>>,
                DefViewErrSpec,
            >(
                Rewritten {
                    value: entities_view(rebuilt@),
                    rest: replacements_view(replacements@).skip(*next as int),
                },
            ),
        decreases es.len() - i,
    {
        proof {
            assert(all.take(i as int + 1).drop_last() =~= all.take(i as int));
            assert(all.take(i as int + 1).last() == es@[i as int]@);
        }
        let ghost before = entities_view(rebuilt@);
        match rewrite_entity_at(&es[i], dict, root, open, replacements, next) {
            Ok(entity) => {
                rebuilt.push(entity);
                proof {
                    assert(entities_view(rebuilt@) =~= before.push(entity@));
                }
            },
            Err(err) => {
                proof {
                    lemma_rewrite_list_err(dict@, root@, names, all, reps, i as int + 1);
                }
                return Err(err);
            },
        }
        i += 1;
    }
    proof {
        assert(all.take(i as int) =~= all);
    }
    Ok(rebuilt)
}

/// The value of the outcome of a rewrite.
pub open spec fn def_result_view(r: Result<Def, DefViewErr>) -> Result<DefSpec, DefViewErrSpec> {
    match r {
        Ok(d) => Ok(d@),
        Err(e) => Err(e@),
    }
}

impl<'a> DefView<'a> {
    /// Rebuilds the view as a definition, replacing its keysymbols, in the
    /// order of a forward walk, by the lists of `replacements`.
    pub fn rewrite_keysymbols(&self, replacements: &Vec<Vec<Keysymbol>>) -> (r: Result<Def, DefViewErr>)
        ensures
            def_result_view(r) == self@.rewritten(replacements_view(replacements@)),
    {
        let root = self.root().def_ref();
        let mut open: Vec<String> = Vec::new();
        let mut next: usize = 0;
        proof {
            lemma_stack_names_push(open@, root.varname);
            assert(stack_names(open@) =~= Set::<Seq<char>>::empty());
            assert(stack_names(open@).insert(root.varname@) =~= set![root.varname@]);
            assert(replacements_view(replacements@).skip(0) =~= replacements_view(replacements@));
        }
        open.push(root.varname.clone());
        match rewrite_list_at(
            &root.entities,
            self.defs(),
            root.varname.as_str(),
            &mut open,
            replacements,
            &mut next,
        ) {
            Ok(entities) => Ok(Def::new(entities, root.varname.clone())),
            Err(e) => Err(e),
        }
    }
}

/// The keysymbols of a sequence of sophemes, in order.
pub open spec fn all_keysymbols(sophemes: Seq<SophemeSpec>) -> Seq<KeysymbolSpec> {
    concat_keysymbols(sophemes.map_values(|s: SophemeSpec| s.keysymbols))
}

/// The replacements that make optional the keysymbols for which
/// `decisions` says so; a keysymbol without a decision is kept.
pub open spec fn optionalizing(keysymbols: Seq<KeysymbolSpec>, decisions: Seq<bool>) -> Seq<
    Seq<KeysymbolSpec>,
> {
    Seq::new(
        keysymbols.len(),
        |i: int|
            seq![
                if i < decisions.len() && decisions[i] {
                    KeysymbolSpec { optional: true, ..keysymbols[i] }
                } else {
                    keysymbols[i]
                },
            ],
    )
}

/// The replacements that put the keysymbols of `additions` before each
/// keysymbol; a keysymbol without additions is kept alone.
pub open spec fn inserting(
    keysymbols: Seq<KeysymbolSpec>,
    additions: Seq<Seq<KeysymbolSpec>>,
) -> Seq<Seq<KeysymbolSpec>> {
    Seq::new(
        keysymbols.len(),
        |i: int|
            if i < additions.len() {
                additions[i].push(keysymbols[i])
            } else {
                seq![keysymbols[i]]
            },
    )
}

/// The keysymbols of a list of sophemes, copied in order.
pub fn keysymbols_of(sophemes: &Vec<Sopheme>) -> (r: Vec<Keysymbol>)
    ensures
        keysymbols_view(r@) == all_keysymbols(crate::sopheme::sophemes_view(sophemes@)),
{
    let ghost lists = crate::sopheme::sophemes_view(sophemes@).map_values(
        |s: SophemeSpec| s.keysymbols,
    );
    let mut out: Vec<Keysymbol> = Vec::new();
    let mut i: usize = 0;
    proof {
        assert(lists.take(0) =~= Seq::<Seq<KeysymbolSpec>>::empty());
        assert(keysymbols_view(out@) =~= Seq::<KeysymbolSpec>::empty());
    }
    while i < sophemes.len()
        invariant
            i <= sophemes.len(),
            lists == crate::sopheme::sophemes_view(sophemes@).map_values(
                |s: SophemeSpec| s.keysymbols,
            ),
            keysymbols_view(out@) == concat_keysymbols(lists.take(i as int)),
        decreases sophemes.len() - i,
    {
        let list = &sophemes[i].keysymbols;
        let ghost before = keysymbols_view(out@);
        proof {
            assert(lists.take(i as int + 1).drop_last() =~= lists.take(i as int));
            assert(lists.take(i as int + 1).last() == keysymbols_view(list@));
        }
        let mut j: usize = 0;
        while j < list.len()
            invariant
                j <= list.len(),
                keysymbols_view(out@) == before + keysymbols_view(list@).take(j as int),
            decreases list.len() - j,
        {
            let ghost so_far = keysymbols_view(out@);
            out.push(list[j].clone());
            proof {
                assert(keysymbols_view(out@) =~= so_far.push(list@[j as int]@));
                assert(keysymbols_view(list@).take(j as int + 1) =~= keysymbols_view(list@).take(
                    j as int,
                ).push(list@[j as int]@));
                assert(keysymbols_view(out@) =~= before + keysymbols_view(list@).take(
                    j as int + 1,
                ));
            }
            j += 1;
        }
        proof {
            assert(keysymbols_view(list@).take(j as int) =~= keysymbols_view(list@));
        }
        i += 1;
    }
    proof {
        assert(lists.take(i as int) =~= lists);
    }
    out
}

/// Rebuilds a view with the keysymbols made optional for which
/// `decisions` says so, in the order of a forward walk.
pub fn optionalize_keysymbols(view: &DefView, decisions: &Vec<bool>) -> (r: Result<Def, DefViewErr>)
    ensures
        def_result_view(r) == match view@.sophemes() {
            Ok(sophemes) => view@.rewritten(optionalizing(all_keysymbols(sophemes), decisions@)),
            Err(e) => Err(e),
        },
{
    let sophemes = match view.collect_sophemes() {
        Ok(found) => found,
        Err(e) => {
            return Err(e);
        },
    };
    let keysymbols = keysymbols_of(&sophemes.items);
    let ghost wanted = optionalizing(keysymbols_view(keysymbols@), decisions@);
    let mut replacements: Vec<Vec<Keysymbol>> = Vec::new();
    let mut i: usize = 0;
    while i < keysymbols.len()
        invariant
            i <= keysymbols.len(),
            wanted == optionalizing(keysymbols_view(keysymbols@), decisions@),
            replacements@.len() == i,
            forall|j: int|
                0 <= j < i ==> keysymbols_view((#[trigger] replacements@[j])@) == wanted[j],
        decreases keysymbols.len() - i,
    {
        let mut list: Vec<Keysymbol> = Vec::new();
        if i < decisions.len() && decisions[i] {
            list.push(optionalized(&keysymbols[i]));
        } else {
            list.push(keysymbols[i].clone());
        }
        proof {
            assert(keysymbols_view(list@) =~= wanted[i as int]);
        }
        replacements.push(list);
        i += 1;
    }
    proof {
        assert(replacements_view(replacements@) =~= wanted);
    }
    view.rewrite_keysymbols(&replacements)
}

/// Rebuilds a view with the keysymbols of `additions` put before each
/// keysymbol, in the order of a forward walk.
pub fn add_diphthong_keysymbols(view: &DefView, additions: &Vec<Vec<Keysymbol>>) -> (r: Result<
    Def,
    DefViewErr,
>)
    ensures
        def_result_view(r) == match view@.sophemes() {
            Ok(sophemes) => view@.rewritten(
                inserting(all_keysymbols(sophemes), replacements_view(additions@)),
            ),
            Err(e) => Err(e),
        },
{
    let sophemes = match view.collect_sophemes() {
        Ok(found) => found,
        Err(e) => {
            return Err(e);
        },
    };
    let keysymbols = keysymbols_of(&sophemes.items);
    let ghost wanted = inserting(keysymbols_view(keysymbols@), replacements_view(additions@));
    let mut replacements: Vec<Vec<Keysymbol>> = Vec::new();
    let mut i: usize = 0;
    while i < keysymbols.len()
        invariant
            i <= keysymbols.len(),
            wanted == inserting(keysymbols_view(keysymbols@), replacements_view(additions@)),
            replacements@.len() == i,
            forall|j: int|
                0 <= j < i ==> keysymbols_view((#[trigger] replacements@[j])@) == wanted[j],
        decreases keysymbols.len() - i,
    {
        let mut list: Vec<Keysymbol> = Vec::new();
        if i < additions.len() {
            let extra = &additions[i];
            let mut j: usize = 0;
            proof {
                assert(keysymbols_view(list@) =~= keysymbols_view(extra@).take(0));
            }
            while j < extra.len()
                invariant
                    j <= extra.len(),
                    keysymbols_view(list@) == keysymbols_view(extra@).take(j as int),
                decreases extra.len() - j,
            {
                let ghost so_far = keysymbols_view(list@);
                list.push(extra[j].clone());
                proof {
                    assert(keysymbols_view(list@) =~= so_far.push(extra@[j as int]@));
                    assert(keysymbols_view(list@) =~= keysymbols_view(extra@).take(j as int + 1));
                }
                j += 1;
            }
            proof {
                assert(keysymbols_view(extra@).take(j as int) =~= keysymbols_view(extra@));
                assert(replacements_view(additions@)[i as int] == keysymbols_view(extra@));
            }
        }
        let ghost before = keysymbols_view(list@);
        list.push(keysymbols[i].clone());
        proof {
            assert(keysymbols_view(list@) =~= before.push(keysymbols@[i as int]@));
            assert(keysymbols_view(list@) =~= wanted[i as int]);
        }
        replacements.push(list);
        i += 1;
    }
    proof {
        assert(replacements_view(replacements@) =~= wanted);
    }
    view.rewrite_keysymbols(&replacements)
}

} // verus!

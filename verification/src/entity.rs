//! Entities and definitions: a definition is a named sequence of entities,
//! and an entity is a sopheme, a transclusion, or an inlined definition.

use vstd::prelude::*;
use vstd::string::StringExecFns;
use crate::sopheme::{Sopheme, SophemeSpec};
use crate::transclusion::{Transclusion, TransclusionSpec};
use crate::text::{join_text, lemma_join_text_step};

verus! {

/// The mathematical value of a [`Def`].
pub struct DefSpec {
    pub entities: Seq<EntitySpec>,
    pub varname: Seq<char>,
}

/// The mathematical value of an [`Entity`].
pub enum EntitySpec {
    Sopheme(SophemeSpec),
    Transclusion(TransclusionSpec),
    RawDef(DefSpec),
}

/// The written form of an entity; an inlined definition is parenthesized.
pub open spec fn entity_text(e: EntitySpec) -> Seq<char>
    decreases e,
{
    match e {
        EntitySpec::Sopheme(s) => s.text(),
        EntitySpec::Transclusion(t) => t.text(),
        EntitySpec::RawDef(d) => seq!['('] + def_text(d) + seq![')'],
    }
}

/// The written forms of a sequence of entities.
pub open spec fn entity_texts(es: Seq<EntitySpec>) -> Seq<Seq<char>>
    decreases es,
{
    Seq::new(
        es.len(),
        |i: int|
            if 0 <= i < es.len() {
                entity_text(es[i])
            } else {
                Seq::empty()
            },
    )
}

/// The written form of a definition: its name, ` = `, and its entities
/// separated by single spaces.
pub open spec fn def_text(d: DefSpec) -> Seq<char>
    decreases d,
{
    d.varname + seq![' ', '=', ' '] + join_text(entity_texts(d.entities), seq![' '])
}

impl EntitySpec {
    pub open spec fn text(self) -> Seq<char> {
        entity_text(self)
    }
}

impl DefSpec {
    pub open spec fn text(self) -> Seq<char> {
        def_text(self)
    }
}

/// A named sequence of entities.
#[derive(Debug)]
pub struct Def {
    pub entities: Vec<Entity>,
    pub varname: String,
}

/// One element of a definition.
#[derive(Debug)]
pub enum Entity {
    Sopheme(Sopheme),
    Transclusion(Transclusion),
    RawDef(Def),
}

/// The value of an entity.
pub open spec fn entity_view(e: Entity) -> EntitySpec
    decreases e,
{
    match e {
        Entity::Sopheme(s) => EntitySpec::Sopheme(s@),
        Entity::Transclusion(t) => EntitySpec::Transclusion(t@),
        Entity::RawDef(d) => EntitySpec::RawDef(
            DefSpec { entities: entities_view(d.entities@), varname: d.varname@ },
        ),
    }
}

/// The values of a sequence of entities.
pub open spec fn entities_view(es: Seq<Entity>) -> Seq<EntitySpec>
    decreases es,
{
    Seq::new(
        es.len(),
        |i: int|
            if 0 <= i < es.len() {
                entity_view(es[i])
            } else {
                arbitrary()
            },
    )
}

impl View for Entity {
    type V = EntitySpec;

    open spec fn view(&self) -> EntitySpec {
        entity_view(*self)
    }
}

impl View for Def {
    type V = DefSpec;

    open spec fn view(&self) -> DefSpec {
        DefSpec { entities: entities_view(self.entities@), varname: self.varname@ }
    }
}

/// Copies an entity.
pub fn clone_entity(e: &Entity) -> (r: Entity)
    ensures
        r@ == e@,
    decreases *e,
{
    match e {
        Entity::Sopheme(s) => Entity::Sopheme(s.clone()),
        Entity::Transclusion(t) => Entity::Transclusion(t.clone()),
        Entity::RawDef(d) => Entity::RawDef(
            Def { entities: clone_entities(&d.entities), varname: d.varname.clone() },
        ),
    }
}

/// Copies a list of entities.
pub fn clone_entities(es: &Vec<Entity>) -> (r: Vec<Entity>)
    ensures
        entities_view(r@) == entities_view(es@),
    decreases *es,
{
    let mut out: Vec<Entity> = Vec::new();
    let mut i: usize = 0;
    while i < es.len()
        invariant
            i <= es.len(),
            out.len() == i,
            forall|j: int| 0 <= j < i ==> out@[j]@ == es@[j]@,
        decreases es.len() - i,
    {
        out.push(clone_entity(&es[i]));
        i += 1;
    }
    assert(entities_view(out@) =~= entities_view(es@));
    out
}

impl Clone for Entity {
    fn clone(&self) -> (r: Self)
        ensures
            r@ == self@,
    {
        clone_entity(self)
    }
}

impl Clone for Def {
    fn clone(&self) -> (r: Self)
        ensures
            r@ == self@,
    {
        Def { entities: clone_entities(&self.entities), varname: self.varname.clone() }
    }
}

/// Renders an entity.
pub fn entity_to_string(e: &Entity) -> (r: String)
    ensures
        r@ == e@.text(),
    decreases *e,
{
    match e {
        Entity::Sopheme(s) => s.to_string(),
        Entity::Transclusion(t) => t.to_string(),
        Entity::RawDef(d) => {
            let mut out = String::new();
            out.push('(');
            let inner = def_to_string(d);
            out.append(inner.as_str());
            out.push(')');
            proof {
                assert(out@ =~= e@.text());
            }
            out
        },
    }
}

/// Renders a definition.
pub fn def_to_string(d: &Def) -> (r: String)
    ensures
        r@ == d@.text(),
    decreases *d,
{
    let ghost parts = entity_texts(d@.entities);
    let mut body = String::new();
    let mut i: usize = 0;
    while i < d.entities.len()
        invariant
            i <= d.entities.len(),
            parts == entity_texts(d@.entities),
            body@ == join_text(parts.take(i as int), seq![' ']),
        decreases d.entities.len() - i,
    {
        if i > 0 {
            body.push(' ');
        }
        let part = entity_to_string(&d.entities[i]);
        body.append(part.as_str());
        proof {
            lemma_join_text_step(parts, seq![' '], i as int);
            assert(parts[i as int] == d.entities[i as int]@.text());
            if i > 0 {
                assert(body@ =~= join_text(parts.take(i as int), seq![' ']) + seq![' ']
                    + parts[i as int]);
            } else {
                assert(body@ =~= parts[i as int]);
            }
        }
        i += 1;
    }
    proof {
        assert(parts.take(i as int) =~= parts);
    }
    let mut out = String::from_str(d.varname.as_str());
    out.append(" = ");
    out.append(body.as_str());
    proof {
        reveal_strlit(" = ");
        assert(" = "@ =~= seq![' ', '=', ' ']);
        assert(out@ =~= d@.text());
    }
    out
}

/// The value of an optional sopheme.
pub open spec fn sopheme_option_view(s: Option<Sopheme>) -> Option<SophemeSpec> {
    match s {
        Some(s) => Some(s@),
        None => None,
    }
}

/// The value of an optional transclusion.
pub open spec fn transclusion_option_view(t: Option<Transclusion>) -> Option<TransclusionSpec> {
    match t {
        Some(t) => Some(t@),
        None => None,
    }
}

/// The value of an optional definition.
pub open spec fn def_option_view(d: Option<Def>) -> Option<DefSpec> {
    match d {
        Some(d) => Some(d@),
        None => None,
    }
}

impl Entity {
    /// The entity that is the sopheme `sopheme`.
    pub fn sopheme(sopheme: Sopheme) -> (r: Self)
        ensures
            r == Entity::Sopheme(sopheme),
    {
        Entity::Sopheme(sopheme)
    }

    /// The entity that is the transclusion `transclusion`.
    pub fn transclusion(transclusion: Transclusion) -> (r: Self)
        ensures
            r == Entity::Transclusion(transclusion),
    {
        Entity::Transclusion(transclusion)
    }

    /// A copy of the sopheme, if the entity is one.
    pub fn maybe_sopheme(&self) -> (r: Option<Sopheme>)
        ensures
            sopheme_option_view(r) == match self@ {
                EntitySpec::Sopheme(s) => Some(s),
                _ => None,
            },
    {
        match self {
            Entity::Sopheme(sopheme) => Some(sopheme.clone()),
            _ => None,
        }
    }

    /// A copy of the transclusion, if the entity is one.
    pub fn maybe_transclusion(&self) -> (r: Option<Transclusion>)
        ensures
            transclusion_option_view(r) == match self@ {
                EntitySpec::Transclusion(t) => Some(t),
                _ => None,
            },
    {
        match self {
            Entity::Transclusion(transclusion) => Some(transclusion.clone()),
            _ => None,
        }
    }

    /// A copy of the inlined definition, if the entity is one.
    pub fn maybe_raw_def(&self) -> (r: Option<Def>)
        ensures
            def_option_view(r) == match self@ {
                EntitySpec::RawDef(d) => Some(d),
                _ => None,
            },
    {
        match self {
            Entity::RawDef(def) => Some(def.clone()),
            _ => None,
        }
    }

    /// The sopheme, if the entity is one.
    pub fn get_if_sopheme(&self) -> (r: Option<&Sopheme>)
        ensures
            match r {
                Some(s) => *self == Entity::Sopheme(*s),
                None => !(self is Sopheme),
            },
    {
        match self {
            Entity::Sopheme(sopheme) => Some(sopheme),
            _ => None,
        }
    }

    pub fn to_string(&self) -> (r: String)
        ensures
            r@ == self@.text(),
    {
        entity_to_string(self)
    }
}

impl Def {
    pub fn new(entities: Vec<Entity>, varname: String) -> (r: Self)
        ensures
            r.entities == entities,
            r.varname == varname,
    {
        Def { entities, varname }
    }

    /// A definition made of the given entities under the given name.
    pub fn of(entities: Vec<Entity>, varname: String) -> (r: Self)
        ensures
            r.entities == entities,
            r.varname == varname,
    {
        Def { entities, varname }
    }

    /// A definition without entities.
    pub fn empty(varname: String) -> (r: Self)
        ensures
            r.entities@.len() == 0,
            r.varname == varname,
    {
        Def { entities: Vec::new(), varname }
    }

    /// The entity at `index`, if there is one.
    pub fn get_child(&self, index: usize) -> (r: Option<&Entity>)
        ensures
            match r {
                Some(e) => index < self.entities.len() && *e == self.entities[index as int],
                None => index >= self.entities.len(),
            },
    {
        if index < self.entities.len() {
            Some(&self.entities[index])
        } else {
            None
        }
    }

    pub fn to_string(&self) -> (r: String)
        ensures
            r@ == self@.text(),
    {
        def_to_string(self)
    }
}

} // verus!

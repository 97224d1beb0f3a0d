//! Sophemes: a spelling fragment paired with the keysymbols that pronounce it.

use vstd::prelude::*;
use vstd::string::StringExecFns;
use crate::keysymbol::{Keysymbol, KeysymbolSpec};
use crate::text::{join_text, lemma_join_text_step};

verus! {

/// The mathematical value of a [`Sopheme`].
pub struct SophemeSpec {
    pub chars: Seq<char>,
    pub keysymbols: Seq<KeysymbolSpec>,
}

impl SophemeSpec {
    /// A sopheme can be silent exactly when every keysymbol is optional.
    pub open spec fn can_be_silent(self) -> bool {
        forall|i: int| 0 <= i < self.keysymbols.len() ==> (#[trigger] self.keysymbols[i]).optional
    }

    /// The keysymbols' written forms, separated by single spaces.
    pub open spec fn phono_text(self) -> Seq<char> {
        join_text(self.keysymbols.map_values(|k: KeysymbolSpec| k.text()), seq![' '])
    }

    /// The written form: spelling, a dot, then the keysymbols, in parentheses
    /// when there is more than one.
    pub open spec fn text(self) -> Seq<char> {
        if self.keysymbols.len() > 1 {
            self.chars + seq!['.'] + seq!['('] + self.phono_text() + seq![')']
        } else {
            self.chars + seq!['.'] + self.phono_text()
        }
    }
}

/// The values of a sequence of keysymbols.
pub open spec fn keysymbols_view(keysymbols: Seq<Keysymbol>) -> Seq<KeysymbolSpec> {
    keysymbols.map_values(|k: Keysymbol| k@)
}

/// A spelling fragment with its ordered keysymbols. Immutable.
#[derive(Debug)]
pub struct Sopheme {
    pub chars: String,
    pub keysymbols: Vec<Keysymbol>,
}

impl View for Sopheme {
    type V = SophemeSpec;

    open spec fn view(&self) -> SophemeSpec {
        SophemeSpec { chars: self.chars@, keysymbols: keysymbols_view(self.keysymbols@) }
    }
}

/// Copies a list of keysymbols.
pub fn clone_keysymbols(keysymbols: &Vec<Keysymbol>) -> (r: Vec<Keysymbol>)
    ensures
        keysymbols_view(r@) == keysymbols_view(keysymbols@),
{
    let mut out: Vec<Keysymbol> = Vec::new();
    let mut i: usize = 0;
    while i < keysymbols.len()
        invariant
            i <= keysymbols.len(),
            out.len() == i,
            forall|j: int| 0 <= j < i ==> out@[j]@ == keysymbols@[j]@,
        decreases keysymbols.len() - i,
    {
        out.push(keysymbols[i].clone());
        i += 1;
    }
    assert(keysymbols_view(out@) =~= keysymbols_view(keysymbols@));
    out
}

impl Clone for Sopheme {
    fn clone(&self) -> (r: Self)
        ensures
            r@ == self@,
    {
        Sopheme { chars: self.chars.clone(), keysymbols: clone_keysymbols(&self.keysymbols) }
    }
}

impl Sopheme {
    pub fn new(chars: String, keysymbols: Vec<Keysymbol>) -> (r: Self)
        ensures
            r.chars == chars,
            r.keysymbols == keysymbols,
    {
        Sopheme { chars, keysymbols }
    }

    pub fn can_be_silent(&self) -> (r: bool)
        ensures
            r == self@.can_be_silent(),
    {
        let mut i: usize = 0;
        while i < self.keysymbols.len()
            invariant
                i <= self.keysymbols.len(),
                forall|j: int| 0 <= j < i ==> (#[trigger] self@.keysymbols[j]).optional,
            decreases self.keysymbols.len() - i,
        {
            if !self.keysymbols[i].optional() {
                assert(!self@.keysymbols[i as int].optional);
                return false;
            }
            i += 1;
        }
        true
    }

    /// The keysymbol at `index`, if there is one.
    pub fn get(&self, index: usize) -> (r: Option<&Keysymbol>)
        ensures
            match r {
                Some(k) => index < self.keysymbols.len() && *k == self.keysymbols[index as int],
                None => index >= self.keysymbols.len(),
            },
    {
        if index < self.keysymbols.len() {
            Some(&self.keysymbols[index])
        } else {
            None
        }
    }

    pub fn to_string(&self) -> (r: String)
        ensures
            r@ == self@.text(),
    {
        let ghost parts = self@.keysymbols.map_values(|k: KeysymbolSpec| k.text());
        let mut phono = String::new();
        let mut i: usize = 0;
        while i < self.keysymbols.len()
            invariant
                i <= self.keysymbols.len(),
                parts == self@.keysymbols.map_values(|k: KeysymbolSpec| k.text()),
                phono@ == join_text(parts.take(i as int), seq![' ']),
            decreases self.keysymbols.len() - i,
        {
            if i > 0 {
                phono.push(' ');
            }
            let part = self.keysymbols[i].to_string();
            phono.append(part.as_str());
            proof {
                lemma_join_text_step(parts, seq![' '], i as int);
                assert(parts[i as int] == self.keysymbols[i as int]@.text());
                if i > 0 {
                    assert(phono@ =~= join_text(parts.take(i as int), seq![' ']) + seq![' ']
                        + parts[i as int]);
                } else {
                    assert(phono@ =~= parts[i as int]);
                }
            }
            i += 1;
        }
        proof {
            assert(parts.take(i as int) =~= parts);
        }
        let mut out = String::from_str(self.chars.as_str());
        out.push('.');
        if self.keysymbols.len() > 1 {
            out.push('(');
            out.append(phono.as_str());
            out.push(')');
        } else {
            out.append(phono.as_str());
        }
        proof {
            assert(out@ =~= self@.text());
        }
        out
    }
}

/// The values of a sequence of sophemes.
pub open spec fn sophemes_view(sophemes: Seq<Sopheme>) -> Seq<SophemeSpec> {
    sophemes.map_values(|s: Sopheme| s@)
}

/// A flat sequence of sophemes.
#[derive(Debug)]
pub struct SophemeSeq {
    pub items: Vec<Sopheme>,
}

impl View for SophemeSeq {
    type V = Seq<SophemeSpec>;

    open spec fn view(&self) -> Seq<SophemeSpec> {
        sophemes_view(self.items@)
    }
}

impl SophemeSeq {
    pub fn new(sophemes: Vec<Sopheme>) -> (r: Self)
        ensures
            r.items == sophemes,
    {
        SophemeSeq { items: sophemes }
    }
}

/// A sopheme can be silent exactly when each of its keysymbols is optional.
pub proof fn lemma_silent_iff_all_optional(s: Sopheme)
    ensures
        s@.can_be_silent() <==> (forall|i: int|
            0 <= i < s.keysymbols.len() ==> (#[trigger] s.keysymbols[i])@.optional),
{
    assert(forall|i: int|
        0 <= i < s.keysymbols.len() ==> s@.keysymbols[i] == (#[trigger] s.keysymbols[i])@);
    if s@.can_be_silent() {
        assert forall|i: int| 0 <= i < s.keysymbols.len() implies (#[trigger] s.keysymbols[i])@.optional by {
            assert(s@.keysymbols[i].optional);
        }
    }
}

} // verus!

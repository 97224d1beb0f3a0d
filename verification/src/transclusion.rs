//! Transclusions: references by name to another definition.

use vstd::prelude::*;
use vstd::string::StringExecFns;
use crate::keysymbol::{stress_marker, stress_marker_text};

verus! {

/// The mathematical value of a [`Transclusion`].
pub struct TransclusionSpec {
    pub target_varname: Seq<char>,
    pub stress: u8,
}

impl TransclusionSpec {
    /// The written form: the target in braces, then the stress marker.
    pub open spec fn text(self) -> Seq<char> {
        seq!['{'] + self.target_varname + seq!['}'] + stress_marker_text(self.stress)
    }
}

/// A named reference to another definition, with a stress override.
#[derive(Debug)]
pub struct Transclusion {
    pub target_varname: String,
    pub stress: u8,
}

impl View for Transclusion {
    type V = TransclusionSpec;

    open spec fn view(&self) -> TransclusionSpec {
        TransclusionSpec { target_varname: self.target_varname@, stress: self.stress }
    }
}

impl Clone for Transclusion {
    fn clone(&self) -> (r: Self)
        ensures
            r@ == self@,
    {
        Transclusion { target_varname: self.target_varname.clone(), stress: self.stress }
    }
}

impl Transclusion {
    pub fn new(target_varname: String, stress: u8) -> (r: Self)
        ensures
            r.target_varname == target_varname,
            r.stress == stress,
    {
        Transclusion { target_varname, stress }
    }

    pub fn to_string(&self) -> (r: String)
        ensures
            r@ == self@.text(),
    {
        let mut out = String::new();
        out.push('{');
        out.append(self.target_varname.as_str());
        out.push('}');
        let marker = stress_marker(self.stress);
        out.append(marker.as_str());
        proof {
            assert(out@ =~= self@.text());
        }
        out
    }
}

} // verus!

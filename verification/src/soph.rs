//! Sophs: the opaque symbolic keys under which trie entries are filed.

use vstd::prelude::*;

verus! {

/// What `str::split_whitespace` yields for a text: its parts between runs
/// of whitespace, in order.
pub uninterp spec fn whitespace_split(text: Seq<char>) -> Seq<Seq<char>>;

/// Splits a text with `str::split_whitespace` and copies the parts. The
/// outcome depends on the text alone; it is named, not described.
#[verifier::external_body]
fn split_on_whitespace(text: &str) -> (r: Vec<String>)
    ensures
        r@.map_values(|s: String| s@) == whitespace_split(text@),
{
    text.split_whitespace().map(|part| part.to_string()).collect()
}

/// A symbolic key. Two sophs are the same when their values are.
#[derive(Debug, PartialEq, Eq, Hash)]
pub struct Soph {
    pub value: String,
}

impl Clone for Soph {
    fn clone(&self) -> (r: Self)
        ensures
            r@ == self@,
    {
        Soph { value: self.value.clone() }
    }
}

impl View for Soph {
    type V = Seq<char>;

    open spec fn view(&self) -> Seq<char> {
        self.value@
    }
}

impl Soph {
    pub fn new(value: String) -> (r: Self)
        ensures
            r.value == value,
    {
        Soph { value }
    }

    pub fn to_string(&self) -> (r: String)
        ensures
            r@ == self@,
    {
        self.value.clone()
    }

    /// The sophs that a text lists, separated by whitespace.
    pub fn parse_seq(seq: &str) -> (r: Vec<Soph>)
        ensures
            r@.map_values(|s: Soph| s@) == whitespace_split(seq@),
    {
        let parts = split_on_whitespace(seq);
        let ghost texts = parts@.map_values(|s: String| s@);
        let mut sophs: Vec<Soph> = Vec::new();
        let mut parts = parts;
        let n: usize = parts.len();
        let mut i: usize = 0;
        while i < n
            invariant
                i <= n,
                n == texts.len(),
                parts@.len() == n,
                sophs@.len() == i,
                forall|j: int| i <= j < n ==> (#[trigger] parts@[j])@ == texts[j],
                forall|j: int| 0 <= j < i ==> (#[trigger] sophs@[j])@ == texts[j],
            decreases n - i,
        {
            let value = parts[i].clone();
            sophs.push(Soph::new(value));
            i += 1;
        }
        proof {
            assert(sophs@.map_values(|s: Soph| s@) =~= texts);
        }
        sophs
    }
}

} // verus!

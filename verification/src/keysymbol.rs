//! Keysymbols: atomic phonetic tokens with a stress level and an
//! optional-silent flag, classified as vowels or consonants.

use vstd::prelude::*;
use vstd::string::StringExecFns;
use regex::Regex;
use crate::text::{decimal_text, join_text, lemma_join_text_step, str_eq, u8_to_decimal};

verus! {

/// The pattern whose matches are removed from a symbol to obtain its base
/// symbol: square brackets and digits.
pub const KEYSYMBOL_SUB: &'static str = "[\\[\\]\\d]";

/// What `regex::Regex::replace_all` returns for the regex compiled from
/// `pattern`, applied to `haystack` with the replacement text `replacement`;
/// `None` when `pattern` is not accepted by `regex::Regex::new`.
pub uninterp spec fn regex_replace_all(
    pattern: Seq<char>,
    haystack: Seq<char>,
    replacement: Seq<char>,
) -> Option<Seq<char>>;

/// Compiles `pattern` with `regex::Regex::new` and replaces every match in
/// `haystack` with `regex::Regex::replace_all`. The contract only names the
/// outcome; nothing about which texts match is claimed.
#[verifier::external_body]
fn replace_all_matches(pattern: &str, haystack: &str, replacement: &str) -> (r: Option<String>)
    ensures
        match r {
            Some(s) => regex_replace_all(pattern@, haystack@, replacement@) == Some(s@),
            None => regex_replace_all(pattern@, haystack@, replacement@) is None,
        },
{
    match Regex::new(pattern) {
        Ok(re) => Some(re.replace_all(haystack, replacement).into_owned()),
        Err(_) => None,
    }
}

/// The base symbol that belongs to `symbol`: the symbol with every match of
/// [`KEYSYMBOL_SUB`] removed. Should the pattern be rejected by the regex
/// engine, the symbol itself.
pub open spec fn base_symbol_of(symbol: Seq<char>) -> Seq<char> {
    match regex_replace_all(KEYSYMBOL_SUB@, symbol, ""@) {
        Some(base) => base,
        None => symbol,
    }
}

/// Whether `base` is one of the base symbols that denote a vowel.
pub open spec fn is_vowel_symbol(base: Seq<char>) -> bool {
    ||| base == "e"@
    ||| base == "ao"@
    ||| base == "a"@
    ||| base == "ah"@
    ||| base == "oa"@
    ||| base == "aa"@
    ||| base == "ar"@
    ||| base == "eh"@
    ||| base == "ou"@
    ||| base == "ouw"@
    ||| base == "oou"@
    ||| base == "o"@
    ||| base == "au"@
    ||| base == "oo"@
    ||| base == "or"@
    ||| base == "our"@
    ||| base == "ii"@
    ||| base == "iy"@
    ||| base == "i"@
    ||| base == "@r"@
    ||| base == "@"@
    ||| base == "uh"@
    ||| base == "u"@
    ||| base == "uu"@
    ||| base == "iu"@
    ||| base == "ei"@
    ||| base == "ee"@
    ||| base == "ai"@
    ||| base == "ae"@
    ||| base == "aer"@
    ||| base == "aai"@
    ||| base == "oi"@
    ||| base == "oir"@
    ||| base == "ow"@
    ||| base == "owr"@
    ||| base == "oow"@
    ||| base == "ir"@
    ||| base == "@@r"@
    ||| base == "er"@
    ||| base == "eir"@
    ||| base == "ur"@
    ||| base == "i@"@
}

/// The text that marks a stress level: nothing for level 0, otherwise `!`
/// followed by the level in decimal.
pub open spec fn stress_marker_text(stress: u8) -> Seq<char> {
    if stress == 0 {
        Seq::empty()
    } else {
        seq!['!'] + decimal_text(stress as nat)
    }
}

pub fn stress_marker(stress: u8) -> (r: String)
    ensures
        r@ == stress_marker_text(stress),
{
    if stress == 0 {
        return String::new();
    }
    let mut out = String::new();
    out.push('!');
    let digits = u8_to_decimal(stress);
    out.append(digits.as_str());
    proof {
        assert(out@ =~= seq!['!'] + decimal_text(stress as nat));
    }
    out
}

/// The mathematical value of a [`Keysymbol`].
pub struct KeysymbolSpec {
    pub symbol: Seq<char>,
    pub base_symbol: Seq<char>,
    pub stress: u8,
    pub optional: bool,
}

impl KeysymbolSpec {
    pub open spec fn is_vowel(self) -> bool {
        is_vowel_symbol(self.base_symbol)
    }

    pub open spec fn is_consonant(self) -> bool {
        !is_vowel_symbol(self.base_symbol)
    }

    /// The written form: symbol, stress marker, then `?` when optional.
    pub open spec fn text(self) -> Seq<char> {
        self.symbol + stress_marker_text(self.stress) + (if self.optional {
            seq!['?']
        } else {
            Seq::empty()
        })
    }
}

/// An atomic phonetic token. Immutable after construction. Two keysymbols
/// are the same when their four components are.
#[derive(Debug, PartialEq, Eq, Hash)]
pub struct Keysymbol {
    symbol: String,
    base_symbol: String,
    stress: u8,
    optional: bool,
}

impl View for Keysymbol {
    type V = KeysymbolSpec;

    closed spec fn view(&self) -> KeysymbolSpec {
        KeysymbolSpec {
            symbol: self.symbol@,
            base_symbol: self.base_symbol@,
            stress: self.stress,
            optional: self.optional,
        }
    }
}

impl Clone for Keysymbol {
    fn clone(&self) -> (r: Self)
        ensures
            r@ == self@,
    {
        Keysymbol {
            symbol: self.symbol.clone(),
            base_symbol: self.base_symbol.clone(),
            stress: self.stress,
            optional: self.optional,
        }
    }
}

impl Keysymbol {
    /// Builds a keysymbol, deriving its base symbol from `symbol`.
    pub fn new(symbol: String, stress: u8, optional: bool) -> (r: Self)
        ensures
            r@ == (KeysymbolSpec {
                symbol: symbol@,
                base_symbol: base_symbol_of(symbol@),
                stress,
                optional,
            }),
    {
        let base_symbol = match replace_all_matches(KEYSYMBOL_SUB, symbol.as_str(), "") {
            Some(base) => base,
            None => symbol.clone(),
        };
        Keysymbol { symbol, base_symbol, stress, optional }
    }

    /// Builds a keysymbol from all four of its components.
    pub fn new_with_known_base_symbol(
        symbol: String,
        base_symbol: String,
        stress: u8,
        optional: bool,
    ) -> (r: Self)
        ensures
            r@ == (KeysymbolSpec { symbol: symbol@, base_symbol: base_symbol@, stress, optional }),
    {
        Keysymbol { symbol, base_symbol, stress, optional }
    }

    pub fn to_string(&self) -> (r: String)
        ensures
            r@ == self@.text(),
    {
        let mut out = String::from_str(self.symbol.as_str());
        let marker = stress_marker(self.stress);
        out.append(marker.as_str());
        if self.optional {
            out.push('?');
        }
        proof {
            assert(out@ =~= self@.text());
        }
        out
    }

    pub fn is_vowel(&self) -> (r: bool)
        ensures
            r == self@.is_vowel(),
    {
        let s = self.base_symbol.as_str();
        str_eq(s, "e") || str_eq(s, "ao") || str_eq(s, "a") || str_eq(s, "ah") || str_eq(s, "oa")
            || str_eq(s, "aa") || str_eq(s, "ar") || str_eq(s, "eh") || str_eq(s, "ou") || str_eq(
            s,
            "ouw",
        ) || str_eq(s, "oou") || str_eq(s, "o") || str_eq(s, "au") || str_eq(s, "oo") || str_eq(
            s,
            "or",
        ) || str_eq(s, "our") || str_eq(s, "ii") || str_eq(s, "iy") || str_eq(s, "i") || str_eq(
            s,
            "@r",
        ) || str_eq(s, "@") || str_eq(s, "uh") || str_eq(s, "u") || str_eq(s, "uu") || str_eq(
            s,
            "iu",
        ) || str_eq(s, "ei") || str_eq(s, "ee") || str_eq(s, "ai") || str_eq(s, "ae") || str_eq(
            s,
            "aer",
        ) || str_eq(s, "aai") || str_eq(s, "oi") || str_eq(s, "oir") || str_eq(s, "ow") || str_eq(
            s,
            "owr",
        ) || str_eq(s, "oow") || str_eq(s, "ir") || str_eq(s, "@@r") || str_eq(s, "er") || str_eq(
            s,
            "eir",
        ) || str_eq(s, "ur") || str_eq(s, "i@")
    }

    pub fn is_consonant(&self) -> (r: bool)
        ensures
            r == self@.is_consonant(),
    {
        !self.is_vowel()
    }

    pub fn symbol(&self) -> (r: &str)
        ensures
            r@ == self@.symbol,
    {
        self.symbol.as_str()
    }

    pub fn base_symbol(&self) -> (r: &str)
        ensures
            r@ == self@.base_symbol,
    {
        self.base_symbol.as_str()
    }

    pub fn stress(&self) -> (r: u8)
        ensures
            r == self@.stress,
    {
        self.stress
    }

    pub fn optional(&self) -> (r: bool)
        ensures
            r == self@.optional,
    {
        self.optional
    }
}

/// The mathematical value of [`KeysymbolOptions`].
pub enum KeysymbolOptionsSpec {
    Leaf(KeysymbolSpec),
    Leaves(Seq<KeysymbolSpec>),
    Options(Seq<KeysymbolOptionsSpec>),
}

/// Whether the written form of the options goes in parentheses: when it
/// lists more than one keysymbol or more than one option.
pub open spec fn options_need_grouping(o: KeysymbolOptionsSpec) -> bool {
    match o {
        KeysymbolOptionsSpec::Leaf(_) => false,
        KeysymbolOptionsSpec::Leaves(keysymbols) => keysymbols.len() > 1,
        KeysymbolOptionsSpec::Options(options) => options.len() > 1,
    }
}

/// The written form of keysymbol options: keysymbols separated by spaces,
/// options by ` | `, in parentheses where grouping is needed.
pub open spec fn options_text(o: KeysymbolOptionsSpec) -> Seq<char>
    decreases o,
{
    let inner = match o {
        KeysymbolOptionsSpec::Leaf(k) => k.text(),
        KeysymbolOptionsSpec::Leaves(keysymbols) => join_text(
            keysymbols.map_values(|k: KeysymbolSpec| k.text()),
            seq![' '],
        ),
        KeysymbolOptionsSpec::Options(options) => join_text(
            options_texts(options),
            seq![' ', '|', ' '],
        ),
    };
    if options_need_grouping(o) {
        seq!['('] + inner + seq![')']
    } else {
        inner
    }
}

/// The written forms of a sequence of keysymbol options.
pub open spec fn options_texts(options: Seq<KeysymbolOptionsSpec>) -> Seq<Seq<char>>
    decreases options,
{
    Seq::new(
        options.len(),
        |i: int|
            if 0 <= i < options.len() {
                options_text(options[i])
            } else {
                Seq::empty()
            },
    )
}

/// Alternative pronunciations: one keysymbol, a sequence of keysymbols,
/// or a choice between alternatives.
#[derive(Debug)]
pub enum KeysymbolOptions {
    Leaf(Keysymbol),
    Leaves(Vec<Keysymbol>),
    Options(Vec<KeysymbolOptions>),
}

/// The value of keysymbol options.
pub open spec fn options_view(o: KeysymbolOptions) -> KeysymbolOptionsSpec
    decreases o,
{
    match o {
        KeysymbolOptions::Leaf(k) => KeysymbolOptionsSpec::Leaf(k@),
        KeysymbolOptions::Leaves(keysymbols) => KeysymbolOptionsSpec::Leaves(
            keysymbols@.map_values(|k: Keysymbol| k@),
        ),
        KeysymbolOptions::Options(options) => KeysymbolOptionsSpec::Options(
            options_views(options@),
        ),
    }
}

/// The values of a sequence of keysymbol options.
pub open spec fn options_views(options: Seq<KeysymbolOptions>) -> Seq<KeysymbolOptionsSpec>
    decreases options,
{
    Seq::new(
        options.len(),
        |i: int|
            if 0 <= i < options.len() {
                options_view(options[i])
            } else {
                arbitrary()
            },
    )
}

impl View for KeysymbolOptions {
    type V = KeysymbolOptionsSpec;

    open spec fn view(&self) -> KeysymbolOptionsSpec {
        options_view(*self)
    }
}

/// Renders a choice between keysymbol options, separated by ` | `.
pub fn options_list_to_string(options: &Vec<KeysymbolOptions>) -> (r: String)
    ensures
        r@ == join_text(options_texts(options_views(options@)), seq![' ', '|', ' ']),
    decreases *options,
{
    let ghost parts = options_texts(options_views(options@));
    let mut inner = String::new();
    let mut i: usize = 0;
    while i < options.len()
        invariant
            i <= options.len(),
            parts == options_texts(options_views(options@)),
            inner@ == join_text(parts.take(i as int), seq![' ', '|', ' ']),
        decreases options.len() - i,
    {
        if i > 0 {
            inner.push(' ');
            inner.push('|');
            inner.push(' ');
        }
        let part = options_to_string(&options[i]);
        inner.append(part.as_str());
        proof {
            lemma_join_text_step(parts, seq![' ', '|', ' '], i as int);
            assert(parts[i as int] == options_text(options@[i as int]@));
            if i > 0 {
                assert(inner@ =~= join_text(parts.take(i as int), seq![' ', '|', ' ']) + seq![
                    ' ',
                    '|',
                    ' ',
                ] + parts[i as int]);
            } else {
                assert(inner@ =~= parts[i as int]);
            }
        }
        i += 1;
    }
    proof {
        assert(parts.take(i as int) =~= parts);
    }
    inner
}

/// Renders keysymbol options.
pub fn options_to_string(o: &KeysymbolOptions) -> (r: String)
    ensures
        r@ == options_text(o@),
    decreases *o,
{
    let mut inner = String::new();
    match o {
        KeysymbolOptions::Leaf(keysymbol) => {
            inner = keysymbol.to_string();
        },
        KeysymbolOptions::Leaves(keysymbols) => {
            let ghost parts = keysymbols@.map_values(|k: Keysymbol| k@).map_values(
                |k: KeysymbolSpec| k.text(),
            );
            let mut i: usize = 0;
            while i < keysymbols.len()
                invariant
                    i <= keysymbols.len(),
                    parts == keysymbols@.map_values(|k: Keysymbol| k@).map_values(
                        |k: KeysymbolSpec| k.text(),
                    ),
                    inner@ == join_text(parts.take(i as int), seq![' ']),
                decreases keysymbols.len() - i,
            {
                if i > 0 {
                    inner.push(' ');
                }
                let part = keysymbols[i].to_string();
                inner.append(part.as_str());
                proof {
                    lemma_join_text_step(parts, seq![' '], i as int);
                    if i > 0 {
                        assert(inner@ =~= join_text(parts.take(i as int), seq![' ']) + seq![' ']
                            + parts[i as int]);
                    } else {
                        assert(inner@ =~= parts[i as int]);
                    }
                }
                i += 1;
            }
            proof {
                assert(parts.take(i as int) =~= parts);
            }
        },
        KeysymbolOptions::Options(options) => {
            inner = options_list_to_string(options);
        },
    }
    if o.needs_grouping() {
        let mut out = String::new();
        out.push('(');
        out.append(inner.as_str());
        out.push(')');
        proof {
            assert(out@ =~= seq!['('] + inner@ + seq![')']);
        }
        out
    } else {
        inner
    }
}

impl KeysymbolOptions {
    pub fn to_string(&self) -> (r: String)
        ensures
            r@ == options_text(self@),
    {
        options_to_string(self)
    }

    pub fn needs_grouping(&self) -> (r: bool)
        ensures
            r == options_need_grouping(self@),
    {
        match self {
            KeysymbolOptions::Leaf(_) => false,
            KeysymbolOptions::Leaves(keysymbols) => keysymbols.len() > 1,
            KeysymbolOptions::Options(options) => options.len() > 1,
        }
    }
}

/// Every keysymbol is a vowel or a consonant, and never both.
pub proof fn lemma_vowel_xor_consonant(k: Keysymbol)
    ensures
        k@.is_vowel() != k@.is_consonant(),
{
}

} // verus!

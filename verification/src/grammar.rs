//! The grammar of the sopheme sequence notation, as functions from a token
//! sequence and a position to what is read there.

use vstd::prelude::*;
use vstd::utf8::encode_utf8;
use crate::entity::EntitySpec;
use crate::keysymbol::{KeysymbolSpec, base_symbol_of};
use crate::lex::{TokenClass, TokenSpec, token_values};
use crate::sopheme::SophemeSpec;
use crate::text::{concat_text, debug_quoted, parsed_u8};
use crate::transclusion::TransclusionSpec;

verus! {

/// The mathematical value of a parse error.
pub struct ParseErrSpec {
    pub message: Seq<char>,
    pub cursor_info: Seq<char>,
}

/// Something read, and the position after it.
pub struct Parsed<T> {
    pub value: T,
    pub end: usize,
}

/// The token at a position; past the end stands an empty whitespace token.
pub open spec fn token_at(ts: Seq<TokenSpec>, i: usize) -> TokenSpec {
    if i < ts.len() {
        ts[i as int]
    } else {
        TokenSpec { class: TokenClass::Whitespace, value: Seq::empty() }
    }
}

/// The position after `i`; the last representable position stays.
pub open spec fn next_pos(i: usize) -> usize {
    if i < usize::MAX {
        (i + 1) as usize
    } else {
        i
    }
}

/// The position `increment` after `i`, kept within the representable
/// positions.
pub open spec fn moved_pos(i: usize, increment: isize) -> usize {
    if i + increment < 0 {
        0
    } else if i + increment > usize::MAX {
        usize::MAX
    } else {
        (i + increment) as usize
    }
}

/// Whether a token is the symbol written `text`.
pub open spec fn is_symbol(t: TokenSpec, text: Seq<char>) -> bool {
    t.class == TokenClass::Symbol && t.value == text
}

pub open spec fn class_name(class: TokenClass) -> Seq<char> {
    match class {
        TokenClass::Start => "Start"@,
        TokenClass::Whitespace => "Whitespace"@,
        TokenClass::Chars => "Chars"@,
        TokenClass::Symbol => "Symbol"@,
    }
}

/// The rendering of a token for diagnostics.
pub open spec fn token_debug_text(t: TokenSpec) -> Seq<char> {
    "Token { class: "@ + class_name(t.class) + ", value: "@ + debug_quoted(t.value) + " }"@
}

/// A run of `n` tildes.
pub open spec fn tildes(n: int) -> Seq<char> {
    Seq::new(
        if n > 0 {
            n as nat
        } else {
            0
        },
        |j: int| '~',
    )
}

/// The length of a text in bytes, as a machine integer.
pub open spec fn byte_len(text: Seq<char>) -> usize {
    encode_utf8(text).len() as usize
}

/// The mark under a token that lies before the cursor: a dot, then a tilde
/// for each further byte of the token.
pub open spec fn token_mark(t: TokenSpec) -> Seq<char> {
    seq!['.'] + tildes(byte_len(t.value) - 1)
}

/// The marks under the first `k` tokens.
pub open spec fn marks(ts: Seq<TokenSpec>, k: int) -> Seq<char>
    decreases k,
{
    if k <= 0 {
        Seq::empty()
    } else {
        marks(ts, k - 1) + token_mark(ts[k - 1])
    }
}

/// The line that points at the token under the cursor.
pub open spec fn pointer_text(ts: Seq<TokenSpec>, pos: usize) -> Seq<char> {
    if pos < ts.len() {
        marks(ts, pos as int) + seq!['^']
    } else {
        marks(ts, ts.len() as int)
    }
}

/// The rendered pointer into the source: the text, the pointer line, and
/// the token under the cursor, each on a line of its own.
pub open spec fn debug_text(ts: Seq<TokenSpec>, pos: usize) -> Seq<char> {
    seq!['\n'] + concat_text(token_values(ts)) + seq!['\n'] + pointer_text(ts, pos) + seq!['\n']
        + token_debug_text(token_at(ts, pos)) + seq!['\n']
}

/// The error that reports `message` at a position.
pub open spec fn failure(ts: Seq<TokenSpec>, pos: usize, message: Seq<char>) -> ParseErrSpec {
    ParseErrSpec { message, cursor_info: debug_text(ts, pos) }
}

/// A stress marker: nothing reads as stress 0; `!` alone as stress 1; `!`
/// and a number as that number.
pub open spec fn stress_at(ts: Seq<TokenSpec>, i: usize) -> Result<Parsed<u8>, ParseErrSpec> {
    if !is_symbol(token_at(ts, i), "!"@) {
        Ok(Parsed { value: 0u8, end: i })
    } else {
        let j = next_pos(i);
        if token_at(ts, j).class == TokenClass::Chars {
            match parsed_u8(token_at(ts, j).value) {
                Some(v) => Ok(Parsed { value: v, end: next_pos(j) }),
                None => Err(failure(ts, j, "Expected a number here"@)),
            }
        } else {
            Ok(Parsed { value: 1u8, end: j })
        }
    }
}

/// A keysymbol: a name, a stress marker, and `?` if it is optional.
pub open spec fn keysymbol_at(ts: Seq<TokenSpec>, i: usize) -> Result<
    Parsed<KeysymbolSpec>,
    ParseErrSpec,
> {
    if token_at(ts, i).class != TokenClass::Chars {
        Err(failure(ts, i, "Expected a keysymbol identifier here"@))
    } else {
        let symbol = token_at(ts, i).value;
        match stress_at(ts, next_pos(i)) {
            Ok(stress) => {
                let optional = is_symbol(token_at(ts, stress.end), "?"@);
                Ok(
                    Parsed {
                        value: KeysymbolSpec {
                            symbol,
                            base_symbol: base_symbol_of(symbol),
                            stress: stress.value,
                            optional,
                        },
                        end: if optional {
                            next_pos(stress.end)
                        } else {
                            stress.end
                        },
                    },
                )
            },
            Err(e) => Err(e),
        }
    }
}

/// What is read ahead of a sequence: the items read, and how reading the
/// rest went.
pub open spec fn prepend<T>(front: Seq<T>, rest: Result<Parsed<Seq<T>>, ParseErrSpec>) -> Result<
    Parsed<Seq<T>>,
    ParseErrSpec,
> {
    match rest {
        Ok(p) => Ok(Parsed { value: front + p.value, end: p.end }),
        Err(e) => Err(e),
    }
}

/// A stress marker ends no earlier than it begins.
pub proof fn lemma_stress_advances(ts: Seq<TokenSpec>, i: usize)
    ensures
        stress_at(ts, i) matches Ok(p) ==> p.end >= i,
{
}

/// A keysymbol takes at least one token.
pub proof fn lemma_keysymbol_advances(ts: Seq<TokenSpec>, i: usize)
    requires
        ts.len() <= usize::MAX,
    ensures
        keysymbol_at(ts, i) matches Ok(p) ==> i < ts.len() && p.end > i,
{
    lemma_stress_advances(ts, next_pos(i));
}

/// The keysymbols up to a closing parenthesis, each optionally followed by
/// whitespace. Ends on the parenthesis.
pub open spec fn keysymbol_seq_at(ts: Seq<TokenSpec>, i: usize) -> Result<
    Parsed<Seq<KeysymbolSpec>>,
    ParseErrSpec,
>
    decreases ts.len() - i,
    when ts.len() <= usize::MAX
{
    if is_symbol(token_at(ts, i), ")"@) {
        Ok(Parsed { value: Seq::empty(), end: i })
    } else {
        match keysymbol_at(ts, i) {
            Ok(k) => {
                let j = if token_at(ts, k.end).class == TokenClass::Whitespace {
                    next_pos(k.end)
                } else {
                    k.end
                };
                proof {
                    lemma_keysymbol_advances(ts, i);
                }
                if j <= ts.len() {
                    prepend(seq![k.value], keysymbol_seq_at(ts, j))
                } else {
                    Err(failure(ts, j, "Expected a keysymbol identifier here"@))
                }
            },
            Err(e) => Err(e),
        }
    }
}

/// The spelling of a sopheme: a name, or nothing when a dot follows at
/// once.
pub open spec fn sopheme_ortho_at(ts: Seq<TokenSpec>, i: usize) -> Result<
    Parsed<Seq<char>>,
    ParseErrSpec,
> {
    if token_at(ts, i).class == TokenClass::Chars {
        Ok(Parsed { value: token_at(ts, i).value, end: moved_pos(i, 1) })
    } else if is_symbol(token_at(ts, i), "."@) {
        Ok(Parsed { value: Seq::empty(), end: i })
    } else {
        Err(failure(ts, i, "Expected a sopheme orthography here"@))
    }
}

/// The dot between spelling and pronunciation.
pub open spec fn sopheme_dot_at(ts: Seq<TokenSpec>, i: usize) -> Result<Parsed<()>, ParseErrSpec> {
    if is_symbol(token_at(ts, i), "."@) {
        Ok(Parsed { value: (), end: next_pos(i) })
    } else {
        Err(failure(ts, i, "Expected a dot here"@))
    }
}

/// The pronunciation of a sopheme: one keysymbol, a parenthesized sequence
/// of keysymbols, or nothing when whitespace or the end follows.
pub open spec fn sopheme_phono_at(ts: Seq<TokenSpec>, i: usize) -> Result<
    Parsed<Seq<KeysymbolSpec>>,
    ParseErrSpec,
> {
    if token_at(ts, i).class == TokenClass::Chars {
        match keysymbol_at(ts, i) {
            Ok(k) => Ok(Parsed { value: seq![k.value], end: k.end }),
            Err(e) => Err(e),
        }
    } else if is_symbol(token_at(ts, i), "("@) {
        match keysymbol_seq_at(ts, next_pos(i)) {
            Ok(ks) => Ok(Parsed { value: ks.value, end: next_pos(ks.end) }),
            Err(e) => Err(e),
        }
    } else if token_at(ts, i).class == TokenClass::Whitespace {
        Ok(Parsed { value: Seq::empty(), end: i })
    } else {
        Err(failure(ts, i, "Expected a sopheme phonology here"@))
    }
}

/// A sopheme: spelling, dot, pronunciation.
pub open spec fn sopheme_at(ts: Seq<TokenSpec>, i: usize) -> Result<Parsed<SophemeSpec>, ParseErrSpec> {
    match sopheme_ortho_at(ts, i) {
        Ok(ortho) => match sopheme_dot_at(ts, ortho.end) {
            Ok(dot) => match sopheme_phono_at(ts, dot.end) {
                Ok(phono) => Ok(
                    Parsed {
                        value: SophemeSpec { chars: ortho.value, keysymbols: phono.value },
                        end: phono.end,
                    },
                ),
                Err(e) => Err(e),
            },
            Err(e) => Err(e),
        },
        Err(e) => Err(e),
    }
}

/// A transclusion: a name in braces, then a stress marker.
pub open spec fn transclusion_at(ts: Seq<TokenSpec>, i: usize) -> Result<
    Parsed<TransclusionSpec>,
    ParseErrSpec,
> {
    if !is_symbol(token_at(ts, i), "{"@) {
        Err(failure(ts, i, "Expected a transclusion here"@))
    } else if token_at(ts, next_pos(i)).class != TokenClass::Chars {
        Err(failure(ts, next_pos(i), "Expected a variable name here"@))
    } else if !is_symbol(token_at(ts, next_pos(next_pos(i))), "}"@) {
        Err(failure(ts, next_pos(next_pos(i)), "Expected a closing brace here"@))
    } else {
        match stress_at(ts, next_pos(next_pos(next_pos(i)))) {
            Ok(stress) => Ok(
                Parsed {
                    value: TransclusionSpec {
                        target_varname: token_at(ts, next_pos(i)).value,
                        stress: stress.value,
                    },
                    end: stress.end,
                },
            ),
            Err(e) => Err(e),
        }
    }
}

/// An entity: a transclusion, or else a sopheme.
pub open spec fn entity_at(ts: Seq<TokenSpec>, i: usize) -> Result<Parsed<EntitySpec>, ParseErrSpec> {
    match transclusion_at(ts, i) {
        Ok(t) => Ok(Parsed { value: EntitySpec::Transclusion(t.value), end: t.end }),
        Err(_) => match sopheme_at(ts, i) {
            Ok(s) => Ok(Parsed { value: EntitySpec::Sopheme(s.value), end: s.end }),
            Err(_) => Err(failure(ts, i, "Expected an entity here"@)),
        },
    }
}

/// The keysymbols in parentheses end no earlier than they begin.
pub proof fn lemma_keysymbol_seq_advances(ts: Seq<TokenSpec>, i: usize)
    requires
        ts.len() <= usize::MAX,
    ensures
        keysymbol_seq_at(ts, i) matches Ok(p) ==> p.end >= i,
    decreases ts.len() - i,
{
    if !is_symbol(token_at(ts, i), ")"@) {
        match keysymbol_at(ts, i) {
            Ok(k) => {
                lemma_keysymbol_advances(ts, i);
                let j = if token_at(ts, k.end).class == TokenClass::Whitespace {
                    next_pos(k.end)
                } else {
                    k.end
                };
                if j <= ts.len() {
                    lemma_keysymbol_seq_advances(ts, j);
                }
            },
            Err(_) => {},
        }
    }
}

/// A sopheme takes at least one token.
pub proof fn lemma_sopheme_advances(ts: Seq<TokenSpec>, i: usize)
    requires
        ts.len() <= usize::MAX,
    ensures
        sopheme_at(ts, i) matches Ok(p) ==> i < ts.len() && p.end > i,
{
    match sopheme_ortho_at(ts, i) {
        Ok(ortho) => match sopheme_dot_at(ts, ortho.end) {
            Ok(dot) => {
                lemma_keysymbol_advances(ts, dot.end);
                lemma_keysymbol_seq_advances(ts, next_pos(dot.end));
            },
            Err(_) => {},
        },
        Err(_) => {},
    }
}

/// A transclusion takes at least one token.
pub proof fn lemma_transclusion_advances(ts: Seq<TokenSpec>, i: usize)
    requires
        ts.len() <= usize::MAX,
    ensures
        transclusion_at(ts, i) matches Ok(p) ==> i < ts.len() && p.end > i,
{
    lemma_stress_advances(ts, next_pos(next_pos(next_pos(i))));
}

/// An entity takes at least one token.
pub proof fn lemma_entity_advances(ts: Seq<TokenSpec>, i: usize)
    requires
        ts.len() <= usize::MAX,
    ensures
        entity_at(ts, i) matches Ok(p) ==> i < ts.len() && p.end > i,
{
    lemma_transclusion_advances(ts, i);
    lemma_sopheme_advances(ts, i);
}

/// Whether reading an item always takes at least one token.
pub open spec fn advances<T>(
    item: spec_fn(Seq<TokenSpec>, usize) -> Result<Parsed<T>, ParseErrSpec>,
    ts: Seq<TokenSpec>,
) -> bool {
    forall|i: usize| (#[trigger] item(ts, i)) is Ok ==> i < ts.len() && item(ts, i)->Ok_0.end > i
}

/// Items separated by single whitespace tokens, up to the end of the
/// tokens.
#[verifier::opaque]
pub open spec fn items_from<T>(
    ts: Seq<TokenSpec>,
    i: usize,
    item: spec_fn(Seq<TokenSpec>, usize) -> Result<Parsed<T>, ParseErrSpec>,
) -> Result<Seq<T>, ParseErrSpec>
    decreases ts.len() - i,
    when advances(item, ts) && ts.len() <= usize::MAX
{
    match item(ts, i) {
        Ok(p) => if p.end >= ts.len() {
            Ok(seq![p.value])
        } else if token_at(ts, p.end).class == TokenClass::Whitespace {
            match items_from(ts, next_pos(p.end), item) {
                Ok(rest) => Ok(seq![p.value] + rest),
                Err(e) => Err(e),
            }
        } else {
            Err(failure(ts, p.end, "Expected whitespace here"@))
        },
        Err(e) => Err(e),
    }
}

/// What `items_from` reads at a position, in terms of what it reads later.
pub proof fn lemma_items_from_unfold<T>(
    ts: Seq<TokenSpec>,
    i: usize,
    item: spec_fn(Seq<TokenSpec>, usize) -> Result<Parsed<T>, ParseErrSpec>,
)
    requires
        advances(item, ts),
        ts.len() <= usize::MAX,
    ensures
        items_from(ts, i, item) == match item(ts, i) {
            Ok(p) => if p.end >= ts.len() {
                Ok(seq![p.value])
            } else if token_at(ts, p.end).class == TokenClass::Whitespace {
                match items_from(ts, next_pos(p.end), item) {
                    Ok(rest) => Ok(seq![p.value] + rest),
                    Err(e) => Err(e),
                }
            } else {
                Err(failure(ts, p.end, "Expected whitespace here"@))
            },
            Err(e) => Err(e),
        },
{
    reveal(items_from);
}

/// A line of items: nothing for no tokens, else items separated by single
/// whitespace tokens.
pub open spec fn items_of<T>(
    ts: Seq<TokenSpec>,
    item: spec_fn(Seq<TokenSpec>, usize) -> Result<Parsed<T>, ParseErrSpec>,
) -> Result<Seq<T>, ParseErrSpec> {
    if ts.len() == 0 {
        Ok(Seq::empty())
    } else {
        items_from(ts, 0, item)
    }
}

pub open spec fn entity_reader() -> spec_fn(Seq<TokenSpec>, usize) -> Result<
    Parsed<EntitySpec>,
    ParseErrSpec,
> {
    |ts: Seq<TokenSpec>, i: usize| entity_at(ts, i)
}

pub open spec fn sopheme_reader() -> spec_fn(Seq<TokenSpec>, usize) -> Result<
    Parsed<SophemeSpec>,
    ParseErrSpec,
> {
    |ts: Seq<TokenSpec>, i: usize| sopheme_at(ts, i)
}

pub open spec fn keysymbol_reader() -> spec_fn(Seq<TokenSpec>, usize) -> Result<
    Parsed<KeysymbolSpec>,
    ParseErrSpec,
> {
    |ts: Seq<TokenSpec>, i: usize| keysymbol_at(ts, i)
}

/// The three kinds of item each take at least one token.
pub proof fn lemma_readers_advance(ts: Seq<TokenSpec>)
    requires
        ts.len() <= usize::MAX,
    ensures
        advances(entity_reader(), ts),
        advances(sopheme_reader(), ts),
        advances(keysymbol_reader(), ts),
{
    assert forall|i: usize| (#[trigger] entity_reader()(ts, i)) is Ok implies i < ts.len()
        && entity_reader()(ts, i)->Ok_0.end > i by {
        lemma_entity_advances(ts, i);
    }
    assert forall|i: usize| (#[trigger] sopheme_reader()(ts, i)) is Ok implies i < ts.len()
        && sopheme_reader()(ts, i)->Ok_0.end > i by {
        lemma_sopheme_advances(ts, i);
    }
    assert forall|i: usize| (#[trigger] keysymbol_reader()(ts, i)) is Ok implies i < ts.len()
        && keysymbol_reader()(ts, i)->Ok_0.end > i by {
        lemma_keysymbol_advances(ts, i);
    }
}

} // verus!

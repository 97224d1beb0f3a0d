//! The parser of the sopheme sequence notation.

use vstd::prelude::*;
use vstd::string::StringExecFns;
use crate::entity::{Entity, EntitySpec, entities_view};
use crate::grammar::{
    ParseErrSpec, Parsed, advances, byte_len, class_name, debug_text, lemma_items_from_unfold, entity_at, entity_reader, failure,
    is_symbol, items_from, items_of, keysymbol_at, keysymbol_reader, keysymbol_seq_at,
    lemma_entity_advances, lemma_keysymbol_advances, lemma_readers_advance,
    lemma_sopheme_advances, marks, moved_pos, next_pos, pointer_text, prepend, sopheme_at,
    sopheme_dot_at, sopheme_ortho_at, sopheme_phono_at, sopheme_reader, stress_at, tildes,
    token_at, token_debug_text, token_mark, transclusion_at,
};
use crate::keysymbol::{Keysymbol, KeysymbolSpec};
use crate::lex::{Token, TokenClass, TokenSpec, lex_sopheme_sequence, lexed, token_values, tokens_view};
use crate::sopheme::{Sopheme, SophemeSpec, keysymbols_view, sophemes_view};
use crate::text::{concat_text, lemma_concat_text_step, parse_u8, quote_debug, str_eq};
use crate::transclusion::{Transclusion, TransclusionSpec};

verus! {

/// A failure to parse, with a rendered pointer into the source.
#[derive(Debug)]
pub struct ParseErr {
    pub message: String,
    pub cursor_info: String,
}

impl View for ParseErr {
    type V = ParseErrSpec;

    open spec fn view(&self) -> ParseErrSpec {
        ParseErrSpec { message: self.message@, cursor_info: self.cursor_info@ }
    }
}

impl Clone for ParseErr {
    fn clone(&self) -> (r: Self)
        ensures
            r@ == self@,
    {
        ParseErr { message: self.message.clone(), cursor_info: self.cursor_info.clone() }
    }
}

impl ParseErr {
    /// The error as text: message and pointer, set off by blank lines.
    pub fn to_string(&self) -> (r: String)
        ensures
            r@ == seq!['\n', '\n'] + self@.message + seq!['\n', '\n'] + self@.cursor_info + seq![
                '\n',
                '\n',
            ],
    {
        let mut out = String::new();
        out.push('\n');
        out.push('\n');
        out.append(self.message.as_str());
        out.push('\n');
        out.push('\n');
        out.append(self.cursor_info.as_str());
        out.push('\n');
        out.push('\n');
        proof {
            assert(out@ =~= seq!['\n', '\n'] + self@.message + seq!['\n', '\n']
                + self@.cursor_info + seq!['\n', '\n']);
        }
        out
    }
}

/// A position in a token sequence.
#[derive(Clone, Copy, Debug)]
pub struct TokenCursor<'a> {
    pub tokens: &'a [Token],
    pub current_token_index: usize,
}

impl<'a> TokenCursor<'a> {
    /// The values of the tokens.
    pub open spec fn ts(&self) -> Seq<TokenSpec> {
        tokens_view(self.tokens@)
    }

    /// The position.
    pub open spec fn pos(&self) -> usize {
        self.current_token_index
    }

    pub fn new(tokens: &'a [Token]) -> (r: Self)
        ensures
            r.tokens == tokens,
            r.pos() == 0,
    {
        TokenCursor { tokens, current_token_index: 0 }
    }

    pub fn token(&self) -> (r: Token)
        ensures
            r@ == token_at(self.ts(), self.pos()),
    {
        self.at(self.current_token_index)
    }

    pub fn at(&self, index: usize) -> (r: Token)
        ensures
            r@ == token_at(self.ts(), index),
    {
        if index < self.tokens.len() {
            self.tokens[index].clone()
        } else {
            Token { class: TokenClass::Whitespace, value: String::new() }
        }
    }

    pub fn moved_to(&self, index: usize) -> (r: Self)
        ensures
            r.tokens == self.tokens,
            r.pos() == index,
    {
        TokenCursor { tokens: self.tokens, current_token_index: index }
    }

    pub fn moved_by(&self, increment: isize) -> (r: Self)
        ensures
            r.tokens == self.tokens,
            r.pos() == moved_pos(self.pos(), increment),
    {
        let new_index: usize = if increment >= 0 {
            let step: usize = increment as usize;
            if self.current_token_index <= usize::MAX - step {
                self.current_token_index + step
            } else {
                usize::MAX
            }
        } else {
            let back: usize = (-(increment + 1)) as usize;
            if self.current_token_index > back {
                self.current_token_index - back - 1
            } else {
                0
            }
        };
        self.moved_to(new_index)
    }

    pub fn next(&self) -> (r: Self)
        ensures
            r.tokens == self.tokens,
            r.pos() == next_pos(self.pos()),
    {
        self.moved_by(1)
    }

    pub fn token_is_dot(&self) -> (r: bool)
        ensures
            r == is_symbol(token_at(self.ts(), self.pos()), "."@),
    {
        self.token_is(TokenClass::Symbol, ".")
    }

    /// Whether the token under the cursor has the class `class` and the
    /// text `text`.
    pub fn token_is(&self, class: TokenClass, text: &str) -> (r: bool)
        ensures
            r == (token_at(self.ts(), self.pos()).class == class && token_at(
                self.ts(),
                self.pos(),
            ).value == text@),
    {
        let token = self.token();
        token.class == class && str_eq(token.value.as_str(), text)
    }

    /// Whether the token under the cursor has the class `class`.
    pub fn token_has_class(&self, class: TokenClass) -> (r: bool)
        ensures
            r == (token_at(self.ts(), self.pos()).class == class),
    {
        self.token().class == class
    }

    pub fn done(&self) -> (r: bool)
        ensures
            r == (self.pos() >= self.ts().len()),
    {
        self.current_token_index >= self.tokens.len()
    }

    /// The rendered pointer into the source.
    pub fn debug_string(&self) -> (r: String)
        ensures
            r@ == debug_text(self.ts(), self.pos()),
    {
        let ghost ts = self.ts();
        let ghost values = token_values(ts);
        let mut out_str = String::new();
        out_str.push('\n');
        let mut i: usize = 0;
        while i < self.tokens.len()
            invariant
                i <= self.tokens.len(),
                ts == self.ts(),
                values == token_values(ts),
                out_str@ == seq!['\n'] + concat_text(values.take(i as int)),
            decreases self.tokens.len() - i,
        {
            proof {
                lemma_concat_text_step(values, i as int);
            }
            out_str.append(self.tokens[i].value.as_str());
            proof {
                assert(out_str@ =~= seq!['\n'] + concat_text(values.take(i as int + 1)));
            }
            i += 1;
        }
        proof {
            assert(values.take(i as int) =~= values);
        }
        out_str.push('\n');
        let ghost head = out_str@;
        let mut i: usize = 0;
        proof {
            assert(out_str@ =~= head + marks(ts, 0));
        }
        while i < self.tokens.len() && i < self.current_token_index
            invariant
                i <= self.tokens.len(),
                i <= self.current_token_index,
                ts == self.ts(),
                out_str@ == head + marks(ts, i as int),
            decreases self.tokens.len() - i,
        {
            out_str.push('.');
            let n: usize = self.tokens[i].value.as_str().len();
            let mut j: usize = 1;
            let ghost base = out_str@;
            proof {
                assert(base =~= base + tildes(0));
            }
            while j < n
                invariant
                    1 <= j,
                    j <= n || n == 0,
                    n == 0 ==> j == 1,
                    out_str@ == base + tildes(j - 1),
                decreases n - j,
            {
                out_str.push('~');
                proof {
                    assert(out_str@ =~= base + tildes(j as int));
                }
                j += 1;
            }
            proof {
                assert(n == byte_len(ts[i as int].value));
                assert(tildes(j - 1) =~= tildes(n - 1));
                assert(out_str@ =~= head + marks(ts, i as int + 1));
            }
            i += 1;
        }
        if i < self.tokens.len() {
            out_str.push('^');
        }
        out_str.push('\n');
        let token = self.token();
        out_str.append("Token { class: ");
        out_str.append(
            match token.class {
                TokenClass::Start => "Start",
                TokenClass::Whitespace => "Whitespace",
                TokenClass::Chars => "Chars",
                TokenClass::Symbol => "Symbol",
            },
        );
        out_str.append(", value: ");
        let quoted = quote_debug(token.value.as_str());
        out_str.append(quoted.as_str());
        out_str.append(" }");
        out_str.push('\n');
        proof {
            assert(out_str@ =~= debug_text(ts, self.pos()));
        }
        out_str
    }

    /// The error that reports `message` at the cursor.
    pub fn fail(&self, message: &str) -> (r: ParseErr)
        ensures
            r@ == failure(self.ts(), self.pos(), message@),
    {
        ParseErr { message: String::from_str(message), cursor_info: self.debug_string() }
    }
}

/// Something parsed, and the cursor after it.
#[derive(Debug)]
pub struct ParseOk<'a, T> {
    pub value: T,
    pub end_cursor: TokenCursor<'a>,
}

impl<'a, T> ParseOk<'a, T> {
    pub fn new(value: T, end_cursor: TokenCursor<'a>) -> (r: Self)
        ensures
            r.value == value,
            r.end_cursor == end_cursor,
    {
        ParseOk { value, end_cursor }
    }

    pub fn map<U, F: FnOnce(T) -> U>(self, func: F) -> (r: ParseOk<'a, U>)
        requires
            func.requires((self.value,)),
        ensures
            func.ensures((self.value,), r.value),
            r.end_cursor == self.end_cursor,
    {
        ParseOk::new(func(self.value), self.end_cursor)
    }
}

pub fn consume_stress<'a>(cursor: TokenCursor<'a>) -> (r: Result<ParseOk<'a, u8>, ParseErr>)
    ensures
        match r {
            Ok(p) => p.end_cursor.tokens == cursor.tokens && stress_at(cursor.ts(), cursor.pos())
                == Ok::<Parsed<u8>, ParseErrSpec>(Parsed { value: p.value, end: p.end_cursor.pos() }),
            Err(e) => stress_at(cursor.ts(), cursor.pos()) == Err::<Parsed<u8>, ParseErrSpec>(e@),
        },
{
    if !cursor.token_is(TokenClass::Symbol, "!") {
        return Ok(ParseOk::new(0, cursor));
    }
    let mut stress: u8 = 1;
    let mut cursor = cursor.next();
    if cursor.token_has_class(TokenClass::Chars) {
        match parse_u8(cursor.token().value.as_str()) {
            Some(value) => {
                stress = value;
                cursor = cursor.next();
            },
            None => {
                return Err(cursor.fail("Expected a number here"));
            },
        }
    }
    Ok(ParseOk::new(stress, cursor))
}

pub fn consume_keysymbol<'a>(cursor: TokenCursor<'a>) -> (r: Result<
    ParseOk<'a, Keysymbol>,
    ParseErr,
>)
    ensures
        match r {
            Ok(p) => p.end_cursor.tokens == cursor.tokens && keysymbol_at(
                cursor.ts(),
                cursor.pos(),
            ) == Ok::<Parsed<KeysymbolSpec>, ParseErrSpec>(
                Parsed { value: p.value@, end: p.end_cursor.pos() },
            ),
            Err(e) => keysymbol_at(cursor.ts(), cursor.pos()) == Err::<
                Parsed<KeysymbolSpec>,
                ParseErrSpec,
            >(e@),
        },
{
    if !cursor.token_has_class(TokenClass::Chars) {
        return Err(cursor.fail("Expected a keysymbol identifier here"));
    }
    let chars = cursor.token().value;
    let after_name = cursor.next();
    let stressed = match consume_stress(after_name) {
        Ok(p) => p,
        Err(e) => {
            return Err(e);
        },
    };
    let stress = stressed.value;
    let after_stress = stressed.end_cursor;
    if !after_stress.token_is(TokenClass::Symbol, "?") {
        return Ok(ParseOk::new(Keysymbol::new(chars, stress, false), after_stress));
    }
    Ok(ParseOk::new(Keysymbol::new(chars, stress, true), after_stress.next()))
}

pub fn consume_keysymbol_seq<'a>(cursor: TokenCursor<'a>) -> (r: Result<
    ParseOk<'a, Vec<Keysymbol>>,
    ParseErr,
>)
    ensures
        match r {
            Ok(p) => p.end_cursor.tokens == cursor.tokens && keysymbol_seq_at(
                cursor.ts(),
                cursor.pos(),
            ) == Ok::<Parsed<Seq<KeysymbolSpec>>, ParseErrSpec>(
                Parsed { value: keysymbols_view(p.value@), end: p.end_cursor.pos() },
            ),
            Err(e) => keysymbol_seq_at(cursor.ts(), cursor.pos()) == Err::<
                Parsed<Seq<KeysymbolSpec>>,
                ParseErrSpec,
            >(e@),
        },
{
    let ghost ts = cursor.ts();
    let ghost start = cursor.pos();
    let mut keysymbols: Vec<Keysymbol> = Vec::new();
    let mut cur = cursor;
    let count: usize = cursor.tokens.len();
    proof {
        assert(ts.len() == count);
        assert(keysymbols_view(keysymbols@) =~= Seq::<KeysymbolSpec>::empty());
        assert(forall|rest: Result<Parsed<Seq<KeysymbolSpec>>, ParseErrSpec>|
            rest is Ok ==> (#[trigger] prepend(Seq::<KeysymbolSpec>::empty(), rest))->Ok_0.value
                =~= rest->Ok_0.value);
    }
    loop
        invariant
            cur.tokens == cursor.tokens,
            ts == cursor.ts(),
            ts.len() <= usize::MAX,
            start == cursor.pos(),
            count == ts.len(),
            keysymbol_seq_at(ts, start) == prepend(
                keysymbols_view(keysymbols@),
                keysymbol_seq_at(ts, cur.pos()),
            ),
        decreases
                if cur.pos() <= ts.len() {
                    ts.len() - cur.pos() + 1
                } else {
                    0
                },
    {
        if cur.current_token_index > count {
            return Err(cur.fail("Expected a keysymbol identifier here"));
        }
        if cur.token_is(TokenClass::Symbol, ")") {
            proof {
                assert(keysymbols_view(keysymbols@) + Seq::<KeysymbolSpec>::empty()
                    =~= keysymbols_view(keysymbols@));
            }
            return Ok(ParseOk::new(keysymbols, cur));
        }
        let ghost here = cur.pos();
        let ghost front = keysymbols_view(keysymbols@);
        proof {
            lemma_keysymbol_advances(ts, here);
        }
        match consume_keysymbol(cur) {
            Ok(p) => {
                let ghost k = p.value@;
                keysymbols.push(p.value);
                cur = p.end_cursor;
                if cur.token_has_class(TokenClass::Whitespace) {
                    cur = cur.next();
                }
                proof {
                    assert(keysymbols_view(keysymbols@) =~= front + seq![k]);
                }
                proof {
                    let rest = keysymbol_seq_at(ts, cur.pos());
                    if rest is Ok {
                        assert(front + (seq![k] + rest->Ok_0.value) =~= (front + seq![k])
                            + rest->Ok_0.value);
                    }
                }
            },
            Err(e) => {
                return Err(e);
            },
        }
    }
}

pub fn consume_sopheme_ortho<'a>(cursor: TokenCursor<'a>) -> (r: Result<
    ParseOk<'a, String>,
    ParseErr,
>)
    ensures
        match r {
            Ok(p) => p.end_cursor.tokens == cursor.tokens && sopheme_ortho_at(
                cursor.ts(),
                cursor.pos(),
            ) == Ok::<Parsed<Seq<char>>, ParseErrSpec>(
                Parsed { value: p.value@, end: p.end_cursor.pos() },
            ),
            Err(e) => sopheme_ortho_at(cursor.ts(), cursor.pos()) == Err::<
                Parsed<Seq<char>>,
                ParseErrSpec,
            >(e@),
        },
{
    if cursor.token_has_class(TokenClass::Chars) {
        return Ok(ParseOk::new(cursor.token().value, cursor.moved_by(1)));
    }
    if cursor.token_is_dot() {
        return Ok(ParseOk::new(String::new(), cursor));
    }
    Err(cursor.fail("Expected a sopheme orthography here"))
}

pub fn consume_sopheme_dot<'a>(cursor: TokenCursor<'a>) -> (r: Result<ParseOk<'a, ()>, ParseErr>)
    ensures
        match r {
            Ok(p) => p.end_cursor.tokens == cursor.tokens && sopheme_dot_at(
                cursor.ts(),
                cursor.pos(),
            ) == Ok::<Parsed<()>, ParseErrSpec>(Parsed { value: (), end: p.end_cursor.pos() }),
            Err(e) => sopheme_dot_at(cursor.ts(), cursor.pos()) == Err::<Parsed<()>, ParseErrSpec>(
                e@,
            ),
        },
{
    if cursor.token_is_dot() {
        return Ok(ParseOk::new((), cursor.next()));
    }
    Err(cursor.fail("Expected a dot here"))
}

pub fn consume_sopheme_phono<'a>(cursor: TokenCursor<'a>) -> (r: Result<
    ParseOk<'a, Vec<Keysymbol>>,
    ParseErr,
>)
    ensures
        match r {
            Ok(p) => p.end_cursor.tokens == cursor.tokens && sopheme_phono_at(
                cursor.ts(),
                cursor.pos(),
            ) == Ok::<Parsed<Seq<KeysymbolSpec>>, ParseErrSpec>(
                Parsed { value: keysymbols_view(p.value@), end: p.end_cursor.pos() },
            ),
            Err(e) => sopheme_phono_at(cursor.ts(), cursor.pos()) == Err::<
                Parsed<Seq<KeysymbolSpec>>,
                ParseErrSpec,
            >(e@),
        },
{
    if cursor.token_has_class(TokenClass::Chars) {
        return match consume_keysymbol(cursor) {
            Ok(p) => {
                let end_cursor = p.end_cursor;
                let mut keysymbols: Vec<Keysymbol> = Vec::new();
                let ghost k = p.value@;
                keysymbols.push(p.value);
                proof {
                    assert(keysymbols_view(keysymbols@) =~= seq![k]);
                }
                Ok(ParseOk::new(keysymbols, end_cursor))
            },
            Err(e) => Err(e),
        };
    }
    if cursor.token_is(TokenClass::Symbol, "(") {
        let inside = cursor.next();
        return match consume_keysymbol_seq(inside) {
            Ok(p) => Ok(ParseOk::new(p.value, p.end_cursor.next())),
            Err(e) => Err(e),
        };
    }
    if cursor.token_has_class(TokenClass::Whitespace) {
        let keysymbols: Vec<Keysymbol> = Vec::new();
        proof {
            assert(keysymbols_view(keysymbols@) =~= Seq::<KeysymbolSpec>::empty());
        }
        return Ok(ParseOk::new(keysymbols, cursor));
    }
    Err(cursor.fail("Expected a sopheme phonology here"))
}

pub fn consume_sopheme<'a>(cursor: TokenCursor<'a>) -> (r: Result<ParseOk<'a, Sopheme>, ParseErr>)
    ensures
        match r {
            Ok(p) => p.end_cursor.tokens == cursor.tokens && sopheme_at(cursor.ts(), cursor.pos())
                == Ok::<Parsed<SophemeSpec>, ParseErrSpec>(
                Parsed { value: p.value@, end: p.end_cursor.pos() },
            ),
            Err(e) => sopheme_at(cursor.ts(), cursor.pos()) == Err::<
                Parsed<SophemeSpec>,
                ParseErrSpec,
            >(e@),
        },
{
    let ortho = match consume_sopheme_ortho(cursor) {
        Ok(p) => p,
        Err(e) => {
            return Err(e);
        },
    };
    let dot = match consume_sopheme_dot(ortho.end_cursor) {
        Ok(p) => p,
        Err(e) => {
            return Err(e);
        },
    };
    let phono = match consume_sopheme_phono(dot.end_cursor) {
        Ok(p) => p,
        Err(e) => {
            return Err(e);
        },
    };
    Ok(ParseOk::new(Sopheme::new(ortho.value, phono.value), phono.end_cursor))
}

pub fn consume_transclusion<'a>(cursor: TokenCursor<'a>) -> (r: Result<
    ParseOk<'a, Transclusion>,
    ParseErr,
>)
    ensures
        match r {
            Ok(p) => p.end_cursor.tokens == cursor.tokens && transclusion_at(
                cursor.ts(),
                cursor.pos(),
            ) == Ok::<Parsed<TransclusionSpec>, ParseErrSpec>(
                Parsed { value: p.value@, end: p.end_cursor.pos() },
            ),
            Err(e) => transclusion_at(cursor.ts(), cursor.pos()) == Err::<
                Parsed<TransclusionSpec>,
                ParseErrSpec,
            >(e@),
        },
{
    if !cursor.token_is(TokenClass::Symbol, "{") {
        return Err(cursor.fail("Expected a transclusion here"));
    }
    let cursor = cursor.next();
    if !cursor.token_has_class(TokenClass::Chars) {
        return Err(cursor.fail("Expected a variable name here"));
    }
    let varname = cursor.token().value;
    let cursor = cursor.next();
    if !cursor.token_is(TokenClass::Symbol, "}") {
        return Err(cursor.fail("Expected a closing brace here"));
    }
    let cursor = cursor.next();
    match consume_stress(cursor) {
        Ok(p) => Ok(ParseOk::new(Transclusion::new(varname, p.value), p.end_cursor)),
        Err(e) => Err(e),
    }
}

pub fn consume_entity<'a>(cursor: TokenCursor<'a>) -> (r: Result<ParseOk<'a, Entity>, ParseErr>)
    ensures
        match r {
            Ok(p) => p.end_cursor.tokens == cursor.tokens && entity_at(cursor.ts(), cursor.pos())
                == Ok::<Parsed<EntitySpec>, ParseErrSpec>(
                Parsed { value: p.value@, end: p.end_cursor.pos() },
            ),
            Err(e) => entity_at(cursor.ts(), cursor.pos()) == Err::<Parsed<EntitySpec>, ParseErrSpec>(
                e@,
            ),
        },
{
    match consume_transclusion(cursor) {
        Ok(result) => {
            let wrap = |t: Transclusion| -> (e: Entity)
                ensures
                    e == Entity::Transclusion(t),
                {
                    let e = Entity::Transclusion(t);
                    e
                };
            return Ok(result.map(wrap));
        },
        Err(_) => {},
    }
    match consume_sopheme(cursor) {
        Ok(result) => {
            let wrap = |s: Sopheme| -> (e: Entity)
                ensures
                    e == Entity::Sopheme(s),
                {
                    let e = Entity::Sopheme(s);
                    e
                };
            return Ok(result.map(wrap));
        },
        Err(_) => {},
    }
    Err(cursor.fail("Expected an entity here"))
}

/// The value of the outcome of parsing a line of entities.
pub open spec fn entities_result_view(r: Result<Vec<Entity>, ParseErr>) -> Result<
    Seq<EntitySpec>,
    ParseErrSpec,
> {
    match r {
        Ok(es) => Ok(entities_view(es@)),
        Err(e) => Err(e@),
    }
}

/// The value of the outcome of parsing a line of sophemes.
pub open spec fn sophemes_result_view(r: Result<Vec<Sopheme>, ParseErr>) -> Result<
    Seq<SophemeSpec>,
    ParseErrSpec,
> {
    match r {
        Ok(ss) => Ok(sophemes_view(ss@)),
        Err(e) => Err(e@),
    }
}

/// The value of the outcome of parsing a line of keysymbols.
pub open spec fn keysymbols_result_view(r: Result<Vec<Keysymbol>, ParseErr>) -> Result<
    Seq<KeysymbolSpec>,
    ParseErrSpec,
> {
    match r {
        Ok(ks) => Ok(keysymbols_view(ks@)),
        Err(e) => Err(e@),
    }
}

/// What is read ahead of a line: the items read, and how reading the rest
/// went.
pub open spec fn ahead<T>(front: Seq<T>, rest: Result<Seq<T>, ParseErrSpec>) -> Result<
    Seq<T>,
    ParseErrSpec,
> {
    match rest {
        Ok(more) => Ok(front + more),
        Err(e) => Err(e),
    }
}

pub fn parse_line(tokens: &[Token]) -> (r: Result<Vec<Entity>, ParseErr>)
    ensures
        entities_result_view(r) == items_of(tokens_view(tokens@), entity_reader()),
{
    let ghost ts = tokens_view(tokens@);
    let count: usize = tokens.len();
    let mut cursor = TokenCursor::new(tokens);
    let mut entities: Vec<Entity> = Vec::new();
    if cursor.done() {
        proof {
            assert(entities_view(entities@) =~= Seq::<EntitySpec>::empty());
        }
        return Ok(entities);
    }
    proof {
        assert(ts.len() == cursor.tokens@.len());
        lemma_readers_advance(ts);
        assert(entities_view(entities@) =~= Seq::<EntitySpec>::empty());
        let whole = items_from(ts, 0, entity_reader());
        if whole is Ok {
            assert(Seq::<EntitySpec>::empty() + whole->Ok_0 =~= whole->Ok_0);
        }
    }
    loop
        invariant
            cursor.tokens == tokens,
            ts == tokens_view(tokens@),
            ts.len() <= usize::MAX,
            advances(entity_reader(), ts),
            cursor.pos() <= ts.len(),
            items_of(ts, entity_reader()) == ahead(
                entities_view(entities@),
                items_from(ts, cursor.pos(), entity_reader()),
            ),
        decreases ts.len() - cursor.pos(),
    {
        let ghost front = entities_view(entities@);
        let ghost here = cursor.pos();
        proof {
            lemma_entity_advances(ts, here);
        }
        match consume_entity(cursor) {
            Ok(p) => {
                let ghost e = p.value@;
                entities.push(p.value);
                cursor = p.end_cursor;
                proof {
                    assert(entities_view(entities@) =~= front + seq![e]);
                }
            },
            Err(e) => {
                proof {
                    lemma_items_from_unfold(ts, here, entity_reader());
                }
                return Err(e);
            },
        }
        proof {
            lemma_items_from_unfold(ts, here, entity_reader());
        }
        if cursor.done() {
            return Ok(entities);
        }
        if cursor.token_has_class(TokenClass::Whitespace) {
            cursor = cursor.next();
            proof {
                lemma_items_from_unfold(ts, here, entity_reader());
                let rest = items_from(ts, cursor.pos(), entity_reader());
                if rest is Ok {
                    let last = entities_view(entities@).last();
                    assert(front + (seq![last] + rest->Ok_0) =~= entities_view(entities@)
                        + rest->Ok_0);
                }
            }
        } else {
            return Err(cursor.fail("Expected whitespace here"));
        }
    }
}

pub fn parse_entry_definition(seq: &str) -> (r: Result<Vec<Entity>, ParseErr>)
    ensures
        entities_result_view(r) == items_of(lexed(seq@), entity_reader()),
{
    let tokens = lex_sopheme_sequence(seq);
    parse_line(tokens.as_slice())
}

pub fn parse_sopheme_seq_line(tokens: &[Token]) -> (r: Result<Vec<Sopheme>, ParseErr>)
    ensures
        sophemes_result_view(r) == items_of(tokens_view(tokens@), sopheme_reader()),
{
    let ghost ts = tokens_view(tokens@);
    let count: usize = tokens.len();
    let mut cursor = TokenCursor::new(tokens);
    let mut sophemes: Vec<Sopheme> = Vec::new();
    if cursor.done() {
        proof {
            assert(sophemes_view(sophemes@) =~= Seq::<SophemeSpec>::empty());
        }
        return Ok(sophemes);
    }
    proof {
        assert(ts.len() == cursor.tokens@.len());
        lemma_readers_advance(ts);
        assert(sophemes_view(sophemes@) =~= Seq::<SophemeSpec>::empty());
        let whole = items_from(ts, 0, sopheme_reader());
        if whole is Ok {
            assert(Seq::<SophemeSpec>::empty() + whole->Ok_0 =~= whole->Ok_0);
        }
    }
    loop
        invariant
            cursor.tokens == tokens,
            ts == tokens_view(tokens@),
            ts.len() <= usize::MAX,
            advances(sopheme_reader(), ts),
            cursor.pos() <= ts.len(),
            items_of(ts, sopheme_reader()) == ahead(
                sophemes_view(sophemes@),
                items_from(ts, cursor.pos(), sopheme_reader()),
            ),
        decreases ts.len() - cursor.pos(),
    {
        let ghost front = sophemes_view(sophemes@);
        let ghost here = cursor.pos();
        proof {
            lemma_sopheme_advances(ts, here);
        }
        match consume_sopheme(cursor) {
            Ok(p) => {
                let ghost e = p.value@;
                sophemes.push(p.value);
                cursor = p.end_cursor;
                proof {
                    assert(sophemes_view(sophemes@) =~= front + seq![e]);
                }
            },
            Err(e) => {
                proof {
                    lemma_items_from_unfold(ts, here, sopheme_reader());
                }
                return Err(e);
            },
        }
        proof {
            lemma_items_from_unfold(ts, here, sopheme_reader());
        }
        if cursor.done() {
            return Ok(sophemes);
        }
        if cursor.token_has_class(TokenClass::Whitespace) {
            cursor = cursor.next();
            proof {
                lemma_items_from_unfold(ts, here, sopheme_reader());
                let rest = items_from(ts, cursor.pos(), sopheme_reader());
                if rest is Ok {
                    let last = sophemes_view(sophemes@).last();
                    assert(front + (seq![last] + rest->Ok_0) =~= sophemes_view(sophemes@)
                        + rest->Ok_0);
                }
            }
        } else {
            return Err(cursor.fail("Expected whitespace here"));
        }
    }
}

pub fn parse_sopheme_seq(seq: &str) -> (r: Result<Vec<Sopheme>, ParseErr>)
    ensures
        sophemes_result_view(r) == items_of(lexed(seq@), sopheme_reader()),
{
    let tokens = lex_sopheme_sequence(seq);
    parse_sopheme_seq_line(tokens.as_slice())
}

pub fn parse_keysymbol_seq(seq: &str) -> (r: Result<Vec<Keysymbol>, ParseErr>)
    ensures
        keysymbols_result_view(r) == items_of(lexed(seq@), keysymbol_reader()),
{
    let tokens = lex_sopheme_sequence(seq);
    let ghost ts = tokens_view(tokens@);
    let count: usize = tokens.len();
    let mut cursor = TokenCursor::new(tokens.as_slice());
    let mut keysymbols: Vec<Keysymbol> = Vec::new();
    if cursor.done() {
        proof {
            assert(keysymbols_view(keysymbols@) =~= Seq::<KeysymbolSpec>::empty());
        }
        return Ok(keysymbols);
    }
    proof {
        assert(ts.len() == cursor.tokens@.len());
        lemma_readers_advance(ts);
        assert(keysymbols_view(keysymbols@) =~= Seq::<KeysymbolSpec>::empty());
        let whole = items_from(ts, 0, keysymbol_reader());
        if whole is Ok {
            assert(Seq::<KeysymbolSpec>::empty() + whole->Ok_0 =~= whole->Ok_0);
        }
    }
    loop
        invariant
            cursor.tokens@ == tokens@,
            ts == tokens_view(tokens@),
            ts == lexed(seq@),
            ts.len() <= usize::MAX,
            advances(keysymbol_reader(), ts),
            cursor.pos() <= ts.len(),
            items_of(ts, keysymbol_reader()) == ahead(
                keysymbols_view(keysymbols@),
                items_from(ts, cursor.pos(), keysymbol_reader()),
            ),
        decreases ts.len() - cursor.pos(),
    {
        let ghost front = keysymbols_view(keysymbols@);
        let ghost here = cursor.pos();
        proof {
            lemma_keysymbol_advances(ts, here);
        }
        match consume_keysymbol(cursor) {
            Ok(p) => {
                let ghost e = p.value@;
                keysymbols.push(p.value);
                cursor = p.end_cursor;
                proof {
                    assert(keysymbols_view(keysymbols@) =~= front + seq![e]);
                }
            },
            Err(e) => {
                proof {
                    lemma_items_from_unfold(ts, here, keysymbol_reader());
                }
                return Err(e);
            },
        }
        proof {
            lemma_items_from_unfold(ts, here, keysymbol_reader());
        }
        if cursor.done() {
            return Ok(keysymbols);
        }
        if cursor.token_has_class(TokenClass::Whitespace) {
            cursor = cursor.next();
            proof {
                lemma_items_from_unfold(ts, here, keysymbol_reader());
                let rest = items_from(ts, cursor.pos(), keysymbol_reader());
                if rest is Ok {
                    let last = keysymbols_view(keysymbols@).last();
                    assert(front + (seq![last] + rest->Ok_0) =~= keysymbols_view(keysymbols@)
                        + rest->Ok_0);
                }
            }
        } else {
            return Err(cursor.fail("Expected whitespace here"));
        }
    }
}

} // verus!

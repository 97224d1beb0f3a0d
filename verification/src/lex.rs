//! The lexer of the sopheme sequence notation: text is cut into runs of
//! spaces, runs of name characters, and single symbols.

use vstd::prelude::*;
use crate::text::concat_text;

verus! {

/// The lexical classes. `Start` is the class of the lexer before the first
/// character; only the token of an empty text has it.
#[derive(Debug, Clone, Copy, PartialEq, Eq, Structural)]
pub enum TokenClass {
    Start,
    Whitespace,
    Chars,
    Symbol,
}

/// The mathematical value of a [`Token`].
pub struct TokenSpec {
    pub class: TokenClass,
    pub value: Seq<char>,
}

#[derive(Debug, PartialEq, Eq)]
pub struct Token {
    pub class: TokenClass,
    pub value: String,
}

impl View for Token {
    type V = TokenSpec;

    open spec fn view(&self) -> TokenSpec {
        TokenSpec { class: self.class, value: self.value@ }
    }
}

impl Clone for Token {
    fn clone(&self) -> (r: Self)
        ensures
            r@ == self@,
    {
        Token { class: self.class, value: self.value.clone() }
    }
}

impl Token {
    pub fn new(token_type: TokenClass, value: String) -> (r: Self)
        ensures
            r.class == token_type,
            r.value == value,
    {
        Token { class: token_type, value }
    }
}

/// The values of a sequence of tokens.
pub open spec fn tokens_view(tokens: Seq<Token>) -> Seq<TokenSpec> {
    tokens.map_values(|t: Token| t@)
}

/// What `char::is_alphanumeric` answers for a character.
pub uninterp spec fn is_alphanumeric_char(c: char) -> bool;

/// `char::is_alphanumeric`: the answer depends on the character alone; it
/// is named, not described.
pub assume_specification[ char::is_alphanumeric ](c: char) -> (r: bool)
    ensures
        r == is_alphanumeric_char(c),
;

/// The punctuation that counts as name characters.
pub open spec fn is_name_punctuation(c: char) -> bool {
    c == '-' || c == '@' || c == '#' || c == '^' || c == '\'' || c == ':'
}

/// The class of a character: a space is whitespace, alphanumerics and the
/// name punctuation are name characters, anything else is a symbol.
pub open spec fn char_class(c: char) -> TokenClass {
    if c == ' ' {
        TokenClass::Whitespace
    } else if is_alphanumeric_char(c) || is_name_punctuation(c) {
        TokenClass::Chars
    } else {
        TokenClass::Symbol
    }
}

/// The state of the lexer: the class and text of the token under way.
pub struct LexerSpec {
    pub state: TokenClass,
    pub current: Seq<char>,
}

/// One step of the lexer: the state it leaves and the token it completes.
pub struct LexerStep {
    pub lexer: LexerSpec,
    pub token: Option<TokenSpec>,
}

impl LexerSpec {
    /// The state before any character.
    pub open spec fn initial() -> LexerSpec {
        LexerSpec { state: TokenClass::Start, current: Seq::empty() }
    }

    /// Whether a character of class `target` continues the token under
    /// way: it has the same class, and that class is not `Symbol`.
    pub open spec fn continues(self, target: TokenClass) -> bool {
        self.state != TokenClass::Symbol && self.state == target
    }

    /// The step that a character of class `target` causes: it joins the
    /// token under way, or completes it and starts the next one. The start
    /// state completes no token.
    pub open spec fn step(self, ch: char, target: TokenClass) -> LexerStep {
        if self.continues(target) {
            LexerStep {
                lexer: LexerSpec { state: target, current: self.current.push(ch) },
                token: None,
            }
        } else {
            LexerStep {
                lexer: LexerSpec { state: target, current: seq![ch] },
                token: if self.state != TokenClass::Start {
                    Some(self.token())
                } else {
                    None
                },
            }
        }
    }

    /// The token under way.
    pub open spec fn token(self) -> TokenSpec {
        TokenSpec { class: self.state, value: self.current }
    }
}

/// The lexer after a text: the tokens completed and the state reached.
pub struct LexRun {
    pub done: Seq<TokenSpec>,
    pub lexer: LexerSpec,
}

/// The run of the lexer over `text`.
pub open spec fn lex_run(text: Seq<char>) -> LexRun
    decreases text.len(),
{
    if text.len() == 0 {
        LexRun { done: Seq::empty(), lexer: LexerSpec::initial() }
    } else {
        let before = lex_run(text.drop_last());
        let step = before.lexer.step(text.last(), char_class(text.last()));
        LexRun {
            done: match step.token {
                Some(t) => before.done.push(t),
                None => before.done,
            },
            lexer: step.lexer,
        }
    }
}

/// The tokens of a text: those completed during the run and the one under
/// way at its end.
pub open spec fn lexed(text: Seq<char>) -> Seq<TokenSpec> {
    lex_run(text).done.push(lex_run(text).lexer.token())
}

/// The texts of a sequence of tokens.
pub open spec fn token_values(tokens: Seq<TokenSpec>) -> Seq<Seq<char>> {
    tokens.map_values(|t: TokenSpec| t.value)
}

/// The tokens of a text, written one after another, give the text back.
pub proof fn lemma_lexed_covers_text(text: Seq<char>)
    ensures
        concat_text(token_values(lexed(text))) == text,
    decreases text.len(),
{
    let run = lex_run(text);
    let all = token_values(lexed(text));
    assert(all.drop_last() =~= token_values(run.done));
    assert(all.last() == run.lexer.current);
    if text.len() == 0 {
        assert(concat_text(token_values(run.done)) =~= Seq::<char>::empty());
        assert(concat_text(all) =~= text);
    } else {
        let before = lex_run(text.drop_last());
        lemma_lexed_covers_text(text.drop_last());
        let old_all = token_values(lexed(text.drop_last()));
        assert(old_all.drop_last() =~= token_values(before.done));
        assert(old_all.last() == before.lexer.current);
        let target = char_class(text.last());
        if before.lexer.continues(target) {
        } else if before.lexer.state != TokenClass::Start {
            assert(token_values(run.done) =~= old_all);
        } else {
            lemma_start_state(text.drop_last());
        }
        assert(concat_text(all) =~= text.drop_last().push(text.last()));
        assert(text.drop_last().push(text.last()) =~= text);
    }
}

/// The lexer is in its start state only before the first character.
pub proof fn lemma_start_state(text: Seq<char>)
    ensures
        lex_run(text).lexer.state == TokenClass::Start ==> text.len() == 0,
{
}

pub struct Lexer {
    state: TokenClass,
    current_token: String,
}

impl View for Lexer {
    type V = LexerSpec;

    closed spec fn view(&self) -> LexerSpec {
        LexerSpec { state: self.state, current: self.current_token@ }
    }
}

/// The value of an optional token.
pub open spec fn token_option_view(t: Option<Token>) -> Option<TokenSpec> {
    match t {
        Some(t) => Some(t@),
        None => None,
    }
}

impl Lexer {
    pub fn new() -> (r: Self)
        ensures
            r@ == LexerSpec::initial(),
    {
        Lexer { state: TokenClass::Start, current_token: String::new() }
    }

    pub fn step(&mut self, ch: char, target_state: TokenClass) -> (r: Option<Token>)
        ensures
            final(self)@ == old(self)@.step(ch, target_state).lexer,
            token_option_view(r) == old(self)@.step(ch, target_state).token,
    {
        if self.state != TokenClass::Symbol && self.state == target_state {
            self.current_token.push(ch);
            return None;
        }
        let token = if self.state != TokenClass::Start {
            Some(Token::new(self.state, self.current_token.clone()))
        } else {
            None
        };
        let mut started = String::new();
        started.push(ch);
        self.state = target_state;
        self.current_token = started;
        proof {
            assert(self.current_token@ =~= seq![ch]);
        }
        token
    }

    pub fn step_eol(self) -> (r: Token)
        ensures
            r@ == self@.token(),
    {
        Token::new(self.state, self.current_token)
    }
}

/// The class of a character.
pub fn classify(ch: char) -> (r: TokenClass)
    ensures
        r == char_class(ch),
{
    if ch == ' ' {
        TokenClass::Whitespace
    } else if ch.is_alphanumeric() || ch == '-' || ch == '@' || ch == '#' || ch == '^' || ch
        == '\'' || ch == ':' {
        TokenClass::Chars
    } else {
        TokenClass::Symbol
    }
}

/// Cuts a text into tokens.
pub fn lex_sopheme_sequence(seq: &str) -> (r: Vec<Token>)
    ensures
        tokens_view(r@) == lexed(seq@),
{
    let mut lexer = Lexer::new();
    let mut tokens: Vec<Token> = Vec::new();
    let n: usize = seq.unicode_len();
    let mut i: usize = 0;
    proof {
        assert(tokens_view(tokens@) =~= lex_run(seq@.take(0)).done);
    }
    while i < n
        invariant
            i <= n,
            n == seq@.len(),
            lexer@ == lex_run(seq@.take(i as int)).lexer,
            tokens_view(tokens@) == lex_run(seq@.take(i as int)).done,
        decreases n - i,
    {
        let ch = seq.get_char(i);
        proof {
            assert(seq@.take(i as int + 1).drop_last() =~= seq@.take(i as int));
            assert(seq@.take(i as int + 1).last() == ch);
        }
        match lexer.step(ch, classify(ch)) {
            Some(t) => {
                tokens.push(t);
                proof {
                    assert(tokens_view(tokens@) =~= lex_run(seq@.take(i as int + 1)).done);
                }
            },
            None => {},
        }
        i += 1;
    }
    proof {
        assert(seq@.take(i as int) =~= seq@);
    }
    tokens.push(lexer.step_eol());
    proof {
        assert(tokens_view(tokens@) =~= lexed(seq@));
    }
    tokens
}

} // verus!

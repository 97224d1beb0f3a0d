use plover_hatchery::entity::Entity;
use plover_hatchery::lex::{lex_sopheme_sequence, Token, TokenClass};
use plover_hatchery::parse::{
    parse_entry_definition, parse_keysymbol_seq, parse_sopheme_seq, ParseErr,
};
use plover_hatchery::soph::Soph;
use plover_hatchery::text::{parse_u8, u8_to_decimal};

fn is_parsing_reversible(sopheme_seq: &str) -> Result<(), ParseErr> {
    assert_eq!(
        sopheme_seq,
        parse_entry_definition(sopheme_seq)?
            .iter()
            .map(|entity| entity.to_string())
            .collect::<Vec<_>>()
            .join(" ")
    );
    Ok(())
}

fn token(class: TokenClass, value: &str) -> Token {
    Token::new(class, value.to_string())
}

#[test]
fn single_sopheme() {
    is_parsing_reversible("a.@!2?").unwrap();
}

#[test]
fn multiple_sophemes() {
    is_parsing_reversible("h.h y.ae!1 d.d r.r o.@ g.jh e.E5 n.n").unwrap();
}

#[test]
fn keysymbol_groups() {
    is_parsing_reversible("a.a n.ng x.(g z) i.ae!1 e.@ t.t y.iy").unwrap();
}

#[test]
fn transclusions_are_reversible() {
    is_parsing_reversible("{amphi}!1 {vern} s.z").unwrap();
    is_parsing_reversible("'. s. .k").unwrap();
}

#[test]
fn single_sopheme_structure() {
    let entities = parse_entry_definition("a.@!2?").unwrap();
    assert_eq!(entities.len(), 1);
    match &entities[0] {
        Entity::Sopheme(sopheme) => {
            assert_eq!(sopheme.chars, "a");
            assert_eq!(sopheme.keysymbols.len(), 1);
            assert_eq!(sopheme.keysymbols[0].symbol(), "@");
            assert_eq!(sopheme.keysymbols[0].stress(), 2);
            assert!(sopheme.keysymbols[0].optional());
        }
        _ => panic!("expected a sopheme"),
    }
}

#[test]
fn eight_sophemes_structure() {
    let entities = parse_entry_definition("h.h y.ae!1 d.d r.r o.@ g.jh e.E5 n.n").unwrap();
    assert_eq!(entities.len(), 8);
    match &entities[1] {
        Entity::Sopheme(sopheme) => {
            assert_eq!(sopheme.chars, "y");
            assert_eq!(sopheme.keysymbols[0].symbol(), "ae");
            assert_eq!(sopheme.keysymbols[0].stress(), 1);
        }
        _ => panic!("expected a sopheme"),
    }
    match &entities[6] {
        Entity::Sopheme(sopheme) => {
            assert_eq!(sopheme.keysymbols[0].symbol(), "E5");
            assert_eq!(sopheme.keysymbols[0].base_symbol(), "E");
            assert_eq!(sopheme.keysymbols[0].stress(), 0);
        }
        _ => panic!("expected a sopheme"),
    }
}

#[test]
fn grouped_keysymbols_structure() {
    let entities = parse_entry_definition("a.a n.ng x.(g z) i.ae!1 e.@ t.t y.iy").unwrap();
    assert_eq!(entities.len(), 7);
    match &entities[2] {
        Entity::Sopheme(sopheme) => {
            assert_eq!(sopheme.chars, "x");
            let symbols: Vec<&str> = sopheme.keysymbols.iter().map(|k| k.symbol()).collect();
            assert_eq!(symbols, vec!["g", "z"]);
        }
        _ => panic!("expected a sopheme"),
    }
}

#[test]
fn transclusion_structure() {
    let entities = parse_entry_definition("{amphi}!1 {vern}").unwrap();
    assert_eq!(entities.len(), 2);
    match (&entities[0], &entities[1]) {
        (Entity::Transclusion(first), Entity::Transclusion(second)) => {
            assert_eq!(first.target_varname, "amphi");
            assert_eq!(first.stress, 1);
            assert_eq!(second.target_varname, "vern");
            assert_eq!(second.stress, 0);
        }
        _ => panic!("expected two transclusions"),
    }
}

#[test]
fn stress_forms() {
    let keysymbols = parse_keysymbol_seq("a b! c!7 d? e!? f!12?").unwrap();
    let seen: Vec<(String, u8, bool)> = keysymbols
        .iter()
        .map(|k| (k.symbol().to_string(), k.stress(), k.optional()))
        .collect();
    assert_eq!(
        seen,
        vec![
            ("a".to_string(), 0, false),
            ("b".to_string(), 1, false),
            ("c".to_string(), 7, false),
            ("d".to_string(), 0, true),
            ("e".to_string(), 1, true),
            ("f".to_string(), 12, true),
        ]
    );
}

#[test]
fn alternation_is_not_parsed() {
    let err = parse_entry_definition("z.z e.ii|ee!1 t.t a.@").unwrap_err();
    assert_eq!(err.message, "Expected whitespace here");
    let err = parse_entry_definition("'. oeu.(@@r!1 r)|uh v.v r.r e.@1 s.").unwrap_err();
    assert_eq!(err.message, "Expected whitespace here");
}

#[test]
fn parse_errors() {
    let err = parse_entry_definition("a").unwrap_err();
    assert_eq!(err.message, "Expected an entity here");
    assert_eq!(err.cursor_info, "\na\n^\nToken { class: Chars, value: \"a\" }\n");
    assert_eq!(
        err.to_string(),
        "\n\nExpected an entity here\n\n\na\n^\nToken { class: Chars, value: \"a\" }\n\n\n"
    );
    let err = parse_entry_definition("").unwrap_err();
    assert_eq!(err.message, "Expected an entity here");
    assert_eq!(err.cursor_info, "\n\n^\nToken { class: Start, value: \"\" }\n");
    let err = parse_entry_definition("ab.c d.e!x").unwrap_err();
    assert_eq!(err.message, "Expected an entity here");
    assert_eq!(err.cursor_info, "\nab.c d.e!x\n.~...^\nToken { class: Chars, value: \"d\" }\n");
    assert_eq!(parse_entry_definition("a.b  c.d").unwrap().len(), 2);
    let err = parse_entry_definition("a.b{").unwrap_err();
    assert_eq!(err.message, "Expected whitespace here");
    assert_eq!(err.cursor_info, "\na.b{\n...^\nToken { class: Symbol, value: \"{\" }\n");
    let err = parse_entry_definition("a.b ").unwrap_err();
    assert_eq!(err.message, "Expected an entity here");
    assert_eq!(err.cursor_info, "\na.b \n....\nToken { class: Whitespace, value: \"\" }\n");
}

#[test]
fn keysymbol_errors() {
    let err = parse_keysymbol_seq("a!x").unwrap_err();
    assert_eq!(err.message, "Expected a number here");
    let err = parse_keysymbol_seq("a!256").unwrap_err();
    assert_eq!(err.message, "Expected a number here");
    let err = parse_keysymbol_seq("(").unwrap_err();
    assert_eq!(err.message, "Expected a keysymbol identifier here");
    let err = parse_keysymbol_seq("a (").unwrap_err();
    assert_eq!(err.message, "Expected a keysymbol identifier here");
    let err = parse_keysymbol_seq("a.").unwrap_err();
    assert_eq!(err.message, "Expected whitespace here");
}

#[test]
fn sopheme_errors() {
    let err = parse_sopheme_seq("{a}").unwrap_err();
    assert_eq!(err.message, "Expected a sopheme orthography here");
    let err = parse_sopheme_seq("a b").unwrap_err();
    assert_eq!(err.message, "Expected a dot here");
    let err = parse_sopheme_seq("a.)").unwrap_err();
    assert_eq!(err.message, "Expected a sopheme phonology here");
    let err = parse_sopheme_seq("a.(b").unwrap_err();
    assert_eq!(err.message, "Expected a keysymbol identifier here");
    let sophemes = parse_sopheme_seq("kn.n igh.ai!1 t.t").unwrap();
    assert_eq!(sophemes.len(), 3);
    assert_eq!(sophemes[1].to_string(), "igh.ai!1");
}

#[test]
fn lexer_classes() {
    assert_eq!(
        lex_sopheme_sequence("x.(g z)"),
        vec![
            token(TokenClass::Chars, "x"),
            token(TokenClass::Symbol, "."),
            token(TokenClass::Symbol, "("),
            token(TokenClass::Chars, "g"),
            token(TokenClass::Whitespace, " "),
            token(TokenClass::Chars, "z"),
            token(TokenClass::Symbol, ")"),
        ]
    );
    assert_eq!(lex_sopheme_sequence(""), vec![token(TokenClass::Start, "")]);
    assert_eq!(
        lex_sopheme_sequence("a  b"),
        vec![
            token(TokenClass::Chars, "a"),
            token(TokenClass::Whitespace, "  "),
            token(TokenClass::Chars, "b"),
        ]
    );
    assert_eq!(
        lex_sopheme_sequence("-@#^':é9!!"),
        vec![
            token(TokenClass::Chars, "-@#^':é9"),
            token(TokenClass::Symbol, "!"),
            token(TokenClass::Symbol, "!"),
        ]
    );
    assert_eq!(
        lex_sopheme_sequence("\t|"),
        vec![token(TokenClass::Symbol, "\t"), token(TokenClass::Symbol, "|")]
    );
}

#[test]
fn tokens_cover_the_text() {
    for text in ["", "a.@!2?", "h.h y.ae!1", "{amphi}!1  {vern}", "x.(g z)|é"] {
        let joined: String =
            lex_sopheme_sequence(text).iter().map(|t| t.value.clone()).collect();
        assert_eq!(joined, text);
    }
}

#[test]
fn decimal_bytes() {
    assert_eq!(parse_u8("0"), Some(0));
    assert_eq!(parse_u8("7"), Some(7));
    assert_eq!(parse_u8("007"), Some(7));
    assert_eq!(parse_u8("+12"), Some(12));
    assert_eq!(parse_u8("255"), Some(255));
    assert_eq!(parse_u8("256"), None);
    assert_eq!(parse_u8("1000"), None);
    assert_eq!(parse_u8(""), None);
    assert_eq!(parse_u8("+"), None);
    assert_eq!(parse_u8("-1"), None);
    assert_eq!(parse_u8("1a"), None);
    assert_eq!(parse_u8("٣"), None);
    for n in [0u8, 1, 9, 10, 42, 99, 100, 101, 200, 255] {
        assert_eq!(u8_to_decimal(n), n.to_string());
        assert_eq!(parse_u8(&n.to_string()), Some(n));
        assert_eq!(n.to_string().parse::<u8>().ok(), parse_u8(&n.to_string()));
    }
    for text in ["", "+", "+5", "-5", "05", "256", "5 ", " 5", "5_0", "٣"] {
        assert_eq!(text.parse::<u8>().ok(), parse_u8(text));
    }
}

#[test]
fn sophs_are_split_on_whitespace() {
    let sophs = Soph::parse_seq("  S T\tK\n\nW  ");
    let values: Vec<String> = sophs.iter().map(|s| s.to_string()).collect();
    assert_eq!(values, vec!["S", "T", "K", "W"]);
    assert!(Soph::parse_seq("   ").is_empty());
    assert_eq!(Soph::new("S".to_string()), Soph::new("S".to_string()));
}

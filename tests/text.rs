use slr::grammar::{Grammar, Node};
use slr::lexer::{gram_lexer, LexError, TokenType};
use slr::parser::{parse, ParseError};
use slr::table::LRAction;

fn tokens(text: &str) -> Vec<(TokenType, String)> {
    let mut lx = gram_lexer(text);
    let mut out = Vec::new();
    while let Some(r) = lx.next() {
        match r {
            Ok(t) => out.push((t.token, t.lexeme.to_string())),
            Err(e) => panic!("lex error {:?}", e),
        }
    }
    out
}

fn parse_text(text: &str) -> Result<Node, ParseError> {
    parse(&mut gram_lexer(text))
}

#[test]
fn lexes_a_production() {
    let got = tokens("Expr -> Expr PLUS Term | Term ;\n");
    let want = vec![
        (TokenType::NONTERM, "Expr"),
        (TokenType::ARROW, "->"),
        (TokenType::NONTERM, "Expr"),
        (TokenType::TERM, "PLUS"),
        (TokenType::NONTERM, "Term"),
        (TokenType::VBAR, "|"),
        (TokenType::NONTERM, "Term"),
        (TokenType::SEMI, ";"),
    ];
    let want: Vec<(TokenType, String)> = want.into_iter().map(|(k, s)| (k, s.to_string())).collect();
    assert_eq!(got, want);
}

#[test]
fn identifier_kinds() {
    let got = tokens("X ID Id ID2 A_b' e ;\n");
    let kinds: Vec<TokenType> = got.iter().map(|t| t.0).collect();
    assert_eq!(kinds, vec![TokenType::NONTERM, TokenType::TERM, TokenType::NONTERM, TokenType::NONTERM, TokenType::NONTERM, TokenType::EMPTY, TokenType::SEMI]);
    assert_eq!(got[4].1, "A_b'");
}

#[test]
fn token_needs_a_following_character() {
    let got = tokens("A -> B ;");
    let kinds: Vec<TokenType> = got.iter().map(|t| t.0).collect();
    assert_eq!(kinds, vec![TokenType::NONTERM, TokenType::ARROW, TokenType::NONTERM]);
}

#[test]
fn unexpected_character_stops_the_lexer() {
    let mut lx = gram_lexer("S -> a ;\n");
    assert!(matches!(lx.next(), Some(Ok(_))));
    assert!(matches!(lx.next(), Some(Ok(_))));
    match lx.next() {
        Some(Err(LexError::UnexpectedCharacter(c))) => assert_eq!(c, 'a'),
        other => panic!("unexpected {:?}", other),
    }
    assert!(lx.next().is_none());
}

#[test]
fn dash_without_arrow_is_refused() {
    let mut lx = gram_lexer("S - X ;\n");
    assert!(matches!(lx.next(), Some(Ok(_))));
    match lx.next() {
        Some(Err(LexError::UnexpectedCharacter(c))) => assert_eq!(c, ' '),
        other => panic!("unexpected {:?}", other),
    }
}

#[test]
fn parses_a_grammar_tree() {
    let n = parse_text("S -> A B | e ;\nA -> ID ;\n").expect("parse");
    assert_eq!(n.label, "Grammar");
    assert_eq!(n.kids.len(), 2);
    let p = &n.kids[0];
    assert_eq!(p.label, "Production");
    assert_eq!(p.kids[0].label, "NonTerm");
    assert_eq!(p.kids[0].kids[0].label, "S");
    let body = &p.kids[1];
    assert_eq!(body.label, "Body");
    assert_eq!(body.kids.len(), 2);
    assert_eq!(body.kids[0].kids.len(), 2);
    assert_eq!(body.kids[0].kids[1].kids[0].label, "B");
    assert_eq!(body.kids[1].kids[0].label, "Empty");
    assert_eq!(n.kids[1].kids[1].kids[0].kids[0].label, "Term");
}

#[test]
fn empty_text_parses_to_an_empty_grammar() {
    let n = parse_text("").expect("parse");
    assert_eq!(n.label, "Grammar");
    assert!(n.kids.is_empty());
}

#[test]
fn leftover_tokens_are_reported() {
    match parse_text("S -> A ;\nB C ;\n") {
        Err(ParseError::UnconsumedInput(i)) => assert_eq!(i, 4),
        other => panic!("unexpected {:?}", other),
    }
    match parse_text("S -> A ;") {
        Err(ParseError::UnconsumedInput(i)) => assert_eq!(i, 0),
        other => panic!("unexpected {:?}", other),
    }
}

#[test]
fn lex_errors_come_through_parse() {
    match parse_text("S -> x ;\n") {
        Err(ParseError::Lex(LexError::UnexpectedCharacter(c))) => assert_eq!(c, 'x'),
        other => panic!("unexpected {:?}", other),
    }
}

#[test]
fn text_to_table() {
    let n = parse_text("Expr -> Expr PLUS Term | Term ;\nTerm -> ID ;\n").expect("parse");
    let g = Grammar::new(n).expect("grammar");
    let aut = g.LR0_automaton();
    assert_eq!(aut.states.len(), 6);
    let tb = aut.table().expect("table");
    let id = g.find_symbol(true, &"ID".to_string()).expect("ID");
    assert!(matches!(tb.actions[0][id], LRAction::Shift(_)));
}

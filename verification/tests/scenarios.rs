use lexer::{Lexer, Match, Token};

#[derive(Debug, PartialEq)]
enum TokType {
    Add,
    Sub,
    Mul,
    Div,
    Number(i32),
}

type Handler = fn(&Match) -> Option<TokType>;

fn arithmetic() -> Lexer<Handler> {
    let mut lexer: Lexer<Handler> = Lexer::new();
    lexer.rule(r"\+", |_| Some(TokType::Add));
    lexer.rule(r"-", |_| Some(TokType::Sub));
    lexer.rule(r"\*", |_| Some(TokType::Mul));
    lexer.rule(r"/", |_| Some(TokType::Div));
    lexer.rule(r"[0-9]+", |match_item| {
        Some(TokType::Number(match_item.as_str().parse().unwrap()))
    });
    lexer
}

fn spans<T>(tokens: &[Token<T>]) -> Vec<(usize, usize)> {
    tokens.iter().map(|tok| (tok.start(), tok.end())).collect()
}

#[test]
fn basic_lex_test() {
    let mut lexer: Lexer<Handler> = Lexer::new();

    lexer.rule(r"\+", |_| Some(TokType::Add));
    lexer.rule(r"-", |_| Some(TokType::Sub));
    lexer.rule(r"\*", |_| Some(TokType::Mul));
    lexer.rule(r"/", |_| Some(TokType::Div));
    lexer.rule(r"[0-9]+", |match_item| {
        Some(TokType::Number(match_item.as_str().parse().unwrap()))
    });

    let tokens = lexer.lex("5 + 10");
    assert_eq!(tokens[0].toktype(), &TokType::Number(5));
    assert_eq!(tokens[1].toktype(), &TokType::Add);
    assert_eq!(tokens[2].toktype(), &TokType::Number(10));
}

#[test]
fn arithmetic_tokens_have_their_spans() {
    let mut lexer = arithmetic();
    let tokens = lexer.lex("5 + 10");
    assert_eq!(tokens.len(), 3);
    assert_eq!(spans(&tokens), vec![(0, 1), (2, 3), (4, 6)]);
    assert_eq!(tokens[0].toktype(), &TokType::Number(5));
    assert_eq!(tokens[1].toktype(), &TokType::Add);
    assert_eq!(tokens[2].toktype(), &TokType::Number(10));
}

#[test]
fn every_operator_is_classified() {
    let mut lexer = arithmetic();
    let tokens = lexer.lex("1+2-3*4/5");
    let kinds: Vec<&TokType> = tokens.iter().map(|tok| tok.toktype()).collect();
    assert_eq!(
        kinds,
        vec![
            &TokType::Number(1),
            &TokType::Add,
            &TokType::Number(2),
            &TokType::Sub,
            &TokType::Number(3),
            &TokType::Mul,
            &TokType::Number(4),
            &TokType::Div,
            &TokType::Number(5),
        ]
    );
    assert_eq!(
        spans(&tokens),
        vec![(0, 1), (1, 2), (2, 3), (3, 4), (4, 5), (5, 6), (6, 7), (7, 8), (8, 9)]
    );
}

#[test]
fn earlier_rule_keeps_what_it_touched() {
    let mut lexer: Lexer<fn(&Match) -> Option<&'static str>> = Lexer::new();
    lexer.rule("ab", |_| Some("first"));
    lexer.rule("b", |_| Some("second"));
    let tokens = lexer.lex("ab");
    assert_eq!(tokens.len(), 1);
    assert_eq!(tokens[0].toktype(), &"first");
    assert_eq!((tokens[0].start(), tokens[0].end()), (0, 2));
}

#[test]
fn unmatched_text_leaves_gaps() {
    let mut lexer = arithmetic();
    let tokens = lexer.lex("x 7 y 8 z");
    assert_eq!(spans(&tokens), vec![(2, 3), (6, 7)]);
    assert_eq!(tokens[0].toktype(), &TokType::Number(7));
    assert_eq!(tokens[1].toktype(), &TokType::Number(8));
}

#[test]
fn no_rules_give_no_tokens() {
    let mut lexer: Lexer<Handler> = Lexer::new();
    assert!(lexer.lex("5 + 10").is_empty());
    assert!(lexer.lex("").is_empty());
}

#[test]
fn empty_text_gives_no_tokens() {
    let mut lexer = arithmetic();
    assert!(lexer.lex("").is_empty());
}

#[test]
fn empty_match_in_empty_text_is_a_token() {
    let mut lexer: Lexer<fn(&Match) -> Option<u8>> = Lexer::new();
    lexer.rule("a*", |_| Some(7));
    let tokens = lexer.lex("");
    assert_eq!(tokens.len(), 1);
    assert_eq!(tokens[0].toktype(), &7);
    assert_eq!((tokens[0].start(), tokens[0].end()), (0, 0));
}

#[test]
fn offsets_count_bytes() {
    let mut lexer = arithmetic();
    let tokens = lexer.lex("é+12");
    assert_eq!(spans(&tokens), vec![(2, 3), (3, 5)]);
    assert_eq!(tokens[0].toktype(), &TokType::Add);
    assert_eq!(tokens[1].toktype(), &TokType::Number(12));
}

#[test]
fn handler_sees_the_matched_text() {
    let mut lexer: Lexer<fn(&Match) -> Option<String>> = Lexer::new();
    lexer.rule("[a-zé]+", |m| Some(format!("{}@{}-{}", m.as_str(), m.start(), m.end())));
    let tokens = lexer.lex("12 café 3 au");
    assert_eq!(tokens.len(), 2);
    assert_eq!(tokens[0].toktype(), "café@3-8");
    assert_eq!(tokens[1].toktype(), "au@11-13");
}

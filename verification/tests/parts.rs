use lexer::claims::claim;
use lexer::token::sort_tokens;
use lexer::{Lexer, LexerRule, Match, Span, Token};

type Handler = fn(&Match) -> Option<u32>;

fn tok(toktype: u32, start: usize, end: usize) -> Token<u32> {
    Token { toktype, start, end }
}

fn triples(tokens: &[Token<u32>]) -> Vec<(u32, usize, usize)> {
    tokens.iter().map(|tok| (*tok.toktype(), tok.start(), tok.end())).collect()
}

#[test]
fn token_accessors() {
    let token = Token { toktype: "word", start: 3, end: 8 };
    assert_eq!(token.toktype(), &"word");
    assert_eq!(token.start(), 3);
    assert_eq!(token.end(), 8);
}

#[test]
fn match_accessors() {
    let found = Match { haystack: "5 + 10", start: 4, end: 6 };
    assert_eq!(found.start(), 4);
    assert_eq!(found.end(), 6);
    assert_eq!(found.as_str(), "10");
}

#[test]
fn match_text_of_many_bytes() {
    let text = "añb→c";
    assert_eq!(Match { haystack: text, start: 1, end: 3 }.as_str(), "ñ");
    assert_eq!(Match { haystack: text, start: 4, end: 7 }.as_str(), "→");
    assert_eq!(Match { haystack: text, start: 0, end: 8 }.as_str(), text);
    assert_eq!(Match { haystack: text, start: 8, end: 8 }.as_str(), "");
    assert_eq!(Match { haystack: text, start: 0, end: 0 }.as_str(), "");
}

#[test]
fn claim_marks_and_reports() {
    let mut matched = vec![false; 6];
    assert!(claim(&mut matched, Span { start: 1, end: 3 }));
    assert_eq!(matched, vec![false, true, true, false, false, false]);
    assert!(!claim(&mut matched, Span { start: 2, end: 5 }));
    assert_eq!(matched, vec![false, true, true, true, true, false]);
    assert!(claim(&mut matched, Span { start: 5, end: 6 }));
    assert_eq!(matched, vec![false, true, true, true, true, true]);
    assert!(claim(&mut matched, Span { start: 0, end: 1 }));
    assert!(!claim(&mut matched, Span { start: 0, end: 6 }));
    assert_eq!(matched, vec![true; 6]);
}

#[test]
fn claim_of_empty_span_is_free() {
    let mut matched = vec![true, false];
    assert!(claim(&mut matched, Span { start: 0, end: 0 }));
    assert!(claim(&mut matched, Span { start: 2, end: 2 }));
    assert!(claim(&mut matched, Span { start: 5, end: 3 }));
    assert_eq!(matched, vec![true, false]);
    let mut none: Vec<bool> = Vec::new();
    assert!(claim(&mut none, Span { start: 0, end: 0 }));
    assert!(none.is_empty());
}

#[test]
fn sort_orders_by_start() {
    let mut tokens = vec![tok(1, 9, 10), tok(2, 0, 2), tok(3, 4, 6), tok(4, 2, 3)];
    sort_tokens(&mut tokens);
    assert_eq!(triples(&tokens), vec![(2, 0, 2), (4, 2, 3), (3, 4, 6), (1, 9, 10)]);
}

#[test]
fn sort_keeps_equal_starts_in_order() {
    let mut tokens =
        vec![tok(1, 3, 3), tok(2, 0, 0), tok(3, 3, 4), tok(4, 0, 1), tok(5, 3, 9), tok(6, 0, 5)];
    sort_tokens(&mut tokens);
    assert_eq!(
        triples(&tokens),
        vec![(2, 0, 0), (4, 0, 1), (6, 0, 5), (1, 3, 3), (3, 3, 4), (5, 3, 9)]
    );
}

#[test]
fn sort_of_few_tokens() {
    let mut none: Vec<Token<u32>> = Vec::new();
    sort_tokens(&mut none);
    assert!(none.is_empty());
    let mut one = vec![tok(1, 5, 6)];
    sort_tokens(&mut one);
    assert_eq!(triples(&one), vec![(1, 5, 6)]);
    let mut sorted = vec![tok(1, 0, 1), tok(2, 1, 2), tok(3, 2, 3)];
    sort_tokens(&mut sorted);
    assert_eq!(triples(&sorted), vec![(1, 0, 1), (2, 1, 2), (3, 2, 3)]);
    let mut reversed = vec![tok(1, 2, 3), tok(2, 1, 2), tok(3, 0, 1)];
    sort_tokens(&mut reversed);
    assert_eq!(triples(&reversed), vec![(3, 0, 1), (2, 1, 2), (1, 2, 3)]);
}

#[test]
fn rule_calls_its_handler() {
    let handler: Handler = |m| if m.as_str() == "10" { Some(10) } else { None };
    let rule = LexerRule { pat: regex::Regex::new("[0-9]+").unwrap(), handler };
    assert_eq!(rule.handle(&Match { haystack: "5 + 10", start: 4, end: 6 }), Some(10));
    assert_eq!(rule.handle(&Match { haystack: "5 + 10", start: 0, end: 1 }), None);
}

#[test]
fn rule_takes_the_spans_it_is_given() {
    let handler: Handler = |m| m.as_str().parse().ok();
    let rule = LexerRule { pat: regex::Regex::new("[0-9]+").unwrap(), handler };
    let text = "12 x 345";
    let mut matched = vec![false; text.len()];
    matched[6] = true;
    let mut toks = vec![tok(0, 3, 4)];
    let spans = vec![
        Span { start: 0, end: 2 },
        Span { start: 1, end: 2 },
        Span { start: 3, end: 4 },
        Span { start: 5, end: 8 },
        Span { start: 5, end: 6 },
    ];
    rule.claim_matches(text, &spans, &mut matched, &mut toks);
    assert_eq!(triples(&toks), vec![(0, 3, 4), (12, 0, 2)]);
    assert_eq!(matched, vec![true, true, false, true, false, true, true, true]);
}

#[test]
fn invalid_pattern_is_refused() {
    let mut lexer: Lexer<Handler> = Lexer::new();
    let refused = lexer.try_rule("foo(bar", |_| Some(1));
    assert!(refused.is_err());
    assert!(!refused.unwrap_err().message.is_empty());
    assert!(lexer.lex("foo(bar").is_empty());
}

#[test]
fn too_big_pattern_is_refused() {
    let mut lexer: Lexer<Handler> = Lexer::new();
    assert!(lexer.try_rule(r"\w{1000}", |_| Some(1)).is_err());
    assert!(lexer.try_rule(r"(?-u:\w){1000}", |_| Some(1)).is_ok());
}

#[test]
fn valid_pattern_is_added_behind_the_others() {
    let mut lexer: Lexer<Handler> = Lexer::new();
    assert!(lexer.try_rule("ab", |_| Some(1)).is_ok());
    assert!(lexer.try_rule("(", |_| Some(2)).is_err());
    assert!(lexer.try_rule("b+", |_| Some(3)).is_ok());
    let tokens = lexer.lex("abbb b");
    assert_eq!(triples(&tokens), vec![(1, 0, 2), (3, 5, 6)]);
}

#[test]
fn pattern_is_compiled_as_given() {
    let mut lexer: Lexer<Handler> = Lexer::new();
    lexer.rule(r"a\+", |_| Some(1));
    let tokens = lexer.lex("aaa a+ a");
    assert_eq!(triples(&tokens), vec![(1, 4, 6)]);
}

use lexer::Lexer;
use lexer::PatternErrorKind;
use lexer::UnrecognizedInputError;

#[derive(Debug, Clone, Copy, PartialEq, Eq)]
enum Token {
    IF,
    WHILE,
    NUM,
    IDENT,
    WORD,
}

#[test]
fn test_main() {
    let mut lexer = Lexer::new();
    lexer.add_token("if", Token::IF).unwrap();
    lexer.add_token("while", Token::WHILE).unwrap();
    lexer.add_token("(0|1)|2", Token::NUM).unwrap();

    if let Ok(tokens) = lexer.lex("if while 0 1 2") {
        for token in tokens.iter() {
            println!("{:?}", token);
        }
    }
}

// Any string of a pattern's language, scanned with that pattern alone,
// comes back as exactly one token.
#[test]
fn single_pattern_language() {
    let mut lexer = Lexer::new();
    lexer.add_token("(a|b)((a|b))*", Token::WORD).unwrap();
    assert_eq!(lexer.lex("a"), Ok(vec![Token::WORD]));
    assert_eq!(lexer.lex("ba"), Ok(vec![Token::WORD]));
    assert_eq!(lexer.lex("abba"), Ok(vec![Token::WORD]));
}

// Longest match wins: "ifx" is one identifier, not the keyword "if"
// followed by a stray "x".
#[test]
fn longest_match_prefers_longer() {
    let mut lexer = Lexer::new();
    lexer.add_token("if", Token::IF).unwrap();
    // one or more of the letters i, f, x
    lexer.add_token("(i|(f|x))((i|(f|x)))*", Token::IDENT).unwrap();
    assert_eq!(lexer.lex("ifx"), Ok(vec![Token::IDENT]));
}

// On an exact-length tie the pattern registered first wins.
#[test]
fn registration_order_breaks_ties() {
    let mut lexer = Lexer::new();
    lexer.add_token("if", Token::IF).unwrap();
    lexer.add_token("(i|(f|x))((i|(f|x)))*", Token::IDENT).unwrap();
    assert_eq!(lexer.lex("if"), Ok(vec![Token::IF]));

    let mut other = Lexer::new();
    other.add_token("(i|(f|x))((i|(f|x)))*", Token::IDENT).unwrap();
    other.add_token("if", Token::IF).unwrap();
    assert_eq!(other.lex("if"), Ok(vec![Token::IDENT]));
}

// With nothing registered every input scans to the empty sequence.
#[test]
fn empty_registration_set() {
    let lexer: Lexer<Token> = Lexer::new();
    assert_eq!(lexer.lex(""), Ok(vec![]));
    assert_eq!(lexer.lex("anything at all"), Ok(vec![]));
}

// Input no pattern can start on fails with the offset of the bad spot.
#[test]
fn unrecognized_input() {
    let mut lexer = Lexer::new();
    lexer.add_token("if", Token::IF).unwrap();
    assert_eq!(lexer.lex("xy"), Err(UnrecognizedInputError { offset: 0 }));
}

#[test]
fn end_to_end() {
    let mut lexer = Lexer::new();
    lexer.add_token("if", Token::IF).unwrap();
    lexer.add_token("while", Token::WHILE).unwrap();
    lexer.add_token("(0|1)|2", Token::NUM).unwrap();
    assert_eq!(lexer.lex("if"), Ok(vec![Token::IF]));
    assert_eq!(lexer.lex("while"), Ok(vec![Token::WHILE]));
    assert_eq!(lexer.lex("0"), Ok(vec![Token::NUM]));
    assert_eq!(lexer.lex("2"), Ok(vec![Token::NUM]));
    assert_eq!(lexer.lex("ifwhile"), Ok(vec![Token::IF, Token::WHILE]));
    assert_eq!(lexer.lex("if "), Err(UnrecognizedInputError { offset: 2 }));
}

// A '(' whose ')' never comes is reported at the pattern's end; a stray
// ')' is reported where it stands. The lexer is left unchanged.
#[test]
fn pattern_syntax_errors() {
    let mut lexer: Lexer<Token> = Lexer::new();

    let e = lexer.add_token("(", Token::IF).unwrap_err();
    assert_eq!(e.pattern, "(".to_string());
    assert_eq!(e.offset, 1);
    assert_eq!(e.kind, PatternErrorKind::MissingParenthesis);

    let e = lexer.add_token(")", Token::IF).unwrap_err();
    assert_eq!(e.pattern, ")".to_string());
    assert_eq!(e.offset, 0);
    assert_eq!(e.kind, PatternErrorKind::UnexpectedParenthesis);

    let e = lexer.add_token("a)b", Token::IF).unwrap_err();
    assert_eq!(e.offset, 1);
    assert_eq!(e.kind, PatternErrorKind::UnexpectedParenthesis);

    // nothing was registered by the failed attempts
    assert_eq!(lexer.lex(""), Ok(vec![]));
}

// Zero-or-more repetition munches as far as it can in one token.
#[test]
fn repetition_munches_all() {
    let mut lexer = Lexer::new();
    lexer.add_token("a((a))*", Token::WORD).unwrap();
    assert_eq!(lexer.lex("aaaa"), Ok(vec![Token::WORD]));
    assert_eq!(lexer.lex(""), Ok(vec![]));
}

// A pattern matching only the empty string can never advance the cursor,
// so it produces no token: empty input is fine, anything else is stuck.
#[test]
fn empty_pattern_yields_no_token() {
    let mut lexer = Lexer::new();
    lexer.add_token("", Token::WORD).unwrap();
    assert_eq!(lexer.lex(""), Ok(vec![]));
    assert_eq!(lexer.lex("x"), Err(UnrecognizedInputError { offset: 0 }));
}

// Parenthesized groups and nested alternation determinize correctly.
#[test]
fn nested_alternation() {
    let mut lexer = Lexer::new();
    lexer.add_token("((a|b)c)|d", Token::WORD).unwrap();
    assert_eq!(lexer.lex("ac"), Ok(vec![Token::WORD]));
    assert_eq!(lexer.lex("bc"), Ok(vec![Token::WORD]));
    assert_eq!(lexer.lex("d"), Ok(vec![Token::WORD]));
    assert_eq!(lexer.lex("dd"), Ok(vec![Token::WORD, Token::WORD]));
    assert_eq!(lexer.lex("c"), Err(UnrecognizedInputError { offset: 0 }));
}

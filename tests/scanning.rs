use toy_lexer::lexer::Lexer;
use toy_lexer::keywords::is_keyword;
use toy_lexer::{LexerError, LexerStatus, Token, TokenType};

fn kinds_and_texts(tokens: &[Token]) -> Vec<(TokenType, String)> {
    tokens.iter().map(|t| (t.token_type(), t.text().to_string())).collect()
}

fn kt(kind: TokenType, text: &str) -> (TokenType, String) {
    (kind, text.to_string())
}

#[test]
fn if_block_scenario() {
    let mut lexer = Lexer::new("if x { y = 1; }");
    let tokens = lexer.collect_tokens();
    assert_eq!(
        kinds_and_texts(&tokens),
        vec![
            kt(TokenType::Keyword, "if"),
            kt(TokenType::Identifier, "x"),
            kt(TokenType::LParen, "{"),
            kt(TokenType::Identifier, "y"),
            kt(TokenType::Operator, "="),
            kt(TokenType::NumericLiteral, "1"),
            kt(TokenType::Semicolon, ";"),
            kt(TokenType::RParen, "}"),
        ]
    );
    let positions: Vec<(usize, usize)> = tokens.iter().map(|t| t.pos()).collect();
    assert_eq!(positions, vec![(0, 0), (0, 3), (0, 5), (0, 7), (0, 9), (0, 11), (0, 12), (0, 14)]);
    assert_eq!(*lexer.status(), LexerStatus::EndOfStream);
}

#[test]
fn string_assignment_scenario() {
    let mut lexer = Lexer::new("a = \"ok\";");
    let tokens = lexer.collect_tokens();
    assert_eq!(
        kinds_and_texts(&tokens),
        vec![
            kt(TokenType::Identifier, "a"),
            kt(TokenType::Operator, "="),
            kt(TokenType::StringLiteral, "\"ok\""),
            kt(TokenType::Semicolon, ";"),
        ]
    );
    assert_eq!(tokens[2].pos(), (0, 4));
    assert_eq!(*lexer.status(), LexerStatus::EndOfStream);
}

#[test]
fn invalid_escape_scenario() {
    let mut lexer = Lexer::new("x = \"a\\qb\";");
    let tokens = lexer.collect_tokens();
    assert_eq!(
        kinds_and_texts(&tokens),
        vec![kt(TokenType::Identifier, "x"), kt(TokenType::Operator, "=")]
    );
    assert_eq!(
        *lexer.status(),
        LexerStatus::Error(LexerError::InvalidEscape { character: 'q', line: 0, col: 7 })
    );
}

#[test]
fn unrecognized_character_scenario() {
    let mut lexer = Lexer::new("x # y;");
    let tokens = lexer.collect_tokens();
    assert_eq!(kinds_and_texts(&tokens), vec![kt(TokenType::Identifier, "x")]);
    assert_eq!(
        *lexer.status(),
        LexerStatus::Error(LexerError::UnrecognizedStart { character: '#', line: 0, col: 2 })
    );
}

#[test]
fn escaped_quote_scenario() {
    let mut lexer = Lexer::new("\"a\\\"b\"");
    let tokens = lexer.collect_tokens();
    assert_eq!(kinds_and_texts(&tokens), vec![kt(TokenType::StringLiteral, "\"a\\\"b\"")]);
    assert_eq!(tokens[0].pos(), (0, 0));
    assert_eq!(*lexer.status(), LexerStatus::EndOfStream);
}

#[test]
fn allowed_characters_end_cleanly() {
    let text = "while count { count = count - 1; }\n\tfor i { s = \"a b\" }\r\n";
    let mut lexer = Lexer::new(text);
    let tokens = lexer.collect_tokens();
    assert_eq!(tokens.len(), 17);
    assert_eq!(*lexer.status(), LexerStatus::EndOfStream);
}

#[test]
fn token_text_matches_position() {
    let text = "if a {\n  b = 12;\n  c = \"x\ny\";\n}";
    let lines: Vec<Vec<char>> = text.split('\n').map(|l| l.chars().collect()).collect();
    let mut lexer = Lexer::new(text);
    let tokens = lexer.collect_tokens();
    assert_eq!(tokens.len(), 12);
    for t in tokens.iter() {
        let (line, col) = t.pos();
        let first_line: String = t.text().split('\n').next().unwrap().to_string();
        let at: String = lines[line][col..col + first_line.chars().count()].iter().collect();
        assert_eq!(at, first_line);
        assert!(!t.text().is_empty());
    }
    assert_eq!(tokens[3].pos(), (1, 2));
    assert_eq!(tokens[5].text(), "12");
    assert_eq!(tokens[5].pos(), (1, 6));
    assert_eq!(tokens[9].text(), "\"x\ny\"");
    assert_eq!(tokens[9].pos(), (2, 6));
    assert_eq!(tokens[10].pos(), (3, 2));
    assert_eq!(tokens[11].token_type(), TokenType::RParen);
    assert_eq!(tokens[11].pos(), (4, 0));
}

#[test]
fn keywords_are_exact() {
    let mut lexer = Lexer::new("if else for while iff If els _while whiles");
    let tokens = lexer.collect_tokens();
    let kinds: Vec<TokenType> = tokens.iter().map(|t| t.token_type()).collect();
    assert_eq!(
        kinds,
        vec![
            TokenType::Keyword,
            TokenType::Keyword,
            TokenType::Keyword,
            TokenType::Keyword,
            TokenType::Identifier,
            TokenType::Identifier,
            TokenType::Identifier,
            TokenType::Identifier,
            TokenType::Identifier,
        ]
    );
    assert!(is_keyword("while"));
    assert!(!is_keyword("whilE"));
    assert!(!is_keyword(""));
}

#[test]
fn scanning_twice_gives_the_same_result() {
    let text = "if x { y = \"q\\\"\"; } z $";
    let mut first = Lexer::new(text);
    let mut second = Lexer::new(text);
    let a = first.collect_tokens();
    let b = second.collect_tokens();
    assert_eq!(kinds_and_texts(&a), kinds_and_texts(&b));
    let pa: Vec<(usize, usize)> = a.iter().map(|t| t.pos()).collect();
    let pb: Vec<(usize, usize)> = b.iter().map(|t| t.pos()).collect();
    assert_eq!(pa, pb);
    assert_eq!(first.status(), second.status());
    assert_eq!(
        *first.status(),
        LexerStatus::Error(LexerError::UnrecognizedStart { character: '$', line: 0, col: 22 })
    );
}

#[test]
fn empty_input_ends_at_once() {
    let mut lexer = Lexer::new("");
    assert_eq!(*lexer.status(), LexerStatus::Okay);
    assert!(lexer.next_token().is_none());
    assert_eq!(*lexer.status(), LexerStatus::EndOfStream);
}

#[test]
fn blank_input_ends_cleanly() {
    let mut lexer = Lexer::new(" \t\r\n  ");
    assert!(lexer.next_token().is_none());
    assert_eq!(*lexer.status(), LexerStatus::EndOfStream);
}

#[test]
fn run_at_end_of_input_is_a_token() {
    let mut lexer = Lexer::new("abc 42");
    let tokens = lexer.collect_tokens();
    assert_eq!(
        kinds_and_texts(&tokens),
        vec![kt(TokenType::Identifier, "abc"), kt(TokenType::NumericLiteral, "42")]
    );
    assert_eq!(*lexer.status(), LexerStatus::EndOfStream);
}

#[test]
fn runs_stop_at_other_classes() {
    let mut lexer = Lexer::new("ab12cd+7;");
    let tokens = lexer.collect_tokens();
    assert_eq!(
        kinds_and_texts(&tokens),
        vec![
            kt(TokenType::Identifier, "ab"),
            kt(TokenType::NumericLiteral, "12"),
            kt(TokenType::Identifier, "cd"),
            kt(TokenType::Operator, "+"),
            kt(TokenType::NumericLiteral, "7"),
            kt(TokenType::Semicolon, ";"),
        ]
    );
}

#[test]
fn every_operator_is_its_own_token() {
    let mut lexer = Lexer::new("+-*/==");
    let tokens = lexer.collect_tokens();
    let texts: Vec<&str> = tokens.iter().map(|t| t.text()).collect();
    assert_eq!(texts, vec!["+", "-", "*", "/", "=", "="]);
    assert!(tokens.iter().all(|t| t.token_type() == TokenType::Operator));
}

#[test]
fn unterminated_string_ends_the_input() {
    let mut lexer = Lexer::new("a = \"open");
    let tokens = lexer.collect_tokens();
    assert_eq!(tokens.len(), 2);
    assert_eq!(*lexer.status(), LexerStatus::EndOfStream);
}

#[test]
fn backslash_at_end_of_string_input() {
    let mut lexer = Lexer::new("\"ab\\");
    assert!(lexer.next_token().is_none());
    assert_eq!(*lexer.status(), LexerStatus::EndOfStream);
}

#[test]
fn escaped_quote_then_closing_quote() {
    let mut lexer = Lexer::new("\"\\\"\" x");
    let tokens = lexer.collect_tokens();
    assert_eq!(
        kinds_and_texts(&tokens),
        vec![kt(TokenType::StringLiteral, "\"\\\"\""), kt(TokenType::Identifier, "x")]
    );
    assert_eq!(tokens[1].pos(), (0, 5));
}

#[test]
fn invalid_escape_on_a_later_line() {
    let mut lexer = Lexer::new("a\n  \"x\\\\\"");
    let tokens = lexer.collect_tokens();
    assert_eq!(tokens.len(), 1);
    assert_eq!(
        *lexer.status(),
        LexerStatus::Error(LexerError::InvalidEscape { character: '\\', line: 1, col: 5 })
    );
}

#[test]
fn status_is_latched() {
    let mut lexer = Lexer::new("x @ y");
    assert_eq!(lexer.next_token().unwrap().text(), "x");
    assert_eq!(*lexer.status(), LexerStatus::Okay);
    assert!(lexer.next_token().is_none());
    let failed = *lexer.status();
    assert!(lexer.next_token().is_none());
    assert!(lexer.collect_tokens().is_empty());
    assert_eq!(*lexer.status(), failed);

    let mut done = Lexer::new("y");
    assert!(done.next_token().is_some());
    assert!(done.next_token().is_none());
    assert!(done.next_token().is_none());
    assert_eq!(*done.status(), LexerStatus::EndOfStream);
}

#[test]
fn non_ascii_outside_strings_is_unrecognized() {
    let mut lexer = Lexer::new("\"é\" é");
    let tokens = lexer.collect_tokens();
    assert_eq!(kinds_and_texts(&tokens), vec![kt(TokenType::StringLiteral, "\"é\"")]);
    assert_eq!(
        *lexer.status(),
        LexerStatus::Error(LexerError::UnrecognizedStart { character: 'é', line: 0, col: 4 })
    );
}

#[test]
fn error_messages() {
    let e = LexerError::UnrecognizedStart { character: '#', line: 0, col: 2 };
    assert_eq!(e.message(), "Unrecognized start character, '#'.");
    let e = LexerError::InvalidEscape { character: 'q', line: 0, col: 7 };
    assert_eq!(e.message(), "Invalid escape in string, \"\\q\".");
}

#[test]
fn escapes_and_any_characters_inside_literals_end_cleanly() {
    let text = "s = \"say \\\"hi\\\" #$!\";\nt = \"open";
    let mut lexer = Lexer::new(text);
    let mut calls = 0;
    while lexer.next_token().is_some() {
        calls += 1;
        assert!(!matches!(lexer.status(), LexerStatus::Error(_)));
    }
    assert_eq!(calls, 6);
    assert_eq!(*lexer.status(), LexerStatus::EndOfStream);
    assert!(calls + 1 <= text.chars().count() + 1);
}

#[test]
fn run_ending_the_input_leaves_scanning_active() {
    let mut lexer = Lexer::new("x = 42");
    assert_eq!(lexer.next_token().unwrap().text(), "x");
    assert_eq!(lexer.next_token().unwrap().text(), "=");
    let last = lexer.next_token().unwrap();
    assert_eq!(last.text(), "42");
    assert_eq!(last.pos(), (0, 4));
    assert_eq!(*lexer.status(), LexerStatus::Okay);
    assert!(lexer.next_token().is_none());
    assert_eq!(*lexer.status(), LexerStatus::EndOfStream);
}

#[test]
fn repeated_requests_agree_call_by_call() {
    let text = "for i { n = n + \"\\\"\" } ?";
    let mut a = Lexer::new(text);
    let mut b = Lexer::new(text);
    loop {
        let ta = a.next_token();
        let tb = b.next_token();
        match (ta, tb) {
            (Some(x), Some(y)) => {
                assert_eq!(x.token_type(), y.token_type());
                assert_eq!(x.text(), y.text());
                assert_eq!(x.pos(), y.pos());
            }
            (None, None) => break,
            _ => panic!("the two scanners disagree"),
        }
        assert_eq!(a.status(), b.status());
    }
    assert_eq!(a.status(), b.status());
    assert_eq!(
        *a.status(),
        LexerStatus::Error(LexerError::UnrecognizedStart { character: '?', line: 0, col: 23 })
    );
}

use rslox::lox::Lox;
use rslox::scanner::{ScanError, Scanner};
use rslox::token::{Token, TokenType};

fn scan(source: &str) -> Result<Vec<Token>, ScanError> {
    let mut scanner = Scanner::new(String::from(source));
    scanner.scan_tokens()
}

fn scan_ok(source: &str) -> Vec<Token> {
    scan(source).expect("scan should succeed")
}

#[test]
fn empty_source_gives_only_eof() {
    let tokens = scan_ok("");
    assert_eq!(tokens.len(), 1);
    assert_eq!(tokens[0].typ(), &TokenType::EOF);
    assert_eq!(tokens[0].lexeme(), "");
    assert_eq!(tokens[0].line(), 1);
}

#[test]
fn whitespace_and_comments_give_only_eof() {
    let tokens = scan_ok("  \t\r\n// a comment\n   // another");
    assert_eq!(tokens.len(), 1);
    assert_eq!(tokens[0].typ(), &TokenType::EOF);
    assert_eq!(tokens[0].line(), 3);
}

#[test]
fn comment_without_trailing_newline_never_hangs() {
    let tokens = scan_ok("1 // trailing comment");
    assert_eq!(tokens.len(), 2);
    assert_eq!(tokens[0].typ(), &TokenType::NUMBER(String::from("1")));
    assert_eq!(tokens[1].typ(), &TokenType::EOF);
}

#[test]
fn last_token_is_eof_and_lexemes_are_source_slices() {
    let source = "var answer = 42;";
    let tokens = scan_ok(source);
    assert_eq!(tokens[tokens.len() - 1].typ(), &TokenType::EOF);
    for token in tokens.iter().take(tokens.len() - 1) {
        assert!(!token.lexeme().is_empty());
        assert!(source.contains(token.lexeme()));
        assert_ne!(token.typ(), &TokenType::EOF);
    }
}

#[test]
fn round_trip_of_two_lexemes_with_a_space() {
    let first = scan_ok("123");
    let second = scan_ok("foo");
    let joined = scan_ok("123 foo");
    assert_eq!(joined.len(), 3);
    assert_eq!(joined[0].typ(), first[0].typ());
    assert_eq!(joined[0].lexeme(), first[0].lexeme());
    assert_eq!(joined[1].typ(), second[0].typ());
    assert_eq!(joined[1].lexeme(), second[0].lexeme());
    assert_eq!(joined[2].typ(), &TokenType::EOF);
}

#[test]
fn keyword_precedence_is_whole_word() {
    let tokens = scan_ok("classroom");
    assert_eq!(tokens.len(), 2);
    assert_eq!(
        tokens[0].typ(),
        &TokenType::IDENTIFIER(String::from("classroom"))
    );
    assert_eq!(tokens[0].lexeme(), "classroom");
    assert_eq!(tokens[1].typ(), &TokenType::EOF);
}

#[test]
fn forever_is_an_identifier_not_for() {
    let tokens = scan_ok("forever");
    assert_eq!(
        tokens[0].typ(),
        &TokenType::IDENTIFIER(String::from("forever"))
    );
}

#[test]
fn every_reserved_word_gets_its_own_category() {
    let cases: Vec<(&str, TokenType)> = vec![
        ("and", TokenType::AND),
        ("class", TokenType::CLASS),
        ("else", TokenType::ELSE),
        ("false", TokenType::FALSE),
        ("fun", TokenType::FUN),
        ("for", TokenType::FOR),
        ("if", TokenType::IF),
        ("nil", TokenType::NIL),
        ("or", TokenType::OR),
        ("print", TokenType::PRINT),
        ("return", TokenType::RETURN),
        ("super", TokenType::SUPER),
        ("this", TokenType::THIS),
        ("true", TokenType::TRUE),
        ("var", TokenType::VAR),
        ("while", TokenType::WHILE),
    ];
    for (word, expected) in cases {
        let tokens = scan_ok(word);
        assert_eq!(tokens.len(), 2);
        assert_eq!(tokens[0].typ(), &expected);
        assert_eq!(tokens[0].lexeme(), word);
    }
}

#[test]
fn underscore_starts_an_identifier() {
    let tokens = scan_ok("_private_1");
    assert_eq!(
        tokens[0].typ(),
        &TokenType::IDENTIFIER(String::from("_private_1"))
    );
}

#[test]
fn number_with_trailing_dot_leaves_the_dot() {
    let tokens = scan_ok("123.");
    assert_eq!(tokens.len(), 3);
    assert_eq!(tokens[0].typ(), &TokenType::NUMBER(String::from("123")));
    assert_eq!(tokens[0].lexeme(), "123");
    assert_eq!(tokens[0].lexeme().parse::<f64>().unwrap(), 123.0);
    assert_eq!(tokens[1].typ(), &TokenType::DOT);
    assert_eq!(tokens[2].typ(), &TokenType::EOF);
}

#[test]
fn number_with_fraction_is_one_token() {
    let tokens = scan_ok("3.14");
    assert_eq!(tokens.len(), 2);
    assert_eq!(tokens[0].typ(), &TokenType::NUMBER(String::from("3.14")));
    assert_eq!(tokens[0].lexeme().parse::<f64>().unwrap(), 3.14);
}

#[test]
fn second_dot_is_not_swallowed() {
    let tokens = scan_ok("123.45.6");
    assert_eq!(tokens.len(), 4);
    assert_eq!(tokens[0].typ(), &TokenType::NUMBER(String::from("123.45")));
    assert_eq!(tokens[1].typ(), &TokenType::DOT);
    assert_eq!(tokens[2].typ(), &TokenType::NUMBER(String::from("6")));
}

#[test]
fn string_spanning_lines_keeps_payload_and_counts_lines() {
    let tokens = scan_ok("\"a\nb\"");
    assert_eq!(tokens.len(), 2);
    assert_eq!(tokens[0].typ(), &TokenType::STRING(String::from("a\nb")));
    assert_eq!(tokens[0].lexeme(), "\"a\nb\"");
    assert_eq!(tokens[0].line(), 1);
    assert_eq!(tokens[1].typ(), &TokenType::EOF);
    assert_eq!(tokens[1].line(), 2);
}

#[test]
fn string_payload_drops_the_quotes() {
    let tokens = scan_ok("\"hello world\"");
    assert_eq!(
        tokens[0].typ(),
        &TokenType::STRING(String::from("hello world"))
    );
    assert_eq!(tokens[0].lexeme(), "\"hello world\"");
}

#[test]
fn bang_equal_is_one_token() {
    let tokens = scan_ok("!=");
    assert_eq!(tokens.len(), 2);
    assert_eq!(tokens[0].typ(), &TokenType::BANG_EQUAL);
    assert_eq!(tokens[0].lexeme(), "!=");
}

#[test]
fn bang_at_end_of_input_is_bang() {
    let tokens = scan_ok("!");
    assert_eq!(tokens.len(), 2);
    assert_eq!(tokens[0].typ(), &TokenType::BANG);
}

#[test]
fn all_two_character_operators_are_greedy() {
    let tokens = scan_ok("== != <= >=");
    assert_eq!(tokens.len(), 5);
    assert_eq!(tokens[0].typ(), &TokenType::EQUAL_EQUAL);
    assert_eq!(tokens[1].typ(), &TokenType::BANG_EQUAL);
    assert_eq!(tokens[2].typ(), &TokenType::LESS_EQUAL);
    assert_eq!(tokens[3].typ(), &TokenType::GREATER_EQUAL);
}

#[test]
fn single_character_operators_before_non_equal() {
    let tokens = scan_ok("=1 <2 >3");
    assert_eq!(tokens[0].typ(), &TokenType::EQUAL);
    assert_eq!(tokens[2].typ(), &TokenType::LESS);
    assert_eq!(tokens[4].typ(), &TokenType::GREATER);
}

#[test]
fn punctuation_maps_directly() {
    let tokens = scan_ok("(){},.-+;*/");
    let expected = vec![
        TokenType::LEFT_PAREN,
        TokenType::RIGHT_PAREN,
        TokenType::LEFT_BRACE,
        TokenType::RIGHT_BRACE,
        TokenType::COMMA,
        TokenType::DOT,
        TokenType::MINUS,
        TokenType::PLUS,
        TokenType::SEMICOLON,
        TokenType::STAR,
        TokenType::SLASH,
        TokenType::EOF,
    ];
    assert_eq!(tokens.len(), expected.len());
    for (token, want) in tokens.iter().zip(expected.iter()) {
        assert_eq!(token.typ(), want);
    }
}

#[test]
fn unterminated_string_is_an_error() {
    let result = scan("\"unterminated");
    assert_eq!(result, Err(ScanError::UnterminatedString { line: 1 }));
}

#[test]
fn unterminated_string_reports_line_reached() {
    let result = scan("\"a\nb\nc");
    assert_eq!(result, Err(ScanError::UnterminatedString { line: 3 }));
}

#[test]
fn unrecognized_character_is_an_error_with_its_line() {
    let result = scan("@");
    assert_eq!(
        result,
        Err(ScanError::UnrecognizedCharacter { line: 1, ch: '@' })
    );
    let result = scan("1\n2\n@");
    assert_eq!(
        result,
        Err(ScanError::UnrecognizedCharacter { line: 3, ch: '@' })
    );
}

#[test]
fn error_stops_the_scan_with_no_partial_list() {
    let result = scan("var x @ y");
    assert!(matches!(
        result,
        Err(ScanError::UnrecognizedCharacter { line: 1, ch: '@' })
    ));
}

#[test]
fn scan_error_line_getter() {
    let err = scan("@").unwrap_err();
    assert_eq!(err.line(), 1);
    let err = scan("\n\n\"oops").unwrap_err();
    assert_eq!(err.line(), 3);
}

#[test]
fn line_numbers_follow_newlines() {
    let tokens = scan_ok("1\n2\n3");
    assert_eq!(tokens.len(), 4);
    assert_eq!(tokens[0].typ(), &TokenType::NUMBER(String::from("1")));
    assert_eq!(tokens[0].line(), 1);
    assert_eq!(tokens[1].line(), 2);
    assert_eq!(tokens[2].line(), 3);
    assert_eq!(tokens[3].typ(), &TokenType::EOF);
    assert_eq!(tokens[3].line(), 3);
}

#[test]
fn comments_and_code_mix() {
    let tokens = scan_ok("var x = 1; // set x\nprint x;");
    let expected = vec![
        TokenType::VAR,
        TokenType::IDENTIFIER(String::from("x")),
        TokenType::EQUAL,
        TokenType::NUMBER(String::from("1")),
        TokenType::SEMICOLON,
        TokenType::PRINT,
        TokenType::IDENTIFIER(String::from("x")),
        TokenType::SEMICOLON,
        TokenType::EOF,
    ];
    assert_eq!(tokens.len(), expected.len());
    for (token, want) in tokens.iter().zip(expected.iter()) {
        assert_eq!(token.typ(), want);
    }
    assert_eq!(tokens[5].line(), 2);
}

#[test]
fn token_new_keeps_its_fields() {
    let token = Token::new(TokenType::PLUS, String::from("+"), 7);
    assert_eq!(token.typ(), &TokenType::PLUS);
    assert_eq!(token.lexeme(), "+");
    assert_eq!(token.line(), 7);
}

#[test]
fn lox_records_errors() {
    let mut lox = Lox::new();
    assert!(!lox.had_error);
    lox.error(3, String::from("something went wrong"));
    assert!(lox.had_error);
}

#[test]
fn fresh_lox_has_clear_flag() {
    let lox = Lox::new();
    assert!(!lox.had_error);
}

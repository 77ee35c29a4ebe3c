use lexer::grammar::Run;
use lexer::scanner::{continues, is_alpha, is_alpha_numeric, is_digit};
use lexer::scanner::{keyword_or_identifier, same_text, Scanner};
use lexer::token::{LexError, Literal, Token, TokenType};

#[test]
fn new_scanner_is_at_the_beginning() {
    let scanner = Scanner::new("ab");
    assert!(!scanner.is_at_end());
    assert_eq!(scanner.peek(), 'a');
    assert_eq!(scanner.peek_next(), 'b');
    assert_eq!(scanner.pick_lexeme(), "");
}

#[test]
fn new_scanner_on_empty_text_is_at_the_end() {
    let mut scanner = Scanner::new("");
    assert!(scanner.is_at_end());
    assert_eq!(scanner.peek(), '\0');
    assert_eq!(scanner.peek_next(), '\0');
    assert_eq!(scanner.advance(), None);
    assert!(!scanner.compare_next('a'));
    assert_eq!(scanner.pick_lexeme(), "");
}

#[test]
fn advance_consumes_one_character_at_a_time() {
    let mut scanner = Scanner::new("a=1");
    assert_eq!(scanner.advance(), Some('a'));
    assert_eq!(scanner.pick_lexeme(), "a");
    assert_eq!(scanner.advance(), Some('='));
    assert_eq!(scanner.peek(), '1');
    assert_eq!(scanner.peek_next(), '\0');
    assert!(!scanner.is_at_end());
    assert_eq!(scanner.advance(), Some('1'));
    assert!(scanner.is_at_end());
    assert_eq!(scanner.pick_lexeme(), "a=1");
    assert_eq!(scanner.advance(), None);
    assert_eq!(scanner.advance(), None);
    assert_eq!(scanner.pick_lexeme(), "a=1");
}

#[test]
fn advance_steps_over_whole_characters() {
    let mut scanner = Scanner::new("é世🦀x");
    assert_eq!(scanner.peek(), 'é');
    assert_eq!(scanner.peek_next(), '世');
    assert_eq!(scanner.advance(), Some('é'));
    assert_eq!(scanner.pick_lexeme(), "é");
    assert_eq!(scanner.peek(), '世');
    assert_eq!(scanner.peek_next(), '🦀');
    assert_eq!(scanner.advance(), Some('世'));
    assert_eq!(scanner.advance(), Some('🦀'));
    assert_eq!(scanner.pick_lexeme(), "é世🦀");
    assert_eq!(scanner.peek(), 'x');
    assert_eq!(scanner.advance(), Some('x'));
    assert!(scanner.is_at_end());
}

#[test]
fn peek_does_not_move() {
    let scanner = Scanner::new("xy");
    assert_eq!(scanner.peek(), 'x');
    assert_eq!(scanner.peek(), 'x');
    assert_eq!(scanner.peek_next(), 'y');
    assert_eq!(scanner.peek(), 'x');
    assert_eq!(scanner.pick_lexeme(), "");
}

#[test]
fn compare_next_consumes_only_a_match() {
    let mut scanner = Scanner::new("=!");
    assert!(!scanner.compare_next('!'));
    assert_eq!(scanner.peek(), '=');
    assert!(scanner.compare_next('='));
    assert_eq!(scanner.peek(), '!');
    assert_eq!(scanner.pick_lexeme(), "=");
    assert!(scanner.compare_next('!'));
    assert!(scanner.is_at_end());
    assert!(!scanner.compare_next('!'));
}

#[test]
fn add_token_takes_the_lexeme_and_the_line_of_its_start() {
    let mut scanner = Scanner::new("+\n-");
    scanner.advance();
    scanner.add_token(TokenType::Plus, None);
    scanner.advance();
    scanner.add_token(TokenType::Identifier, Some(Literal::Str("x")));
    let tokens = scanner.scan_tokens().unwrap();
    assert_eq!(
        tokens,
        vec![
            Token { kind: TokenType::Plus, lexeme: "+", literal: None, line: 1 },
            Token {
                kind: TokenType::Identifier,
                lexeme: "+\n",
                literal: Some(Literal::Str("x")),
                line: 1
            },
            Token { kind: TokenType::Minus, lexeme: "-", literal: None, line: 2 },
            Token { kind: TokenType::EOF, lexeme: "", literal: None, line: 2 },
        ]
    );
}

#[test]
fn scan_tokens_goes_on_from_the_cursor() {
    let mut scanner = Scanner::new("@ 1");
    assert_eq!(scanner.advance(), Some('@'));
    let tokens = scanner.scan_tokens().unwrap();
    assert_eq!(
        tokens,
        vec![
            Token {
                kind: TokenType::Number,
                lexeme: "1",
                literal: Some(Literal::Number("1")),
                line: 1
            },
            Token { kind: TokenType::EOF, lexeme: "", literal: None, line: 1 },
        ]
    );
}

#[test]
fn consume_run_stops_at_the_first_byte_outside_the_run() {
    let mut scanner = Scanner::new("123abc_9 x");
    scanner.consume_run(Run::Digits);
    assert_eq!(scanner.pick_lexeme(), "123");
    scanner.consume_run(Run::Digits);
    assert_eq!(scanner.pick_lexeme(), "123");
    scanner.consume_run(Run::Word);
    assert_eq!(scanner.pick_lexeme(), "123abc_9");
    assert_eq!(scanner.peek(), ' ');

    let mut scanner = Scanner::new("a é\"b\nc");
    scanner.consume_run(Run::Quoted);
    assert_eq!(scanner.pick_lexeme(), "a é");
    scanner.consume_run(Run::Comment);
    assert_eq!(scanner.pick_lexeme(), "a é\"b");
    assert_eq!(scanner.peek(), '\n');
    scanner.advance();
    scanner.consume_run(Run::Comment);
    assert!(scanner.is_at_end());
    assert_eq!(scanner.pick_lexeme(), "a é\"b\nc");
}

#[test]
fn number_finishes_a_number_that_was_begun() {
    let mut scanner = Scanner::new("12.50.x");
    assert_eq!(scanner.advance(), Some('1'));
    scanner.number();
    assert_eq!(scanner.pick_lexeme(), "12.50");
    assert_eq!(scanner.peek(), '.');
    let tokens = scanner.scan_tokens().unwrap();
    assert_eq!(
        tokens[0],
        Token {
            kind: TokenType::Number,
            lexeme: "12.50",
            literal: Some(Literal::Number("12.50")),
            line: 1
        }
    );
    assert_eq!(tokens.len(), 4);
}

#[test]
fn number_leaves_a_dot_that_no_digit_follows() {
    let mut scanner = Scanner::new("4.");
    scanner.advance();
    scanner.number();
    assert_eq!(scanner.pick_lexeme(), "4");
    assert_eq!(scanner.peek(), '.');
}

#[test]
fn string_finishes_a_string_that_was_begun() {
    let mut scanner = Scanner::new("\"a\nb\"c");
    assert_eq!(scanner.advance(), Some('"'));
    assert_eq!(scanner.string(), Ok(()));
    assert_eq!(scanner.pick_lexeme(), "\"a\nb\"");
    assert_eq!(scanner.peek(), 'c');
    let tokens = scanner.scan_tokens().unwrap();
    assert_eq!(
        tokens,
        vec![
            Token {
                kind: TokenType::String,
                lexeme: "\"a\nb\"",
                literal: Some(Literal::Str("a\nb")),
                line: 1
            },
            Token { kind: TokenType::Identifier, lexeme: "c", literal: None, line: 2 },
            Token { kind: TokenType::EOF, lexeme: "", literal: None, line: 2 },
        ]
    );
}

#[test]
fn string_without_its_end_is_an_error() {
    let mut scanner = Scanner::new("\"a\nb");
    scanner.advance();
    assert_eq!(scanner.string(), Err(LexError::UnterminatedString { line: 1 }));
    assert!(scanner.is_at_end());
}

#[test]
fn identifier_finishes_a_word_that_was_begun() {
    let mut scanner = Scanner::new("return_ x");
    scanner.advance();
    scanner.identifier();
    assert_eq!(scanner.pick_lexeme(), "return_");
    let tokens = scanner.scan_tokens().unwrap();
    assert_eq!(tokens[0].kind, TokenType::Identifier);
    assert_eq!(tokens[0].lexeme, "return_");

    let mut scanner = Scanner::new("return;");
    scanner.advance();
    scanner.advance();
    scanner.identifier();
    let tokens = scanner.scan_tokens().unwrap();
    assert_eq!(
        tokens[0],
        Token { kind: TokenType::Return, lexeme: "return", literal: None, line: 1 }
    );
    assert_eq!(tokens[1].kind, TokenType::Semicolon);
}

#[test]
fn scan_token_scans_one_lexeme() {
    let mut scanner = Scanner::new("<=1");
    assert_eq!(scanner.scan_token(), Ok(()));
    assert_eq!(scanner.pick_lexeme(), "<=");
    assert_eq!(scanner.peek(), '1');

    let mut scanner = Scanner::new("// c\n1");
    assert_eq!(scanner.scan_token(), Ok(()));
    assert_eq!(scanner.pick_lexeme(), "// c");
    assert_eq!(scanner.peek(), '\n');

    let mut scanner = Scanner::new("\n1");
    assert_eq!(scanner.scan_token(), Ok(()));
    assert_eq!(scanner.pick_lexeme(), "\n");

    let mut scanner = Scanner::new("$");
    assert_eq!(
        scanner.scan_token(),
        Err(LexError::UnexpectedCharacter { char: '$', line: 1 })
    );

    let mut scanner = Scanner::new("\"x");
    assert_eq!(scanner.scan_token(), Err(LexError::UnterminatedString { line: 1 }));
}

#[test]
fn character_classes() {
    for c in ['0', '5', '9'] {
        assert!(is_digit(c) && !is_alpha(c) && is_alpha_numeric(c));
    }
    for c in ['a', 'm', 'z', 'A', 'Q', 'Z', '_'] {
        assert!(!is_digit(c) && is_alpha(c) && is_alpha_numeric(c));
    }
    for c in ['/', ':', '@', '[', '`', '{', ' ', '\0', 'é', '٣', 'Ω', '-'] {
        assert!(!is_digit(c) && !is_alpha(c) && !is_alpha_numeric(c));
    }
}

#[test]
fn runs_and_the_characters_they_go_on_over() {
    assert!(continues(Run::Digits, '7'));
    assert!(!continues(Run::Digits, 'a'));
    assert!(!continues(Run::Digits, '.'));
    assert!(continues(Run::Word, 'a'));
    assert!(continues(Run::Word, '7'));
    assert!(continues(Run::Word, '_'));
    assert!(!continues(Run::Word, '-'));
    assert!(!continues(Run::Word, 'é'));
    assert!(continues(Run::Comment, '"'));
    assert!(continues(Run::Comment, 'é'));
    assert!(!continues(Run::Comment, '\n'));
    assert!(continues(Run::Quoted, '\n'));
    assert!(continues(Run::Quoted, '世'));
    assert!(!continues(Run::Quoted, '"'));
}

#[test]
fn same_text_compares_byte_for_byte() {
    assert!(same_text("", ""));
    assert!(same_text("while", "while"));
    assert!(same_text("é世", "é世"));
    assert!(!same_text("while", "whale"));
    assert!(!same_text("for", "fort"));
    assert!(!same_text("fort", "for"));
    assert!(!same_text("", "a"));
    assert!(!same_text("And", "and"));
}

#[test]
fn keyword_lookup() {
    assert_eq!(keyword_or_identifier("and"), TokenType::And);
    assert_eq!(keyword_or_identifier("class"), TokenType::Class);
    assert_eq!(keyword_or_identifier("else"), TokenType::Else);
    assert_eq!(keyword_or_identifier("false"), TokenType::False);
    assert_eq!(keyword_or_identifier("fun"), TokenType::Fun);
    assert_eq!(keyword_or_identifier("for"), TokenType::For);
    assert_eq!(keyword_or_identifier("if"), TokenType::If);
    assert_eq!(keyword_or_identifier("nil"), TokenType::Nil);
    assert_eq!(keyword_or_identifier("or"), TokenType::Or);
    assert_eq!(keyword_or_identifier("print"), TokenType::Print);
    assert_eq!(keyword_or_identifier("return"), TokenType::Return);
    assert_eq!(keyword_or_identifier("super"), TokenType::Super);
    assert_eq!(keyword_or_identifier("this"), TokenType::This);
    assert_eq!(keyword_or_identifier("true"), TokenType::True);
    assert_eq!(keyword_or_identifier("var"), TokenType::Var);
    assert_eq!(keyword_or_identifier("while"), TokenType::While);
    assert_eq!(keyword_or_identifier("classroom"), TokenType::Identifier);
    assert_eq!(keyword_or_identifier("clas"), TokenType::Identifier);
    assert_eq!(keyword_or_identifier("Class"), TokenType::Identifier);
    assert_eq!(keyword_or_identifier("x"), TokenType::Identifier);
    assert_eq!(keyword_or_identifier(""), TokenType::Identifier);
}

use lox::errors::CompileError;
use lox::scanner::Scanner;
use lox::token::{Literal, Token, TokenType};

fn scan(source: &str) -> Result<Vec<Token>, Vec<CompileError>> {
    Scanner::new(source).scan_tokens()
}

#[test]
fn whitespace_only_gives_end_marker() {
    let tokens = scan("  \t\r\n ").unwrap();
    assert_eq!(tokens.len(), 1);
    assert_eq!(tokens[0]._type, TokenType::Eof);
    assert_eq!(tokens[0].lexeme, "");
    assert_eq!(tokens[0].place, (6, 6));
}

#[test]
fn empty_source_gives_end_marker() {
    let tokens = scan("").unwrap();
    assert_eq!(tokens.len(), 1);
    assert_eq!(tokens[0].place, (0, 0));
}

#[test]
fn unterminated_string_is_one_error_to_the_end() {
    let errors = scan("print \"abc").unwrap_err();
    assert_eq!(errors.len(), 1);
    match &errors[0] {
        CompileError::Scanner(span, msg) => {
            assert_eq!(*span, (6, 10));
            assert_eq!(msg, "Unterminated string");
        }
        other => panic!("expected a scanner error, got {:?}", other),
    }
}

#[test]
fn trailing_dot_is_not_part_of_number() {
    let tokens = scan("12.").unwrap();
    assert_eq!(tokens.len(), 3);
    assert_eq!(tokens[0]._type, TokenType::Number);
    assert_eq!(tokens[0].lexeme, "12");
    assert_eq!(tokens[0].literal, Literal::Num(12));
    assert_eq!(tokens[1]._type, TokenType::Dot);
    assert_eq!(tokens[1].place, (2, 3));
    assert_eq!(tokens[2]._type, TokenType::Eof);
}

#[test]
fn lexemes_are_source_slices() {
    let source = "var é = \"ü\" != 10.0; // x";
    let tokens = scan(source).unwrap();
    for t in &tokens {
        assert_eq!(&source[t.place.0..t.place.1], t.lexeme);
    }
    assert_eq!(tokens[1].lexeme, "é");
    assert_eq!(tokens[1].place, (4, 6));
    assert_eq!(tokens[3]._type, TokenType::String);
    assert_eq!(tokens[3].lexeme, "\"ü\"");
    assert_eq!(tokens[3].literal, Literal::Str("ü".to_string()));
    assert_eq!(tokens[4]._type, TokenType::BangEqual);
    assert_eq!(tokens[5].literal, Literal::Num(10));
    assert_eq!(tokens[5].lexeme, "10.0");
    assert_eq!(tokens.last().unwrap().place, (source.len(), source.len()));
}

#[test]
fn operators_take_the_longer_form() {
    let kinds: Vec<TokenType> = scan("! != = == < <= > >= / * - + ( ) { } , . ;")
        .unwrap()
        .iter()
        .map(|t| t._type)
        .collect();
    assert_eq!(
        kinds,
        vec![
            TokenType::Bang,
            TokenType::BangEqual,
            TokenType::Equal,
            TokenType::EqualEqual,
            TokenType::Less,
            TokenType::LessEqual,
            TokenType::Greater,
            TokenType::GreaterEqual,
            TokenType::Slash,
            TokenType::Star,
            TokenType::Minus,
            TokenType::Plus,
            TokenType::LeftParen,
            TokenType::RightParen,
            TokenType::LeftBrace,
            TokenType::RightBrace,
            TokenType::Comma,
            TokenType::Dot,
            TokenType::Semicolon,
            TokenType::Eof,
        ]
    );
}

#[test]
fn keywords_are_recognised() {
    let kinds: Vec<TokenType> = scan("if else and or false true for while var nil fn class super this print return iffy")
        .unwrap()
        .iter()
        .map(|t| t._type)
        .collect();
    assert_eq!(
        kinds,
        vec![
            TokenType::If,
            TokenType::Else,
            TokenType::And,
            TokenType::Or,
            TokenType::False,
            TokenType::True,
            TokenType::For,
            TokenType::While,
            TokenType::Var,
            TokenType::Nil,
            TokenType::Fn,
            TokenType::Class,
            TokenType::Super,
            TokenType::This,
            TokenType::Print,
            TokenType::Return,
            TokenType::Identifier,
            TokenType::Eof,
        ]
    );
}

#[test]
fn identifiers_stop_at_non_alphanumerics() {
    let tokens = scan("abc1 x2y").unwrap();
    assert_eq!(tokens[0].lexeme, "abc1");
    assert_eq!(tokens[1].lexeme, "x2y");
    assert!(scan("a_b").is_err());
}

#[test]
fn comment_runs_to_end_of_line() {
    let tokens = scan("// all of this\n+").unwrap();
    assert_eq!(tokens.len(), 2);
    assert_eq!(tokens[0]._type, TokenType::Plus);
    assert_eq!(tokens[0].place, (15, 16));
}

#[test]
fn number_too_large_is_an_error() {
    let errors = scan("99999999999999999999").unwrap_err();
    assert_eq!(errors.len(), 1);
}

#[test]
fn advance_and_peek_walk_the_characters() {
    let mut s = Scanner::new("aé");
    assert_eq!(s.peek(), Some('a'));
    assert_eq!(s.advance(), Some('a'));
    assert_eq!(s.peek(), Some('é'));
    assert_eq!(s.advance(), Some('é'));
    assert_eq!(s.peek(), None);
    assert_eq!(s.advance(), None);
}

#[test]
fn stray_characters_are_all_reported_in_order() {
    let errors = scan("1 @ 2 #").unwrap_err();
    assert_eq!(errors.len(), 2);
    match (&errors[0], &errors[1]) {
        (CompileError::Scanner(a, ma), CompileError::Scanner(b, mb)) => {
            assert_eq!((*a, ma.as_str()), ((2, 3), "Unexpected char: @"));
            assert_eq!((*b, mb.as_str()), ((6, 7), "Unexpected char: #"));
        }
        other => panic!("unexpected {:?}", other),
    }
}

#[test]
fn comment_fixes_the_next_span() {
    let tokens = scan("1 // note\n2").unwrap();
    assert_eq!(tokens.len(), 3);
    assert_eq!(tokens[1]._type, TokenType::Number);
    assert_eq!(tokens[1].place, (10, 11));
}

//! Scanner behavior: classification, whitespace and comment handling,
//! and the lexical error cases.

use teeny::error::CompileError;
use teeny::lex::{Lexer, Token, TokenType};

fn tokens_of(src: &str) -> Vec<Token> {
    let mut lexer = Lexer::new(src.to_string());
    let mut out = Vec::new();
    loop {
        let tok = lexer.get_token().expect("lexical error");
        let done = tok.kind == TokenType::EOF;
        out.push(tok);
        if done {
            return out;
        }
    }
}

fn kinds_of(src: &str) -> Vec<TokenType> {
    tokens_of(src).into_iter().map(|t| t.kind).collect()
}

#[test]
fn scans_single_character_operators() {
    let kinds = kinds_of("+ - * /");
    assert_eq!(
        kinds,
        vec![
            TokenType::PLUS,
            TokenType::MINUS,
            TokenType::ASTERISK,
            TokenType::SLASH,
            TokenType::NEWLINE,
            TokenType::EOF,
        ]
    );
}

#[test]
fn scans_two_character_operators_longest_match() {
    let toks = tokens_of("= == < <= > >= !=");
    let expected = vec![
        ("=", TokenType::EQ),
        ("==", TokenType::EQEQ),
        ("<", TokenType::LT),
        ("<=", TokenType::LTEQ),
        (">", TokenType::GT),
        (">=", TokenType::GTEQ),
        ("!=", TokenType::NOTEQ),
        ("\n", TokenType::NEWLINE),
        ("\0", TokenType::EOF),
    ];
    assert_eq!(toks.len(), expected.len());
    for (tok, (text, kind)) in toks.iter().zip(expected.iter()) {
        assert_eq!(tok.text, *text);
        assert_eq!(tok.kind, *kind);
    }
}

#[test]
fn scans_keywords_and_identifiers() {
    let toks = tokens_of("WHILE WHILEX while x1y2");
    assert_eq!(toks[0].kind, TokenType::WHILE);
    assert_eq!(toks[1].kind, TokenType::IDENT);
    assert_eq!(toks[1].text, "WHILEX");
    assert_eq!(toks[2].kind, TokenType::IDENT);
    assert_eq!(toks[2].text, "while");
    assert_eq!(toks[3].kind, TokenType::IDENT);
    assert_eq!(toks[3].text, "x1y2");
}

#[test]
fn scans_every_keyword() {
    let kinds = kinds_of("LABEL GOTO PRINT INPUT LET IF THEN ENDIF WHILE REPEAT ENDWHILE");
    assert_eq!(
        kinds[..11],
        [
            TokenType::LABEL,
            TokenType::GOTO,
            TokenType::PRINT,
            TokenType::INPUT,
            TokenType::LET,
            TokenType::IF,
            TokenType::THEN,
            TokenType::ENDIF,
            TokenType::WHILE,
            TokenType::REPEAT,
            TokenType::ENDWHILE,
        ]
    );
}

#[test]
fn scans_numbers_with_and_without_decimals() {
    let toks = tokens_of("123 9.8654 0.1");
    assert_eq!(toks[0].kind, TokenType::NUMBER);
    assert_eq!(toks[0].text, "123");
    assert_eq!(toks[1].kind, TokenType::NUMBER);
    assert_eq!(toks[1].text, "9.8654");
    assert_eq!(toks[2].kind, TokenType::NUMBER);
    assert_eq!(toks[2].text, "0.1");
}

#[test]
fn scans_string_literal_without_quotes_in_text() {
    let toks = tokens_of("\"hello, world\"");
    assert_eq!(toks[0].kind, TokenType::STRING);
    assert_eq!(toks[0].text, "hello, world");
}

#[test]
fn skips_whitespace_but_not_newline() {
    let kinds = kinds_of(" \t\r+\n+");
    assert_eq!(
        kinds,
        vec![
            TokenType::PLUS,
            TokenType::NEWLINE,
            TokenType::PLUS,
            TokenType::NEWLINE,
            TokenType::EOF,
        ]
    );
}

#[test]
fn skips_comment_to_end_of_line() {
    let kinds = kinds_of("+ # a comment with = and \" inside\n- # trailing");
    assert_eq!(
        kinds,
        vec![
            TokenType::PLUS,
            TokenType::NEWLINE,
            TokenType::MINUS,
            TokenType::NEWLINE,
            TokenType::EOF,
        ]
    );
}

#[test]
fn keeps_returning_eof_after_the_end() {
    let mut lexer = Lexer::new("+".to_string());
    loop {
        if lexer.get_token().unwrap().kind == TokenType::EOF {
            break;
        }
    }
    for _ in 0..3 {
        assert_eq!(lexer.get_token().unwrap().kind, TokenType::EOF);
    }
}

#[test]
fn rejects_lone_bang() {
    let mut lexer = Lexer::new("!a".to_string());
    let err = lexer.get_token().unwrap_err();
    assert!(matches!(err, CompileError::LexExpectedNotEq('a')));
}

#[test]
fn rejects_illegal_character_in_string() {
    let mut lexer = Lexer::new("\"ab%cd\"".to_string());
    let err = lexer.get_token().unwrap_err();
    assert!(matches!(err, CompileError::LexIllegalStringChar('%')));
}

#[test]
fn rejects_unterminated_string_at_line_end() {
    // The appended newline terminates the line and newlines are illegal
    // inside a literal, so an unterminated string cannot run away.
    let mut lexer = Lexer::new("\"abc".to_string());
    let err = lexer.get_token().unwrap_err();
    assert!(matches!(err, CompileError::LexIllegalStringChar('\n')));
}

#[test]
fn rejects_decimal_point_without_digits() {
    let mut lexer = Lexer::new("12.x".to_string());
    let err = lexer.get_token().unwrap_err();
    assert!(matches!(err, CompileError::LexMalformedNumber));
}

#[test]
fn rejects_unknown_character() {
    let mut lexer = Lexer::new("$".to_string());
    let err = lexer.get_token().unwrap_err();
    assert!(matches!(err, CompileError::LexUnknownChar('$')));
}

#[test]
fn token_texts_cover_the_source() {
    // Concatenating the token texts and re-inserting the consumed
    // whitespace and comments restores the source; here the source has
    // no comments and single spaces, so the reconstruction is direct.
    let src = "LET a = 5";
    let toks = tokens_of(src);
    let mut rebuilt = String::new();
    for tok in &toks {
        if tok.kind == TokenType::EOF {
            break;
        }
        if !rebuilt.is_empty() && tok.kind != TokenType::NEWLINE {
            rebuilt.push(' ');
        }
        rebuilt.push_str(&tok.text);
    }
    // The scanner appends one newline to the logical source.
    assert_eq!(rebuilt, format!("{}\n", src));
}

#[test]
fn peek_and_next_char_walk_the_source() {
    let mut lexer = Lexer::new("ab".to_string());
    assert_eq!(lexer.peek(), 'b');
    lexer.next_char();
    assert_eq!(lexer.peek(), '\n');
    lexer.next_char();
    assert_eq!(lexer.peek(), '\0');
}

#[test]
fn scans_decimal_in_expression_context() {
    let toks = tokens_of("1.5+2");
    assert_eq!(toks[0].kind, TokenType::NUMBER);
    assert_eq!(toks[0].text, "1.5");
    assert_eq!(toks[1].kind, TokenType::PLUS);
    assert_eq!(toks[2].kind, TokenType::NUMBER);
    assert_eq!(toks[2].text, "2");
}

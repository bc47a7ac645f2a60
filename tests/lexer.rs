use ducky::lexer::{lex, Lexeme, Lexer, SyntaxKind};

fn check(input: &str, kind: SyntaxKind) {
    let mut lexer = Lexer::new(input);
    assert_eq!(lexer.next(), Some(Lexeme { kind, text: input }));
}

#[test]
fn lex_spaces() {
    check("   ", SyntaxKind::Whitespace);
}

#[test]
fn lex_fn_keyword() {
    check("fn", SyntaxKind::FnKw);
}

#[test]
fn lex_indent() {
    check("abc", SyntaxKind::Ident);
    check("abc1231", SyntaxKind::Ident);
}

#[test]
fn lex_number() {
    check("123", SyntaxKind::Number);
}

#[test]
fn lex_op() {
    check("+", SyntaxKind::Plus);
    check("-", SyntaxKind::Minus);
    check("*", SyntaxKind::Star);
    check("/", SyntaxKind::Slash);
    check("=", SyntaxKind::Equals);
    check("{", SyntaxKind::LBrace);
    check("}", SyntaxKind::RBrace);
}

#[test]
fn lex_left_parenthesis() {
    check("(", SyntaxKind::LParen);
}

#[test]
fn lex_right_parenthesis() {
    check(")", SyntaxKind::RParen);
}

#[test]
fn lex_comment() {
    check("# foo", SyntaxKind::Comment);
}

#[test]
fn lex_spaces_and_newlines() {
    check("  \n ", SyntaxKind::Whitespace);
}

#[test]
fn lex_let_keyword_and_longer_words() {
    check("let", SyntaxKind::LetKw);
    check("letter", SyntaxKind::Ident);
    check("fnx", SyntaxKind::Ident);
}

#[test]
fn lex_unknown_character_is_an_error_token() {
    check("?", SyntaxKind::Error);
    check("\t", SyntaxKind::Error);
}

#[test]
fn lex_whole_line() {
    let lexemes = lex("let x1 = 12# note\n+y");
    let got: Vec<(SyntaxKind, &str)> = lexemes.iter().map(|l| (l.kind, l.text)).collect();
    assert_eq!(
        got,
        vec![
            (SyntaxKind::LetKw, "let"),
            (SyntaxKind::Whitespace, " "),
            (SyntaxKind::Ident, "x1"),
            (SyntaxKind::Whitespace, " "),
            (SyntaxKind::Equals, "="),
            (SyntaxKind::Whitespace, " "),
            (SyntaxKind::Number, "12"),
            (SyntaxKind::Comment, "# note"),
            (SyntaxKind::Whitespace, "\n"),
            (SyntaxKind::Plus, "+"),
            (SyntaxKind::Ident, "y"),
        ]
    );
}

#[test]
fn lexer_ends_with_none() {
    let mut lexer = Lexer::new("1");
    assert_eq!(lexer.next(), Some(Lexeme { kind: SyntaxKind::Number, text: "1" }));
    assert_eq!(lexer.next(), None);
    assert!(SyntaxKind::Comment.is_trivia());
    assert!(!SyntaxKind::Number.is_trivia());
}

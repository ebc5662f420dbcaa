use kobro::tokenize;
use kobro::TokenKind;

fn check(input: &str, kind: TokenKind) {
    let tokens = tokenize(input);
    assert!(!tokens.is_empty());
    assert_eq!(tokens[0].kind, kind);
    assert_eq!(tokens[0].text, input);
}

#[test]
fn lex_spaces_and_newlines() {
    check("  \n ", TokenKind::Whitespace);
}

#[test]
fn lex_fn_keyword() {
    check("fn", TokenKind::FnKw);
}

#[test]
fn lex_let_keyword() {
    check("let", TokenKind::LetKw);
}

#[test]
fn lex_alphabetic_identifier() {
    check("abcd", TokenKind::Ident);
}

#[test]
fn lex_alphanumeric_identifier() {
    check("ab123cde456", TokenKind::Ident);
}

#[test]
fn lex_mixed_case_identifier() {
    check("ABCdef", TokenKind::Ident);
}

#[test]
fn lex_single_char_identifier() {
    check("x", TokenKind::Ident);
}

#[test]
fn lex_num() {
    check("123456", TokenKind::Num);
}

#[test]
fn lex_float() {
    check("30.45", TokenKind::Float);
}

#[test]
fn lex_plus() {
    check("+", TokenKind::Plus);
}

#[test]
fn lex_minus() {
    check("-", TokenKind::Minus);
}

#[test]
fn lex_star() {
    check("*", TokenKind::Star);
}

#[test]
fn lex_slash() {
    check("/", TokenKind::Slash);
}

#[test]
fn lex_equals() {
    check("=", TokenKind::Equals);
}

#[test]
fn lex_left_parenthesis() {
    check("(", TokenKind::LParen);
}

#[test]
fn lex_right_parenthesis() {
    check(")", TokenKind::RParen);
}

#[test]
fn lex_left_brace() {
    check("{", TokenKind::LBrace);
}

#[test]
fn lex_right_brace() {
    check("}", TokenKind::RBrace);
}

#[test]
fn lex_left_bracket() {
    check("[", TokenKind::LBracket);
}

#[test]
fn lex_right_bracket() {
    check("]", TokenKind::RBracket);
}

#[test]
fn lex_comment() {
    check("// foo", TokenKind::Comment);
}

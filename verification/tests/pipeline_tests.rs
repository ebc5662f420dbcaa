use kobro::grammar::{BinaryOp, UnaryOp};
use kobro::parse;
use kobro::tokenize;
use kobro::Element;
use kobro::Node;
use kobro::SyntaxKind;
use kobro::TokenKind;

fn element_text(e: &Element, out: &mut String) {
    match e {
        Element::Token(t) => out.push_str(&t.text),
        Element::Node(n) => node_text(n, out),
    }
}

fn node_text(n: &Node, out: &mut String) {
    for c in &n.children {
        element_text(c, out);
    }
}

fn reconstruct(input: &str) -> String {
    let mut out = String::new();
    node_text(&parse(input).root, &mut out);
    out
}

#[test]
fn lossless_reconstruction() {
    let inputs = [
        "",
        "   ",
        " 1 +   2* 3 ",
        "(1+",
        "(foo",
        "let x = 3 // trailing",
        "1 2 3",
        "-  - 5",
        "12. + @ fnx true",
        "((((((10))))))",
    ];
    for input in inputs {
        assert_eq!(reconstruct(input), input);
    }
}

#[test]
fn rederivation_is_identical() {
    let input = " (1+ 2*x // note\n) - 4";
    let first = parse(input);
    let second = parse(input);
    assert_eq!(first.debug_tree(), second.debug_tree());
    assert_eq!(first.errors.len(), second.errors.len());
}

#[test]
fn parse_empty_input() {
    let result = parse("");
    assert_eq!(result.debug_tree(), "Root@0..0");
    assert!(result.errors.is_empty());
}

#[test]
fn parse_only_whitespace() {
    let result = parse("  ");
    assert_eq!(result.debug_tree(), "Root@0..2\n  Whitespace@0..2 \"  \"");
    assert!(result.errors.is_empty());
}

#[test]
fn error_on_unrecognized_token() {
    let result = parse("@");
    assert_eq!(result.errors.len(), 1);
    assert_eq!(
        result.debug_tree(),
        "Root@0..1\n  Error@0..1 \"@\"\nerror at 0..1: expected Num, identifier, \u{2018}-\u{2019} or \u{2018}(\u{2019} but found an unrecognized token",
    );
}

#[test]
fn error_on_missing_operand() {
    let result = parse("-");
    assert_eq!(
        result.debug_tree(),
        "Root@0..1\n  PrefixExpr@0..1\n    Minus@0..1 \"-\"\nerror at 0..1: expected Num, identifier, \u{2018}-\u{2019} or \u{2018}(\u{2019}",
    );
}

#[test]
fn binding_powers_match_the_table() {
    assert_eq!(BinaryOp::Add.binding_power(), (1, 2));
    assert_eq!(BinaryOp::Sub.binding_power(), (1, 2));
    assert_eq!(BinaryOp::Mul.binding_power(), (3, 4));
    assert_eq!(BinaryOp::Div.binding_power(), (3, 4));
    assert_eq!(UnaryOp::Neg.binding_power(), ((), 5));
}

#[test]
fn trivia_kinds() {
    assert!(TokenKind::Whitespace.is_trivia());
    assert!(TokenKind::Comment.is_trivia());
    assert!(!TokenKind::Num.is_trivia());
    assert!(!TokenKind::Error.is_trivia());
}

#[test]
fn token_kinds_map_to_syntax_kinds() {
    assert_eq!(SyntaxKind::from(TokenKind::Plus), SyntaxKind::Plus);
    assert_eq!(SyntaxKind::from(TokenKind::Ident), SyntaxKind::Ident);
    assert_eq!(SyntaxKind::from(TokenKind::Error), SyntaxKind::Error);
}

fn check_first(input: &str, kind: TokenKind, text: &str) {
    let tokens = tokenize(input);
    assert!(!tokens.is_empty());
    assert_eq!(tokens[0].kind, kind);
    assert_eq!(tokens[0].text, text);
}

#[test]
fn lex_remaining_keywords() {
    check_first("for", TokenKind::ForKw, "for");
    check_first("if", TokenKind::IfKw, "if");
    check_first("in", TokenKind::InKw, "in");
    check_first("match", TokenKind::MatchKw, "match");
    check_first("true", TokenKind::TrueKw, "true");
    check_first("false", TokenKind::FalseKw, "false");
    check_first("or", TokenKind::LogicalOr, "or");
    check_first("and", TokenKind::LogicalAnd, "and");
    check_first("not", TokenKind::LogicalNot, "not");
}

#[test]
fn lex_keyword_prefix_is_an_identifier() {
    check_first("fnx", TokenKind::Ident, "fnx");
    check_first("iffy", TokenKind::Ident, "iffy");
    check_first("orbit", TokenKind::Ident, "orbit");
}

#[test]
fn lex_two_character_operators() {
    check_first("<=", TokenKind::LessThanEq, "<=");
    check_first(">=", TokenKind::GreaterThanEq, ">=");
    check_first("!=", TokenKind::NotEqual, "!=");
    check_first("==", TokenKind::Equal, "==");
    check_first("=>", TokenKind::FatArrow, "=>");
    check_first("<", TokenKind::LessThan, "<");
    check_first(">", TokenKind::GreaterThan, ">");
    check_first(":", TokenKind::Colon, ":");
}

#[test]
fn lex_unicode_whitespace() {
    check_first(
        "\u{000C}\u{000B}\u{00A0}\u{2003}",
        TokenKind::Whitespace,
        "\u{000C}\u{000B}\u{00A0}\u{2003}",
    );
}

#[test]
fn lex_unrecognized_input() {
    check_first("@", TokenKind::Error, "@");
    check_first("!", TokenKind::Error, "!");
}

#[test]
fn lex_num_followed_by_bare_dot() {
    let tokens = tokenize("12.");
    assert_eq!(tokens.len(), 2);
    assert_eq!(tokens[0].kind, TokenKind::Num);
    assert_eq!(tokens[0].text, "12");
    assert_eq!(tokens[1].kind, TokenKind::Error);
    assert_eq!(tokens[1].text, ".");
}

#[test]
fn lex_float_with_digit_separators() {
    check_first("1_2.3_4", TokenKind::Float, "1_2.3_4");
}

#[test]
fn lex_comment_stops_at_newline() {
    let tokens = tokenize("// a\nb");
    assert_eq!(tokens[0].kind, TokenKind::Comment);
    assert_eq!(tokens[0].text, "// a");
    assert_eq!(tokens[1].kind, TokenKind::Whitespace);
    assert_eq!(tokens[2].kind, TokenKind::Ident);
}

#[test]
fn tokens_cover_the_input_contiguously() {
    let input = "let x = (1+2)*3 // done";
    let tokens = tokenize(input);
    let mut offset = 0;
    for t in &tokens {
        assert_eq!(t.start, offset);
        assert_eq!(t.end, offset + t.text.chars().count());
        offset = t.end;
    }
    assert_eq!(offset, input.chars().count());
}

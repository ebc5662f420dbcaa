use kobro::parse;

fn check(input: &str, expected_tree: &str) {
    assert_eq!(parse(input).debug_tree(), expected_tree);
}

#[test]
fn parse_num() {
    check(
        "123",
        "Root@0..3\n  Literal@0..3\n    Num@0..3 \"123\"",
    );
}

#[test]
fn parse_num_preceded_by_whitespace() {
    check(
        "   9876",
        "Root@0..7\n  Whitespace@0..3 \"   \"\n  Literal@3..7\n    Num@3..7 \"9876\"",
    );
}

#[test]
fn parse_num_followed_by_whitespace() {
    check(
        "999   ",
        "Root@0..6\n  Literal@0..6\n    Num@0..3 \"999\"\n    Whitespace@3..6 \"   \"",
    );
}

#[test]
fn parse_num_surrounded_by_whitespace() {
    check(
        " 123     ",
        "Root@0..9\n  Whitespace@0..1 \" \"\n  Literal@1..9\n    Num@1..4 \"123\"\n    Whitespace@4..9 \"     \"",
    );
}

#[test]
fn parse_variable_ref() {
    check(
        "counter",
        "Root@0..7\n  VariableRef@0..7\n    Ident@0..7 \"counter\"",
    );
}

#[test]
fn parse_simple_infix_expression() {
    check(
        "1+2",
        "Root@0..3\n  InfixExpr@0..3\n    Literal@0..1\n      Num@0..1 \"1\"\n    Plus@1..2 \"+\"\n    Literal@2..3\n      Num@2..3 \"2\"",
    );
}

#[test]
fn parse_left_associative_infix_expression() {
    check(
        "1+2+3+4",
        "Root@0..7\n  InfixExpr@0..7\n    InfixExpr@0..5\n      InfixExpr@0..3\n        Literal@0..1\n          Num@0..1 \"1\"\n        Plus@1..2 \"+\"\n        Literal@2..3\n          Num@2..3 \"2\"\n      Plus@3..4 \"+\"\n      Literal@4..5\n        Num@4..5 \"3\"\n    Plus@5..6 \"+\"\n    Literal@6..7\n      Num@6..7 \"4\"",
    );
}

#[test]
fn parse_infix_expression_with_mixed_binding_power() {
    check(
        "1+2*3-4",
        "Root@0..7\n  InfixExpr@0..7\n    InfixExpr@0..5\n      Literal@0..1\n        Num@0..1 \"1\"\n      Plus@1..2 \"+\"\n      InfixExpr@2..5\n        Literal@2..3\n          Num@2..3 \"2\"\n        Star@3..4 \"*\"\n        Literal@4..5\n          Num@4..5 \"3\"\n    Minus@5..6 \"-\"\n    Literal@6..7\n      Num@6..7 \"4\"",
    );
}

#[test]
fn parse_infix_expression_with_whitespace() {
    check(
        " 1 +   2* 3 ",
        "Root@0..12\n  Whitespace@0..1 \" \"\n  InfixExpr@1..12\n    Literal@1..3\n      Num@1..2 \"1\"\n      Whitespace@2..3 \" \"\n    Plus@3..4 \"+\"\n    Whitespace@4..7 \"   \"\n    InfixExpr@7..12\n      Literal@7..8\n        Num@7..8 \"2\"\n      Star@8..9 \"*\"\n      Whitespace@9..10 \" \"\n      Literal@10..12\n        Num@10..11 \"3\"\n        Whitespace@11..12 \" \"",
    );
}

#[test]
fn parse_infix_expression_interspersed_with_comments() {
    check(
        "\n1\n  + 1 // Add one\n  + 10 // Add ten",
        "Root@0..37\n  Whitespace@0..1 \"\\n\"\n  InfixExpr@1..37\n    InfixExpr@1..22\n      Literal@1..5\n        Num@1..2 \"1\"\n        Whitespace@2..5 \"\\n  \"\n      Plus@5..6 \"+\"\n      Whitespace@6..7 \" \"\n      Literal@7..22\n        Num@7..8 \"1\"\n        Whitespace@8..9 \" \"\n        Comment@9..19 \"// Add one\"\n        Whitespace@19..22 \"\\n  \"\n    Plus@22..23 \"+\"\n    Whitespace@23..24 \" \"\n    Literal@24..37\n      Num@24..26 \"10\"\n      Whitespace@26..27 \" \"\n      Comment@27..37 \"// Add ten\"",
    );
}

#[test]
fn do_not_parse_operator_if_gettting_rhs_failed() {
    check(
        "(1+",
        "Root@0..3\n  ParenExpr@0..3\n    LParen@0..1 \"(\"\n    InfixExpr@1..3\n      Literal@1..2\n        Num@1..2 \"1\"\n      Plus@2..3 \"+\"\nerror at 2..3: expected Num, identifier, \u{2018}-\u{2019} or \u{2018}(\u{2019}\nerror at 2..3: expected \u{2018})\u{2019}",
    );
}

#[test]
fn parse_negation() {
    check(
        "-10",
        "Root@0..3\n  PrefixExpr@0..3\n    Minus@0..1 \"-\"\n    Literal@1..3\n      Num@1..3 \"10\"",
    );
}

#[test]
fn negation_has_higher_binding_power_than_binary_operators() {
    check(
        "-20+20",
        "Root@0..6\n  InfixExpr@0..6\n    PrefixExpr@0..3\n      Minus@0..1 \"-\"\n      Literal@1..3\n        Num@1..3 \"20\"\n    Plus@3..4 \"+\"\n    Literal@4..6\n      Num@4..6 \"20\"",
    );
}

#[test]
fn parse_nested_parentheses() {
    check(
        "((((((10))))))",
        "Root@0..14\n  ParenExpr@0..14\n    LParen@0..1 \"(\"\n    ParenExpr@1..13\n      LParen@1..2 \"(\"\n      ParenExpr@2..12\n        LParen@2..3 \"(\"\n        ParenExpr@3..11\n          LParen@3..4 \"(\"\n          ParenExpr@4..10\n            LParen@4..5 \"(\"\n            ParenExpr@5..9\n              LParen@5..6 \"(\"\n              Literal@6..8\n                Num@6..8 \"10\"\n              RParen@8..9 \")\"\n            RParen@9..10 \")\"\n          RParen@10..11 \")\"\n        RParen@11..12 \")\"\n      RParen@12..13 \")\"\n    RParen@13..14 \")\"",
    );
}

#[test]
fn parentheses_affect_precedence() {
    check(
        "5*(2+1)",
        "Root@0..7\n  InfixExpr@0..7\n    Literal@0..1\n      Num@0..1 \"5\"\n    Star@1..2 \"*\"\n    ParenExpr@2..7\n      LParen@2..3 \"(\"\n      InfixExpr@3..6\n        Literal@3..4\n          Num@3..4 \"2\"\n        Plus@4..5 \"+\"\n        Literal@5..6\n          Num@5..6 \"1\"\n      RParen@6..7 \")\"",
    );
}

#[test]
fn parse_unclosed_parentheses() {
    check(
        "(foo",
        "Root@0..4\n  ParenExpr@0..4\n    LParen@0..1 \"(\"\n    VariableRef@1..4\n      Ident@1..4 \"foo\"\nerror at 1..4: expected \u{2018}+\u{2019}, \u{2018}-\u{2019}, \u{2018}*\u{2019}, \u{2018}/\u{2019} or \u{2018})\u{2019}",
    );
}

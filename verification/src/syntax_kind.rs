//! The closed vocabulary of syntax kinds: every token kind plus every
//! tree-node kind, and the fixed total mapping from token kinds into it.

use vstd::prelude::*;
use crate::token_kind::TokenKind;

verus! {

/// Every kind a tree element can have: one kind per token kind, plus the
/// node kinds (`Root`, `InfixExpr`, `Literal`, `ParenExpr`, `PrefixExpr`,
/// `VariableDef`, `VariableRef`).
#[derive(Debug, Copy, Clone, PartialEq, Eq, Structural)]
pub enum SyntaxKind {
    Whitespace,
    FnKw,
    ForKw,
    IfKw,
    InKw,
    TrueKw,
    FalseKw,
    MatchKw,
    LetKw,
    Ident,
    Num,
    Float,
    Plus,
    Minus,
    Star,
    Slash,
    Equals,
    LParen,
    RParen,
    LBrace,
    RBrace,
    LBracket,
    RBracket,
    LessThanEq,
    GreaterThanEq,
    LessThan,
    GreaterThan,
    NotEqual,
    Equal,
    LogicalOr,
    LogicalAnd,
    LogicalNot,
    Comment,
    Colon,
    FatArrow,
    Error,
    Root,
    InfixExpr,
    Literal,
    ParenExpr,
    PrefixExpr,
    VariableDef,
    VariableRef,
}

/// The fixed, total, injective mapping from token kinds to syntax kinds.
pub open spec fn syntax_kind_of(token_kind: TokenKind) -> SyntaxKind {
    match token_kind {
        TokenKind::Whitespace => SyntaxKind::Whitespace,
        TokenKind::FnKw => SyntaxKind::FnKw,
        TokenKind::ForKw => SyntaxKind::ForKw,
        TokenKind::IfKw => SyntaxKind::IfKw,
        TokenKind::InKw => SyntaxKind::InKw,
        TokenKind::TrueKw => SyntaxKind::TrueKw,
        TokenKind::FalseKw => SyntaxKind::FalseKw,
        TokenKind::MatchKw => SyntaxKind::MatchKw,
        TokenKind::LetKw => SyntaxKind::LetKw,
        TokenKind::Ident => SyntaxKind::Ident,
        TokenKind::Num => SyntaxKind::Num,
        TokenKind::Float => SyntaxKind::Float,
        TokenKind::Plus => SyntaxKind::Plus,
        TokenKind::Minus => SyntaxKind::Minus,
        TokenKind::Star => SyntaxKind::Star,
        TokenKind::Slash => SyntaxKind::Slash,
        TokenKind::Equals => SyntaxKind::Equals,
        TokenKind::LParen => SyntaxKind::LParen,
        TokenKind::RParen => SyntaxKind::RParen,
        TokenKind::LBrace => SyntaxKind::LBrace,
        TokenKind::RBrace => SyntaxKind::RBrace,
        TokenKind::LBracket => SyntaxKind::LBracket,
        TokenKind::RBracket => SyntaxKind::RBracket,
        TokenKind::LessThanEq => SyntaxKind::LessThanEq,
        TokenKind::GreaterThanEq => SyntaxKind::GreaterThanEq,
        TokenKind::LessThan => SyntaxKind::LessThan,
        TokenKind::GreaterThan => SyntaxKind::GreaterThan,
        TokenKind::NotEqual => SyntaxKind::NotEqual,
        TokenKind::Equal => SyntaxKind::Equal,
        TokenKind::LogicalOr => SyntaxKind::LogicalOr,
        TokenKind::LogicalAnd => SyntaxKind::LogicalAnd,
        TokenKind::LogicalNot => SyntaxKind::LogicalNot,
        TokenKind::Comment => SyntaxKind::Comment,
        TokenKind::Colon => SyntaxKind::Colon,
        TokenKind::FatArrow => SyntaxKind::FatArrow,
        TokenKind::Error => SyntaxKind::Error,
    }
}

impl From<TokenKind> for SyntaxKind {
    fn from(token_kind: TokenKind) -> (r: Self) {
        match token_kind {
            TokenKind::Whitespace => Self::Whitespace,
            TokenKind::FnKw => Self::FnKw,
            TokenKind::ForKw => Self::ForKw,
            TokenKind::IfKw => Self::IfKw,
            TokenKind::InKw => Self::InKw,
            TokenKind::TrueKw => Self::TrueKw,
            TokenKind::FalseKw => Self::FalseKw,
            TokenKind::MatchKw => Self::MatchKw,
            TokenKind::LetKw => Self::LetKw,
            TokenKind::Ident => Self::Ident,
            TokenKind::Num => Self::Num,
            TokenKind::Float => Self::Float,
            TokenKind::Plus => Self::Plus,
            TokenKind::Minus => Self::Minus,
            TokenKind::Star => Self::Star,
            TokenKind::Slash => Self::Slash,
            TokenKind::Equals => Self::Equals,
            TokenKind::LParen => Self::LParen,
            TokenKind::RParen => Self::RParen,
            TokenKind::LBrace => Self::LBrace,
            TokenKind::RBrace => Self::RBrace,
            TokenKind::LBracket => Self::LBracket,
            TokenKind::RBracket => Self::RBracket,
            TokenKind::LessThanEq => Self::LessThanEq,
            TokenKind::GreaterThanEq => Self::GreaterThanEq,
            TokenKind::LessThan => Self::LessThan,
            TokenKind::GreaterThan => Self::GreaterThan,
            TokenKind::NotEqual => Self::NotEqual,
            TokenKind::Equal => Self::Equal,
            TokenKind::LogicalOr => Self::LogicalOr,
            TokenKind::LogicalAnd => Self::LogicalAnd,
            TokenKind::LogicalNot => Self::LogicalNot,
            TokenKind::Comment => Self::Comment,
            TokenKind::Colon => Self::Colon,
            TokenKind::FatArrow => Self::FatArrow,
            TokenKind::Error => Self::Error,
        }
    }
}

impl vstd::std_specs::convert::FromSpecImpl<TokenKind> for SyntaxKind {
    open spec fn obeys_from_spec() -> bool {
        true
    }

    open spec fn from_spec(t: TokenKind) -> Self {
        syntax_kind_of(t)
    }
}

impl SyntaxKind {
    /// The name of each kind, as a rendered tree spells it.
    pub open spec fn spec_name(self) -> Seq<char> {
        match self {
            SyntaxKind::Whitespace => "Whitespace"@,
            SyntaxKind::FnKw => "FnKw"@,
            SyntaxKind::ForKw => "ForKw"@,
            SyntaxKind::IfKw => "IfKw"@,
            SyntaxKind::InKw => "InKw"@,
            SyntaxKind::TrueKw => "TrueKw"@,
            SyntaxKind::FalseKw => "FalseKw"@,
            SyntaxKind::MatchKw => "MatchKw"@,
            SyntaxKind::LetKw => "LetKw"@,
            SyntaxKind::Ident => "Ident"@,
            SyntaxKind::Num => "Num"@,
            SyntaxKind::Float => "Float"@,
            SyntaxKind::Plus => "Plus"@,
            SyntaxKind::Minus => "Minus"@,
            SyntaxKind::Star => "Star"@,
            SyntaxKind::Slash => "Slash"@,
            SyntaxKind::Equals => "Equals"@,
            SyntaxKind::LParen => "LParen"@,
            SyntaxKind::RParen => "RParen"@,
            SyntaxKind::LBrace => "LBrace"@,
            SyntaxKind::RBrace => "RBrace"@,
            SyntaxKind::LBracket => "LBracket"@,
            SyntaxKind::RBracket => "RBracket"@,
            SyntaxKind::LessThanEq => "LessThanEq"@,
            SyntaxKind::GreaterThanEq => "GreaterThanEq"@,
            SyntaxKind::LessThan => "LessThan"@,
            SyntaxKind::GreaterThan => "GreaterThan"@,
            SyntaxKind::NotEqual => "NotEqual"@,
            SyntaxKind::Equal => "Equal"@,
            SyntaxKind::LogicalOr => "LogicalOr"@,
            SyntaxKind::LogicalAnd => "LogicalAnd"@,
            SyntaxKind::LogicalNot => "LogicalNot"@,
            SyntaxKind::Comment => "Comment"@,
            SyntaxKind::Colon => "Colon"@,
            SyntaxKind::FatArrow => "FatArrow"@,
            SyntaxKind::Error => "Error"@,
            SyntaxKind::Root => "Root"@,
            SyntaxKind::InfixExpr => "InfixExpr"@,
            SyntaxKind::Literal => "Literal"@,
            SyntaxKind::ParenExpr => "ParenExpr"@,
            SyntaxKind::PrefixExpr => "PrefixExpr"@,
            SyntaxKind::VariableDef => "VariableDef"@,
            SyntaxKind::VariableRef => "VariableRef"@,
        }
    }

    /// The name of this kind, as it appears in a rendered tree.
    pub fn name(self) -> (r: &'static str)
        ensures
            r@ == self.spec_name(),
    {
        match self {
            SyntaxKind::Whitespace => "Whitespace",
            SyntaxKind::FnKw => "FnKw",
            SyntaxKind::ForKw => "ForKw",
            SyntaxKind::IfKw => "IfKw",
            SyntaxKind::InKw => "InKw",
            SyntaxKind::TrueKw => "TrueKw",
            SyntaxKind::FalseKw => "FalseKw",
            SyntaxKind::MatchKw => "MatchKw",
            SyntaxKind::LetKw => "LetKw",
            SyntaxKind::Ident => "Ident",
            SyntaxKind::Num => "Num",
            SyntaxKind::Float => "Float",
            SyntaxKind::Plus => "Plus",
            SyntaxKind::Minus => "Minus",
            SyntaxKind::Star => "Star",
            SyntaxKind::Slash => "Slash",
            SyntaxKind::Equals => "Equals",
            SyntaxKind::LParen => "LParen",
            SyntaxKind::RParen => "RParen",
            SyntaxKind::LBrace => "LBrace",
            SyntaxKind::RBrace => "RBrace",
            SyntaxKind::LBracket => "LBracket",
            SyntaxKind::RBracket => "RBracket",
            SyntaxKind::LessThanEq => "LessThanEq",
            SyntaxKind::GreaterThanEq => "GreaterThanEq",
            SyntaxKind::LessThan => "LessThan",
            SyntaxKind::GreaterThan => "GreaterThan",
            SyntaxKind::NotEqual => "NotEqual",
            SyntaxKind::Equal => "Equal",
            SyntaxKind::LogicalOr => "LogicalOr",
            SyntaxKind::LogicalAnd => "LogicalAnd",
            SyntaxKind::LogicalNot => "LogicalNot",
            SyntaxKind::Comment => "Comment",
            SyntaxKind::Colon => "Colon",
            SyntaxKind::FatArrow => "FatArrow",
            SyntaxKind::Error => "Error",
            SyntaxKind::Root => "Root",
            SyntaxKind::InfixExpr => "InfixExpr",
            SyntaxKind::Literal => "Literal",
            SyntaxKind::ParenExpr => "ParenExpr",
            SyntaxKind::PrefixExpr => "PrefixExpr",
            SyntaxKind::VariableDef => "VariableDef",
            SyntaxKind::VariableRef => "VariableRef",
        }
    }
}

} // verus!

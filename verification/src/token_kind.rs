//! The closed vocabulary of token kinds produced by the tokenizer.

use vstd::prelude::*;

verus! {

/// The kind of a single token. Kinds partition into trivia (whitespace,
/// comments), literals, identifiers, keywords, operators and punctuation,
/// and a sentinel `Error` kind for input that matches no rule.
#[derive(Debug, Copy, Clone, PartialEq, Eq, Structural)]
pub enum TokenKind {
    Error,
    Whitespace,
    FnKw,
    ForKw,
    IfKw,
    InKw,
    LetKw,
    MatchKw,
    FalseKw,
    TrueKw,
    Ident,
    Num,
    Float,
    Plus,
    Minus,
    Star,
    Slash,
    Equals,
    LogicalOr,
    LogicalAnd,
    LogicalNot,
    LParen,
    RParen,
    LBrace,
    RBrace,
    LBracket,
    RBracket,
    LessThanEq,
    GreaterThanEq,
    LessThan,
    GreaterThan,
    NotEqual,
    Equal,
    Comment,
    Colon,
    FatArrow,
}

impl TokenKind {
    /// Trivia kinds carry no grammatical meaning but are preserved verbatim
    /// in the tree for exact source reconstruction.
    pub open spec fn spec_is_trivia(self) -> bool {
        self == TokenKind::Whitespace || self == TokenKind::Comment
    }

    /// Whether this kind is trivia (whitespace or a comment).
    pub fn is_trivia(self) -> (r: bool)
        ensures
            r == self.spec_is_trivia(),
    {
        matches!(self, TokenKind::Whitespace | TokenKind::Comment)
    }

    /// The display name of each kind, as diagnostics spell it: this exact
    /// wording is a compatibility surface.
    pub open spec fn spec_display_name(self) -> Seq<char> {
        match self {
            TokenKind::Whitespace => "whitespace"@,
            TokenKind::FnKw => "\u{2018}fn\u{2019}"@,
            TokenKind::ForKw => "for"@,
            TokenKind::IfKw => "if"@,
            TokenKind::InKw => "in"@,
            TokenKind::MatchKw => "match"@,
            TokenKind::FalseKw => "\u{2018}false\u{2019}"@,
            TokenKind::TrueKw => "\u{2018}true\u{2019}"@,
            TokenKind::LetKw => "\u{2018}let\u{2019}"@,
            TokenKind::Ident => "identifier"@,
            TokenKind::Num => "Num"@,
            TokenKind::Float => "Float"@,
            TokenKind::Plus => "\u{2018}+\u{2019}"@,
            TokenKind::Minus => "\u{2018}-\u{2019}"@,
            TokenKind::Star => "\u{2018}*\u{2019}"@,
            TokenKind::Slash => "\u{2018}/\u{2019}"@,
            TokenKind::Equals => "\u{2018}=\u{2019}"@,
            TokenKind::LParen => "\u{2018}(\u{2019}"@,
            TokenKind::RParen => "\u{2018})\u{2019}"@,
            TokenKind::LBrace => "\u{2018}{\u{2019}"@,
            TokenKind::RBrace => "\u{2018}}\u{2019}"@,
            TokenKind::LBracket => "\u{2018}[\u{2019}"@,
            TokenKind::RBracket => "\u{2018}]\u{2019}"@,
            TokenKind::LessThanEq => "<="@,
            TokenKind::GreaterThanEq => ">="@,
            TokenKind::LessThan => "<"@,
            TokenKind::GreaterThan => ">"@,
            TokenKind::NotEqual => "!="@,
            TokenKind::Equal => "`==`"@,
            TokenKind::LogicalOr => "or"@,
            TokenKind::LogicalAnd => "and"@,
            TokenKind::LogicalNot => "not"@,
            TokenKind::Comment => "comment"@,
            TokenKind::Colon => "\u{2018}:\u{2019}"@,
            TokenKind::FatArrow => "\u{2018}=>\u{2019}"@,
            TokenKind::Error => "an unrecognized token"@,
        }
    }

    /// The display name of this kind, as it appears in diagnostic messages.
    pub fn display_name(self) -> (r: &'static str)
        ensures
            r@ == self.spec_display_name(),
    {
        match self {
            TokenKind::Whitespace => "whitespace",
            TokenKind::FnKw => "\u{2018}fn\u{2019}",
            TokenKind::ForKw => "for",
            TokenKind::IfKw => "if",
            TokenKind::InKw => "in",
            TokenKind::MatchKw => "match",
            TokenKind::FalseKw => "\u{2018}false\u{2019}",
            TokenKind::TrueKw => "\u{2018}true\u{2019}",
            TokenKind::LetKw => "\u{2018}let\u{2019}",
            TokenKind::Ident => "identifier",
            TokenKind::Num => "Num",
            TokenKind::Float => "Float",
            TokenKind::Plus => "\u{2018}+\u{2019}",
            TokenKind::Minus => "\u{2018}-\u{2019}",
            TokenKind::Star => "\u{2018}*\u{2019}",
            TokenKind::Slash => "\u{2018}/\u{2019}",
            TokenKind::Equals => "\u{2018}=\u{2019}",
            TokenKind::LParen => "\u{2018}(\u{2019}",
            TokenKind::RParen => "\u{2018})\u{2019}",
            TokenKind::LBrace => "\u{2018}{\u{2019}",
            TokenKind::RBrace => "\u{2018}}\u{2019}",
            TokenKind::LBracket => "\u{2018}[\u{2019}",
            TokenKind::RBracket => "\u{2018}]\u{2019}",
            TokenKind::LessThanEq => "<=",
            TokenKind::GreaterThanEq => ">=",
            TokenKind::LessThan => "<",
            TokenKind::GreaterThan => ">",
            TokenKind::NotEqual => "!=",
            TokenKind::Equal => "`==`",
            TokenKind::LogicalOr => "or",
            TokenKind::LogicalAnd => "and",
            TokenKind::LogicalNot => "not",
            TokenKind::Comment => "comment",
            TokenKind::Colon => "\u{2018}:\u{2019}",
            TokenKind::FatArrow => "\u{2018}=>\u{2019}",
            TokenKind::Error => "an unrecognized token",
        }
    }
}

} // verus!

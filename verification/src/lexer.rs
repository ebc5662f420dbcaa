//! The tokenizer: splits source text into a flat ordered sequence of tagged
//! spans (kind + exact substring). It is total and lossless: every character
//! of the input belongs to exactly one token, unmatched input becomes
//! single-character `Error` tokens, and concatenating all token texts in
//! order reproduces the input exactly. Longest match wins; a keyword
//! spelling that is also an identifier prefix is decided only after the
//! whole identifier run has been consumed.

use vstd::prelude::*;
use vstd::string::StrSliceExecFns;
use crate::token_kind::TokenKind;

verus! {

/// The mathematical model of a token: its kind, its exact text, and the
/// half-open range of character positions it covers in the input.
pub ghost struct Tok {
    pub kind: TokenKind,
    pub text: Seq<char>,
    pub start: int,
    pub end: int,
}

/// A token: an immutable record of a kind and the exact slice of source
/// text it covers, together with its character range in the input.
pub struct Token {
    pub kind: TokenKind,
    pub text: String,
    pub start: usize,
    pub end: usize,
}

impl View for Token {
    type V = Tok;

    open spec fn view(&self) -> Tok {
        Tok { kind: self.kind, text: self.text@, start: self.start as int, end: self.end as int }
    }
}

/// The models of a sequence of tokens.
pub open spec fn tokens_view(ts: Seq<Token>) -> Seq<Tok> {
    ts.map_values(|t: Token| t@)
}

/// The whitespace class: every character with the Unicode white-space
/// property (the ASCII controls tab through carriage return, space, next
/// line, no-break space, ogham space mark, the en/em family, the line and
/// paragraph separators, narrow and medium spaces, ideographic space).
pub open spec fn is_whitespace_char(c: char) -> bool {
    let u = c as u32;
    (9 <= u && u <= 13) || u == 32 || u == 0x85 || u == 0xA0 || u == 0x1680 || (0x2000 <= u && u
        <= 0x200A) || u == 0x2028 || u == 0x2029 || u == 0x202F || u == 0x205F || u == 0x3000
}

pub open spec fn is_digit_char(c: char) -> bool {
    48 <= c as u32 <= 57
}

pub open spec fn is_alpha_char(c: char) -> bool {
    (97 <= c as u32 <= 122) || (65 <= c as u32 <= 90)
}

/// Characters that may continue an identifier run.
pub open spec fn is_ident_char(c: char) -> bool {
    is_alpha_char(c) || is_digit_char(c)
}

/// Characters that may continue a numeric-literal digit run: digits and
/// the underscore separator.
pub open spec fn is_digit_sep_char(c: char) -> bool {
    is_digit_char(c) || c == '_'
}

/// The end of the maximal run of whitespace starting at `i`.
pub open spec fn whitespace_end(s: Seq<char>, i: int) -> int
    decreases s.len() - i,
{
    if 0 <= i < s.len() && is_whitespace_char(s[i]) { whitespace_end(s, i + 1) } else { i }
}

/// The end of the maximal identifier run starting at `i`.
pub open spec fn ident_end(s: Seq<char>, i: int) -> int
    decreases s.len() - i,
{
    if 0 <= i < s.len() && is_ident_char(s[i]) { ident_end(s, i + 1) } else { i }
}

/// The end of the maximal digit run starting at `i`.
pub open spec fn digit_end(s: Seq<char>, i: int) -> int
    decreases s.len() - i,
{
    if 0 <= i < s.len() && is_digit_char(s[i]) { digit_end(s, i + 1) } else { i }
}

/// The end of the maximal digit-or-underscore run starting at `i`.
pub open spec fn digit_sep_end(s: Seq<char>, i: int) -> int
    decreases s.len() - i,
{
    if 0 <= i < s.len() && is_digit_sep_char(s[i]) { digit_sep_end(s, i + 1) } else { i }
}

/// The end of a line comment starting at `i`: everything up to (not
/// including) the next newline.
pub open spec fn comment_end(s: Seq<char>, i: int) -> int
    decreases s.len() - i,
{
    if 0 <= i < s.len() && s[i] != '\n' { comment_end(s, i + 1) } else { i }
}

pub proof fn lemma_whitespace_end_bounds(s: Seq<char>, i: int)
    requires
        0 <= i <= s.len(),
    ensures
        i <= whitespace_end(s, i) <= s.len(),
    decreases s.len() - i,
{
    if i < s.len() && is_whitespace_char(s[i]) {
        lemma_whitespace_end_bounds(s, i + 1);
    }
}

pub proof fn lemma_ident_end_bounds(s: Seq<char>, i: int)
    requires
        0 <= i <= s.len(),
    ensures
        i <= ident_end(s, i) <= s.len(),
    decreases s.len() - i,
{
    if i < s.len() && is_ident_char(s[i]) {
        lemma_ident_end_bounds(s, i + 1);
    }
}

pub proof fn lemma_digit_end_bounds(s: Seq<char>, i: int)
    requires
        0 <= i <= s.len(),
    ensures
        i <= digit_end(s, i) <= s.len(),
    decreases s.len() - i,
{
    if i < s.len() && is_digit_char(s[i]) {
        lemma_digit_end_bounds(s, i + 1);
    }
}

pub proof fn lemma_digit_sep_end_bounds(s: Seq<char>, i: int)
    requires
        0 <= i <= s.len(),
    ensures
        i <= digit_sep_end(s, i) <= s.len(),
    decreases s.len() - i,
{
    if i < s.len() && is_digit_sep_char(s[i]) {
        lemma_digit_sep_end_bounds(s, i + 1);
    }
}

pub proof fn lemma_comment_end_bounds(s: Seq<char>, i: int)
    requires
        0 <= i <= s.len(),
    ensures
        i <= comment_end(s, i) <= s.len(),
    decreases s.len() - i,
{
    if i < s.len() && s[i] != '\n' {
        lemma_comment_end_bounds(s, i + 1);
    }
}

/// The kind of a maximal identifier run: one of the keyword spellings, or
/// a plain identifier.
pub open spec fn keyword_kind(w: Seq<char>) -> TokenKind {
    if w.len() == 2 && w[0] == 'f' && w[1] == 'n' { TokenKind::FnKw }
    else if w.len() == 3 && w[0] == 'f' && w[1] == 'o' && w[2] == 'r' { TokenKind::ForKw }
    else if w.len() == 2 && w[0] == 'i' && w[1] == 'f' { TokenKind::IfKw }
    else if w.len() == 2 && w[0] == 'i' && w[1] == 'n' { TokenKind::InKw }
    else if w.len() == 3 && w[0] == 'l' && w[1] == 'e' && w[2] == 't' { TokenKind::LetKw }
    else if w.len() == 5 && w[0] == 'm' && w[1] == 'a' && w[2] == 't' && w[3] == 'c' && w[4]
        == 'h' { TokenKind::MatchKw }
    else if w.len() == 5 && w[0] == 'f' && w[1] == 'a' && w[2] == 'l' && w[3] == 's' && w[4]
        == 'e' { TokenKind::FalseKw }
    else if w.len() == 4 && w[0] == 't' && w[1] == 'r' && w[2] == 'u' && w[3] == 'e' {
        TokenKind::TrueKw
    }
    else if w.len() == 2 && w[0] == 'o' && w[1] == 'r' { TokenKind::LogicalOr }
    else if w.len() == 3 && w[0] == 'a' && w[1] == 'n' && w[2] == 'd' { TokenKind::LogicalAnd }
    else if w.len() == 3 && w[0] == 'n' && w[1] == 'o' && w[2] == 't' { TokenKind::LogicalNot }
    else { TokenKind::Ident }
}

/// The kind and end position of the token starting at position `i`.
/// Longest match wins: an identifier run is classified as a keyword only
/// when the whole run is a keyword spelling, and a digit run followed by
/// `.digit` extends into a single float literal.
pub open spec fn token_at(s: Seq<char>, i: int) -> (TokenKind, int) {
    let c = s[i];
    if is_whitespace_char(c) {
        (TokenKind::Whitespace, whitespace_end(s, i))
    } else if is_alpha_char(c) {
        let e = ident_end(s, i);
        (keyword_kind(s.subrange(i, e)), e)
    } else if is_digit_char(c) {
        let d = digit_sep_end(s, i + 1);
        if d < s.len() && s[d] == '.' && d + 1 < s.len() && is_digit_char(s[d + 1]) {
            (TokenKind::Float, digit_sep_end(s, d + 2))
        } else {
            (TokenKind::Num, digit_end(s, i + 1))
        }
    } else if c == '/' && i + 1 < s.len() && s[i + 1] == '/' {
        (TokenKind::Comment, comment_end(s, i + 2))
    } else if c == '<' && i + 1 < s.len() && s[i + 1] == '=' {
        (TokenKind::LessThanEq, i + 2)
    } else if c == '>' && i + 1 < s.len() && s[i + 1] == '=' {
        (TokenKind::GreaterThanEq, i + 2)
    } else if c == '!' && i + 1 < s.len() && s[i + 1] == '=' {
        (TokenKind::NotEqual, i + 2)
    } else if c == '=' && i + 1 < s.len() && s[i + 1] == '=' {
        (TokenKind::Equal, i + 2)
    } else if c == '=' && i + 1 < s.len() && s[i + 1] == '>' {
        (TokenKind::FatArrow, i + 2)
    } else if c == '+' { (TokenKind::Plus, i + 1) }
    else if c == '-' { (TokenKind::Minus, i + 1) }
    else if c == '*' { (TokenKind::Star, i + 1) }
    else if c == '/' { (TokenKind::Slash, i + 1) }
    else if c == '=' { (TokenKind::Equals, i + 1) }
    else if c == '(' { (TokenKind::LParen, i + 1) }
    else if c == ')' { (TokenKind::RParen, i + 1) }
    else if c == '{' { (TokenKind::LBrace, i + 1) }
    else if c == '}' { (TokenKind::RBrace, i + 1) }
    else if c == '[' { (TokenKind::LBracket, i + 1) }
    else if c == ']' { (TokenKind::RBracket, i + 1) }
    else if c == '<' { (TokenKind::LessThan, i + 1) }
    else if c == '>' { (TokenKind::GreaterThan, i + 1) }
    else if c == ':' { (TokenKind::Colon, i + 1) }
    else { (TokenKind::Error, i + 1) }
}

/// Every token advances by at least one character and never past the end:
/// the tokenizer is total and terminates.
pub proof fn lemma_token_at_bounds(s: Seq<char>, i: int)
    requires
        0 <= i < s.len(),
    ensures
        i < token_at(s, i).1 <= s.len(),
{
    let c = s[i];
    if is_whitespace_char(c) {
        lemma_whitespace_end_bounds(s, i + 1);
    } else if is_alpha_char(c) {
        lemma_ident_end_bounds(s, i + 1);
    } else if is_digit_char(c) {
        lemma_digit_sep_end_bounds(s, i + 1);
        let d = digit_sep_end(s, i + 1);
        if d < s.len() && s[d] == '.' && d + 1 < s.len() && is_digit_char(s[d + 1]) {
            lemma_digit_sep_end_bounds(s, d + 2);
        } else {
            lemma_digit_end_bounds(s, i + 1);
        }
    } else if c == '/' && i + 1 < s.len() && s[i + 1] == '/' {
        lemma_comment_end_bounds(s, i + 2);
    }
}

/// The full token sequence of the input suffix starting at `i`.
pub open spec fn lex_from(s: Seq<char>, i: int) -> Seq<Tok>
    decreases s.len() - i,
        via lex_from_decreases
{
    if 0 <= i < s.len() {
        let e = token_at(s, i).1;
        seq![Tok { kind: token_at(s, i).0, text: s.subrange(i, e), start: i, end: e }]
            + lex_from(s, e)
    } else {
        Seq::empty()
    }
}

#[via_fn]
proof fn lex_from_decreases(s: Seq<char>, i: int) {
    if 0 <= i < s.len() {
        lemma_token_at_bounds(s, i);
    }
}

/// The concatenation of the texts of a token sequence, in order.
pub open spec fn texts_concat(ts: Seq<Tok>) -> Seq<char>
    decreases ts.len(),
{
    if ts.len() == 0 { Seq::empty() } else { ts[0].text + texts_concat(ts.skip(1)) }
}

proof fn lemma_lex_from_lossless(s: Seq<char>, i: int)
    requires
        0 <= i <= s.len(),
    ensures
        texts_concat(lex_from(s, i)) == s.subrange(i, s.len() as int),
    decreases s.len() - i,
{
    if i < s.len() {
        lemma_token_at_bounds(s, i);
        let e = token_at(s, i).1;
        let t = Tok { kind: token_at(s, i).0, text: s.subrange(i, e), start: i, end: e };
        let rest = lex_from(s, e);
        lemma_lex_from_lossless(s, e);
        assert((seq![t] + rest).skip(1) =~= rest);
        assert(texts_concat(seq![t] + rest) == t.text + texts_concat(rest));
        assert(s.subrange(i, e) + s.subrange(e, s.len() as int) =~= s.subrange(i, s.len() as int));
    } else {
        assert(s.subrange(i, s.len() as int) =~= Seq::<char>::empty());
    }
}

/// Losslessness of the tokenizer: concatenating the texts of all tokens,
/// in order, reproduces the input exactly.
pub proof fn lemma_lex_lossless(s: Seq<char>)
    ensures
        texts_concat(lex_from(s, 0)) == s,
{
    lemma_lex_from_lossless(s, 0);
    assert(s.subrange(0, s.len() as int) =~= s);
}

fn whitespace_char(c: char) -> (r: bool)
    ensures
        r == is_whitespace_char(c),
{
    let u = c as u32;
    (9 <= u && u <= 13) || u == 32 || u == 0x85 || u == 0xA0 || u == 0x1680 || (0x2000 <= u && u
        <= 0x200A) || u == 0x2028 || u == 0x2029 || u == 0x202F || u == 0x205F || u == 0x3000
}

fn digit_char(c: char) -> (r: bool)
    ensures
        r == is_digit_char(c),
{
    let u = c as u32;
    48 <= u && u <= 57
}

fn alpha_char(c: char) -> (r: bool)
    ensures
        r == is_alpha_char(c),
{
    let u = c as u32;
    (97 <= u && u <= 122) || (65 <= u && u <= 90)
}

fn scan_whitespace(chars: &Vec<char>, from: usize) -> (e: usize)
    requires
        from <= chars@.len(),
    ensures
        e as int == whitespace_end(chars@, from as int),
{
    let mut j: usize = from;
    while j < chars.len() && whitespace_char(chars[j])
        invariant
            from <= j <= chars@.len(),
            whitespace_end(chars@, from as int) == whitespace_end(chars@, j as int),
        decreases chars@.len() - j,
    {
        j = j + 1;
    }
    j
}

fn scan_ident(chars: &Vec<char>, from: usize) -> (e: usize)
    requires
        from <= chars@.len(),
    ensures
        e as int == ident_end(chars@, from as int),
{
    let mut j: usize = from;
    while j < chars.len() && (alpha_char(chars[j]) || digit_char(chars[j]))
        invariant
            from <= j <= chars@.len(),
            ident_end(chars@, from as int) == ident_end(chars@, j as int),
        decreases chars@.len() - j,
    {
        j = j + 1;
    }
    j
}

fn scan_digits(chars: &Vec<char>, from: usize) -> (e: usize)
    requires
        from <= chars@.len(),
    ensures
        e as int == digit_end(chars@, from as int),
{
    let mut j: usize = from;
    while j < chars.len() && digit_char(chars[j])
        invariant
            from <= j <= chars@.len(),
            digit_end(chars@, from as int) == digit_end(chars@, j as int),
        decreases chars@.len() - j,
    {
        j = j + 1;
    }
    j
}

fn scan_digits_sep(chars: &Vec<char>, from: usize) -> (e: usize)
    requires
        from <= chars@.len(),
    ensures
        e as int == digit_sep_end(chars@, from as int),
{
    let mut j: usize = from;
    while j < chars.len() && (digit_char(chars[j]) || chars[j] == '_')
        invariant
            from <= j <= chars@.len(),
            digit_sep_end(chars@, from as int) == digit_sep_end(chars@, j as int),
        decreases chars@.len() - j,
    {
        j = j + 1;
    }
    j
}

fn scan_comment(chars: &Vec<char>, from: usize) -> (e: usize)
    requires
        from <= chars@.len(),
    ensures
        e as int == comment_end(chars@, from as int),
{
    let mut j: usize = from;
    while j < chars.len() && chars[j] != '\n'
        invariant
            from <= j <= chars@.len(),
            comment_end(chars@, from as int) == comment_end(chars@, j as int),
        decreases chars@.len() - j,
    {
        j = j + 1;
    }
    j
}

/// Classifies a maximal identifier run as a keyword or a plain identifier.
fn classify_word(chars: &Vec<char>, start: usize, end: usize) -> (k: TokenKind)
    requires
        start < end <= chars@.len(),
    ensures
        k == keyword_kind(chars@.subrange(start as int, end as int)),
{
    let ghost w = chars@.subrange(start as int, end as int);
    proof {
        assert(forall|j: int| 0 <= j < w.len() ==> w[j] == chars@[start + j]);
    }
    let n = end - start;
    if n == 2 {
        let c0 = chars[start];
        let c1 = chars[start + 1];
        if c0 == 'f' && c1 == 'n' {
            TokenKind::FnKw
        } else if c0 == 'i' && c1 == 'f' {
            TokenKind::IfKw
        } else if c0 == 'i' && c1 == 'n' {
            TokenKind::InKw
        } else if c0 == 'o' && c1 == 'r' {
            TokenKind::LogicalOr
        } else {
            TokenKind::Ident
        }
    } else if n == 3 {
        let c0 = chars[start];
        let c1 = chars[start + 1];
        let c2 = chars[start + 2];
        if c0 == 'f' && c1 == 'o' && c2 == 'r' {
            TokenKind::ForKw
        } else if c0 == 'l' && c1 == 'e' && c2 == 't' {
            TokenKind::LetKw
        } else if c0 == 'a' && c1 == 'n' && c2 == 'd' {
            TokenKind::LogicalAnd
        } else if c0 == 'n' && c1 == 'o' && c2 == 't' {
            TokenKind::LogicalNot
        } else {
            TokenKind::Ident
        }
    } else if n == 4 {
        let c0 = chars[start];
        let c1 = chars[start + 1];
        let c2 = chars[start + 2];
        let c3 = chars[start + 3];
        if c0 == 't' && c1 == 'r' && c2 == 'u' && c3 == 'e' {
            TokenKind::TrueKw
        } else {
            TokenKind::Ident
        }
    } else if n == 5 {
        let c0 = chars[start];
        let c1 = chars[start + 1];
        let c2 = chars[start + 2];
        let c3 = chars[start + 3];
        let c4 = chars[start + 4];
        if c0 == 'f' && c1 == 'a' && c2 == 'l' && c3 == 's' && c4 == 'e' {
            TokenKind::FalseKw
        } else if c0 == 'm' && c1 == 'a' && c2 == 't' && c3 == 'c' && c4 == 'h' {
            TokenKind::MatchKw
        } else {
            TokenKind::Ident
        }
    } else {
        TokenKind::Ident
    }
}

/// The kind and end position of the token starting at `i`.
fn next_token(chars: &Vec<char>, i: usize) -> (r: (TokenKind, usize))
    requires
        i < chars@.len(),
    ensures
        r.0 == token_at(chars@, i as int).0,
        r.1 as int == token_at(chars@, i as int).1,
        i < r.1 <= chars@.len(),
{
    proof { lemma_token_at_bounds(chars@, i as int); }
    let n = chars.len();
    let c = chars[i];
    if whitespace_char(c) {
        (TokenKind::Whitespace, scan_whitespace(chars, i))
    } else if alpha_char(c) {
        proof { lemma_ident_end_bounds(chars@, i as int + 1); }
        let e = scan_ident(chars, i);
        (classify_word(chars, i, e), e)
    } else if digit_char(c) {
        let d = scan_digits_sep(chars, i + 1);
        proof { lemma_digit_sep_end_bounds(chars@, i as int + 1); }
        if d < chars.len() && chars[d] == '.' && d + 1 < chars.len() && digit_char(chars[d + 1]) {
            (TokenKind::Float, scan_digits_sep(chars, d + 2))
        } else {
            (TokenKind::Num, scan_digits(chars, i + 1))
        }
    } else if c == '/' && i + 1 < chars.len() && chars[i + 1] == '/' {
        (TokenKind::Comment, scan_comment(chars, i + 2))
    } else if c == '<' && i + 1 < chars.len() && chars[i + 1] == '=' {
        (TokenKind::LessThanEq, i + 2)
    } else if c == '>' && i + 1 < chars.len() && chars[i + 1] == '=' {
        (TokenKind::GreaterThanEq, i + 2)
    } else if c == '!' && i + 1 < chars.len() && chars[i + 1] == '=' {
        (TokenKind::NotEqual, i + 2)
    } else if c == '=' && i + 1 < chars.len() && chars[i + 1] == '=' {
        (TokenKind::Equal, i + 2)
    } else if c == '=' && i + 1 < chars.len() && chars[i + 1] == '>' {
        (TokenKind::FatArrow, i + 2)
    } else if c == '+' { (TokenKind::Plus, i + 1) }
    else if c == '-' { (TokenKind::Minus, i + 1) }
    else if c == '*' { (TokenKind::Star, i + 1) }
    else if c == '/' { (TokenKind::Slash, i + 1) }
    else if c == '=' { (TokenKind::Equals, i + 1) }
    else if c == '(' { (TokenKind::LParen, i + 1) }
    else if c == ')' { (TokenKind::RParen, i + 1) }
    else if c == '{' { (TokenKind::LBrace, i + 1) }
    else if c == '}' { (TokenKind::RBrace, i + 1) }
    else if c == '[' { (TokenKind::LBracket, i + 1) }
    else if c == ']' { (TokenKind::RBracket, i + 1) }
    else if c == '<' { (TokenKind::LessThan, i + 1) }
    else if c == '>' { (TokenKind::GreaterThan, i + 1) }
    else if c == ':' { (TokenKind::Colon, i + 1) }
    else { (TokenKind::Error, i + 1) }
}

fn to_char_vec(input: &str) -> (r: Vec<char>)
    ensures
        r@ == input@,
{
    let n = input.unicode_len();
    let mut v: Vec<char> = Vec::new();
    let mut j: usize = 0;
    while j < n
        invariant
            n == input@.len(),
            j <= n,
            v@ == input@.subrange(0, j as int),
        decreases n - j,
    {
        let c = input.get_char(j);
        v.push(c);
        j = j + 1;
        proof {
            assert(v@ =~= input@.subrange(0, j as int));
        }
    }
    proof {
        assert(input@.subrange(0, n as int) =~= input@);
    }
    v
}

/// Splits the input into its full ordered token sequence. Total: every
/// character is covered by exactly one token.
pub fn tokenize(input: &str) -> (r: Vec<Token>)
    ensures
        tokens_view(r@) == lex_from(input@, 0),
{
    let chars = to_char_vec(input);
    let ghost s = input@;
    let mut out: Vec<Token> = Vec::new();
    let mut i: usize = 0;
    proof {
        assert(tokens_view(out@) + lex_from(s, 0) =~= lex_from(s, 0));
    }
    while i < chars.len()
        invariant
            chars@ == s,
            input@ == s,
            i <= chars@.len(),
            tokens_view(out@) + lex_from(s, i as int) == lex_from(s, 0),
        decreases chars@.len() - i,
    {
        let (kind, e) = next_token(&chars, i);
        let text = input.substring_char(i, e).to_owned();
        let tok = Token { kind, text, start: i, end: e };
        proof {
            let t = Tok {
                kind: token_at(s, i as int).0,
                text: s.subrange(i as int, e as int),
                start: i as int,
                end: e as int,
            };
            assert(tok@ == t);
            assert(lex_from(s, i as int) == seq![t] + lex_from(s, e as int));
            assert(tokens_view(out@.push(tok)) =~= tokens_view(out@).push(tok@));
            assert(tokens_view(out@.push(tok)) + lex_from(s, e as int) =~= tokens_view(out@)
                + lex_from(s, i as int));
        }
        out.push(tok);
        i = e;
    }
    proof {
        assert(lex_from(s, i as int) =~= Seq::<Tok>::empty());
        assert(tokens_view(out@) + lex_from(s, i as int) =~= tokens_view(out@));
    }
    out
}

} // verus!

//! The Pratt expression grammar: binding-power driven precedence climbing
//! with forward error recovery. Each function is specified by a spec-level
//! twin, so the whole event stream a parse produces is a function of the
//! token stream alone.

use vstd::prelude::*;
use crate::parser::{
    at_spec, bump_spec, complete_spec, error_spec, expect_spec, peek_spec, precede_spec,
    start_spec, lemma_sig_pos, CompletedMarker, PState, Parser,
};
use crate::syntax_kind::SyntaxKind;
use crate::token_kind::TokenKind;

verus! {

/// A binary operator of the expression grammar.
pub enum BinaryOp {
    Add,
    Sub,
    Mul,
    Div,
}

impl BinaryOp {
    /// The operator's left and right binding powers: addition and
    /// subtraction bind weakest, multiplication and division tighter, and
    /// equal-precedence operators associate to the left because each
    /// operator's right power exceeds its left power.
    pub open spec fn spec_binding_power(self) -> (int, int) {
        match self {
            BinaryOp::Add | BinaryOp::Sub => (1, 2),
            BinaryOp::Mul | BinaryOp::Div => (3, 4),
        }
    }

    pub fn binding_power(&self) -> (r: (u8, u8))
        ensures
            r.0 as int == self.spec_binding_power().0,
            r.1 as int == self.spec_binding_power().1,
    {
        match self {
            BinaryOp::Add | BinaryOp::Sub => (1, 2),
            BinaryOp::Mul | BinaryOp::Div => (3, 4),
        }
    }
}

/// A unary operator of the expression grammar.
pub enum UnaryOp {
    Neg,
}

impl UnaryOp {
    /// Unary negation binds tighter than every binary operator.
    pub fn binding_power(&self) -> (r: ((), u8))
        ensures
            r.1 == 5,
    {
        match self {
            UnaryOp::Neg => ((), 5),
        }
    }
}

/// The model of an optional completed marker: the index of its start event.
pub open spec fn cm_opt_model(r: Option<CompletedMarker>) -> Option<int> {
    match r {
        Some(cm) => Some(cm.pos as int),
        None => None,
    }
}

/// A later parser state, guarded: keeps `m2` whenever it has the same
/// tokens and a cursor no earlier than `floor`'s (which every grammar step
/// guarantees), and falls back to `floor` otherwise so that termination of
/// the spec grammar is structural.
pub open spec fn advance(m2: PState, floor: PState) -> PState {
    if m2.toks == floor.toks && floor.pos <= m2.pos <= floor.toks.len() {
        m2
    } else {
        floor
    }
}

/// Probing for a binary operator, in the grammar's order; each probe
/// records its kind as acceptable here.
pub open spec fn op_probe_spec(m: PState) -> (PState, Option<BinaryOp>) {
    let r1 = at_spec(m, TokenKind::Plus);
    if r1.1 {
        (r1.0, Some(BinaryOp::Add))
    } else {
        let r2 = at_spec(r1.0, TokenKind::Minus);
        if r2.1 {
            (r2.0, Some(BinaryOp::Sub))
        } else {
            let r3 = at_spec(r2.0, TokenKind::Star);
            if r3.1 {
                (r3.0, Some(BinaryOp::Mul))
            } else {
                let r4 = at_spec(r3.0, TokenKind::Slash);
                if r4.1 {
                    (r4.0, Some(BinaryOp::Div))
                } else {
                    (r4.0, None)
                }
            }
        }
    }
}

/// A literal node: a single `Num` token.
pub open spec fn literal_spec(m: PState) -> (PState, int) {
    if m.wf() && peek_spec(m) == Some(TokenKind::Num) {
        let s = start_spec(m);
        (complete_spec(bump_spec(s.0), s.1, SyntaxKind::Literal), s.1)
    } else {
        (m, 0)
    }
}

/// A variable reference node: a single `Ident` token.
pub open spec fn variable_ref_spec(m: PState) -> (PState, int) {
    if m.wf() && peek_spec(m) == Some(TokenKind::Ident) {
        let s = start_spec(m);
        (complete_spec(bump_spec(s.0), s.1, SyntaxKind::VariableRef), s.1)
    } else {
        (m, 0)
    }
}

/// A prefix (negation) node: the minus sign, then the operand parsed at the
/// unary operator's right binding power. The node closes even when no
/// operand could be parsed; the error is already recorded.
pub open spec fn prefix_expr_spec(m: PState) -> (PState, int)
    decreases m.toks.len() - m.pos, 1int,
        via prefix_expr_spec_dec
{
    if m.wf() && peek_spec(m) == Some(TokenKind::Minus) {
        let s = start_spec(m);
        let m2 = bump_spec(s.0);
        let m3 = advance(expr_binding_power_spec(m2, 5).0, m2);
        (complete_spec(m3, s.1, SyntaxKind::PrefixExpr), s.1)
    } else {
        (m, 0)
    }
}

#[via_fn]
proof fn prefix_expr_spec_dec(m: PState) {
    if m.wf() {
        lemma_sig_pos(m.toks, m.pos);
    }
}

/// A parenthesized node: `(`, a full sub-expression at binding power 0,
/// then a required `)`. A missing `)` is an error, but the node still
/// closes and parsing goes on.
pub open spec fn paren_expr_spec(m: PState) -> (PState, int)
    decreases m.toks.len() - m.pos, 1int,
        via paren_expr_spec_dec
{
    if m.wf() && peek_spec(m) == Some(TokenKind::LParen) {
        let s = start_spec(m);
        let m2 = bump_spec(s.0);
        let m3 = advance(expr_binding_power_spec(m2, 0).0, m2);
        let m4 = expect_spec(m3, TokenKind::RParen);
        (complete_spec(m4, s.1, SyntaxKind::ParenExpr), s.1)
    } else {
        (m, 0)
    }
}

#[via_fn]
proof fn paren_expr_spec_dec(m: PState) {
    if m.wf() {
        lemma_sig_pos(m.toks, m.pos);
    }
}

/// The left-hand side of an expression: a literal, a variable reference, a
/// prefix expression or a parenthesized expression. Anything else records
/// an error naming the acceptable kinds and yields no node, without
/// consuming the offending token.
pub open spec fn lhs_spec(m: PState) -> (PState, Option<int>)
    decreases m.toks.len() - m.pos, 2int,
{
    if !m.wf() {
        (m, None)
    } else {
        let r1 = at_spec(m, TokenKind::Num);
        if r1.1 {
            let l = literal_spec(r1.0);
            (l.0, Some(l.1))
        } else {
            let r2 = at_spec(r1.0, TokenKind::Ident);
            if r2.1 {
                let v = variable_ref_spec(r2.0);
                (v.0, Some(v.1))
            } else {
                let r3 = at_spec(r2.0, TokenKind::Minus);
                if r3.1 {
                    let px = prefix_expr_spec(r3.0);
                    (px.0, Some(px.1))
                } else {
                    let r4 = at_spec(r3.0, TokenKind::LParen);
                    if r4.1 {
                        let pe = paren_expr_spec(r4.0);
                        (pe.0, Some(pe.1))
                    } else {
                        (error_spec(r4.0), None)
                    }
                }
            }
        }
    }
}

/// The binary-operator loop: while the next significant token is an
/// operator whose left binding power is at least the minimum, consume it,
/// wrap the accumulated left-hand side into a new `InfixExpr` via
/// `precede`, and parse the right-hand side at the operator's right
/// binding power. A failed right-hand side still closes the infix node but
/// stops the loop.
pub open spec fn infix_loop_spec(m: PState, lhs_mk: int, min_bp: int) -> (PState, Option<int>)
    decreases m.toks.len() - m.pos, 1int,
        via infix_loop_spec_dec
{
    if !m.wf() {
        (m, Some(lhs_mk))
    } else {
        let pr = op_probe_spec(m);
        match pr.1 {
            None => (pr.0, Some(lhs_mk)),
            Some(op) => {
                if op.spec_binding_power().0 < min_bp {
                    (pr.0, Some(lhs_mk))
                } else {
                    let m2 = bump_spec(pr.0);
                    let p2 = precede_spec(m2, lhs_mk);
                    let rhs = expr_binding_power_spec(p2.0, op.spec_binding_power().1);
                    let m4 = advance(rhs.0, p2.0);
                    let m5 = complete_spec(m4, p2.1, SyntaxKind::InfixExpr);
                    if rhs.1 is Some {
                        infix_loop_spec(m5, p2.1, min_bp)
                    } else {
                        (m5, Some(p2.1))
                    }
                }
            },
        }
    }
}

#[via_fn]
proof fn infix_loop_spec_dec(m: PState, lhs_mk: int, min_bp: int) {
    if m.wf() {
        lemma_sig_pos(m.toks, m.pos);
    }
}

/// A full expression at the given minimum binding power: a left-hand side,
/// then the binary-operator loop. No left-hand side means no node: the
/// error is recorded and nothing further is consumed at this level.
pub open spec fn expr_binding_power_spec(m: PState, min_bp: int) -> (PState, Option<int>)
    decreases m.toks.len() - m.pos, 3int,
{
    if !m.wf() {
        (m, None)
    } else {
        let l = lhs_spec(m);
        match l.1 {
            None => (l.0, None),
            Some(mk) => infix_loop_spec(advance(l.0, m), mk, min_bp),
        }
    }
}

/// The items under the root: expressions, repeatedly, until only trivia
/// remains. A token no expression can start with is reported and then
/// consumed into the root, so that parsing always makes progress and the
/// tree always covers the whole input.
pub open spec fn root_items_spec(m: PState) -> PState
    decreases m.toks.len() - m.pos, 4int,
        via root_items_spec_dec
{
    if !m.wf() || peek_spec(m) is None {
        m
    } else {
        let r = expr_binding_power_spec(m, 0);
        let m1 = advance(r.0, m);
        match r.1 {
            Some(_) => {
                if m1.pos > m.pos {
                    root_items_spec(m1)
                } else {
                    m1
                }
            },
            None => {
                if peek_spec(m1) is Some {
                    root_items_spec(bump_spec(m1))
                } else {
                    m1
                }
            },
        }
    }
}

#[via_fn]
proof fn root_items_spec_dec(m: PState) {
    if m.wf() {
        lemma_sig_pos(m.toks, m.pos);
        let r = expr_binding_power_spec(m, 0);
        let m1 = advance(r.0, m);
        if r.1 is None && peek_spec(m1) is Some {
            lemma_sig_pos(m1.toks, m1.pos);
        }
    }
}

/// The whole-input grammar: a `Root` node containing the expression items;
/// it always closes, whatever errors occurred.
pub open spec fn root_spec(m: PState) -> PState {
    let s = start_spec(m);
    complete_spec(root_items_spec(s.0), s.1, SyntaxKind::Root)
}

/// Parses one expression (binding power 0).
pub fn expr(p: &mut Parser) -> (r: Option<CompletedMarker>)
    requires
        old(p)@.wf(),
    ensures
        final(p)@ == expr_binding_power_spec(old(p)@, 0).0,
        cm_opt_model(r) == expr_binding_power_spec(old(p)@, 0).1,
        final(p)@.wf(),
        final(p)@.toks == old(p)@.toks,
        old(p)@.pos <= final(p)@.pos,
        old(p)@.events.len() <= final(p)@.events.len(),
        r is Some ==> old(p)@.pos < final(p)@.pos && (r->Some_0.pos as int) < final(p)@.events.len(),
        r is None ==> final(p)@.pos == old(p)@.pos,
    decreases old(p)@.toks.len() - old(p)@.pos, 4int,
{
    expr_binding_power(p, 0)
}

/// Parses one expression whose operators all bind at least as tightly as
/// `minimum_binding_power`; an operator binding less tightly is left for
/// the enclosing call.
pub fn expr_binding_power(p: &mut Parser, minimum_binding_power: u8) -> (r: Option<
    CompletedMarker,
>)
    requires
        old(p)@.wf(),
    ensures
        final(p)@ == expr_binding_power_spec(old(p)@, minimum_binding_power as int).0,
        cm_opt_model(r) == expr_binding_power_spec(old(p)@, minimum_binding_power as int).1,
        final(p)@.wf(),
        final(p)@.toks == old(p)@.toks,
        old(p)@.pos <= final(p)@.pos,
        old(p)@.events.len() <= final(p)@.events.len(),
        r is Some ==> old(p)@.pos < final(p)@.pos && (r->Some_0.pos as int) < final(p)@.events.len(),
        r is None ==> final(p)@.pos == old(p)@.pos,
    decreases old(p)@.toks.len() - old(p)@.pos, 3int,
{
    let ghost m0 = p@;
    let lhs_result = lhs(p);
    let mut cur: CompletedMarker;
    match lhs_result {
        None => {
            return None;
        },
        Some(cm) => {
            cur = cm;
        },
    }
    let ghost m1 = p@;
    proof {
        assert(advance(m1, m0) == m1);
    }
    #[verifier::loop_isolation(false)]
    loop
        invariant
            p@.wf(),
            p@.toks == m0.toks,
            m0.pos < p@.pos,
            m0.events.len() <= p@.events.len(),
            (cur.pos as int) < p@.events.len(),
            infix_loop_spec(m1, cm_opt_model(lhs_result)->Some_0, minimum_binding_power as int)
                == infix_loop_spec(p@, cur.pos as int, minimum_binding_power as int),
        decreases p@.toks.len() - p@.pos,
    {
        let ghost mi = p@;
        let ghost cur0 = cur;
        let op_result = op_probe(p);
        let op = match op_result {
            None => {
                proof {
                    assert(infix_loop_spec(mi, cur.pos as int, minimum_binding_power as int) == (
                        p@,
                        Some(cur.pos as int),
                    ));
                }
                break ;
            },
            Some(op) => op,
        };
        let (left_binding_power, right_binding_power) = op.binding_power();
        if left_binding_power < minimum_binding_power {
            proof {
                assert(infix_loop_spec(mi, cur.pos as int, minimum_binding_power as int) == (
                    p@,
                    Some(cur.pos as int),
                ));
            }
            break ;
        }
        // Eat the operator's token.
        p.bump();
        let ghost m2 = p@;
        let m = cur.precede(p);
        let ghost m3 = p@;
        let parsed = expr_binding_power(p, right_binding_power);
        let ghost m4 = p@;
        proof {
            assert(advance(m4, m3) == m4);
        }
        cur = m.complete(p, SyntaxKind::InfixExpr);
        if parsed.is_none() {
            proof {
                assert(infix_loop_spec(mi, cur0.pos as int, minimum_binding_power as int) == (
                    p@,
                    Some(cur.pos as int),
                ));
            }
            break ;
        }
        proof {
            assert(infix_loop_spec(mi, cur0.pos as int, minimum_binding_power as int)
                == infix_loop_spec(p@, cur.pos as int, minimum_binding_power as int));
        }
    }
    Some(cur)
}

/// Probes the next significant token for a binary operator.
fn op_probe(p: &mut Parser) -> (r: Option<BinaryOp>)
    requires
        old(p)@.wf(),
    ensures
        final(p)@ == op_probe_spec(old(p)@).0,
        r == op_probe_spec(old(p)@).1,
        final(p)@.wf(),
        final(p)@.toks == old(p)@.toks,
        final(p)@.pos == old(p)@.pos,
        final(p)@.events == old(p)@.events,
        r is Some ==> peek_spec(final(p)@) is Some,
{
    if p.at(TokenKind::Plus) {
        Some(BinaryOp::Add)
    } else if p.at(TokenKind::Minus) {
        Some(BinaryOp::Sub)
    } else if p.at(TokenKind::Star) {
        Some(BinaryOp::Mul)
    } else if p.at(TokenKind::Slash) {
        Some(BinaryOp::Div)
    } else {
        // Not at an operator: the caller decides what happens next.
        None
    }
}

/// Dispatches on the next significant token to parse a left-hand side.
pub fn lhs(p: &mut Parser) -> (r: Option<CompletedMarker>)
    requires
        old(p)@.wf(),
    ensures
        final(p)@ == lhs_spec(old(p)@).0,
        cm_opt_model(r) == lhs_spec(old(p)@).1,
        final(p)@.wf(),
        final(p)@.toks == old(p)@.toks,
        old(p)@.pos <= final(p)@.pos,
        old(p)@.events.len() <= final(p)@.events.len(),
        r is Some ==> old(p)@.pos < final(p)@.pos && (r->Some_0.pos as int) < final(p)@.events.len(),
        r is None ==> final(p)@.pos == old(p)@.pos,
    decreases old(p)@.toks.len() - old(p)@.pos, 2int,
{
    if p.at(TokenKind::Num) {
        Some(literal(p))
    } else if p.at(TokenKind::Ident) {
        Some(variable_ref(p))
    } else if p.at(TokenKind::Minus) {
        Some(prefix_expr(p))
    } else if p.at(TokenKind::LParen) {
        Some(paren_expr(p))
    } else {
        p.error();
        None
    }
}

/// Parses a literal: a single `Num` token under a `Literal` node.
pub fn literal(p: &mut Parser) -> (cm: CompletedMarker)
    requires
        old(p)@.wf(),
        peek_spec(old(p)@) == Some(TokenKind::Num),
    ensures
        final(p)@ == literal_spec(old(p)@).0,
        cm.pos as int == literal_spec(old(p)@).1,
        final(p)@.wf(),
        final(p)@.toks == old(p)@.toks,
        old(p)@.pos < final(p)@.pos,
        old(p)@.events.len() <= final(p)@.events.len(),
        (cm.pos as int) < final(p)@.events.len(),
{
    let m = p.start();
    p.bump();
    m.complete(p, SyntaxKind::Literal)
}

/// Parses a variable reference: a single `Ident` token under a
/// `VariableRef` node.
pub fn variable_ref(p: &mut Parser) -> (cm: CompletedMarker)
    requires
        old(p)@.wf(),
        peek_spec(old(p)@) == Some(TokenKind::Ident),
    ensures
        final(p)@ == variable_ref_spec(old(p)@).0,
        cm.pos as int == variable_ref_spec(old(p)@).1,
        final(p)@.wf(),
        final(p)@.toks == old(p)@.toks,
        old(p)@.pos < final(p)@.pos,
        old(p)@.events.len() <= final(p)@.events.len(),
        (cm.pos as int) < final(p)@.events.len(),
{
    let m = p.start();
    p.bump();
    m.complete(p, SyntaxKind::VariableRef)
}

/// Parses a prefix expression: the minus sign, then its operand at the
/// unary right binding power. The node closes even when the operand is
/// missing; the error has already been recorded.
pub fn prefix_expr(p: &mut Parser) -> (cm: CompletedMarker)
    requires
        old(p)@.wf(),
        peek_spec(old(p)@) == Some(TokenKind::Minus),
    ensures
        final(p)@ == prefix_expr_spec(old(p)@).0,
        cm.pos as int == prefix_expr_spec(old(p)@).1,
        final(p)@.wf(),
        final(p)@.toks == old(p)@.toks,
        old(p)@.pos < final(p)@.pos,
        old(p)@.events.len() <= final(p)@.events.len(),
        (cm.pos as int) < final(p)@.events.len(),
    decreases old(p)@.toks.len() - old(p)@.pos, 1int,
{
    let m = p.start();
    let op = UnaryOp::Neg;
    let (_unused, right_binding_power) = op.binding_power();
    // Eat the operator's token.
    p.bump();
    let ghost m2 = p@;
    let _operand = expr_binding_power(p, right_binding_power);
    proof {
        assert(advance(p@, m2) == p@);
    }
    m.complete(p, SyntaxKind::PrefixExpr)
}

/// Parses a parenthesized expression: `(`, a full sub-expression, and a
/// required `)` whose absence is an error but not a stop.
pub fn paren_expr(p: &mut Parser) -> (cm: CompletedMarker)
    requires
        old(p)@.wf(),
        peek_spec(old(p)@) == Some(TokenKind::LParen),
    ensures
        final(p)@ == paren_expr_spec(old(p)@).0,
        cm.pos as int == paren_expr_spec(old(p)@).1,
        final(p)@.wf(),
        final(p)@.toks == old(p)@.toks,
        old(p)@.pos < final(p)@.pos,
        old(p)@.events.len() <= final(p)@.events.len(),
        (cm.pos as int) < final(p)@.events.len(),
    decreases old(p)@.toks.len() - old(p)@.pos, 1int,
{
    let m = p.start();
    p.bump();
    let ghost m2 = p@;
    let _inner = expr_binding_power(p, 0);
    proof {
        assert(advance(p@, m2) == p@);
    }
    p.expect(TokenKind::RParen);
    m.complete(p, SyntaxKind::ParenExpr)
}

/// Parses the whole input: a single `Root` node holding the expression
/// items, closed regardless of any errors along the way.
pub fn root(p: &mut Parser)
    requires
        old(p)@.wf(),
    ensures
        final(p)@ == root_spec(old(p)@),
        final(p)@.wf(),
        final(p)@.toks == old(p)@.toks,
{
    let ghost m0 = p@;
    let m = p.start();
    let ghost ms = p@;
    #[verifier::loop_isolation(false)]
    loop
        invariant
            p@.wf(),
            p@.toks == m0.toks,
            (m.pos as int) < p@.events.len(),
            root_items_spec(ms) == root_items_spec(p@),
        decreases p@.toks.len() - p@.pos,
    {
        let ghost mi = p@;
        let next = p.peek();
        if next.is_none() {
            proof {
                assert(root_items_spec(mi) == mi);
            }
            break ;
        }
        let parsed = expr(p);
        let ghost m1 = p@;
        proof {
            assert(advance(m1, mi) == m1);
        }
        if parsed.is_none() {
            let again = p.peek();
            if again.is_none() {
                proof {
                    assert(root_items_spec(mi) == p@);
                }
                break ;
            }
            p.bump();
            proof {
                assert(root_items_spec(mi) == root_items_spec(p@));
            }
        } else {
            proof {
                assert(root_items_spec(mi) == root_items_spec(p@));
            }
        }
    }
    m.complete(p, SyntaxKind::Root);
}

} // verus!

//! The library's laws, stated over the spec-level pipeline that every
//! public function's contract is pinned to: losslessness (the tree's
//! leaves, concatenated in order, reproduce the input exactly),
//! well-formedness (a node's children tile its range contiguously), and
//! idempotent re-derivation (the whole pipeline is a function of the
//! input text alone).

use vstd::prelude::*;
use crate::grammar::{
    advance, expr_binding_power_spec, infix_loop_spec, lhs_spec, literal_spec, op_probe_spec,
    paren_expr_spec, prefix_expr_spec, root_items_spec, root_spec, variable_ref_spec,
};
use crate::lexer::{lex_from, lemma_lex_lossless, texts_concat, Tok};
use crate::parser::{
    at_spec, bump_spec, complete_spec, error_diag, error_spec, expect_spec, lemma_sig_pos,
    peek_spec, precede_spec, set_kind, sig_pos, start_spec, Diag, Ev, PState,
};
use crate::parse::{parse_spec, ParseModel};
use crate::syntax_kind::SyntaxKind;
use crate::token_kind::TokenKind;
use crate::tree::{
    apply_event, children_text, eat_trivia, elem_text, fold_stack, node_text, open_nodes,
    push_child, sink_iter, starts_iter, starts_of, ElemModel, NodeModel, SinkState,
};

verus! {

/// The number of `AddToken` events in an event list.
spec fn n_tok_events(evs: Seq<Ev>) -> int
    decreases evs.len(),
{
    if evs.len() == 0 {
        0
    } else {
        n_tok_events(evs.drop_last()) + if evs.last() is Token {
            1int
        } else {
            0int
        }
    }
}

/// The number of significant (non-trivia) tokens in `[a, b)`.
spec fn n_sig(toks: Seq<Tok>, a: int, b: int) -> int
    decreases b - a,
{
    if a < 0 || a >= b || b > toks.len() {
        0
    } else {
        (if toks[a].kind.spec_is_trivia() {
            0int
        } else {
            1int
        }) + n_sig(toks, a + 1, b)
    }
}

/// The number of significant tokens in a whole stream.
spec fn n_sig_toks(toks: Seq<Tok>) -> int
    decreases toks.len(),
{
    if toks.len() == 0 {
        0
    } else {
        (if toks[0].kind.spec_is_trivia() {
            0int
        } else {
            1int
        }) + n_sig_toks(toks.skip(1))
    }
}

proof fn lemma_n_sig_toks_eq(toks: Seq<Tok>, a: int)
    requires
        0 <= a <= toks.len(),
    ensures
        n_sig(toks, a, toks.len() as int) == n_sig_toks(toks.skip(a)),
    decreases toks.len() - a,
{
    if a < toks.len() {
        lemma_n_sig_toks_eq(toks, a + 1);
        assert(toks.skip(a)[0] == toks[a]);
        assert(toks.skip(a).skip(1) =~= toks.skip(a + 1));
        assert(toks.skip(a).len() > 0);
    } else {
        assert(toks.skip(a).len() == 0);
    }
}

proof fn lemma_n_sig_split(toks: Seq<Tok>, a: int, b: int, c: int)
    requires
        0 <= a <= b <= c <= toks.len(),
    ensures
        n_sig(toks, a, c) == n_sig(toks, a, b) + n_sig(toks, b, c),
    decreases b - a,
{
    if a < b {
        lemma_n_sig_split(toks, a + 1, b, c);
    }
}

proof fn lemma_n_sig_all_trivia(toks: Seq<Tok>, a: int, b: int)
    requires
        0 <= a <= b <= toks.len(),
        forall|j: int| a <= j < b ==> toks[j].kind.spec_is_trivia(),
    ensures
        n_sig(toks, a, b) == 0,
    decreases b - a,
{
    if a < b {
        lemma_n_sig_all_trivia(toks, a + 1, b);
    }
}

proof fn lemma_n_tok_push(evs: Seq<Ev>, e: Ev)
    ensures
        n_tok_events(evs.push(e)) == n_tok_events(evs) + if e is Token {
            1int
        } else {
            0int
        },
{
    assert(evs.push(e).drop_last() =~= evs);
    assert(evs.push(e).last() == e);
}

proof fn lemma_n_tok_update(evs: Seq<Ev>, i: int, kind: SyntaxKind)
    requires
        0 <= i < evs.len(),
    ensures
        n_tok_events(evs.update(i, set_kind(evs[i], kind))) == n_tok_events(evs),
    decreases evs.len(),
{
    let evs2 = evs.update(i, set_kind(evs[i], kind));
    if i == evs.len() - 1 {
        assert(evs2.drop_last() =~= evs.drop_last());
    } else {
        lemma_n_tok_update(evs.drop_last(), i, kind);
        assert(evs2.drop_last() =~= evs.drop_last().update(i, set_kind(evs[i], kind)));
        assert(evs2.last() == evs.last());
    }
}

/// The later event list keeps the earlier one as its prefix.
spec fn prefix_kept(older: Seq<Ev>, newer: Seq<Ev>) -> bool {
    newer.len() >= older.len() && forall|j: int| 0 <= j < older.len() ==> newer[j] == older[j]
}

proof fn lemma_bump_facts(m: PState)
    requires
        m.wf(),
        peek_spec(m) is Some,
    ensures
        bump_spec(m).toks == m.toks,
        m.pos < bump_spec(m).pos <= m.toks.len(),
        bump_spec(m).events == m.events.push(Ev::Token),
        n_tok_events(bump_spec(m).events) == n_tok_events(m.events) + 1,
        n_sig(m.toks, m.pos, bump_spec(m).pos) == 1,
        evs_wf(m.events) ==> evs_wf(bump_spec(m).events),
{
    if evs_wf(m.events) {
        lemma_evs_wf_push_plain(m.events, Ev::Token);
    }
    lemma_sig_pos(m.toks, m.pos);
    let j = sig_pos(m.toks, m.pos);
    lemma_n_tok_push(m.events, Ev::Token);
    lemma_n_sig_all_trivia(m.toks, m.pos, j);
    lemma_n_sig_split(m.toks, m.pos, j, j + 1);
    assert(n_sig(m.toks, j + 1, j + 1) == 0);
    assert(n_sig(m.toks, j, j + 1) == 1);
}

proof fn lemma_complete_facts(m: PState, mpos: int, kind: SyntaxKind)
    requires
        m.wf(),
    ensures
        complete_spec(m, mpos, kind).toks == m.toks,
        complete_spec(m, mpos, kind).pos == m.pos,
        complete_spec(m, mpos, kind).events.len() == m.events.len() + 1,
        n_tok_events(complete_spec(m, mpos, kind).events) == n_tok_events(m.events),
        forall|j: int|
            0 <= j < m.events.len() && j != mpos ==> complete_spec(m, mpos, kind).events[j]
                == m.events[j],
{
    let evs = if 0 <= mpos < m.events.len() {
        m.events.update(mpos, set_kind(m.events[mpos], kind))
    } else {
        m.events
    };
    if 0 <= mpos < m.events.len() {
        lemma_n_tok_update(m.events, mpos, kind);
    }
    lemma_n_tok_push(evs, Ev::Finish);
}


/// Every retroactive open names a strictly earlier event, and never the
/// root's own start event.
spec fn evs_wf(evs: Seq<Ev>) -> bool {
    forall|j: int|
        0 <= j < evs.len() ==> (#[trigger] evs[j] matches Ev::StartAt { target, .. } ==> 1
            <= target < j)
}

proof fn lemma_evs_wf_push_plain(evs: Seq<Ev>, e: Ev)
    requires
        evs_wf(evs),
        !(e is StartAt),
    ensures
        evs_wf(evs.push(e)),
{
    assert forall|j: int| 0 <= j < evs.push(e).len() implies (#[trigger] evs.push(e)[j] matches
        Ev::StartAt { target, .. } ==> 1 <= target < j) by {
        if j < evs.len() {
            assert(evs.push(e)[j] == evs[j]);
        }
    }
}

proof fn lemma_evs_wf_push_at(evs: Seq<Ev>, t: int)
    requires
        evs_wf(evs),
        1 <= t < evs.len(),
    ensures
        evs_wf(evs.push(Ev::StartAt { kind: None, target: t })),
{
    let evs2 = evs.push(Ev::StartAt { kind: None, target: t });
    assert forall|j: int| 0 <= j < evs2.len() implies (#[trigger] evs2[j] matches Ev::StartAt {
        target,
        ..
    } ==> 1 <= target < j) by {
        if j < evs.len() {
            assert(evs2[j] == evs[j]);
        }
    }
}

proof fn lemma_evs_wf_update(evs: Seq<Ev>, i: int, kind: SyntaxKind)
    requires
        evs_wf(evs),
        0 <= i < evs.len(),
    ensures
        evs_wf(evs.update(i, set_kind(evs[i], kind))),
{
    let evs2 = evs.update(i, set_kind(evs[i], kind));
    assert forall|j: int| 0 <= j < evs2.len() implies (#[trigger] evs2[j] matches Ev::StartAt {
        target,
        ..
    } ==> 1 <= target < j) by {
        if j != i {
            assert(evs2[j] == evs[j]);
        } else {
            assert(evs2[j] == set_kind(evs[j], kind));
        }
    }
}


/// Token start offsets never decrease along the stream (the tokenizer
/// produces contiguous tokens, so this holds of every lexed stream).
spec fn toks_ordered(toks: Seq<Tok>) -> bool {
    forall|j1: int, j2: int| 0 <= j1 <= j2 < toks.len() ==> toks[j1].start <= toks[j2].start
}

proof fn lemma_lex_from_ordered(s: Seq<char>, i: int)
    requires
        0 <= i <= s.len(),
    ensures
        toks_ordered(lex_from(s, i)),
        forall|j: int| 0 <= j < lex_from(s, i).len() ==> #[trigger] lex_from(s, i)[j].start >= i,
    decreases s.len() - i,
{
    if i < s.len() {
        crate::lexer::lemma_token_at_bounds(s, i);
        let e = crate::lexer::token_at(s, i).1;
        lemma_lex_from_ordered(s, e);
        let rest = lex_from(s, e);
        let toks = lex_from(s, i);
        assert(toks[0].start == i);
        assert(forall|j: int| 1 <= j < toks.len() ==> toks[j] == rest[j - 1]);
        assert forall|j1: int, j2: int| 0 <= j1 <= j2 < toks.len() implies toks[j1].start
            <= toks[j2].start by {
            if j1 == 0 {
                if j2 > 0 {
                    assert(toks[j2].start >= e);
                }
            } else {
                assert(rest[j1 - 1].start <= rest[j2 - 1].start);
            }
        }
    }
}

proof fn lemma_sig_pos_mono(toks: Seq<Tok>, p1: int, p2: int)
    requires
        0 <= p1 <= p2 <= toks.len(),
    ensures
        sig_pos(toks, p1) <= sig_pos(toks, p2),
    decreases p2 - p1,
{
    lemma_sig_pos(toks, p1);
    lemma_sig_pos(toks, p2);
    if p1 < p2 {
        if p1 < toks.len() && toks[p1].kind.spec_is_trivia() {
            lemma_sig_pos_mono(toks, p1 + 1, p2);
        }
    }
}

/// The position a diagnostic recorded in this state would carry.
spec fn dstart(m: PState) -> int {
    error_diag(m).start
}

proof fn lemma_dstart_mono(m1: PState, m2: PState)
    requires
        m1.wf(),
        m2.wf(),
        m1.toks == m2.toks,
        toks_ordered(m1.toks),
        m1.pos <= m2.pos,
    ensures
        dstart(m1) <= dstart(m2),
{
    lemma_sig_pos(m1.toks, m1.pos);
    lemma_sig_pos(m1.toks, m2.pos);
    lemma_sig_pos_mono(m1.toks, m1.pos, m2.pos);
    let j1 = sig_pos(m1.toks, m1.pos);
    let j2 = sig_pos(m1.toks, m2.pos);
    if j1 < m1.toks.len() {
        if j2 < m1.toks.len() {
            assert(m1.toks[j1].start <= m1.toks[j2].start);
        } else {
            assert(m1.toks[j1].start <= m1.toks[m1.toks.len() - 1].start);
        }
    }
}

/// The diagnostics recorded between two states: each sits between the
/// positions the two states would report, and among themselves they come
/// in nondecreasing position order.
spec fn diags_ok(m: PState, r: PState) -> bool {
    &&& forall|j: int|
        m.events.len() <= j < r.events.len() ==> ((#[trigger] r.events[j]) matches Ev::Error {
            diag,
        } ==> dstart(m) <= diag.start <= dstart(r))
    &&& forall|j1: int, j2: int|
        m.events.len() <= j1 <= j2 < r.events.len() ==> ((#[trigger] r.events[j1]) matches
            Ev::Error { diag: d1 } ==> ((#[trigger] r.events[j2]) matches Ev::Error { diag: d2 }
            ==> d1.start <= d2.start))
}

/// The facts every grammar step guarantees, stated of a state pair.
spec fn step_facts(m: PState, r: PState) -> bool {
    &&& r.toks == m.toks
    &&& m.pos <= r.pos <= m.toks.len()
    &&& prefix_kept(m.events, r.events)
    &&& n_tok_events(r.events) == n_tok_events(m.events) + n_sig(m.toks, m.pos, r.pos)
    &&& toks_ordered(m.toks) ==> diags_ok(m, r)
}

proof fn lemma_step_compose(m1: PState, m2: PState, m3: PState)
    requires
        m1.wf(),
        step_facts(m1, m2),
        step_facts(m2, m3),
    ensures
        step_facts(m1, m3),
{
    lemma_n_sig_split(m1.toks, m1.pos, m2.pos, m3.pos);
    if toks_ordered(m1.toks) {
        lemma_dstart_mono(m1, m2);
        lemma_dstart_mono(m2, m3);
        assert forall|j: int| m1.events.len() <= j < m3.events.len() implies ((
        #[trigger] m3.events[j]) matches Ev::Error { diag } ==> dstart(m1) <= diag.start <= dstart(
            m3,
        )) by {
            if j < m2.events.len() {
                assert(m3.events[j] == m2.events[j]);
            }
        }
        assert forall|j1: int, j2: int| m1.events.len() <= j1 <= j2 < m3.events.len() implies ((
        #[trigger] m3.events[j1]) matches Ev::Error { diag: d1 } ==> ((#[trigger] m3.events[j2])
            matches Ev::Error { diag: d2 } ==> d1.start <= d2.start)) by {
            if j1 < m2.events.len() {
                assert(m3.events[j1] == m2.events[j1]);
            }
            if j2 < m2.events.len() {
                assert(m3.events[j2] == m2.events[j2]);
            }
        }
    }
}

proof fn lemma_literal(m: PState)
    requires
        m.wf(),
        m.events.len() >= 1,
        evs_wf(m.events),
    ensures
        step_facts(m, literal_spec(m).0),
        evs_wf(literal_spec(m).0.events),
        peek_spec(m) == Some(TokenKind::Num) ==> literal_spec(m).0.pos > m.pos,
        peek_spec(m) == Some(TokenKind::Num) ==> 1 <= m.events.len() <= literal_spec(m).1
            < literal_spec(m).0.events.len(),
{
    if peek_spec(m) == Some(TokenKind::Num) {
        let s = start_spec(m);
        lemma_n_tok_push(m.events, Ev::Start { kind: None });
        lemma_bump_facts(s.0);
        let b = bump_spec(s.0);
        lemma_complete_facts(b, s.1, SyntaxKind::Literal);
        lemma_n_sig_split(m.toks, m.pos, m.pos, b.pos);
        if evs_wf(m.events) {
            lemma_evs_wf_push_plain(m.events, Ev::Start { kind: None });
            lemma_evs_wf_push_plain(s.0.events, Ev::Token);
            lemma_evs_wf_update(b.events, s.1, SyntaxKind::Literal);
            lemma_evs_wf_push_plain(
                b.events.update(s.1, set_kind(b.events[s.1], SyntaxKind::Literal)),
                Ev::Finish,
            );
        }
    }
}

proof fn lemma_variable_ref(m: PState)
    requires
        m.wf(),
        m.events.len() >= 1,
        evs_wf(m.events),
    ensures
        step_facts(m, variable_ref_spec(m).0),
        evs_wf(variable_ref_spec(m).0.events),
        peek_spec(m) == Some(TokenKind::Ident) ==> variable_ref_spec(m).0.pos > m.pos,
        peek_spec(m) == Some(TokenKind::Ident) ==> 1 <= m.events.len() <= variable_ref_spec(m).1
            < variable_ref_spec(m).0.events.len(),
{
    if peek_spec(m) == Some(TokenKind::Ident) {
        let s = start_spec(m);
        lemma_n_tok_push(m.events, Ev::Start { kind: None });
        lemma_bump_facts(s.0);
        let b = bump_spec(s.0);
        lemma_complete_facts(b, s.1, SyntaxKind::VariableRef);
        if evs_wf(m.events) {
            lemma_evs_wf_push_plain(m.events, Ev::Start { kind: None });
            lemma_evs_wf_push_plain(s.0.events, Ev::Token);
            lemma_evs_wf_update(b.events, s.1, SyntaxKind::VariableRef);
            lemma_evs_wf_push_plain(
                b.events.update(s.1, set_kind(b.events[s.1], SyntaxKind::VariableRef)),
                Ev::Finish,
            );
        }
    }
}

proof fn lemma_error(m: PState)
    requires
        m.wf(),
    ensures
        step_facts(m, error_spec(m)),
        error_spec(m).pos == m.pos,
        evs_wf(m.events) ==> evs_wf(error_spec(m).events),
{
    lemma_n_tok_push(m.events, Ev::Error { diag: crate::parser::error_diag(m) });
    if evs_wf(m.events) {
        lemma_evs_wf_push_plain(m.events, Ev::Error { diag: crate::parser::error_diag(m) });
    }
}

proof fn lemma_expect(m: PState, kind: TokenKind)
    requires
        m.wf(),
    ensures
        step_facts(m, expect_spec(m, kind)),
        evs_wf(m.events) ==> evs_wf(expect_spec(m, kind).events),
{
    let r = at_spec(m, kind);
    if r.1 {
        lemma_bump_facts(r.0);
    } else {
        lemma_error(r.0);
    }
}

proof fn lemma_prefix_expr(m: PState)
    requires
        m.wf(),
        m.events.len() >= 1,
        evs_wf(m.events),
    ensures
        step_facts(m, prefix_expr_spec(m).0),
        evs_wf(prefix_expr_spec(m).0.events),
        peek_spec(m) == Some(TokenKind::Minus) ==> prefix_expr_spec(m).0.pos > m.pos,
        peek_spec(m) == Some(TokenKind::Minus) ==> 1 <= m.events.len() <= prefix_expr_spec(m).1
            < prefix_expr_spec(m).0.events.len(),
    decreases m.toks.len() - m.pos, 1int,
{
    if peek_spec(m) == Some(TokenKind::Minus) {
        let s = start_spec(m);
        lemma_n_tok_push(m.events, Ev::Start { kind: None });
        lemma_bump_facts(s.0);
        let m2 = bump_spec(s.0);
        if evs_wf(m.events) {
            lemma_evs_wf_push_plain(m.events, Ev::Start { kind: None });
        }
        lemma_expr_binding_power(m2, 5);
        let m3 = advance(expr_binding_power_spec(m2, 5).0, m2);
        assert(m3 == expr_binding_power_spec(m2, 5).0);
        lemma_complete_facts(m3, s.1, SyntaxKind::PrefixExpr);
        lemma_step_compose(m, m2, m3);
        if evs_wf(m.events) {
            lemma_evs_wf_update(m3.events, s.1, SyntaxKind::PrefixExpr);
            lemma_evs_wf_push_plain(
                m3.events.update(s.1, set_kind(m3.events[s.1], SyntaxKind::PrefixExpr)),
                Ev::Finish,
            );
        }
    }
}

proof fn lemma_paren_expr(m: PState)
    requires
        m.wf(),
        m.events.len() >= 1,
        evs_wf(m.events),
    ensures
        step_facts(m, paren_expr_spec(m).0),
        evs_wf(paren_expr_spec(m).0.events),
        peek_spec(m) == Some(TokenKind::LParen) ==> paren_expr_spec(m).0.pos > m.pos,
        peek_spec(m) == Some(TokenKind::LParen) ==> 1 <= m.events.len() <= paren_expr_spec(m).1
            < paren_expr_spec(m).0.events.len(),
    decreases m.toks.len() - m.pos, 1int,
{
    if peek_spec(m) == Some(TokenKind::LParen) {
        let s = start_spec(m);
        lemma_n_tok_push(m.events, Ev::Start { kind: None });
        lemma_bump_facts(s.0);
        let m2 = bump_spec(s.0);
        if evs_wf(m.events) {
            lemma_evs_wf_push_plain(m.events, Ev::Start { kind: None });
        }
        lemma_expr_binding_power(m2, 0);
        let m3 = advance(expr_binding_power_spec(m2, 0).0, m2);
        assert(m3 == expr_binding_power_spec(m2, 0).0);
        lemma_expect(m3, TokenKind::RParen);
        let m4 = expect_spec(m3, TokenKind::RParen);
        lemma_complete_facts(m4, s.1, SyntaxKind::ParenExpr);
        lemma_step_compose(m, m2, m3);
        lemma_step_compose(m, m3, m4);
        if evs_wf(m.events) {
            lemma_evs_wf_update(m4.events, s.1, SyntaxKind::ParenExpr);
            lemma_evs_wf_push_plain(
                m4.events.update(s.1, set_kind(m4.events[s.1], SyntaxKind::ParenExpr)),
                Ev::Finish,
            );
        }
    }
}

proof fn lemma_lhs(m: PState)
    requires
        m.wf(),
        m.events.len() >= 1,
        evs_wf(m.events),
    ensures
        step_facts(m, lhs_spec(m).0),
        evs_wf(lhs_spec(m).0.events),
        lhs_spec(m).1 is Some ==> lhs_spec(m).0.pos > m.pos,
        lhs_spec(m).1 is None ==> lhs_spec(m).0.pos == m.pos,
        lhs_spec(m).1 is Some ==> 1 <= lhs_spec(m).1->Some_0 < lhs_spec(m).0.events.len(),
    decreases m.toks.len() - m.pos, 2int,
{
    let r1 = at_spec(m, TokenKind::Num);
    if r1.1 {
        lemma_literal(r1.0);
    } else {
        let r2 = at_spec(r1.0, TokenKind::Ident);
        if r2.1 {
            lemma_variable_ref(r2.0);
        } else {
            let r3 = at_spec(r2.0, TokenKind::Minus);
            if r3.1 {
                lemma_prefix_expr(r3.0);
            } else {
                let r4 = at_spec(r3.0, TokenKind::LParen);
                if r4.1 {
                    lemma_paren_expr(r4.0);
                } else {
                    lemma_error(r4.0);
                }
            }
        }
    }
}

proof fn lemma_infix_loop(m: PState, lhs_mk: int, min_bp: int)
    requires
        m.wf(),
        evs_wf(m.events),
        1 <= lhs_mk < m.events.len(),
    ensures
        step_facts(m, infix_loop_spec(m, lhs_mk, min_bp).0),
        evs_wf(infix_loop_spec(m, lhs_mk, min_bp).0.events),
        infix_loop_spec(m, lhs_mk, min_bp).1 is Some,
    decreases m.toks.len() - m.pos, 1int,
{
    let pr = op_probe_spec(m);
    match pr.1 {
        None => {},
        Some(op) => {
            if op.spec_binding_power().0 < min_bp {
            } else {
                lemma_bump_facts(pr.0);
                let m2 = bump_spec(pr.0);
                let target = crate::parser::precede_target(m2, lhs_mk);
                let p2 = precede_spec(m2, lhs_mk);
                lemma_n_tok_push(m2.events, Ev::StartAt { kind: None, target });
                assert(evs_wf(m2.events));
                assert(m2.events[lhs_mk] == m.events[lhs_mk]);
                assert(1 <= target < m2.events.len());
                lemma_evs_wf_push_at(m2.events, target);
                lemma_expr_binding_power(p2.0, op.spec_binding_power().1);
                let rhs = expr_binding_power_spec(p2.0, op.spec_binding_power().1);
                let m4 = advance(rhs.0, p2.0);
                assert(m4 == rhs.0);
                lemma_complete_facts(m4, p2.1, SyntaxKind::InfixExpr);
                let m5 = complete_spec(m4, p2.1, SyntaxKind::InfixExpr);
                lemma_step_compose(m, m2, p2.0);
                lemma_step_compose(m, p2.0, m4);
                assert(p2.1 >= m.events.len());
                assert(prefix_kept(m.events, m5.events));
                lemma_evs_wf_update(m4.events, p2.1, SyntaxKind::InfixExpr);
                lemma_evs_wf_push_plain(
                    m4.events.update(p2.1, set_kind(m4.events[p2.1], SyntaxKind::InfixExpr)),
                    Ev::Finish,
                );
                assert(step_facts(m, m5));
                if rhs.1 is Some {
                    lemma_infix_loop(m5, p2.1, min_bp);
                    lemma_step_compose(m, m5, infix_loop_spec(m5, p2.1, min_bp).0);
                }
            }
        },
    }
}

proof fn lemma_expr_binding_power(m: PState, min_bp: int)
    requires
        m.wf(),
        m.events.len() >= 1,
        evs_wf(m.events),
    ensures
        step_facts(m, expr_binding_power_spec(m, min_bp).0),
        evs_wf(expr_binding_power_spec(m, min_bp).0.events),
        expr_binding_power_spec(m, min_bp).1 is Some ==> expr_binding_power_spec(m, min_bp).0.pos
            > m.pos,
        expr_binding_power_spec(m, min_bp).1 is None ==> expr_binding_power_spec(m, min_bp).0.pos
            == m.pos,
    decreases m.toks.len() - m.pos, 3int,
{
    lemma_lhs(m);
    let l = lhs_spec(m);
    match l.1 {
        None => {},
        Some(mk) => {
            assert(advance(l.0, m) == l.0);
            lemma_infix_loop(l.0, mk, min_bp);
            lemma_step_compose(m, l.0, infix_loop_spec(l.0, mk, min_bp).0);
        },
    }
}

proof fn lemma_root_items(m: PState)
    requires
        m.wf(),
        m.events.len() >= 1,
        evs_wf(m.events),
    ensures
        step_facts(m, root_items_spec(m)),
        evs_wf(root_items_spec(m).events),
        peek_spec(root_items_spec(m)) is None,
    decreases m.toks.len() - m.pos, 4int,
{
    if peek_spec(m) is None {
    } else {
        lemma_expr_binding_power(m, 0);
        let r = expr_binding_power_spec(m, 0);
        let m1 = advance(r.0, m);
        assert(m1 == r.0);
        match r.1 {
            Some(_) => {
                lemma_root_items(m1);
                lemma_step_compose(m, m1, root_items_spec(m1));
            },
            None => {
                if peek_spec(m1) is Some {
                    lemma_bump_facts(m1);
                    lemma_root_items(bump_spec(m1));
                    lemma_step_compose(m, m1, bump_spec(m1));
                    lemma_step_compose(m, bump_spec(m1), root_items_spec(bump_spec(m1)));
                }
            },
        }
    }
}

/// The run of the grammar over a fresh state: the final event list starts
/// with the root's open, and its `AddToken` events number exactly the
/// significant tokens of the stream — everything significant is consumed.
proof fn lemma_root_run(toks: Seq<Tok>)
    ensures
        ({
            let m0 = PState {
                toks,
                pos: 0,
                events: Seq::empty(),
                expected: Seq::empty(),
            };
            let mr = root_spec(m0);
            &&& mr.toks == toks
            &&& mr.events.len() >= 1
            &&& mr.events[0] == (Ev::Start { kind: Some(SyntaxKind::Root) })
            &&& n_tok_events(mr.events) == n_sig_toks(toks)
            &&& evs_wf(mr.events)
            &&& toks_ordered(toks) ==> events_errs_sorted(mr.events)
        }),
{
    let m0 = PState { toks, pos: 0, events: Seq::empty(), expected: Seq::empty() };
    let s = start_spec(m0);
    lemma_n_tok_push(m0.events, Ev::Start { kind: None });
    assert(s.0.events[0] == (Ev::Start { kind: None }));
    assert(s.1 == 0);
    assert(evs_wf(m0.events));
    lemma_evs_wf_push_plain(m0.events, Ev::Start { kind: None });
    lemma_root_items(s.0);
    let mi = root_items_spec(s.0);
    assert(mi.events[0] == (Ev::Start { kind: None }));
    lemma_complete_facts(mi, 0, SyntaxKind::Root);
    let mr = complete_spec(mi, 0, SyntaxKind::Root);
    assert(mr.events[0] == set_kind(Ev::Start { kind: None }, SyntaxKind::Root));
    lemma_evs_wf_update(mi.events, 0, SyntaxKind::Root);
    lemma_evs_wf_push_plain(
        mi.events.update(0, set_kind(mi.events[0], SyntaxKind::Root)),
        Ev::Finish,
    );
    // every significant token was consumed: nothing significant remains
    lemma_sig_pos(toks, mi.pos);
    assert(sig_pos(toks, mi.pos) == toks.len());
    lemma_n_sig_all_trivia(toks, mi.pos, toks.len() as int);
    lemma_n_sig_split(toks, 0, mi.pos, toks.len() as int);
    lemma_n_sig_toks_eq(toks, 0);
    assert(toks.skip(0) =~= toks);
    assert(n_tok_events(mr.events) == n_sig(toks, 0, toks.len() as int));
    if toks_ordered(toks) {
        // the diagnostics of the whole run are pairwise ordered: the root's
        // own open and close carry none, and the items in between are
        // covered by the step facts
        assert forall|j1: int, j2: int| 0 <= j1 <= j2 < mr.events.len() implies ((
        #[trigger] mr.events[j1]) matches Ev::Error { diag: d1 } ==> ((#[trigger] mr.events[j2])
            matches Ev::Error { diag: d2 } ==> d1.start <= d2.start)) by {
            if j1 < mi.events.len() && j1 >= 1 {
                assert(mr.events[j1] == mi.events[j1]);
            }
            if j2 < mi.events.len() && j2 >= 1 {
                assert(mr.events[j2] == mi.events[j2]);
            }
        }
    }
}

proof fn lemma_n_sig_toks_nonneg(toks: Seq<Tok>)
    ensures
        n_sig_toks(toks) >= 0,
        toks.len() > 0 && !toks[0].kind.spec_is_trivia() ==> n_sig_toks(toks) >= 1,
    decreases toks.len(),
{
    if toks.len() > 0 {
        lemma_n_sig_toks_nonneg(toks.skip(1));
    }
}

proof fn lemma_n_tok_nonneg(evs: Seq<Ev>)
    ensures
        n_tok_events(evs) >= 0,
    decreases evs.len(),
{
    if evs.len() > 0 {
        lemma_n_tok_nonneg(evs.drop_last());
    }
}

proof fn lemma_n_tok_first(evs: Seq<Ev>)
    requires
        evs.len() >= 1,
    ensures
        n_tok_events(evs) == n_tok_events(evs.skip(1)) + if evs[0] is Token {
            1int
        } else {
            0int
        },
    decreases evs.len(),
{
    if evs.len() == 1 {
        assert(evs.drop_last().len() == 0);
        assert(evs.skip(1).len() == 0);
        assert(n_tok_events(evs.drop_last()) == 0);
        assert(n_tok_events(evs.skip(1)) == 0);
        assert(evs.last() == evs[0]);
    } else {
        lemma_n_tok_first(evs.drop_last());
        assert(evs.drop_last()[0] == evs[0]);
        assert(evs.drop_last().skip(1) =~= evs.skip(1).drop_last());
        assert(evs.skip(1).len() >= 1);
        assert(evs.skip(1).last() == evs.last());
        assert(n_tok_events(evs) == n_tok_events(evs.drop_last()) + if evs.last() is Token {
            1int
        } else {
            0int
        });
        assert(n_tok_events(evs.skip(1)) == n_tok_events(evs.skip(1).drop_last()) + if evs.skip(
            1,
        ).last() is Token {
            1int
        } else {
            0int
        });
    }
}

/// The text the tokens of a leaf sequence spell, via the texts the stack's
/// nodes already hold: the nodes' texts in stack order.
spec fn stack_texts(stack: Seq<NodeModel>) -> Seq<char>
    decreases stack.len(),
{
    if stack.len() == 0 {
        Seq::empty()
    } else {
        node_text(stack[0]) + stack_texts(stack.skip(1))
    }
}

proof fn lemma_children_text_push(cs: Seq<ElemModel>, e: ElemModel)
    ensures
        children_text(cs.push(e)) == children_text(cs) + elem_text(e),
    decreases cs.len(),
{
    if cs.len() == 0 {
        assert(cs.push(e).len() == 1);
        assert(cs.push(e)[0] == e);
        assert(cs.push(e).skip(1) =~= Seq::<ElemModel>::empty());
        assert(children_text(Seq::<ElemModel>::empty()).len() == 0);
        assert(children_text(cs.push(e)) == elem_text(e) + children_text(
            Seq::<ElemModel>::empty(),
        ));
        assert(children_text(cs).len() == 0);
        assert(elem_text(e) + Seq::<char>::empty() =~= elem_text(e));
        assert(children_text(cs) + elem_text(e) =~= elem_text(e));
        assert(children_text(Seq::<ElemModel>::empty()) =~= Seq::<char>::empty());
    } else {
        lemma_children_text_push(cs.skip(1), e);
        assert(cs.push(e)[0] == cs[0]);
        assert(cs.push(e).skip(1) =~= cs.skip(1).push(e));
        assert(children_text(cs.push(e)) == elem_text(cs[0]) + children_text(cs.skip(1).push(e)));
        assert(children_text(cs) == elem_text(cs[0]) + children_text(cs.skip(1)));
        assert((elem_text(cs[0]) + children_text(cs.skip(1))) + elem_text(e) =~= elem_text(cs[0])
            + (children_text(cs.skip(1)) + elem_text(e)));
    }
}

proof fn lemma_stack_texts_last(stack: Seq<NodeModel>)
    requires
        stack.len() >= 1,
    ensures
        stack_texts(stack) == stack_texts(stack.drop_last()) + node_text(stack.last()),
    decreases stack.len(),
{
    if stack.len() == 1 {
        assert(stack.skip(1).len() == 0);
        assert(stack.drop_last().len() == 0);
        assert(stack_texts(stack.skip(1)).len() == 0);
        assert(stack_texts(stack.drop_last()).len() == 0);
        assert(stack_texts(stack) == node_text(stack[0]) + stack_texts(stack.skip(1)));
        assert(stack.last() == stack[0]);
        assert(node_text(stack[0]) + Seq::<char>::empty() =~= node_text(stack[0]));
        assert(Seq::<char>::empty() + node_text(stack[0]) =~= node_text(stack[0]));
        assert(stack_texts(stack.skip(1)) =~= Seq::<char>::empty());
        assert(stack_texts(stack.drop_last()) =~= Seq::<char>::empty());
    } else {
        lemma_stack_texts_last(stack.skip(1));
        assert(stack.skip(1).drop_last() =~= stack.drop_last().skip(1));
        assert(stack.skip(1).last() == stack.last());
        assert(stack.drop_last()[0] == stack[0]);
        assert(stack.drop_last().len() >= 1);
        assert(stack_texts(stack) == node_text(stack[0]) + stack_texts(stack.skip(1)));
        assert(stack_texts(stack.drop_last()) == node_text(stack[0]) + stack_texts(
            stack.drop_last().skip(1),
        ));
        assert((node_text(stack[0]) + stack_texts(stack.drop_last().skip(1))) + node_text(
            stack.last(),
        ) =~= node_text(stack[0]) + (stack_texts(stack.drop_last().skip(1)) + node_text(
            stack.last(),
        )));
    }
}

proof fn lemma_push_child_texts(stack: Seq<NodeModel>, e: ElemModel)
    requires
        stack.len() >= 1,
    ensures
        push_child(stack, e).len() == stack.len(),
        stack_texts(push_child(stack, e)) == stack_texts(stack) + elem_text(e),
{
    let top = stack.last();
    let newtop = NodeModel { kind: top.kind, children: top.children.push(e) };
    let upd = push_child(stack, e);
    assert(upd == stack.update(stack.len() - 1, newtop));
    assert(upd.drop_last() =~= stack.drop_last());
    assert(upd.last() == newtop);
    lemma_stack_texts_last(upd);
    lemma_stack_texts_last(stack);
    lemma_children_text_push(top.children, e);
    assert(node_text(newtop) == node_text(top) + elem_text(e));
    assert((stack_texts(stack.drop_last()) + node_text(top)) + elem_text(e) =~= stack_texts(
        stack.drop_last(),
    ) + (node_text(top) + elem_text(e)));
}

proof fn lemma_open_nodes_texts(stack: Seq<NodeModel>, kinds: Seq<SyntaxKind>)
    ensures
        open_nodes(stack, kinds).len() == stack.len() + kinds.len(),
        stack_texts(open_nodes(stack, kinds)) == stack_texts(stack),
        forall|k: int| 0 <= k < stack.len() ==> open_nodes(stack, kinds)[k] == stack[k],
        forall|k: int|
            0 <= k < kinds.len() ==> open_nodes(stack, kinds)[stack.len() + k].kind == kinds[k],
    decreases kinds.len(),
{
    if kinds.len() > 0 {
        let fresh = NodeModel { kind: kinds[0], children: Seq::empty() };
        lemma_stack_texts_last(stack.push(fresh));
        assert(stack.push(fresh).drop_last() =~= stack);
        assert(children_text(fresh.children).len() == 0);
        assert(stack_texts(stack) + node_text(fresh) =~= stack_texts(stack));
        lemma_open_nodes_texts(stack.push(fresh), kinds.skip(1));
        assert forall|k: int| 0 <= k < kinds.len() implies open_nodes(stack, kinds)[stack.len()
            + k].kind == kinds[k] by {
            if k == 0 {
                assert(open_nodes(stack, kinds)[stack.len() as int] == stack.push(fresh)[stack.len() as int]);
            } else {
                assert(open_nodes(stack, kinds)[stack.len() + k] == open_nodes(
                    stack.push(fresh),
                    kinds.skip(1),
                )[stack.push(fresh).len() + (k - 1)]);
                assert(kinds.skip(1)[k - 1] == kinds[k]);
            }
        }
    }
}

proof fn lemma_eat_trivia(st: SinkState)
    ensures
        eat_trivia(st).stack.len() == st.stack.len(),
        eat_trivia(st).errors == st.errors,
        stack_texts(eat_trivia(st).stack) + texts_concat(eat_trivia(st).rem) == stack_texts(
            st.stack,
        ) + texts_concat(st.rem),
        n_sig_toks(eat_trivia(st).rem) == n_sig_toks(st.rem),
        st.stack.len() >= 1 ==> (eat_trivia(st).rem.len() == 0 || !eat_trivia(
            st,
        ).rem[0].kind.spec_is_trivia()),
        st.stack.len() >= 1 ==> eat_trivia(st).stack[0].kind == st.stack[0].kind,
    decreases st.rem.len(),
{
    if st.rem.len() > 0 && st.rem[0].kind.spec_is_trivia() && st.stack.len() > 0 {
        let head = st.rem[0];
        let st2 = SinkState {
            stack: push_child(st.stack, ElemModel::Token(head)),
            rem: st.rem.skip(1),
            errors: st.errors,
        };
        lemma_push_child_texts(st.stack, ElemModel::Token(head));
        lemma_eat_trivia(st2);
        assert(texts_concat(st.rem) == head.text + texts_concat(st.rem.skip(1)));
        assert((stack_texts(st.stack) + head.text) + texts_concat(st.rem.skip(1)) =~= stack_texts(
            st.stack,
        ) + (head.text + texts_concat(st.rem.skip(1))));
    } else {
        assert(eat_trivia(st) == st);
    }
}

proof fn lemma_fold_stack_texts(stack: Seq<NodeModel>)
    requires
        stack.len() >= 1,
    ensures
        node_text(fold_stack(stack)) == stack_texts(stack),
    decreases stack.len(),
{
    if stack.len() == 1 {
        assert(fold_stack(stack) == stack[0]);
        assert(stack.skip(1).len() == 0);
        assert(stack_texts(stack.skip(1)).len() == 0);
        assert(stack_texts(stack) == node_text(stack[0]) + stack_texts(stack.skip(1)));
        assert(node_text(stack[0]) + stack_texts(stack.skip(1)) =~= node_text(stack[0]));
    } else {
        lemma_push_child_texts(stack.drop_last(), ElemModel::Node(stack.last()));
        lemma_stack_texts_last(stack);
        lemma_fold_stack_texts(push_child(stack.drop_last(), ElemModel::Node(stack.last())));
    }
}

proof fn lemma_starts_len(events: Seq<Ev>, j: int)
    requires
        j >= 0,
    ensures
        starts_iter(events, j).len() == events.len(),
    decreases j,
{
    if j > 0 {
        lemma_starts_len(events, j - 1);
    }
}


/// The diagnostics an event list carries, in event order.
spec fn err_diags(evs: Seq<Ev>) -> Seq<Diag>
    decreases evs.len(),
{
    if evs.len() == 0 {
        Seq::empty()
    } else {
        err_diags(evs.drop_last()) + (match evs.last() {
            Ev::Error { diag } => seq![diag],
            _ => Seq::<Diag>::empty(),
        })
    }
}

proof fn lemma_err_diags_first(evs: Seq<Ev>)
    requires
        evs.len() >= 1,
    ensures
        err_diags(evs) == (match evs[0] {
            Ev::Error { diag } => seq![diag],
            _ => Seq::<Diag>::empty(),
        }) + err_diags(evs.skip(1)),
    decreases evs.len(),
{
    let head: Seq<Diag> = match evs[0] {
        Ev::Error { diag } => seq![diag],
        _ => Seq::<Diag>::empty(),
    };
    if evs.len() == 1 {
        assert(evs.drop_last().len() == 0);
        assert(evs.skip(1).len() == 0);
        assert(evs.last() == evs[0]);
        assert(err_diags(evs.drop_last()).len() == 0);
        assert(err_diags(evs.skip(1)).len() == 0);
        assert(err_diags(evs) =~= head + err_diags(evs.skip(1)));
    } else {
        lemma_err_diags_first(evs.drop_last());
        assert(evs.drop_last()[0] == evs[0]);
        assert(evs.drop_last().skip(1) =~= evs.skip(1).drop_last());
        assert(evs.skip(1).len() >= 1);
        assert(evs.skip(1).last() == evs.last());
        let tail: Seq<Diag> = match evs.last() {
            Ev::Error { diag } => seq![diag],
            _ => Seq::<Diag>::empty(),
        };
        assert(err_diags(evs) == err_diags(evs.drop_last()) + tail);
        assert(err_diags(evs.skip(1)) == err_diags(evs.skip(1).drop_last()) + tail);
        assert((head + err_diags(evs.skip(1).drop_last())) + tail =~= head + (err_diags(
            evs.skip(1).drop_last(),
        ) + tail));
    }
}

/// All diagnostics across the whole event list come in nondecreasing
/// position order.
spec fn events_errs_sorted(evs: Seq<Ev>) -> bool {
    forall|j1: int, j2: int|
        0 <= j1 <= j2 < evs.len() ==> ((#[trigger] evs[j1]) matches Ev::Error { diag: d1 } ==> ((
        #[trigger] evs[j2]) matches Ev::Error { diag: d2 } ==> d1.start <= d2.start))
}

proof fn lemma_err_diags_le(evs: Seq<Ev>, hi: int)
    requires
        forall|j: int|
            0 <= j < evs.len() ==> ((#[trigger] evs[j]) matches Ev::Error { diag } ==> diag.start
                <= hi),
    ensures
        forall|k: int| 0 <= k < err_diags(evs).len() ==> #[trigger] err_diags(evs)[k].start <= hi,
    decreases evs.len(),
{
    if evs.len() > 0 {
        assert(forall|j: int| 0 <= j < evs.drop_last().len() ==> evs.drop_last()[j] == evs[j]);
        lemma_err_diags_le(evs.drop_last(), hi);
    }
}

proof fn lemma_err_diags_sorted(evs: Seq<Ev>)
    requires
        events_errs_sorted(evs),
    ensures
        forall|k1: int, k2: int|
            0 <= k1 <= k2 < err_diags(evs).len() ==> #[trigger] err_diags(evs)[k1].start
                <= #[trigger] err_diags(evs)[k2].start,
    decreases evs.len(),
{
    if evs.len() > 0 {
        assert(forall|j: int| 0 <= j < evs.drop_last().len() ==> evs.drop_last()[j] == evs[j]);
        lemma_err_diags_sorted(evs.drop_last());
        match evs.last() {
            Ev::Error { diag } => {
                assert forall|j: int| 0 <= j < evs.drop_last().len() implies ((
                #[trigger] evs.drop_last()[j]) matches Ev::Error { diag: d } ==> d.start
                    <= diag.start) by {
                    assert(evs.drop_last()[j] == evs[j]);
                    assert(evs[evs.len() - 1] == evs.last());
                }
                lemma_err_diags_le(evs.drop_last(), diag.start);
            },
            _ => {},
        }
    }
}

proof fn lemma_starts_root(events: Seq<Ev>, j: int, k0: SyntaxKind)
    requires
        1 <= j <= events.len(),
        events[0] == (Ev::Start { kind: Some(k0) }),
        evs_wf(events),
    ensures
        starts_iter(events, j)[0] =~= seq![k0],
    decreases j,
{
    lemma_starts_len(events, j);
    if j == 1 {
        lemma_starts_len(events, 0);
        assert(starts_iter(events, 0)[0].len() == 0);
        assert(starts_iter(events, 1)[0] =~= starts_iter(events, 0)[0].push(k0));
        assert(starts_iter(events, 1)[0] =~= seq![k0]);
    } else {
        lemma_starts_root(events, j - 1, k0);
        lemma_starts_len(events, j - 1);
        let st = starts_iter(events, j - 1);
        match events[j - 1] {
            Ev::Start { kind } => {
                assert(starts_iter(events, j)[0] == st[0]);
            },
            Ev::StartAt { kind, target } => {
                if kind is Some {
                    assert(target >= 1);
                }
                assert(starts_iter(events, j)[0] == st[0]);
            },
            _ => {
                assert(starts_iter(events, j)[0] == st[0]);
            },
        }
    }
}

proof fn lemma_sink(
    events: Seq<Ev>,
    starts: Seq<Seq<SyntaxKind>>,
    st: SinkState,
    i: int,
    rk: SyntaxKind,
)
    requires
        0 <= i <= events.len(),
        starts.len() == events.len(),
        n_tok_events(events.skip(i)) == n_sig_toks(st.rem),
        i == 0 ==> st.stack.len() == 0 && events.len() >= 1 && (events[0] matches Ev::Start {
            kind: Some(_),
        }) && starts[0] =~= seq![rk],
        i >= 1 ==> st.stack.len() >= 1 && (st.rem.len() == 0 || !st.rem[0].kind.spec_is_trivia())
            && st.stack[0].kind == rk,
    ensures
        sink_iter(events, starts, st, i).rem.len() == 0,
        sink_iter(events, starts, st, i).stack.len() >= 1,
        sink_iter(events, starts, st, i).stack[0].kind == rk,
        stack_texts(sink_iter(events, starts, st, i).stack) == stack_texts(st.stack)
            + texts_concat(st.rem),
        sink_iter(events, starts, st, i).errors == st.errors + err_diags(events.skip(i)),
    decreases events.len() - i,
{
    if i == events.len() {
        // only the end: nothing significant is left, and nothing else either
        lemma_n_sig_toks_nonneg(st.rem);
        assert(events.skip(i).len() == 0);
        assert(st.errors + err_diags(events.skip(i)) =~= st.errors);
        if st.rem.len() > 0 {
            assert(!st.rem[0].kind.spec_is_trivia());
            assert(false);
        }
        assert(texts_concat(st.rem).len() == 0);
        assert(stack_texts(st.stack) + texts_concat(st.rem) =~= stack_texts(st.stack));
    } else {
        let ev = events[i];
        let opened = SinkState {
            stack: open_nodes(st.stack, starts[i]),
            rem: st.rem,
            errors: st.errors,
        };
        lemma_open_nodes_texts(st.stack, starts[i]);
        assert(opened.stack.len() >= 1);
        assert(opened.stack[0].kind == rk);
        lemma_n_tok_first(events.skip(i));
        assert(events.skip(i)[0] == ev);
        assert(events.skip(i).skip(1) =~= events.skip(i + 1));
        let st2 = apply_event(opened, ev);
        // the event's own effect keeps the running concatenation
        match ev {
            Ev::Token => {
                lemma_n_sig_toks_nonneg(st.rem);
                lemma_n_tok_nonneg(events.skip(i + 1));
                if i == 0 {
                    assert(!(ev is Token));
                    assert(false);
                }
                assert(n_sig_toks(st.rem) >= 1);
                assert(st.rem.len() > 0);
                assert(!st.rem[0].kind.spec_is_trivia());
                lemma_push_child_texts(opened.stack, ElemModel::Token(st.rem[0]));
                assert(texts_concat(st.rem) == st.rem[0].text + texts_concat(st.rem.skip(1)));
                assert((stack_texts(opened.stack) + st.rem[0].text) + texts_concat(
                    st.rem.skip(1),
                ) =~= stack_texts(opened.stack) + (st.rem[0].text + texts_concat(
                    st.rem.skip(1),
                )));
            },
            Ev::Finish => {
                if opened.stack.len() >= 2 {
                    lemma_push_child_texts(
                        opened.stack.drop_last(),
                        ElemModel::Node(opened.stack.last()),
                    );
                    lemma_stack_texts_last(opened.stack);
                }
            },
            _ => {},
        }
        assert(st2.stack.len() >= 1);
        assert(st2.stack[0].kind == rk);
        assert(stack_texts(st2.stack) + texts_concat(st2.rem) == stack_texts(opened.stack)
            + texts_concat(st.rem));
        assert(n_sig_toks(st2.rem) == n_tok_events(events.skip(i + 1)));
        let st3 = eat_trivia(st2);
        lemma_eat_trivia(st2);
        lemma_sink(events, starts, st3, i + 1, rk);
        assert(sink_iter(events, starts, st, i) == sink_iter(events, starts, st3, i + 1));
        lemma_err_diags_first(events.skip(i));
        assert(events.skip(i)[0] == ev);
        match ev {
            Ev::Error { diag } => {
                assert(st3.errors =~= st.errors + seq![diag]);
                assert((st.errors + seq![diag]) + err_diags(events.skip(i + 1)) =~= st.errors + (
                seq![diag] + err_diags(events.skip(i + 1))));
            },
            _ => {
                assert(st3.errors == st.errors);
                assert(err_diags(events.skip(i)) =~= err_diags(events.skip(i + 1)));
            },
        }
    }
}

proof fn lemma_fold_stack_kind(stack: Seq<NodeModel>)
    requires
        stack.len() >= 1,
    ensures
        fold_stack(stack).kind == stack[0].kind,
    decreases stack.len(),
{
    if stack.len() > 1 {
        let folded = push_child(stack.drop_last(), ElemModel::Node(stack.last()));
        assert(folded[0].kind == stack[0].kind);
        lemma_fold_stack_kind(folded);
    }
}

proof fn lemma_pipeline(s: Seq<char>)
    ensures
        node_text(parse_spec(s).root) == s,
        parse_spec(s).root.kind == SyntaxKind::Root,
        forall|k1: int, k2: int|
            0 <= k1 <= k2 < parse_spec(s).errors.len() ==> #[trigger] parse_spec(
                s,
            ).errors[k1].start <= #[trigger] parse_spec(s).errors[k2].start,
{
    let toks = lex_from(s, 0);
    lemma_lex_lossless(s);
    lemma_root_run(toks);
    let m0 = PState { toks, pos: 0, events: Seq::empty(), expected: Seq::empty() };
    let evs = root_spec(m0).events;
    let starts = starts_of(evs);
    lemma_starts_len(evs, evs.len() as int);
    lemma_starts_root(evs, evs.len() as int, SyntaxKind::Root);
    let st0 = SinkState { stack: Seq::empty(), rem: toks, errors: Seq::empty() };
    assert(evs.skip(0) =~= evs);
    lemma_n_sig_toks_eq(toks, 0);
    assert(toks.skip(0) =~= toks);
    lemma_sink(evs, starts, st0, 0, SyntaxKind::Root);
    let stf = sink_iter(evs, starts, st0, 0);
    assert(stack_texts(Seq::<NodeModel>::empty()) + texts_concat(toks) =~= texts_concat(toks));
    lemma_fold_stack_texts(stf.stack);
    lemma_fold_stack_kind(stf.stack);
    lemma_lex_from_ordered(s, 0);
    assert(stf.errors =~= err_diags(evs));
    lemma_err_diags_sorted(evs);
}

/// Losslessness: for every input text, concatenating the text of every
/// leaf token of the produced tree, in tree order, yields the input back,
/// exactly — trivia, malformed tokens and all.
pub proof fn lemma_parse_lossless(s: Seq<char>)
    ensures
        node_text(parse_spec(s).root) == s,
{
    lemma_pipeline(s);
}

/// Well-formedness, the root: for every input, the pipeline produces
/// exactly one root node — `parse_spec` yields a single tree — and that
/// node's kind is `Root`, whatever errors occurred along the way.
pub proof fn lemma_parse_single_root(s: Seq<char>)
    ensures
        parse_spec(s).root.kind == SyntaxKind::Root,
{
    lemma_pipeline(s);
}

/// Well-formedness of ranges: given a node placed at offset `o`, its
/// children tile the node's range contiguously — each child begins where
/// the one before it ends, the first begins at `o`, and the last ends at
/// `o` plus the length of the node's text: no gaps and no overlaps.
pub open spec fn child_start(n: NodeModel, o: int, i: int) -> int {
    o + children_text(n.children.take(i)).len()
}

pub proof fn lemma_children_cover(n: NodeModel, o: int)
    ensures
        child_start(n, o, 0) == o,
        child_start(n, o, n.children.len() as int) == o + node_text(n).len(),
        forall|i: int|
            0 <= i < n.children.len() ==> child_start(n, o, i + 1) == child_start(n, o, i)
                + elem_text(n.children[i]).len(),
{
    assert(n.children.take(0) =~= Seq::<ElemModel>::empty());
    assert(n.children.take(n.children.len() as int) =~= n.children);
    assert forall|i: int| 0 <= i < n.children.len() implies child_start(n, o, i + 1) == child_start(
        n,
        o,
        i,
    ) + elem_text(n.children[i]).len() by {
        lemma_children_text_push(n.children.take(i), n.children[i]);
        assert(n.children.take(i + 1) =~= n.children.take(i).push(n.children[i]));
    }
}

/// Diagnostics come ordered by position: along the whole diagnostic list
/// the reported offsets never decrease, because the parser only moves
/// forward and every failure is reported at the cursor.
pub proof fn lemma_parse_errors_ordered(s: Seq<char>)
    ensures
        forall|k1: int, k2: int|
            0 <= k1 <= k2 < parse_spec(s).errors.len() ==> #[trigger] parse_spec(
                s,
            ).errors[k1].start <= #[trigger] parse_spec(s).errors[k2].start,
{
    lemma_pipeline(s);
}

/// Idempotent re-derivation: the pipeline's outcome is a function of the
/// input text alone (every run of `parse` is pinned to `parse_spec`), so
/// running it twice on the same input produces structurally identical
/// trees and identical diagnostics.
pub proof fn lemma_rederivation(s: Seq<char>, r1: ParseModel, r2: ParseModel)
    requires
        r1 == parse_spec(s),
        r2 == parse_spec(s),
    ensures
        r1.root == r2.root,
        r1.errors == r2.errors,
{
}

} // verus!

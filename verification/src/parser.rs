//! The marker-based parser core: a cursor over the token stream that skips
//! trivia for grammar decisions, an append-only list of tree-construction
//! events, and markers that let a completed node be retroactively wrapped
//! (`precede`) without re-parsing.

use vstd::prelude::*;
use crate::lexer::{Tok, Token, tokens_view};
use crate::syntax_kind::SyntaxKind;
use crate::token_kind::TokenKind;

verus! {

/// A parse failure: the character range of the offending position, the
/// token kinds that would have been accepted there, and the kind actually
/// found (none when the failure is at end of input).
pub struct Diagnostic {
    pub start: usize,
    pub end: usize,
    pub expected: Vec<TokenKind>,
    pub found: Option<TokenKind>,
}

/// The mathematical model of a diagnostic.
pub ghost struct Diag {
    pub start: int,
    pub end: int,
    pub expected: Seq<TokenKind>,
    pub found: Option<TokenKind>,
}

impl View for Diagnostic {
    type V = Diag;

    open spec fn view(&self) -> Diag {
        Diag {
            start: self.start as int,
            end: self.end as int,
            expected: self.expected@,
            found: self.found,
        }
    }
}

/// One tree-construction event, produced in parse order and reduced into a
/// tree afterwards. A node's kind is fixed when its marker is completed, so
/// open nodes carry `None`. `StartNodeAt` opens a node whose start point is
/// the event at `target`, the mechanism behind `precede`.
pub enum Event {
    StartNode { kind: Option<SyntaxKind> },
    StartNodeAt { kind: Option<SyntaxKind>, target: usize },
    AddToken,
    FinishNode,
    Error { diagnostic: Diagnostic },
}

/// The mathematical model of an event.
pub ghost enum Ev {
    Start { kind: Option<SyntaxKind> },
    StartAt { kind: Option<SyntaxKind>, target: int },
    Token,
    Finish,
    Error { diag: Diag },
}

impl View for Event {
    type V = Ev;

    open spec fn view(&self) -> Ev {
        match self {
            Event::StartNode { kind } => Ev::Start { kind: *kind },
            Event::StartNodeAt { kind, target } => Ev::StartAt {
                kind: *kind,
                target: *target as int,
            },
            Event::AddToken => Ev::Token,
            Event::FinishNode => Ev::Finish,
            Event::Error { diagnostic } => Ev::Error { diag: diagnostic@ },
        }
    }
}

/// The models of a sequence of events.
pub open spec fn events_view(evs: Seq<Event>) -> Seq<Ev> {
    evs.map_values(|e: Event| e@)
}

/// The mathematical model of the parser state.
pub ghost struct PState {
    pub toks: Seq<Tok>,
    pub pos: int,
    pub events: Seq<Ev>,
    pub expected: Seq<TokenKind>,
}

impl PState {
    /// The cursor stays within the token sequence.
    pub open spec fn wf(self) -> bool {
        0 <= self.pos <= self.toks.len()
    }
}

/// The position of the next significant (non-trivia) token at or after `i`,
/// or the length of the sequence if only trivia remains.
pub open spec fn sig_pos(toks: Seq<Tok>, i: int) -> int
    decreases toks.len() - i,
{
    if 0 <= i < toks.len() {
        if !toks[i].kind.spec_is_trivia() {
            i
        } else {
            sig_pos(toks, i + 1)
        }
    } else {
        toks.len() as int
    }
}

pub proof fn lemma_sig_pos(toks: Seq<Tok>, i: int)
    requires
        0 <= i <= toks.len(),
    ensures
        i <= sig_pos(toks, i) <= toks.len(),
        sig_pos(toks, i) < toks.len() ==> !toks[sig_pos(toks, i)].kind.spec_is_trivia(),
        forall|j: int| i <= j < sig_pos(toks, i) ==> toks[j].kind.spec_is_trivia(),
    decreases toks.len() - i,
{
    if i < toks.len() && toks[i].kind.spec_is_trivia() {
        lemma_sig_pos(toks, i + 1);
    }
}

/// The kind of the next significant token, or none at end of input.
pub open spec fn peek_spec(m: PState) -> Option<TokenKind> {
    let j = sig_pos(m.toks, m.pos);
    if j < m.toks.len() {
        Some(m.toks[j].kind)
    } else {
        None
    }
}

/// What `at` does: records the kind as expected at this position and tells
/// whether the next significant token has that kind.
pub open spec fn at_spec(m: PState, kind: TokenKind) -> (PState, bool) {
    (
        PState { toks: m.toks, pos: m.pos, events: m.events, expected: m.expected.push(kind) },
        peek_spec(m) == Some(kind),
    )
}

/// What `bump` does: moves the cursor past the next significant token (the
/// trivia in between stay in the stream for tree assembly), records an
/// `AddToken` event, and clears the expected set.
pub open spec fn bump_spec(m: PState) -> PState {
    let j = sig_pos(m.toks, m.pos);
    let j2 = if j >= m.pos {
        j
    } else {
        m.pos
    };
    PState { toks: m.toks, pos: j2 + 1, events: m.events.push(Ev::Token), expected: Seq::empty() }
}

/// What `start` does: opens a node whose kind is not yet fixed; the new
/// marker's position is the index of the `StartNode` event.
pub open spec fn start_spec(m: PState) -> (PState, int) {
    (
        PState {
            toks: m.toks,
            pos: m.pos,
            events: m.events.push(Ev::Start { kind: None }),
            expected: m.expected,
        },
        m.events.len() as int,
    )
}

/// Fixing a node's kind when its marker is completed.
pub open spec fn set_kind(ev: Ev, kind: SyntaxKind) -> Ev {
    match ev {
        Ev::Start { .. } => Ev::Start { kind: Some(kind) },
        Ev::StartAt { target, .. } => Ev::StartAt { kind: Some(kind), target },
        _ => ev,
    }
}

/// What `complete` does: fixes the kind of the marker's start event and
/// records the matching `FinishNode`.
pub open spec fn complete_spec(m: PState, mpos: int, kind: SyntaxKind) -> PState {
    let evs = if 0 <= mpos < m.events.len() {
        m.events.update(mpos, set_kind(m.events[mpos], kind))
    } else {
        m.events
    };
    PState { toks: m.toks, pos: m.pos, events: evs.push(Ev::Finish), expected: m.expected }
}

/// The start point a new `precede` node adopts: the completed marker's own
/// start event, resolved through one `StartNodeAt` indirection so that
/// every recorded target names a plain `StartNode`.
pub open spec fn precede_target(m: PState, cmpos: int) -> int {
    if 0 <= cmpos < m.events.len() {
        match m.events[cmpos] {
            Ev::StartAt { target, .. } => target,
            _ => cmpos,
        }
    } else {
        cmpos
    }
}

/// What `precede` does: opens a new node whose start point is the completed
/// marker's start point, so the completed node becomes its first child.
pub open spec fn precede_spec(m: PState, cmpos: int) -> (PState, int) {
    (
        PState {
            toks: m.toks,
            pos: m.pos,
            events: m.events.push(
                Ev::StartAt { kind: None, target: precede_target(m, cmpos) },
            ),
            expected: m.expected,
        },
        m.events.len() as int,
    )
}

/// The diagnostic recorded at the current position: the range of the next
/// significant token, or of the very last token at end of input, or an
/// empty range when there are no tokens at all.
pub open spec fn error_diag(m: PState) -> Diag {
    let j = sig_pos(m.toks, m.pos);
    if j < m.toks.len() {
        Diag {
            start: m.toks[j].start,
            end: m.toks[j].end,
            expected: m.expected,
            found: Some(m.toks[j].kind),
        }
    } else if m.toks.len() > 0 {
        Diag {
            start: m.toks[m.toks.len() - 1].start,
            end: m.toks[m.toks.len() - 1].end,
            expected: m.expected,
            found: None,
        }
    } else {
        Diag { start: 0, end: 0, expected: m.expected, found: None }
    }
}

/// What `error` does: records the diagnostic as an event and drains the
/// expected set. The offending token is not consumed; the enclosing
/// grammar rule decides what happens to it.
pub open spec fn error_spec(m: PState) -> PState {
    PState {
        toks: m.toks,
        pos: m.pos,
        events: m.events.push(Ev::Error { diag: error_diag(m) }),
        expected: Seq::empty(),
    }
}

/// What `expect` does: consume the kind if it is next, otherwise record an
/// error at the current position.
pub open spec fn expect_spec(m: PState, kind: TokenKind) -> PState {
    let r = at_spec(m, kind);
    if r.1 {
        bump_spec(r.0)
    } else {
        error_spec(r.0)
    }
}

/// A handle to a node that has been opened but not yet completed.
#[derive(Clone, Copy)]
pub struct Marker {
    pub pos: usize,
}

/// A handle to a completed node; its only remaining use is `precede`.
#[derive(Clone, Copy)]
pub struct CompletedMarker {
    pub pos: usize,
}

/// The parser: the token stream, a cursor into it, the event list built so
/// far, and the kinds found acceptable since the last consumed token (used
/// to phrase diagnostics).
pub struct Parser {
    pub tokens: Vec<Token>,
    pub pos: usize,
    pub events: Vec<Event>,
    pub expected: Vec<TokenKind>,
}

impl View for Parser {
    type V = PState;

    open spec fn view(&self) -> PState {
        PState {
            toks: tokens_view(self.tokens@),
            pos: self.pos as int,
            events: events_view(self.events@),
            expected: self.expected@,
        }
    }
}

impl Parser {
    /// A parser at the start of the given token stream, with no events.
    pub fn new(tokens: Vec<Token>) -> (p: Parser)
        ensures
            p@ == (PState {
                toks: tokens_view(tokens@),
                pos: 0,
                events: Seq::<Ev>::empty(),
                expected: Seq::<TokenKind>::empty(),
            }),
            p@.wf(),
    {
        let p = Parser { tokens, pos: 0, events: Vec::new(), expected: Vec::new() };
        proof {
            assert(events_view(p.events@) =~= Seq::<Ev>::empty());
        }
        p
    }

    /// The index of the next significant token at or after the cursor.
    fn sig_index(&self) -> (j: usize)
        requires
            self@.wf(),
        ensures
            j as int == sig_pos(self@.toks, self@.pos),
            self@.pos <= j as int <= self@.toks.len(),
    {
        proof {
            lemma_sig_pos(self@.toks, self@.pos);
        }
        let mut j: usize = self.pos;
        while j < self.tokens.len() && self.tokens[j].kind.is_trivia()
            invariant
                self@.pos <= j as int <= self@.toks.len(),
                self@.toks == tokens_view(self.tokens@),
                sig_pos(self@.toks, self@.pos) == sig_pos(self@.toks, j as int),
            decreases self@.toks.len() - j,
        {
            proof {
                assert(self@.toks[j as int] == self.tokens@[j as int]@);
            }
            j = j + 1;
        }
        proof {
            if (j as int) < self@.toks.len() {
                assert(self@.toks[j as int] == self.tokens@[j as int]@);
            }
        }
        j
    }

    /// The kind of the next significant token, or none at end of input.
    pub fn peek(&self) -> (r: Option<TokenKind>)
        requires
            self@.wf(),
        ensures
            r == peek_spec(self@),
    {
        let j = self.sig_index();
        if j < self.tokens.len() {
            proof {
                assert(self@.toks[j as int] == self.tokens@[j as int]@);
            }
            Some(self.tokens[j].kind)
        } else {
            None
        }
    }

    /// Whether the next significant token has the given kind; the kind is
    /// recorded as acceptable here, for diagnostics.
    pub fn at(&mut self, kind: TokenKind) -> (r: bool)
        requires
            old(self)@.wf(),
        ensures
            final(self)@ == at_spec(old(self)@, kind).0,
            r == at_spec(old(self)@, kind).1,
            final(self)@.wf(),
    {
        let next = self.peek();
        self.expected.push(kind);
        match next {
            Some(k) => k == kind,
            None => false,
        }
    }

    /// Consumes the next significant token (trivia before it stay in the
    /// stream; tree assembly attaches them), recording an `AddToken` event.
    pub fn bump(&mut self)
        requires
            old(self)@.wf(),
            peek_spec(old(self)@) is Some,
        ensures
            final(self)@ == bump_spec(old(self)@),
            final(self)@.wf(),
            old(self)@.pos < final(self)@.pos,
    {
        let j = self.sig_index();
        let n = self.tokens.len();
        proof {
            assert(tokens_view(self.tokens@).len() == self.tokens@.len());
            assert((j as int) < n as int);
        }
        self.pos = j + 1;
        self.events.push(Event::AddToken);
        self.expected.clear();
        proof {
            assert(events_view(self.events@) =~= events_view(old(self).events@).push(Ev::Token));
        }
    }

    /// Opens a node; its kind is fixed later, when the marker is completed.
    pub fn start(&mut self) -> (m: Marker)
        requires
            old(self)@.wf(),
        ensures
            final(self)@ == start_spec(old(self)@).0,
            m.pos as int == start_spec(old(self)@).1,
            final(self)@.wf(),
            (m.pos as int) < final(self)@.events.len(),
    {
        let m = Marker { pos: self.events.len() };
        self.events.push(Event::StartNode { kind: None });
        proof {
            assert(events_view(self.events@) =~= events_view(old(self).events@).push(
                Ev::Start { kind: None },
            ));
        }
        m
    }

    /// Records an unexpected-token diagnostic at the current position,
    /// draining the kinds recorded as acceptable. The offending token, if
    /// any, is not consumed.
    pub fn error(&mut self)
        requires
            old(self)@.wf(),
        ensures
            final(self)@ == error_spec(old(self)@),
            final(self)@.wf(),
    {
        let j = self.sig_index();
        let mut expected: Vec<TokenKind> = Vec::new();
        core::mem::swap(&mut expected, &mut self.expected);
        let diagnostic = if j < self.tokens.len() {
            proof {
                assert(self@.toks[j as int] == self.tokens@[j as int]@);
            }
            Diagnostic {
                start: self.tokens[j].start,
                end: self.tokens[j].end,
                expected,
                found: Some(self.tokens[j].kind),
            }
        } else if self.tokens.len() > 0 {
            let last = self.tokens.len() - 1;
            proof {
                assert(self@.toks[last as int] == self.tokens@[last as int]@);
            }
            Diagnostic {
                start: self.tokens[last].start,
                end: self.tokens[last].end,
                expected,
                found: None,
            }
        } else {
            Diagnostic { start: 0, end: 0, expected, found: None }
        };
        self.events.push(Event::Error { diagnostic });
        proof {
            assert(events_view(self.events@) =~= events_view(old(self).events@).push(
                Ev::Error { diag: error_diag(old(self)@) },
            ));
        }
    }

    /// Consumes the next token if it has the given kind, and records an
    /// error otherwise; parsing continues either way.
    pub fn expect(&mut self, kind: TokenKind)
        requires
            old(self)@.wf(),
        ensures
            final(self)@ == expect_spec(old(self)@, kind),
            final(self)@.wf(),
    {
        if self.at(kind) {
            self.bump();
        } else {
            self.error();
        }
    }
}

impl Marker {
    /// Completes the node: fixes its kind and records the matching
    /// `FinishNode` event. The kind can never change afterwards.
    pub fn complete(self, p: &mut Parser, kind: SyntaxKind) -> (cm: CompletedMarker)
        requires
            old(p)@.wf(),
            self.pos < old(p)@.events.len(),
        ensures
            final(p)@ == complete_spec(old(p)@, self.pos as int, kind),
            final(p)@.wf(),
            cm.pos == self.pos,
    {
        let newev = match &p.events[self.pos] {
            Event::StartNode { .. } => Some(Event::StartNode { kind: Some(kind) }),
            Event::StartNodeAt { target, .. } => Some(
                Event::StartNodeAt { kind: Some(kind), target: *target },
            ),
            _ => None,
        };
        match newev {
            Some(ev) => {
                p.events[self.pos] = ev;
                proof {
                    assert(events_view(p.events@) =~= events_view(old(p).events@).update(
                        self.pos as int,
                        set_kind(events_view(old(p).events@)[self.pos as int], kind),
                    ));
                }
            },
            None => {
                proof {
                    assert(events_view(p.events@).update(
                        self.pos as int,
                        set_kind(events_view(p.events@)[self.pos as int], kind),
                    ) =~= events_view(p.events@));
                }
            },
        }
        p.events.push(Event::FinishNode);
        proof {
            assert(events_view(p.events@) =~= complete_spec(old(p)@, self.pos as int, kind).events);
        }
        CompletedMarker { pos: self.pos }
    }
}

impl CompletedMarker {
    /// Opens a new node whose start point is this completed node's start
    /// point, so the completed node becomes the new node's first child.
    /// This is how an already-parsed left operand is wrapped into an
    /// enclosing infix expression without re-parsing.
    pub fn precede(self, p: &mut Parser) -> (m: Marker)
        requires
            old(p)@.wf(),
            self.pos < old(p)@.events.len(),
        ensures
            final(p)@ == precede_spec(old(p)@, self.pos as int).0,
            m.pos as int == precede_spec(old(p)@, self.pos as int).1,
            final(p)@.wf(),
            (m.pos as int) < final(p)@.events.len(),
    {
        let target = match &p.events[self.pos] {
            Event::StartNodeAt { target, .. } => *target,
            _ => self.pos,
        };
        let m = Marker { pos: p.events.len() };
        self.precede_push(p, target);
        m
    }

    fn precede_push(self, p: &mut Parser, target: usize)
        requires
            old(p)@.wf(),
            target as int == precede_target(old(p)@, self.pos as int),
        ensures
            final(p)@ == precede_spec(old(p)@, self.pos as int).0,
            final(p)@.wf(),
    {
        p.events.push(Event::StartNodeAt { kind: None, target });
        proof {
            assert(events_view(p.events@) =~= events_view(old(p).events@).push(
                Ev::StartAt { kind: None, target: target as int },
            ));
        }
    }
}

} // verus!

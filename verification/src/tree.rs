//! The syntax tree and its assembly: a single pass over the event list,
//! maintaining a stack of nodes under construction. `StartNodeAt` events are
//! resolved first, by attributing each retroactive open to the earlier
//! position it names, so a later decision can reshape the tree without
//! re-parsing. Trivia tokens are attached after every event to whichever
//! node is innermost, which places each run of trivia in the node owning
//! the token just before it. Errors are a side channel: they never stop
//! reduction, and the tree is always a single well-formed root.

use vstd::prelude::*;
use crate::lexer::{Tok, Token, tokens_view};
use crate::parser::{Diag, Diagnostic, Ev, Event, events_view};
use crate::syntax_kind::SyntaxKind;

verus! {

/// The model of a tree node: a kind and its ordered children.
pub ghost struct NodeModel {
    pub kind: SyntaxKind,
    pub children: Seq<ElemModel>,
}

/// The model of a tree element: a node or a leaf token.
pub ghost enum ElemModel {
    Node(NodeModel),
    Token(Tok),
}

/// A node of the final, immutable tree: a kind and an ordered sequence of
/// children, nodes and tokens alike (trivia included, in source order).
pub struct Node {
    pub kind: SyntaxKind,
    pub children: Vec<Element>,
}

/// One child of a node.
pub enum Element {
    Node(Node),
    Token(Token),
}

pub open spec fn node_model(n: Node) -> NodeModel
    decreases n,
{
    NodeModel { kind: n.kind, children: children_models(n.children@) }
}

/// The models of a sequence of children, in order.
pub open spec fn children_models(cs: Seq<Element>) -> Seq<ElemModel>
    decreases cs,
{
    if cs.len() == 0 {
        Seq::empty()
    } else {
        children_models(cs.drop_last()).push(elem_model(cs.last()))
    }
}

/// The model of each child is the model at its place.
pub proof fn lemma_children_models(cs: Seq<Element>)
    ensures
        children_models(cs).len() == cs.len(),
        forall|i: int| 0 <= i < cs.len() ==> children_models(cs)[i] == elem_model(cs[i]),
    decreases cs,
{
    if cs.len() > 0 {
        lemma_children_models(cs.drop_last());
        assert(forall|i: int| 0 <= i < cs.len() - 1 ==> cs.drop_last()[i] == cs[i]);
    }
}

pub open spec fn elem_model(e: Element) -> ElemModel
    decreases e,
{
    match e {
        Element::Node(n) => ElemModel::Node(node_model(n)),
        Element::Token(t) => ElemModel::Token(t@),
    }
}

impl View for Node {
    type V = NodeModel;

    open spec fn view(&self) -> NodeModel {
        node_model(*self)
    }
}

impl View for Element {
    type V = ElemModel;

    open spec fn view(&self) -> ElemModel {
        elem_model(*self)
    }
}

/// The text a tree element covers: for a token its own text, for a node
/// the concatenation of its children's texts in order.
pub open spec fn elem_text(e: ElemModel) -> Seq<char>
    decreases e,
{
    match e {
        ElemModel::Node(n) => node_text(n),
        ElemModel::Token(t) => t.text,
    }
}

pub open spec fn node_text(n: NodeModel) -> Seq<char>
    decreases n,
{
    children_text(n.children)
}

pub open spec fn children_text(cs: Seq<ElemModel>) -> Seq<char>
    decreases cs,
{
    if cs.len() == 0 {
        Seq::empty()
    } else {
        elem_text(cs[0]) + children_text(cs.skip(1))
    }
}

/// The models of a stack of nodes under construction.
pub open spec fn stack_view(s: Seq<Node>) -> Seq<NodeModel> {
    s.map_values(|n: Node| node_model(n))
}

/// The models of the collected diagnostics.
pub open spec fn diags_view(s: Seq<Diagnostic>) -> Seq<Diag> {
    s.map_values(|d: Diagnostic| d@)
}

/// The kinds of the nodes that open at each event index, outermost first:
/// a `StartNode` opens its own kind at its own index, and each later
/// `StartNodeAt` prepends its kind at the earlier index it names, so the
/// retroactive wrap becomes the outer node.
pub open spec fn apply_start(
    st: Seq<Seq<SyntaxKind>>,
    events: Seq<Ev>,
    i: int,
) -> Seq<Seq<SyntaxKind>> {
    match events[i] {
        Ev::Start { kind } => {
            if kind is Some && 0 <= i < st.len() {
                st.update(i, st[i].push(kind->Some_0))
            } else {
                st
            }
        },
        Ev::StartAt { kind, target } => {
            if kind is Some && 0 <= target < st.len() {
                st.update(target, seq![kind->Some_0] + st[target])
            } else {
                st
            }
        },
        _ => st,
    }
}

pub open spec fn starts_iter(events: Seq<Ev>, j: int) -> Seq<Seq<SyntaxKind>>
    decreases j,
{
    if j <= 0 {
        Seq::new(events.len(), |i: int| Seq::<SyntaxKind>::empty())
    } else {
        apply_start(starts_iter(events, j - 1), events, j - 1)
    }
}

pub open spec fn starts_of(events: Seq<Ev>) -> Seq<Seq<SyntaxKind>> {
    starts_iter(events, events.len() as int)
}

/// The reduction state: the stack of nodes under construction (outermost
/// first), the tokens not yet attached, and the diagnostics seen so far.
pub ghost struct SinkState {
    pub stack: Seq<NodeModel>,
    pub rem: Seq<Tok>,
    pub errors: Seq<Diag>,
}

/// Appends a child to the innermost open node.
pub open spec fn push_child(stack: Seq<NodeModel>, e: ElemModel) -> Seq<NodeModel> {
    if stack.len() > 0 {
        let top = stack.last();
        stack.update(
            stack.len() - 1,
            NodeModel { kind: top.kind, children: top.children.push(e) },
        )
    } else {
        stack
    }
}

/// Attaches every trivia token at the head of the stream to the innermost
/// open node; lookahead skipped them, but the tree never drops them.
pub open spec fn eat_trivia(st: SinkState) -> SinkState
    decreases st.rem.len(),
{
    if st.rem.len() > 0 && st.rem[0].kind.spec_is_trivia() && st.stack.len() > 0 {
        eat_trivia(
            SinkState {
                stack: push_child(st.stack, ElemModel::Token(st.rem[0])),
                rem: st.rem.skip(1),
                errors: st.errors,
            },
        )
    } else {
        st
    }
}

/// Opens the given kinds in order, outermost first.
pub open spec fn open_nodes(stack: Seq<NodeModel>, kinds: Seq<SyntaxKind>) -> Seq<NodeModel>
    decreases kinds.len(),
{
    if kinds.len() == 0 {
        stack
    } else {
        open_nodes(
            stack.push(NodeModel { kind: kinds[0], children: Seq::empty() }),
            kinds.skip(1),
        )
    }
}

/// One event's effect on the reduction state. Opens are handled separately
/// (they were resolved into `starts_of`); a `FinishNode` folds the top of
/// the stack into its parent, and the outermost node is never popped, so
/// the tree keeps exactly one root whatever the event list.
pub open spec fn apply_event(st: SinkState, ev: Ev) -> SinkState {
    match ev {
        Ev::Token => {
            if st.rem.len() > 0 && st.stack.len() > 0 {
                SinkState {
                    stack: push_child(st.stack, ElemModel::Token(st.rem[0])),
                    rem: st.rem.skip(1),
                    errors: st.errors,
                }
            } else {
                st
            }
        },
        Ev::Finish => {
            if st.stack.len() >= 2 {
                SinkState {
                    stack: push_child(st.stack.drop_last(), ElemModel::Node(st.stack.last())),
                    rem: st.rem,
                    errors: st.errors,
                }
            } else {
                st
            }
        },
        Ev::Error { diag } => {
            SinkState { stack: st.stack, rem: st.rem, errors: st.errors.push(diag) }
        },
        _ => st,
    }
}

/// The single pass over the event list: at each index, open the nodes that
/// start there, apply the event, then attach any trivia now at the head.
pub open spec fn sink_iter(
    events: Seq<Ev>,
    starts: Seq<Seq<SyntaxKind>>,
    st: SinkState,
    i: int,
) -> SinkState
    decreases events.len() - i,
{
    if 0 <= i < events.len() {
        let opened = SinkState {
            stack: open_nodes(st.stack, if 0 <= i < starts.len() { starts[i] } else { Seq::empty() }),
            rem: st.rem,
            errors: st.errors,
        };
        sink_iter(events, starts, eat_trivia(apply_event(opened, events[i])), i + 1)
    } else {
        st
    }
}

/// Folds whatever remains on the stack into a single root node.
pub open spec fn fold_stack(stack: Seq<NodeModel>) -> NodeModel
    decreases stack.len(),
{
    if stack.len() == 0 {
        NodeModel { kind: SyntaxKind::Root, children: Seq::empty() }
    } else if stack.len() == 1 {
        stack[0]
    } else {
        fold_stack(push_child(stack.drop_last(), ElemModel::Node(stack.last())))
    }
}

/// The whole reduction: resolve the retroactive opens, run the single
/// pass, and fold the stack into the one root node.
pub open spec fn reduce_spec(toks: Seq<Tok>, events: Seq<Ev>) -> (NodeModel, Seq<Diag>) {
    let st = sink_iter(
        events,
        starts_of(events),
        SinkState { stack: Seq::empty(), rem: toks, errors: Seq::empty() },
        0,
    );
    (fold_stack(st.stack), st.errors)
}

proof fn lemma_push_child_model(stack1: Seq<Node>, stack2: Seq<Node>, e: Element)
    requires
        stack1.len() > 0,
        stack2.len() == stack1.len(),
        forall|k: int| 0 <= k < stack1.len() - 1 ==> stack2[k] == stack1[k],
        stack2.last().kind == stack1.last().kind,
        stack2.last().children@ == stack1.last().children@.push(e),
    ensures
        stack_view(stack2) == push_child(stack_view(stack1), elem_model(e)),
{
    let top1 = stack1.last();
    let top2 = stack2.last();
    assert(top2.children@.drop_last() =~= top1.children@);
    assert(top2.children@.last() == e);
    assert(node_model(top2).children == node_model(top1).children.push(elem_model(e)));
    assert(stack_view(stack2) =~= push_child(stack_view(stack1), elem_model(e)));
}

/// Appends a child to the innermost node of the stack.
fn attach(stack: &mut Vec<Node>, e: Element)
    requires
        old(stack)@.len() > 0,
    ensures
        stack_view(final(stack)@) == push_child(stack_view(old(stack)@), elem_model(e)),
        final(stack)@.len() == old(stack)@.len(),
{
    let ghost e0 = e;
    let last = stack.len() - 1;
    let node = &mut stack[last];
    node.children.push(e);
    proof {
        lemma_push_child_model(old(stack)@, stack@, e0);
    }
}

/// Resolves the event list into the kinds opening at each index.
fn compute_starts(events: &Vec<Event>) -> (r: Vec<Vec<SyntaxKind>>)
    ensures
        r@.map_values(|v: Vec<SyntaxKind>| v@) == starts_of(events_view(events@)),
        r@.len() == events@.len(),
{
    let ghost evs = events_view(events@);
    let n = events.len();
    let mut r: Vec<Vec<SyntaxKind>> = Vec::new();
    let mut i: usize = 0;
    while i < n
        invariant
            i <= n,
            n == events@.len(),
            r@.len() == i,
            forall|k: int| 0 <= k < i ==> r@[k]@ == Seq::<SyntaxKind>::empty(),
        decreases n - i,
    {
        r.push(Vec::new());
        i = i + 1;
    }
    proof {
        assert(r@.map_values(|v: Vec<SyntaxKind>| v@) =~= starts_iter(evs, 0));
    }
    let mut j: usize = 0;
    while j < n
        invariant
            j <= n,
            n == events@.len(),
            evs == events_view(events@),
            r@.len() == n,
            evs.len() == n,
            r@.map_values(|v: Vec<SyntaxKind>| v@) == starts_iter(evs, j as int),
        decreases n - j,
    {
        let ghost st0 = r@.map_values(|v: Vec<SyntaxKind>| v@);
        proof {
            assert(evs[j as int] == events@[j as int]@);
        }
        match &events[j] {
            Event::StartNode { kind: Some(k) } => {
                let kc = *k;
                let slot = &mut r[j];
                slot.push(kc);
                proof {
                    assert(r@.map_values(|v: Vec<SyntaxKind>| v@) =~= st0.update(
                        j as int,
                        st0[j as int].push(kc),
                    ));
                }
            },
            Event::StartNodeAt { kind: Some(k), target } => {
                let kc = *k;
                let t = *target;
                if t < n {
                    let slot = &mut r[t];
                    slot.insert(0, kc);
                    proof {
                        assert(st0[t as int].insert(0, kc) =~= seq![kc] + st0[t as int]);
                        assert(r@.map_values(|v: Vec<SyntaxKind>| v@) =~= st0.update(
                            t as int,
                            seq![kc] + st0[t as int],
                        ));
                    }
                }
            },
            _ => {},
        }
        proof {
            assert(r@.map_values(|v: Vec<SyntaxKind>| v@) =~= apply_start(st0, evs, j as int));
        }
        j = j + 1;
    }
    r
}

/// Builds the tree and the diagnostics from the token stream and the
/// event list: the reduction described by `reduce_spec`.
pub fn reduce(tokens: Vec<Token>, events: Vec<Event>) -> (r: (Node, Vec<Diagnostic>))
    ensures
        node_model(r.0) == reduce_spec(tokens_view(tokens@), events_view(events@)).0,
        diags_view(r.1@) == reduce_spec(tokens_view(tokens@), events_view(events@)).1,
{
    let ghost toks0 = tokens_view(tokens@);
    let ghost evs0 = events_view(events@);
    let starts = compute_starts(&events);
    let ghost starts0 = starts@.map_values(|v: Vec<SyntaxKind>| v@);
    let mut tokens = tokens;
    let mut events = events;
    let mut stack: Vec<Node> = Vec::new();
    let mut errors: Vec<Diagnostic> = Vec::new();
    let mut i: usize = 0;
    let n = starts.len();
    proof {
        assert(stack_view(stack@) =~= Seq::<NodeModel>::empty());
        assert(diags_view(errors@) =~= Seq::<Diag>::empty());
        assert(events_view(events@).skip(0) =~= evs0);
    }
    while i < n
        invariant
            i <= n,
            n == evs0.len(),
            n == starts@.len(),
            starts0 == starts@.map_values(|v: Vec<SyntaxKind>| v@),
            events@.len() == n - i,
            events_view(events@) == evs0.skip(i as int),
            sink_iter(evs0, starts0, SinkState { stack: Seq::empty(), rem: toks0, errors: Seq::empty() }, 0)
                == sink_iter(
                evs0,
                starts0,
                SinkState {
                    stack: stack_view(stack@),
                    rem: tokens_view(tokens@),
                    errors: diags_view(errors@),
                },
                i as int,
            ),
        decreases n - i,
    {
        let ghost st_in = SinkState {
            stack: stack_view(stack@),
            rem: tokens_view(tokens@),
            errors: diags_view(errors@),
        };
        proof {
            assert(starts0[i as int] == starts@[i as int]@);
            assert(starts0[i as int].skip(0) =~= starts0[i as int]);
        }
        // open the nodes that start here
        let ks = &starts[i];
        let mut k: usize = 0;
        while k < ks.len()
            invariant
                k <= ks@.len(),
                ks@ == starts@[i as int]@,
                i < starts@.len(),
                starts0 == starts@.map_values(|v: Vec<SyntaxKind>| v@),
                open_nodes(st_in.stack, starts0[i as int]) == open_nodes(
                    stack_view(stack@),
                    starts0[i as int].skip(k as int),
                ),
            decreases ks@.len() - k,
        {
            let ghost stv = stack_view(stack@);
            let kind = ks[k];
            let fresh: Vec<Element> = Vec::new();
            let node = Node { kind, children: fresh };
            let ghost nm = node_model(node);
            stack.push(node);
            proof {
                assert(nm.children =~= Seq::<ElemModel>::empty());
                assert(stack_view(stack@) =~= stv.push(
                    NodeModel { kind, children: Seq::empty() },
                ));
                assert(starts0[i as int].skip(k as int)[0] == kind);
                assert(starts0[i as int].skip(k as int).skip(1) =~= starts0[i as int].skip(
                    k as int + 1,
                ));
            }
            k = k + 1;
        }
        proof {
            assert(starts0[i as int].skip(k as int) =~= Seq::<SyntaxKind>::empty());
            assert(open_nodes(st_in.stack, starts0[i as int]) == stack_view(stack@));
        }
        let ghost st_opened = SinkState {
            stack: stack_view(stack@),
            rem: tokens_view(tokens@),
            errors: diags_view(errors@),
        };
        // the event's own effect
        let ghost ev_now = evs0[i as int];
        proof {
            assert(events_view(events@)[0] == events@[0]@);
            assert(evs0.skip(i as int)[0] == evs0[i as int]);
        }
        let ghost evvec = events@;
        let ev = events.remove(0);
        proof {
            assert(ev@ == ev_now);
            assert(events@ == evvec.remove(0));
            assert forall|k2: int| 0 <= k2 < events@.len() implies events_view(events@)[k2]
                == evs0.skip(i as int + 1)[k2] by {
                assert(events@[k2] == evvec[k2 + 1]);
                assert(events_view(events@)[k2] == events@[k2]@);
                assert(evs0.skip(i as int)[k2 + 1] == evvec[k2 + 1]@);
            }
            assert(events_view(events@) =~= evs0.skip(i as int + 1));
        }
        match ev {
            Event::AddToken => {
                if tokens.len() > 0 && stack.len() > 0 {
                    let ghost remv = tokens_view(tokens@);
                    let ghost tvec = tokens@;
                    let t = tokens.remove(0);
                    proof {
                        assert(t@ == remv[0]);
                        assert forall|k2: int| 0 <= k2 < tokens@.len() implies tokens_view(
                            tokens@,
                        )[k2] == remv.skip(1)[k2] by {
                            assert(tokens@[k2] == tvec[k2 + 1]);
                        }
                        assert(tokens_view(tokens@) =~= remv.skip(1));
                    }
                    attach(&mut stack, Element::Token(t));
                }
            },
            Event::FinishNode => {
                if stack.len() >= 2 {
                    let ghost stv = stack_view(stack@);
                    let top = stack.pop().unwrap();
                    proof {
                        assert(node_model(top) == stv.last());
                        assert(stack_view(stack@) =~= stv.drop_last());
                    }
                    attach(&mut stack, Element::Node(top));
                }
            },
            Event::Error { diagnostic } => {
                let ghost errv = diags_view(errors@);
                errors.push(diagnostic);
                proof {
                    assert(diags_view(errors@) =~= errv.push(diagnostic@));
                }
            },
            _ => {},
        }
        proof {
            let st_applied = SinkState {
                stack: stack_view(stack@),
                rem: tokens_view(tokens@),
                errors: diags_view(errors@),
            };
            assert(st_applied == apply_event(st_opened, ev_now));
        }
        // attach trivia now at the head of the stream
        while tokens.len() > 0 && stack.len() > 0 && tokens[0].kind.is_trivia()
            invariant
                eat_trivia(
                    apply_event(st_opened, ev_now),
                ) == eat_trivia(
                    SinkState {
                        stack: stack_view(stack@),
                        rem: tokens_view(tokens@),
                        errors: diags_view(errors@),
                    },
                ),
                apply_event(st_opened, ev_now).errors == diags_view(errors@),
            decreases tokens@.len(),
        {
            let ghost remv = tokens_view(tokens@);
            let ghost tvec = tokens@;
            proof {
                assert(remv[0] == tokens@[0]@);
            }
            let t = tokens.remove(0);
            proof {
                assert(t@ == remv[0]);
                assert forall|k2: int| 0 <= k2 < tokens@.len() implies tokens_view(tokens@)[k2]
                    == remv.skip(1)[k2] by {
                    assert(tokens@[k2] == tvec[k2 + 1]);
                }
                assert(tokens_view(tokens@) =~= remv.skip(1));
            }
            attach(&mut stack, Element::Token(t));
        }
        proof {
            if tokens@.len() > 0 {
                assert(tokens_view(tokens@)[0] == tokens@[0]@);
            }
            let st_eaten = SinkState {
                stack: stack_view(stack@),
                rem: tokens_view(tokens@),
                errors: diags_view(errors@),
            };
            assert(st_eaten == eat_trivia(apply_event(st_opened, ev_now)));
            assert(sink_iter(evs0, starts0, st_in, i as int) == sink_iter(
                evs0,
                starts0,
                st_eaten,
                i as int + 1,
            ));
        }
        i = i + 1;
    }
    // fold whatever is open into the single root
    while stack.len() > 1
        invariant
            fold_stack(
                sink_iter(
                    evs0,
                    starts0,
                    SinkState { stack: Seq::empty(), rem: toks0, errors: Seq::empty() },
                    0,
                ).stack,
            ) == fold_stack(stack_view(stack@)),
        decreases stack@.len(),
    {
        let ghost stv = stack_view(stack@);
        let top = stack.pop().unwrap();
        proof {
            assert(node_model(top) == stv.last());
            assert(stack_view(stack@) =~= stv.drop_last());
        }
        attach(&mut stack, Element::Node(top));
    }
    let root = if stack.len() == 1 {
        let ghost stv = stack_view(stack@);
        let r = stack.pop().unwrap();
        proof {
            assert(node_model(r) == stv[0]);
        }
        r
    } else {
        let fresh: Vec<Element> = Vec::new();
        let r = Node { kind: SyntaxKind::Root, children: fresh };
        proof {
            assert(node_model(r).children =~= Seq::<ElemModel>::empty());
        }
        r
    };
    (root, errors)
}

} // verus!

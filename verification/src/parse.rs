//! The whole pipeline: tokenize, run the grammar, reduce the events. The
//! result — one root node plus ordered diagnostics — is a function of the
//! input text alone. Also the textual rendering of trees and diagnostics.

use vstd::prelude::*;
use vstd::string::StrSliceExecFns;
use vstd::string::StringExecFns;
use crate::grammar::root;
use crate::grammar::root_spec;
use crate::lexer::{lex_from, tokenize};
use crate::parser::{Diag, Diagnostic, Parser, PState};
use crate::syntax_kind::{syntax_kind_of, SyntaxKind};
use crate::token_kind::TokenKind;
use crate::tree::{
    diags_view, lemma_children_models, node_model, node_text, reduce, reduce_spec, Element,
    ElemModel, Node, NodeModel,
};

verus! {

/// The model of a parse result: the root node and the diagnostics.
pub ghost struct ParseModel {
    pub root: NodeModel,
    pub errors: Seq<Diag>,
}

/// What the whole pipeline produces for an input: the token sequence, the
/// event stream of the grammar run on a fresh state, and its reduction.
pub open spec fn parse_spec(s: Seq<char>) -> ParseModel {
    let toks = lex_from(s, 0);
    let st = PState {
        toks,
        pos: 0,
        events: Seq::empty(),
        expected: Seq::empty(),
    };
    let r = reduce_spec(toks, root_spec(st).events);
    ParseModel { root: r.0, errors: r.1 }
}

/// The outcome of parsing: a rooted immutable tree plus the ordered
/// diagnostics. Absence of diagnostics is not signalled separately;
/// callers check whether `errors` is empty.
pub struct Parse {
    pub root: Node,
    pub errors: Vec<Diagnostic>,
}

impl View for Parse {
    type V = ParseModel;

    open spec fn view(&self) -> ParseModel {
        ParseModel { root: node_model(self.root), errors: diags_view(self.errors@) }
    }
}

/// Parses the input. Success and partial failure both produce a tree: a
/// malformed token becomes an `Error` leaf, an unexpected token a
/// diagnostic, and parsing never aborts early. The result is exactly
/// `parse_spec` of the input, so re-running the pipeline on the same text
/// reproduces the same tree and the same diagnostics.
pub fn parse(input: &str) -> (r: Parse)
    ensures
        r@ == parse_spec(input@),
        node_text(r@.root) == input@,
        r@.root.kind == SyntaxKind::Root,
        forall|k1: int, k2: int|
            0 <= k1 <= k2 < r@.errors.len() ==> #[trigger] r@.errors[k1].start
                <= #[trigger] r@.errors[k2].start,
{
    proof {
        crate::laws::lemma_parse_lossless(input@);
        crate::laws::lemma_parse_single_root(input@);
        crate::laws::lemma_parse_errors_ordered(input@);
    }
    let tokens = tokenize(input);
    let mut p = Parser::new(tokens);
    root(&mut p);
    let Parser { tokens, pos: _, events, expected: _ } = p;
    let (root_node, errors) = reduce(tokens, events);
    Parse { root: root_node, errors }
}

/// The decimal spelling of one digit.
pub open spec fn digit_str(d: int) -> Seq<char> {
    if d == 0 { "0"@ }
    else if d == 1 { "1"@ }
    else if d == 2 { "2"@ }
    else if d == 3 { "3"@ }
    else if d == 4 { "4"@ }
    else if d == 5 { "5"@ }
    else if d == 6 { "6"@ }
    else if d == 7 { "7"@ }
    else if d == 8 { "8"@ }
    else { "9"@ }
}

/// The decimal spelling of a nonnegative number, most significant digit
/// first.
pub open spec fn dec_str(n: int) -> Seq<char>
    decreases n,
{
    if n < 10 {
        digit_str(n)
    } else {
        dec_str(n / 10) + digit_str(n % 10)
    }
}

/// Appends the decimal digits of `n`.
fn push_decimal(out: &mut String, n: usize)
    ensures
        final(out)@ == old(out)@ + dec_str(n as int),
{
    if n == 0 {
        push_digit(out, 0);
    } else {
        push_decimal_rec(out, n);
    }
}

fn push_decimal_rec(out: &mut String, n: usize)
    requires
        n >= 1,
    ensures
        final(out)@ == old(out)@ + dec_str(n as int),
    decreases n,
{
    let ghost out0 = out@;
    if n >= 10 {
        push_decimal_rec(out, n / 10);
        push_digit(out, n % 10);
        proof {
            assert((out0 + dec_str(n as int / 10)) + digit_str(n as int % 10) =~= out0 + (dec_str(
                n as int / 10,
            ) + digit_str(n as int % 10)));
        }
    } else {
        push_digit(out, n % 10);
        proof {
            assert(n as int % 10 == n as int);
        }
    }
}

fn push_digit(out: &mut String, d: usize)
    requires
        d < 10,
    ensures
        final(out)@ == old(out)@ + digit_str(d as int),
{
    let s = if d == 0 { "0" }
    else if d == 1 { "1" }
    else if d == 2 { "2" }
    else if d == 3 { "3" }
    else if d == 4 { "4" }
    else if d == 5 { "5" }
    else if d == 6 { "6" }
    else if d == 7 { "7" }
    else if d == 8 { "8" }
    else { "9" };
    out.append(s);
}

/// How one character is spelled inside a quoted token text: the common
/// escapes, every other character as itself.
pub open spec fn escape_char(c: char) -> Seq<char> {
    if c == '\n' { "\\n"@ }
    else if c == '\t' { "\\t"@ }
    else if c == '\r' { "\\r"@ }
    else if c == '"' { "\\\""@ }
    else if c == '\\' { "\\\\"@ }
    else { seq![c] }
}

/// The quoted spelling of a whole text.
pub open spec fn escaped(s: Seq<char>) -> Seq<char>
    decreases s.len(),
{
    if s.len() == 0 {
        Seq::empty()
    } else {
        escaped(s.drop_last()) + escape_char(s.last())
    }
}

proof fn lemma_escaped_plain(s: Seq<char>, a: int, b: int)
    requires
        0 <= a <= b <= s.len(),
        forall|j: int| a <= j < b ==> escape_char(s[j]) == seq![s[j]],
    ensures
        escaped(s.take(b)) == escaped(s.take(a)) + s.subrange(a, b),
    decreases b - a,
{
    if a == b {
        assert(s.subrange(a, b).len() == 0);
        assert(escaped(s.take(a)) + s.subrange(a, b) =~= escaped(s.take(a)));
    } else {
        lemma_escaped_plain(s, a, b - 1);
        assert(s.take(b).drop_last() =~= s.take(b - 1));
        assert(s.take(b).last() == s[b - 1]);
        assert(escaped(s.take(b)) == escaped(s.take(b - 1)) + escape_char(s[b - 1]));
        assert(escape_char(s[b - 1]) == seq![s[b - 1]]);
        assert(s.subrange(a, b - 1) + seq![s[b - 1]] =~= s.subrange(a, b));
        assert((escaped(s.take(a)) + s.subrange(a, b - 1)) + seq![s[b - 1]] =~= escaped(s.take(a))
            + s.subrange(a, b));
    }
}

proof fn lemma_escaped_step(s: Seq<char>, i: int)
    requires
        0 <= i < s.len(),
    ensures
        escaped(s.take(i + 1)) == escaped(s.take(i)) + escape_char(s[i]),
{
    assert(s.take(i + 1).drop_last() =~= s.take(i));
    assert(s.take(i + 1).last() == s[i]);
}

/// Appends the token text with the escapes its rendering uses: newline,
/// tab, carriage return, quote and backslash.
fn push_escaped(out: &mut String, text: &str)
    ensures
        final(out)@ == old(out)@ + escaped(text@),
{
    let ghost out0 = out@;
    let n = text.unicode_len();
    let mut i: usize = 0;
    let mut run: usize = 0;
    proof {
        assert(text@.take(0).len() == 0);
        assert(out@ =~= out0 + escaped(text@.take(0)));
    }
    while i < n
        invariant
            run <= i <= n,
            n == text@.len(),
            out@ == out0 + escaped(text@.take(run as int)),
            forall|j: int| run <= j < i ==> escape_char(text@[j]) == seq![text@[j]],
        decreases n - i,
    {
        let c = text.get_char(i);
        let esc = if c == '\n' { Some("\\n") }
        else if c == '\t' { Some("\\t") }
        else if c == '\r' { Some("\\r") }
        else if c == '"' { Some("\\\"") }
        else if c == '\\' { Some("\\\\") }
        else { None };
        match esc {
            Some(s) => {
                proof {
                    assert(s@ == escape_char(text@[i as int]));
                }
                let plain = text.substring_char(run, i);
                out.append(plain);
                out.append(s);
                proof {
                    lemma_escaped_plain(text@, run as int, i as int);
                    lemma_escaped_step(text@, i as int);
                    assert(out@ =~= out0 + escaped(text@.take(i as int + 1)));
                }
                run = i + 1;
            },
            None => {},
        }
        i = i + 1;
    }
    let tail = text.substring_char(run, n);
    out.append(tail);
    proof {
        lemma_escaped_plain(text@, run as int, n as int);
        assert(text@.take(n as int) =~= text@);
        assert(out@ =~= out0 + escaped(text@));
    }
}

/// Addition clamped at the machine limit, as the renderer computes
/// ranges: it never fails, whatever tree it is given.
pub open spec fn sat_add(a: int, b: int) -> int {
    if a + b > usize::MAX {
        usize::MAX as int
    } else {
        a + b
    }
}

/// The width in characters an element covers, as the renderer measures it.
pub open spec fn elem_len_s(e: ElemModel) -> int
    decreases e, 0int, 0int,
{
    match e {
        ElemModel::Token(t) => t.text.len() as int,
        ElemModel::Node(n) => node_len_s(n),
    }
}

pub open spec fn node_len_s(n: NodeModel) -> int
    decreases n, 1int, 0int,
{
    len_prefix_s(n.children, n.children.len() as int)
}

/// The clamped total width of the first `i` children.
pub open spec fn len_prefix_s(cs: Seq<ElemModel>, i: int) -> int
    decreases cs, 0int, i,
{
    if i <= 0 || i > cs.len() {
        0
    } else {
        sat_add(len_prefix_s(cs, i - 1), elem_len_s(cs[i - 1]))
    }
}

fn elem_len(e: &Element) -> (r: usize)
    ensures
        r as int == elem_len_s(e@),
    decreases *e,
{
    match e {
        Element::Token(t) => t.text.as_str().unicode_len(),
        Element::Node(n) => node_len(n),
    }
}

fn node_len(n: &Node) -> (r: usize)
    ensures
        r as int == node_len_s(node_model(*n)),
    decreases *n,
{
    let ghost cm = node_model(*n).children;
    proof {
        lemma_children_models(n.children@);
    }
    let mut total: usize = 0;
    let mut i: usize = 0;
    while i < n.children.len()
        invariant
            i <= n.children@.len(),
            cm == node_model(*n).children,
            cm.len() == n.children@.len(),
            forall|k: int| 0 <= k < cm.len() ==> cm[k] == n.children@[k]@,
            total as int == len_prefix_s(cm, i as int),
        decreases n.children@.len() - i,
    {
        let l = elem_len(&n.children[i]);
        total = total.saturating_add(l);
        i = i + 1;
    }
    total
}

/// Two spaces of indent per depth.
pub open spec fn indent_str(depth: int) -> Seq<char>
    decreases depth,
{
    if depth <= 0 {
        Seq::empty()
    } else {
        indent_str(depth - 1) + "  "@
    }
}

/// The rendering of one element: its own line — kind, clamped range, and
/// for a token its quoted text — followed by its children, each child
/// line preceded by a line break.
pub open spec fn render_elem(e: ElemModel, depth: int, off: int) -> Seq<char>
    decreases e, 0int, 0int,
{
    match e {
        ElemModel::Node(n) => render_node(n, depth, off),
        ElemModel::Token(t) => indent_str(depth) + syntax_kind_of(t.kind).spec_name() + "@"@
            + dec_str(off) + ".."@ + dec_str(sat_add(off, t.text.len() as int)) + " \""@
            + escaped(t.text) + "\""@,
    }
}

pub open spec fn render_node(n: NodeModel, depth: int, off: int) -> Seq<char>
    decreases n, 1int, 0int,
{
    indent_str(depth) + n.kind.spec_name() + "@"@ + dec_str(off) + ".."@ + dec_str(
        sat_add(off, node_len_s(n)),
    ) + render_children(n.children, sat_add(depth, 1), off, n.children.len() as int)
}

pub open spec fn render_children(cs: Seq<ElemModel>, depth: int, off: int, i: int) -> Seq<char>
    decreases cs, 0int, i,
{
    if i <= 0 || i > cs.len() {
        Seq::empty()
    } else {
        render_children(cs, depth, off, i - 1) + "\n"@ + render_elem(
            cs[i - 1],
            depth,
            sat_add(off, len_prefix_s(cs, i - 1)),
        )
    }
}

proof fn lemma_elem_len_nonneg(e: ElemModel)
    ensures
        elem_len_s(e) >= 0,
    decreases e, 0int, 0int,
{
    match e {
        ElemModel::Node(n) => lemma_node_len_nonneg(n),
        ElemModel::Token(t) => {},
    }
}

proof fn lemma_node_len_nonneg(n: NodeModel)
    ensures
        node_len_s(n) >= 0,
    decreases n, 1int, 0int,
{
    lemma_len_prefix_nonneg(n.children, n.children.len() as int);
}

proof fn lemma_len_prefix_nonneg(cs: Seq<ElemModel>, i: int)
    ensures
        len_prefix_s(cs, i) >= 0,
    decreases cs, 0int, i,
{
    if 0 < i <= cs.len() {
        lemma_len_prefix_nonneg(cs, i - 1);
        lemma_elem_len_nonneg(cs[i - 1]);
    }
}

fn push_indent(out: &mut String, depth: usize)
    ensures
        final(out)@ == old(out)@ + indent_str(depth as int),
{
    let ghost out0 = out@;
    let mut i: usize = 0;
    while i < depth
        invariant
            i <= depth,
            out@ == out0 + indent_str(i as int),
        decreases depth - i,
    {
        out.append("  ");
        proof {
            assert(out@ =~= out0 + indent_str(i as int + 1));
        }
        i = i + 1;
    }
}

fn push_line_break(out: &mut String)
    ensures
        old(out)@.len() == 0 ==> final(out)@ == old(out)@,
        old(out)@.len() > 0 ==> final(out)@ == old(out)@ + "\n"@,
{
    if !out.as_str().is_empty() {
        out.append("\n");
    }
}

/// Renders one node, rowan-style: `Kind@start..end`, children indented two
/// spaces deeper, tokens with their text quoted. A line break comes before
/// every line but the very first of the rendering.
#[verifier::rlimit(100)]
#[verifier::spinoff_prover]
fn push_node(out: &mut String, n: &Node, depth: usize, offset: usize)
    ensures
        old(out)@.len() == 0 ==> final(out)@ == render_node(
            node_model(*n),
            depth as int,
            offset as int,
        ),
        old(out)@.len() > 0 ==> final(out)@ == old(out)@ + "\n"@ + render_node(
            node_model(*n),
            depth as int,
            offset as int,
        ),
        final(out)@.len() > 0,
    decreases *n,
{
    let ghost out0 = out@;
    let ghost nm = node_model(*n);
    let ghost cm = nm.children;
    let ghost sep: Seq<char> = if out0.len() == 0 { Seq::empty() } else { "\n"@ };
    proof {
        lemma_children_models(n.children@);
    }
    push_line_break(out);
    push_indent(out, depth);
    out.append(n.kind.name());
    out.append("@");
    push_decimal(out, offset);
    out.append("..");
    let total = node_len(n);
    push_decimal(out, offset.saturating_add(total));
    let ghost head = out@;
    proof {
        reveal_strlit("@");
        assert(head =~= out0 + sep + indent_str(depth as int) + nm.kind.spec_name() + "@"@
            + dec_str(offset as int) + ".."@ + dec_str(sat_add(offset as int, node_len_s(nm))));
        assert(head.len() > 0);
        assert(head + render_children(cm, sat_add(depth as int, 1), offset as int, 0) =~= head);
    }
    let mut off: usize = offset;
    let mut i: usize = 0;
    while i < n.children.len()
        invariant
            i <= n.children@.len(),
            nm == node_model(*n),
            cm == nm.children,
            cm.len() == n.children@.len(),
            forall|k: int| 0 <= k < cm.len() ==> cm[k] == n.children@[k]@,
            out@ == head + render_children(cm, sat_add(depth as int, 1), offset as int, i as int),
            out@.len() > 0,
            off as int == sat_add(offset as int, len_prefix_s(cm, i as int)),
        decreases n.children@.len() - i,
    {
        let child = &n.children[i];
        let l = elem_len(child);
        proof {
            assert(elem_len_s(cm[i as int]) == l as int);
        }
        match child {
            Element::Node(c) => {
                push_node(out, c, depth.saturating_add(1), off);
                proof {
                    assert(cm[i as int] == (ElemModel::Node(node_model(*c))));
                    let re = render_elem(cm[i as int], sat_add(depth as int, 1), off as int);
                    assert(re == render_node(
                        node_model(*c),
                        sat_add(depth as int, 1),
                        off as int,
                    ));
                    assert(render_children(cm, sat_add(depth as int, 1), offset as int, i as int
                        + 1) == render_children(cm, sat_add(depth as int, 1), offset as int, i as int)
                        + "\n"@ + re);
                    assert(out@ =~= head + render_children(
                        cm,
                        sat_add(depth as int, 1),
                        offset as int,
                        i as int + 1,
                    ));
                }
            },
            Element::Token(t) => {
                push_line_break(out);
                push_indent(out, depth.saturating_add(1));
                out.append(SyntaxKind::from(t.kind).name());
                out.append("@");
                push_decimal(out, off);
                out.append("..");
                push_decimal(out, off.saturating_add(l));
                out.append(" \"");
                push_escaped(out, t.text.as_str());
                out.append("\"");
                proof {
                    assert(cm[i as int] == (ElemModel::Token(t@)));
                    let re = render_elem(cm[i as int], sat_add(depth as int, 1), off as int);
                    assert(re == indent_str(sat_add(depth as int, 1)) + syntax_kind_of(
                        t.kind,
                    ).spec_name() + "@"@ + dec_str(off as int) + ".."@ + dec_str(
                        sat_add(off as int, t.text@.len() as int),
                    ) + " \""@ + escaped(t.text@) + "\""@);
                    assert(render_children(cm, sat_add(depth as int, 1), offset as int, i as int
                        + 1) == render_children(cm, sat_add(depth as int, 1), offset as int, i as int)
                        + "\n"@ + re);
                    assert(out@ =~= head + render_children(
                        cm,
                        sat_add(depth as int, 1),
                        offset as int,
                        i as int + 1,
                    ));
                }
            },
        }
        off = off.saturating_add(l);
        i = i + 1;
        proof {
            lemma_len_prefix_nonneg(cm, i as int - 1);
            lemma_elem_len_nonneg(cm[i as int - 1]);
            assert(off as int == sat_add(offset as int, len_prefix_s(cm, i as int)));
        }
    }
    proof {
        assert(final(out)@ =~= out0 + sep + render_node(nm, depth as int, offset as int));
    }
}

/// The comma-joined list of the first `i` expected names, with `or`
/// before the last of the whole list.
pub open spec fn expected_names(ks: Seq<TokenKind>, i: int) -> Seq<char>
    decreases i,
{
    if i <= 0 {
        Seq::empty()
    } else {
        expected_names(ks, i - 1) + (if i - 1 == 0 {
            Seq::<char>::empty()
        } else if i == ks.len() {
            " or "@
        } else {
            ", "@
        }) + ks[i - 1].spec_display_name()
    }
}

/// The fixed shape of a rendered diagnostic: `error at <start>..<end>:
/// expected <names>`, then ` but found <name>` when the failure was at a
/// concrete token.
pub open spec fn spec_render_diagnostic(d: Diag) -> Seq<char> {
    "error at "@ + dec_str(d.start) + ".."@ + dec_str(d.end) + ": expected "@ + expected_names(
        d.expected,
        d.expected.len() as int,
    ) + (match d.found {
        Some(k) => " but found "@ + k.spec_display_name(),
        None => Seq::<char>::empty(),
    })
}

/// Renders one diagnostic: `error at start..end: expected A, B or C`, with
/// ` but found D` when the failure was at a concrete token.
pub fn render_diagnostic(d: &Diagnostic) -> (r: String)
    ensures
        r@ == spec_render_diagnostic(d@),
{
    let mut out = String::new();
    out.append("error at ");
    push_decimal(&mut out, d.start);
    out.append("..");
    push_decimal(&mut out, d.end);
    out.append(": expected ");
    let ghost head = out@;
    proof {
        assert(head + expected_names(d.expected@, 0) =~= head);
    }
    let n = d.expected.len();
    let mut i: usize = 0;
    while i < n
        invariant
            i <= n,
            n == d.expected@.len(),
            head == "error at "@ + dec_str(d.start as int) + ".."@ + dec_str(d.end as int)
                + ": expected "@,
            out@ == head + expected_names(d.expected@, i as int),
        decreases n - i,
    {
        let ghost before = out@;
        if i > 0 {
            if i + 1 == n {
                out.append(" or ");
            } else {
                out.append(", ");
            }
        }
        out.append(d.expected[i].display_name());
        proof {
            assert(out@ =~= head + expected_names(d.expected@, i as int + 1));
        }
        i = i + 1;
    }
    match d.found {
        Some(k) => {
            out.append(" but found ");
            out.append(k.display_name());
        },
        None => {},
    }
    proof {
        assert(out@ =~= spec_render_diagnostic(d@));
    }
    out
}

/// One line per diagnostic, each preceded by a line break, in order.
pub open spec fn error_lines(ds: Seq<Diag>, i: int) -> Seq<char>
    decreases i,
{
    if i <= 0 || i > ds.len() {
        Seq::empty()
    } else {
        error_lines(ds, i - 1) + "\n"@ + spec_render_diagnostic(ds[i - 1])
    }
}

/// The full rendering: the tree, then one line per diagnostic, in order.
pub open spec fn spec_debug_tree(p: ParseModel) -> Seq<char> {
    render_node(p.root, 0, 0) + error_lines(p.errors, p.errors.len() as int)
}

impl Parse {
    /// The textual rendering of the tree, followed by one line per
    /// diagnostic, in order.
    pub fn debug_tree(&self) -> (r: String)
        ensures
            r@ == spec_debug_tree(self@),
    {
        let mut out = String::new();
        push_node(&mut out, &self.root, 0, 0);
        let ghost tree_part = out@;
        let ghost ds = diags_view(self.errors@);
        proof {
            assert(tree_part + error_lines(ds, 0) =~= tree_part);
        }
        let mut i: usize = 0;
        while i < self.errors.len()
            invariant
                i <= self.errors@.len(),
                ds == diags_view(self.errors@),
                ds.len() == self.errors@.len(),
                tree_part == render_node(node_model(self.root), 0, 0),
                out@ == tree_part + error_lines(ds, i as int),
            decreases self.errors@.len() - i,
        {
            out.append("\n");
            let line = render_diagnostic(&self.errors[i]);
            out.append(line.as_str());
            proof {
                assert(ds[i as int] == self.errors@[i as int]@);
                assert(out@ =~= tree_part + error_lines(ds, i as int + 1));
            }
            i = i + 1;
        }
        proof {
            assert(out@ =~= spec_debug_tree(self@));
        }
        out
    }
}

} // verus!

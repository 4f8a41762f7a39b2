use vstd::prelude::*;

use crate::span::Span;

verus! {

/// A parse-forest node: a node kind over the span of input it covers.
#[derive(Clone, Copy, Debug, PartialEq, Eq, Structural, Hash)]
pub struct Node {
    pub kind: u32,
    pub range: Span,
}

/// Where a suspended parse path resumes: the next step to run, the forest
/// node its caller staged, and the input consumed so far on this path.
#[derive(Clone, Copy, Debug, PartialEq, Eq, Structural, Hash)]
pub struct Continuation {
    pub code: u32,
    pub saved: Option<Node>,
    pub result: Span,
}

/// A pending thread: a continuation and the input that remains for it.
#[derive(Clone, Copy, Debug, PartialEq, Eq, Structural, Hash)]
pub struct Thread {
    pub cont: Continuation,
    pub range: Span,
}

/// A nonterminal (named by the label of its entry step) applied to a span.
#[derive(Clone, Copy, Debug, PartialEq, Eq, Structural, Hash)]
pub struct CallSite {
    pub callee: u32,
    pub range: Span,
}

/// Strict order on nodes: by kind, then by span.
pub open spec fn node_lt(a: Node, b: Node) -> bool {
    a.kind < b.kind || (a.kind == b.kind && a.range.lt(b.range))
}

/// Strict order on staged nodes: an empty slot comes first.
pub open spec fn saved_lt(a: Option<Node>, b: Option<Node>) -> bool {
    match (a, b) {
        (None, Some(_)) => true,
        (Some(x), Some(y)) => node_lt(x, y),
        _ => false,
    }
}

/// Strict order on continuations: by `(code, saved, result)`.
pub open spec fn cont_lt(a: Continuation, b: Continuation) -> bool {
    a.code < b.code || (a.code == b.code && (saved_lt(a.saved, b.saved) || (a.saved == b.saved
        && a.result.lt(b.result))))
}

/// Strict order on threads: descending on the remaining span, then
/// ascending on the continuation. The scheduler runs the greatest first.
pub open spec fn thread_lt(a: Thread, b: Thread) -> bool {
    b.range.lt(a.range) || (a.range == b.range && cont_lt(a.cont, b.cont))
}

/// A thread whose consumed input ends where its remaining input begins.
pub open spec fn thread_wf(t: Thread) -> bool {
    t.cont.result.wf() && t.range.wf() && t.cont.result.end == t.range.start
}

pub fn node_less(a: &Node, b: &Node) -> (r: bool)
    ensures
        r == node_lt(*a, *b),
{
    a.kind < b.kind || (a.kind == b.kind && a.range.less_than(&b.range))
}

pub fn saved_less(a: &Option<Node>, b: &Option<Node>) -> (r: bool)
    ensures
        r == saved_lt(*a, *b),
{
    match (a, b) {
        (None, Some(_)) => true,
        (Some(x), Some(y)) => node_less(x, y),
        _ => false,
    }
}

pub fn cont_less(a: &Continuation, b: &Continuation) -> (r: bool)
    ensures
        r == cont_lt(*a, *b),
{
    a.code < b.code || (a.code == b.code && (saved_less(&a.saved, &b.saved) || (a.saved == b.saved
        && a.result.less_than(&b.result))))
}

pub fn thread_less(a: &Thread, b: &Thread) -> (r: bool)
    ensures
        r == thread_lt(*a, *b),
{
    b.range.less_than(&a.range) || (a.range == b.range && cont_less(&a.cont, &b.cont))
}

/// The order on threads is transitive.
pub proof fn lemma_thread_lt_transitive(a: Thread, b: Thread, c: Thread)
    requires
        thread_lt(a, b),
        thread_lt(b, c),
    ensures
        thread_lt(a, c),
{
}

/// Of two distinct threads, one comes before the other.
pub proof fn lemma_thread_lt_total(a: Thread, b: Thread)
    requires
        a != b,
    ensures
        thread_lt(a, b) || thread_lt(b, a),
{
}

/// No thread comes before itself.
pub proof fn lemma_thread_lt_irreflexive(a: Thread)
    ensures
        !thread_lt(a, a),
{
}

} // verus!

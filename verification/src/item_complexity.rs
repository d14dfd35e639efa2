//! Functions with too many nodes.
use vstd::prelude::*;

use crate::hir;
use crate::hir::{Diagnostic, FnKind, Span};
use crate::text;

verus! {

/// The number of nodes above which a function is too complex, unless another is
/// chosen.
pub const DEFAULT_THRESHOLD: usize = 250;

/// The kinds of nodes in the body of a function.
#[derive(Debug, Clone, Copy, PartialEq, Eq, Structural)]
pub enum NodeKind {
    Expr,
    Stmt,
    Pat,
    /// A node that holds others but does not count itself.
    Other,
}

/// A node in the body of a function with the nodes right below it.
#[derive(Debug)]
pub struct Node {
    pub kind: NodeKind,
    /// Whether a macro produced it.
    pub from_expansion: bool,
    pub children: Vec<Node>,
}

/// The number of expressions, statements and patterns from `node` on. What a macro
/// produced does not count, with all below it.
pub open spec fn node_count(node: Node) -> nat
    decreases node,
{
    if node.kind == NodeKind::Other {
        child_count(node.children@)
    } else if node.from_expansion {
        0
    } else {
        1 + child_count(node.children@)
    }
}

/// The number of expressions, statements and patterns from each of `nodes` on.
pub open spec fn child_count(nodes: Seq<Node>) -> nat
    decreases nodes,
{
    if nodes.len() == 0 {
        0
    } else {
        child_count(nodes.drop_last()) + node_count(nodes.last())
    }
}

/// Counts the expressions, statements and patterns from `node` on.
pub fn count_nodes(node: &Node) -> (r: usize)
    ensures
        r == hir::capped(node_count(*node)),
    decreases node,
{
    if node.kind == NodeKind::Other {
        count_children(&node.children)
    } else if node.from_expansion {
        0
    } else {
        hir::capped_sum(1, count_children(&node.children))
    }
}

/// Counts the expressions, statements and patterns from each of `nodes` on.
fn count_children(nodes: &Vec<Node>) -> (r: usize)
    ensures
        r == hir::capped(child_count(nodes@)),
    decreases nodes,
{
    let mut count: usize = 0;
    let mut i: usize = 0;
    proof {
        assert(nodes@.take(0) =~= Seq::empty());
    }
    while i < nodes.len()
        invariant
            i <= nodes.len(),
            count == hir::capped(child_count(nodes@.take(i as int))),
        decreases nodes.len() - i,
    {
        proof {
            assert(decreases_to!(nodes => nodes@[i as int]));
            assert(nodes@.take(i + 1).drop_last() =~= nodes@.take(i as int));
            assert(nodes@.take(i + 1).last() == nodes@[i as int]);
        }
        count = hir::capped_sum(count, count_nodes(&nodes[i]));
        i = i + 1;
    }
    proof {
        assert(nodes@.take(i as int) =~= nodes@);
    }
    count
}

/// Whether a function is too complex: no macro produced it, and its body has more
/// than `threshold` nodes.
pub open spec fn is_complex(body: Node, span: Span, threshold: usize) -> bool {
    !span.from_expansion && hir::capped(node_count(body)) > threshold
}

/// The warning on a function that is too complex.
pub open spec fn complexity_warning(
    kind: FnKind,
    body: Node,
    span: Span,
    threshold: usize,
) -> hir::DiagnosticText {
    hir::DiagnosticText {
        span: span.id,
        message: hir::fn_title(kind) + " has "@ + text::decimal(hir::capped(node_count(body)))
            + " HIR nodes (threshold: "@ + text::decimal(threshold as nat)
            + "); consider breaking it into smaller functions"@,
        advice: Seq::empty(),
    }
}

/// Looks at the function `kind` with the body `body`.
pub fn check_fn(kind: &FnKind, body: &Node, span: &Span, threshold: usize) -> (r: Option<
    Diagnostic,
>)
    ensures
        r is Some <==> is_complex(*body, *span, threshold),
        r matches Some(warning) ==> warning@ == complexity_warning(*kind, *body, *span, threshold),
{
    if span.from_expansion {
        return None;
    }
    let count = count_nodes(body);
    if count <= threshold {
        return None;
    }
    let mut message = hir::fn_kind_name(kind);
    message.append(" has ");
    message.append(text::decimal_string(count).as_str());
    message.append(" HIR nodes (threshold: ");
    message.append(text::decimal_string(threshold).as_str());
    message.append("); consider breaking it into smaller functions");
    let advice = String::new();
    proof {
        assert(advice@ =~= Seq::empty());
    }
    Some(Diagnostic { span: span.id, message, advice })
}

/// A function that is too complex at one threshold is so at every lower one.
pub proof fn lemma_lower_threshold(body: Node, span: Span, lower: usize, higher: usize)
    requires
        lower <= higher,
        is_complex(body, span, higher),
    ensures
        is_complex(body, span, lower),
{
}

/// What a macro produced adds nothing to the count.
pub proof fn lemma_expansion_adds_nothing(nodes: Seq<Node>, produced: Node)
    requires
        produced.from_expansion,
        produced.kind != NodeKind::Other,
    ensures
        child_count(nodes.push(produced)) == child_count(nodes),
{
    assert(nodes.push(produced).drop_last() =~= nodes);
    assert(nodes.push(produced).last() == produced);
    reveal_with_fuel(child_count, 2);
    assert(node_count(produced) == 0);
}

/// The nodes of two lists count together, and those of one are those from it on.
pub proof fn lemma_nodes_of_two(some: Seq<Node>, others: Seq<Node>, one: Node)
    ensures
        child_count(some + others) == child_count(some) + child_count(others),
        child_count(seq![one]) == node_count(one),
    decreases others.len(),
{
    if others.len() == 0 {
        assert(some + others =~= some);
    } else {
        lemma_nodes_of_two(some, others.drop_last(), one);
        assert((some + others).drop_last() =~= some + others.drop_last());
        assert((some + others).last() == others.last());
    }
    assert(seq![one].drop_last() =~= Seq::empty());
    assert(child_count(seq![one].drop_last()) == 0);
}

/// An expression, a statement or a pattern that was written counts one more than what is
/// below it, and one that a macro produced nothing; any other node counts what is below
/// it.
pub proof fn lemma_what_counts(node: Node)
    ensures
        node.kind is Other ==> node_count(node) == child_count(node.children@),
        !(node.kind is Other) && !node.from_expansion ==> node_count(node) == child_count(
            node.children@,
        ) + 1,
        !(node.kind is Other) && node.from_expansion ==> node_count(node) == 0,
{
}

/// A function that was written is too complex exactly if its body has more nodes than the
/// threshold; one that a macro produced never is.
pub proof fn lemma_above_threshold(body: Node, span: Span, threshold: usize)
    requires
        node_count(body) <= usize::MAX,
    ensures
        is_complex(body, span, threshold) <==> !span.from_expansion && node_count(body) > threshold,
{
}

/// A warning begins with the function and says how many nodes it has.
pub proof fn lemma_warning_names_count(kind: FnKind, body: Node, span: Span, threshold: usize)
    ensures
        ({
            let warning = complexity_warning(kind, body, span, threshold);
            let title = hir::fn_title(kind);
            let count = text::decimal(hir::capped(node_count(body)));
            let limit = text::decimal(threshold as nat);
            let n = title.len() as int;
            let m = n + 5 + count.len();
            &&& warning.span == span.id
            &&& warning.message.take(n) == title
            &&& warning.message.subrange(n + 5, m) == count
            &&& warning.message.subrange(m + 23, m + 23 + limit.len()) == limit
        }),
{
    reveal_strlit(" has ");
    reveal_strlit(" HIR nodes (threshold: ");
    let message = complexity_warning(kind, body, span, threshold).message;
    let title = hir::fn_title(kind);
    let count = text::decimal(hir::capped(node_count(body)));
    let limit = text::decimal(threshold as nat);
    let n = title.len() as int;
    let m = n + 5 + count.len();
    assert(message.take(n) =~= title);
    assert(message.subrange(n + 5, m) =~= count);
    assert(message.subrange(m + 23, m + 23 + limit.len()) =~= limit);
}

} // verus!

//! Modules and functions that only pass on to others.
use vstd::prelude::*;

use crate::hir;
use crate::hir::{Body, Diagnostic, Expr, ExprKind, FnKind, InnerItem, Item, ItemKind, Param, Pat, Span};
use crate::text;

verus! {

/// Whether a module holds only one public reexport of one name.
pub open spec fn is_wrapper_module(item: Item) -> bool {
    match item.kind {
        ItemKind::Mod(items) => !item.span.from_expansion && items.len() == 1
            && items@[0].is_single_use && items@[0].is_public,
        _ => false,
    }
}

/// Looks at the module `item`.
pub fn check_trivial_wrapper_module(item: &Item) -> (r: Option<Diagnostic>)
    ensures
        r is Some <==> is_wrapper_module(*item),
        r matches Some(warning) ==> warning@ == (hir::DiagnosticText {
            span: item.span.id,
            message: "module contains only a single `pub use` re-export"@,
            advice: "consider replacing this module with the `pub use` at the parent scope"@,
        }),
{
    if item.span.from_expansion {
        return None;
    }
    let ItemKind::Mod(items) = &item.kind else {
        return None;
    };
    if items.len() != 1 {
        return None;
    }
    let inner: &InnerItem = &items[0];
    if !inner.is_single_use || !inner.is_public {
        return None;
    }
    Some(
        Diagnostic {
            span: item.span.id,
            message: "module contains only a single `pub use` re-export".to_owned(),
            advice: "consider replacing this module with the `pub use` at the parent scope".to_owned(),
        },
    )
}

/// The expression that the blocks around it hold alone.
pub open spec fn sole_expr(expr: Expr) -> Option<Expr>
    decreases expr,
{
    match expr.kind {
        ExprKind::Block { stmts, tail, .. } => match tail {
            Some(inner) => if stmts.len() == 0 {
                sole_expr(*inner)
            } else {
                None
            },
            None => None,
        },
        _ => Some(expr),
    }
}

/// The expression that the blocks around it hold alone.
pub fn peel_blocks_checking_stmts<'a>(expr: &'a Expr) -> (r: Option<&'a Expr>)
    ensures
        r is Some <==> sole_expr(*expr) is Some,
        r matches Some(inner) ==> sole_expr(*expr) == Some(*inner),
    decreases expr,
{
    match &expr.kind {
        ExprKind::Block { stmts, tail, .. } => {
            if stmts.len() > 0 {
                return None;
            }
            match tail {
                Some(inner) => peel_blocks_checking_stmts(inner),
                None => None,
            }
        },
        _ => Some(expr),
    }
}

/// Whether one of the blocks around an expression is `unsafe`.
pub open spec fn in_unsafe_block(expr: Expr) -> bool
    decreases expr,
{
    match expr.kind {
        ExprKind::Block { stmts, tail, is_unsafe } => is_unsafe || match tail {
            Some(inner) => stmts.len() == 0 && in_unsafe_block(*inner),
            None => false,
        },
        _ => false,
    }
}

/// Whether one of the blocks around the inner expression of `expr` is `unsafe`.
pub fn contains_unsafe_block(expr: &Expr) -> (b: bool)
    ensures
        b == in_unsafe_block(*expr),
    decreases expr,
{
    match &expr.kind {
        ExprKind::Block { stmts, tail, is_unsafe } => {
            if *is_unsafe {
                return true;
            }
            if stmts.len() > 0 {
                return false;
            }
            match tail {
                Some(inner) => contains_unsafe_block(inner),
                None => false,
            }
        },
        _ => false,
    }
}

/// Whether `expr` is the parameter `param`.
pub open spec fn is_param(param: Param, expr: Expr) -> bool {
    match param.pat {
        Pat::Binding(number, _) => hir::local_of(expr) == Some(number),
        _ => false,
    }
}

/// Whether `arg` passes on the parameter `param`, perhaps borrowed.
pub fn arg_matches_param(param: &Param, arg: &Expr) -> (b: bool)
    ensures
        b == is_param(*param, hir::unborrowed(*arg)),
{
    let Pat::Binding(number, _) = &param.pat else {
        return false;
    };
    match hir::peel_borrows(arg).local() {
        Some(local) => local == *number,
        None => false,
    }
}

/// `expr` without the field accesses around it.
pub open spec fn field_root(expr: Expr) -> Expr
    decreases expr,
{
    match expr.kind {
        ExprKind::Field { base, .. } => field_root(*base),
        _ => expr,
    }
}

/// Strips the field accesses around `expr`.
pub fn peel_field_accesses<'a>(expr: &'a Expr) -> (r: &'a Expr)
    ensures
        *r == field_root(*expr),
    decreases expr,
{
    match &expr.kind {
        ExprKind::Field { base, .. } => peel_field_accesses(base),
        _ => expr,
    }
}

/// Whether `receiver` is the parameter `param` or a field somewhere below it.
pub fn receiver_is_rooted_at_param(param: &Param, receiver: &Expr) -> (b: bool)
    ensures
        b == is_param(*param, hir::unborrowed(field_root(*receiver))),
{
    let Pat::Binding(number, _) = &param.pat else {
        return false;
    };
    match hir::peel_borrows(peel_field_accesses(receiver)).local() {
        Some(local) => local == *number,
        None => false,
    }
}

/// Whether `args` passes on the parameters `params`, each and in order.
pub open spec fn passes_on(params: Seq<Param>, args: Seq<Expr>) -> bool {
    &&& params.len() == args.len()
    &&& forall|i: int|
        0 <= i < params.len() ==> is_param(params[i], hir::unborrowed(#[trigger] args[i]))
}

/// Whether an expression is a call that passes on `params`: as its arguments, or the
/// first as its receiver or what the receiver is a field of, and the others as its
/// arguments.
pub open spec fn forwards(params: Seq<Param>, expr: Expr) -> bool {
    match expr.kind {
        ExprKind::Call { args, .. } => passes_on(params, args@),
        ExprKind::MethodCall { receiver, args, .. } => params.len() > 0 && is_param(
            params[0],
            hir::unborrowed(field_root(*receiver)),
        ) && passes_on(params.drop_first(), args@),
        _ => false,
    }
}

/// Whether the parameters from `first` on are passed on by `args`.
fn all_match(params: &Vec<Param>, first: usize, args: &Vec<Expr>) -> (b: bool)
    requires
        first <= params.len(),
    ensures
        b == passes_on(params@.skip(first as int), args@),
{
    let ghost rest = params@.skip(first as int);
    if args.len() != params.len() - first {
        return false;
    }
    let mut i: usize = 0;
    while i < args.len()
        invariant
            i <= args.len(),
            first + args.len() == params.len(),
            rest == params@.skip(first as int),
            forall|j: int| 0 <= j < i ==> is_param(rest[j], hir::unborrowed(#[trigger] args@[j])),
        decreases args.len() - i,
    {
        proof {
            assert(rest[i as int] == params@[first + i]);
        }
        if !arg_matches_param(&params[first + i], &args[i]) {
            return false;
        }
        i = i + 1;
    }
    true
}

/// What is known of a function beside its body.
#[derive(Debug)]
pub struct FnInfo {
    pub kind: FnKind,
    pub span: Span,
    /// Whether the function is `unsafe`.
    pub is_unsafe: bool,
    /// Whether the function belongs to the impl of a trait.
    pub in_trait_impl: bool,
    /// The number of fields of the struct whose method the function is.
    pub owner_field_count: usize,
}

/// Whether the first of `params` is `self`.
pub open spec fn takes_self(params: Seq<Param>) -> bool {
    params.len() > 0 && match params[0].pat {
        Pat::Binding(_, name) => name@ == "self"@,
        _ => false,
    }
}

/// Whether the first of `params` is `self`.
fn has_self(params: &Vec<Param>) -> (b: bool)
    ensures
        b == takes_self(params@),
{
    if params.len() == 0 {
        return false;
    }
    match &params[0].pat {
        Pat::Binding(_, name) => text::equal(name.as_str(), "self"),
        _ => false,
    }
}

/// Whether a method may pass on without a warning: a constructor, a method of an
/// impl of a trait, or a method with `self` of a struct with more than one field.
pub open spec fn is_exempt(info: FnInfo, params: Seq<Param>) -> bool {
    match info.kind {
        FnKind::Method(name) => name@ == "new"@ || name@ == "builder"@ || info.in_trait_impl
            || info.owner_field_count > 1 && takes_self(params),
        _ => false,
    }
}

/// Whether a function only passes on to another: its body is a call that passes on
/// all parameters, and adds no `unsafe` block to it.
pub open spec fn is_forwarding(info: FnInfo, body: Body) -> bool {
    &&& !(info.kind is Closure)
    &&& !info.span.from_expansion
    &&& !is_exempt(info, body.params@)
    &&& !(!info.is_unsafe && in_unsafe_block(body.value))
    &&& match sole_expr(body.value) {
        Some(expr) => forwards(body.params@, expr),
        None => false,
    }
}

/// The warning on a function that only passes on to another.
pub open spec fn forwarding_warning(info: FnInfo) -> hir::DiagnosticText {
    hir::DiagnosticText {
        span: info.span.id,
        message: hir::fn_title(info.kind) + " body is a trivial forwarding call"@,
        advice:
            "consider removing this wrapper and calling the target directly, or using a re-export"@,
    }
}

/// Looks at the function `info` with the body `body`.
pub fn check_trivial_forwarding_fn(info: &FnInfo, body: &Body) -> (r: Option<Diagnostic>)
    ensures
        r is Some <==> is_forwarding(*info, *body),
        r matches Some(warning) ==> warning@ == forwarding_warning(*info),
{
    if info.span.from_expansion {
        return None;
    }
    match &info.kind {
        FnKind::Closure => {
            return None;
        },
        FnKind::Method(name) => {
            if text::equal(name.as_str(), "new") || text::equal(name.as_str(), "builder")
                || info.in_trait_impl || info.owner_field_count > 1 && has_self(&body.params) {
                return None;
            }
        },
        FnKind::ItemFn(_) => {},
    }
    let Some(expr) = peel_blocks_checking_stmts(&body.value) else {
        return None;
    };
    if !info.is_unsafe && contains_unsafe_block(&body.value) {
        return None;
    }
    let params = &body.params;
    proof {
        assert(params@.skip(0) =~= params@);
        if params.len() > 0 {
            assert(params@.skip(1) =~= params@.drop_first());
        }
    }
    match &expr.kind {
        ExprKind::Call { args, .. } => {
            if !all_match(params, 0, args) {
                return None;
            }
        },
        ExprKind::MethodCall { receiver, args, .. } => {
            if params.len() == 0 || !receiver_is_rooted_at_param(&params[0], receiver) {
                return None;
            }
            if !all_match(params, 1, args) {
                return None;
            }
        },
        _ => {
            return None;
        },
    }
    let mut message = hir::fn_kind_name(&info.kind);
    message.append(" body is a trivial forwarding call");
    Some(
        Diagnostic {
            span: info.span.id,
            message,
            advice:
                "consider removing this wrapper and calling the target directly, or using a re-export".to_owned(),
        },
    )
}

/// A function whose body has a statement is no wrapper.
pub proof fn lemma_statement_is_logic(info: FnInfo, body: Body)
    requires
        body.value.kind matches ExprKind::Block { stmts, .. } && stmts.len() > 0,
    ensures
        !is_forwarding(info, body),
{
}

/// A call that leaves out or adds an argument passes nothing on.
pub proof fn lemma_argument_count(params: Seq<Param>, expr: Expr)
    requires
        expr.kind matches ExprKind::Call { args, .. } && args.len() != params.len(),
    ensures
        !forwards(params, expr),
{
}

/// A safe function that puts its call in an `unsafe` block is no wrapper.
pub proof fn lemma_unsafe_block_is_logic(info: FnInfo, body: Body)
    requires
        !info.is_unsafe,
        in_unsafe_block(body.value),
    ensures
        !is_forwarding(info, body),
{
}

/// A module is a wrapper exactly if it was written, holds one item, and that is a public
/// reexport of one name.
pub proof fn lemma_wrapper_modules(item: Item)
    ensures
        is_wrapper_module(item) <==> !item.span.from_expansion && (item.kind matches ItemKind::Mod(
            items,
        ) && items.len() == 1 && items@[0].is_single_use && items@[0].is_public),
{
}

/// What the blocks hold alone is no block; a block with a statement or without a value
/// holds nothing alone, and a bare block makes no difference.
pub proof fn lemma_sole_expr(expr: Expr)
    ensures
        sole_expr(expr) matches Some(inner) ==> !(inner.kind is Block),
        !(expr.kind is Block) ==> sole_expr(expr) == Some(expr),
        hir::is_bare_block(expr) ==> sole_expr(expr) == sole_expr(
            *expr.kind->Block_tail->Some_0,
        ),
        expr.kind is Block && !hir::is_bare_block(expr) ==> sole_expr(expr) is None,
    decreases expr,
{
    if let ExprKind::Block { stmts, tail, .. } = expr.kind {
        if let Some(inner) = tail {
            if stmts.len() == 0 {
                lemma_sole_expr(*inner);
            }
        }
    }
}

/// A block is in an `unsafe` one exactly if it is one itself or, as a bare block, holds
/// one.
pub proof fn lemma_unsafe_at_any_depth(expr: Expr)
    ensures
        expr.kind matches ExprKind::Block { is_unsafe, .. } ==> (in_unsafe_block(expr) <==> is_unsafe
            || (hir::is_bare_block(expr) && in_unsafe_block(*expr.kind->Block_tail->Some_0))),
        !(expr.kind is Block) ==> !in_unsafe_block(expr),
{
}

/// What is left without the field accesses is none; an access to a field makes no
/// difference.
pub proof fn lemma_field_root(expr: Expr)
    ensures
        !(field_root(expr).kind is Field),
        !(expr.kind is Field) ==> field_root(expr) == expr,
        expr.kind matches ExprKind::Field { base, .. } ==> field_root(expr) == field_root(*base),
    decreases expr,
{
    if let ExprKind::Field { base, .. } = expr.kind {
        lemma_field_root(*base);
    }
}

/// An expression is a parameter exactly if it is the variable that the parameter binds.
pub proof fn lemma_is_param(param: Param, expr: Expr)
    ensures
        is_param(param, expr) <==> (param.pat matches Pat::Binding(number, _)
            && expr.kind matches ExprKind::Path { resolved: true, res: hir::Res::Local(local) }
            && local == number),
{
}

/// A call passes on the parameters exactly if it has as many arguments and each argument
/// is, perhaps borrowed, the parameter at the same position. In a method call the receiver
/// stands for the first, or is a field below it.
pub proof fn lemma_what_forwards(params: Seq<Param>, expr: Expr)
    ensures
        match expr.kind {
            ExprKind::Call { args, .. } => forwards(params, expr) <==> {
                &&& args.len() == params.len()
                &&& forall|i: int|
                    0 <= i < args.len() ==> is_param(
                        params[i],
                        hir::unborrowed(#[trigger] args@[i]),
                    )
            },
            ExprKind::MethodCall { receiver, args, .. } => forwards(params, expr) <==> {
                &&& args.len() + 1 == params.len()
                &&& is_param(params[0], hir::unborrowed(field_root(*receiver)))
                &&& forall|i: int|
                    0 <= i < args.len() ==> is_param(
                        params[i + 1],
                        hir::unborrowed(#[trigger] args@[i]),
                    )
            },
            _ => !forwards(params, expr),
        },
{
    if let ExprKind::MethodCall { receiver, args, .. } = expr.kind {
        if params.len() > 0 {
            let rest = params.drop_first();
            assert forall|i: int| 0 <= i < rest.len() implies #[trigger] rest[i] == params[i + 1] by {}
            if args.len() + 1 == params.len() && forall|i: int|
                0 <= i < args.len() ==> is_param(
                    params[i + 1],
                    hir::unborrowed(#[trigger] args@[i]),
                ) {
                assert forall|i: int| 0 <= i < rest.len() implies is_param(
                    rest[i],
                    hir::unborrowed(#[trigger] args@[i]),
                ) by {
                    assert(rest[i] == params[i + 1]);
                }
                assert(passes_on(rest, args@));
            }
            if passes_on(rest, args@) {
                assert forall|i: int| 0 <= i < args.len() implies is_param(
                    params[i + 1],
                    hir::unborrowed(#[trigger] args@[i]),
                ) by {
                    assert(rest[i] == params[i + 1]);
                }
            }
        }
    }
}

/// Swapping two parameters of which the call passes on each breaks the forwarding, unless
/// they bind the same variable.
pub proof fn lemma_order_counts(params: Seq<Param>, expr: Expr, i: int, j: int)
    requires
        forwards(params, expr),
        expr.kind is Call,
        0 <= i < params.len(),
        0 <= j < params.len(),
        params[i].pat->Binding_0 != params[j].pat->Binding_0,
    ensures
        !forwards(params.update(i, params[j]).update(j, params[i]), expr),
{
    if let ExprKind::Call { args, .. } = expr.kind {
        let swapped = params.update(i, params[j]).update(j, params[i]);
        assert(is_param(params[i], hir::unborrowed(args@[i])));
        assert(is_param(params[j], hir::unborrowed(args@[j])));
        assert(swapped[j] == params[i]);
        assert(!is_param(swapped[j], hir::unborrowed(args@[j])));
    }
}

/// A function may pass on without a warning exactly if it is a method that is named as a
/// constructor, belongs to the impl of a trait, or takes `self` of a struct with more than
/// one field.
pub proof fn lemma_exempt(info: FnInfo, params: Seq<Param>)
    ensures
        is_exempt(info, params) <==> (info.kind matches FnKind::Method(name) && (name@ == "new"@
            || name@ == "builder"@ || info.in_trait_impl || (info.owner_field_count > 1
            && params.len() > 0 && (params[0].pat matches Pat::Binding(_, first) && first@
            == "self"@)))),
{
}

/// A function has a warning exactly if it is no closure, was written, may not pass on
/// without one, adds no `unsafe` block, and its body holds alone a call that passes on its
/// parameters.
pub proof fn lemma_what_is_warned(info: FnInfo, body: Body)
    ensures
        is_forwarding(info, body) <==> {
            &&& !(info.kind is Closure)
            &&& !info.span.from_expansion
            &&& !is_exempt(info, body.params@)
            &&& info.is_unsafe || !in_unsafe_block(body.value)
            &&& sole_expr(body.value) matches Some(expr) && forwards(body.params@, expr)
        },
{
}

} // verus!

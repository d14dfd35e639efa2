//! Strings in the place of enums and structs.
use vstd::prelude::*;

use crate::hir;
use crate::hir::{Arm, BinOp, Diagnostic, Expr, ExprField, ExprKind, KnownType, Lit, Pat, Stmt, Ty};
use crate::text;

verus! {

/// Whether an expression is a string.
pub open spec fn string_like(expr: Expr) -> bool {
    hir::is_text_type(hir::unreferenced(expr.ty))
}

/// Whether `expr` is a string.
pub fn is_string_like(expr: &Expr) -> (b: bool)
    ensures
        b == string_like(*expr),
{
    hir::peel_refs(&expr.ty).is_text()
}

/// Whether an expression is a string literal.
pub open spec fn str_lit(expr: Expr) -> bool {
    expr.kind matches ExprKind::Lit(Lit::Str(_))
}

/// Whether `expr` is a string literal.
pub fn is_str_lit(expr: &Expr) -> (b: bool)
    ensures
        b == str_lit(*expr),
{
    match &expr.kind {
        ExprKind::Lit(Lit::Str(_)) => true,
        _ => false,
    }
}

/// Whether a pattern is a string literal or has one among its alternatives.
pub open spec fn str_lit_pattern(pat: Pat) -> bool
    decreases pat,
{
    match pat {
        Pat::Lit(Lit::Str(_)) => true,
        Pat::Or(pats) => any_str_lit_pattern(pats@),
        _ => false,
    }
}

/// Whether one of `pats` is a string literal or has one among its alternatives.
pub open spec fn any_str_lit_pattern(pats: Seq<Pat>) -> bool
    decreases pats,
{
    pats.len() > 0 && (any_str_lit_pattern(pats.drop_last()) || str_lit_pattern(pats.last()))
}

/// Whether `pat` is a string literal or has one among its alternatives.
pub fn pat_is_str_lit(pat: &Pat) -> (b: bool)
    ensures
        b == str_lit_pattern(*pat),
    decreases pat,
{
    match pat {
        Pat::Lit(Lit::Str(_)) => true,
        Pat::Or(pats) => any_pat_is_str_lit(pats),
        _ => false,
    }
}

/// Whether one of `pats` is a string literal or has one among its alternatives.
fn any_pat_is_str_lit(pats: &Vec<Pat>) -> (b: bool)
    ensures
        b == any_str_lit_pattern(pats@),
    decreases pats,
{
    let mut found = false;
    let mut i: usize = 0;
    proof {
        assert(pats@.take(0) =~= Seq::empty());
    }
    while i < pats.len()
        invariant
            i <= pats.len(),
            found == any_str_lit_pattern(pats@.take(i as int)),
        decreases pats.len() - i,
    {
        proof {
            assert(decreases_to!(pats => pats@[i as int]));
            assert(pats@.take(i + 1).drop_last() =~= pats@.take(i as int));
            assert(pats@.take(i + 1).last() == pats@[i as int]);
        }
        if pat_is_str_lit(&pats[i]) {
            found = true;
        }
        i = i + 1;
    }
    proof {
        assert(pats@.take(i as int) =~= pats@);
    }
    found
}

/// The number of `arms` with a string literal.
pub open spec fn str_lit_arms(arms: Seq<Arm>) -> nat
    decreases arms.len(),
{
    if arms.len() == 0 {
        0
    } else if str_lit_pattern(arms.last().pat) {
        str_lit_arms(arms.drop_last()) + 1
    } else {
        str_lit_arms(arms.drop_last())
    }
}

/// The number of `arms` with a string literal.
fn count_str_lit_arms(arms: &Vec<Arm>) -> (r: usize)
    ensures
        r == str_lit_arms(arms@),
{
    let mut count: usize = 0;
    let mut i: usize = 0;
    proof {
        assert(arms@.take(0) =~= Seq::empty());
    }
    while i < arms.len()
        invariant
            count <= i <= arms.len(),
            count == str_lit_arms(arms@.take(i as int)),
        decreases arms.len() - i,
    {
        proof {
            assert(arms@.take(i + 1).drop_last() =~= arms@.take(i as int));
            assert(arms@.take(i + 1).last() == arms@[i as int]);
        }
        if pat_is_str_lit(&arms[i].pat) {
            count = count + 1;
        }
        i = i + 1;
    }
    proof {
        assert(arms@.take(i as int) =~= arms@);
    }
    count
}

/// Whether a type is a hash map with strings for keys.
pub open spec fn string_keyed(ty: Ty) -> bool {
    hir::is_known(ty, KnownType::HashMap) && ty.parts.len() > 0 && hir::is_text_type(
        hir::unreferenced(ty.parts@[0]),
    )
}

/// Whether `ty` is a hash map with strings for keys.
pub fn is_hashmap_with_string_key(ty: &Ty) -> (b: bool)
    ensures
        b == string_keyed(*ty),
{
    if !ty.is_item(KnownType::HashMap) || ty.parts.len() == 0 {
        return false;
    }
    hir::peel_refs(&ty.parts[0]).is_text()
}

/// The local variable that an expression is, perhaps borrowed.
pub open spec fn borrowed_local(expr: Expr) -> Option<usize> {
    hir::local_of(hir::unborrowed(expr))
}

/// The local variable that `expr` is, perhaps borrowed.
pub fn path_hir_id(expr: &Expr) -> (r: Option<usize>)
    ensures
        r == borrowed_local(*expr),
{
    hir::peel_borrows(expr).local()
}

/// The local variable that is compared, where one of `a` and `b` is a string and the
/// other a string literal.
pub open spec fn compared_with_literal(a: Expr, b: Expr) -> Option<usize> {
    if string_like(a) && str_lit(b) {
        borrowed_local(a)
    } else if str_lit(a) && string_like(b) {
        borrowed_local(b)
    } else {
        None
    }
}

/// The local variable that an expression compares with a string literal, by `==` or
/// by `eq`.
pub open spec fn compared_variable(expr: Expr) -> Option<usize> {
    match expr.kind {
        ExprKind::MethodCall { method, receiver, args } => if method@ == "eq"@ && args.len() == 1 {
            compared_with_literal(*receiver, args@[0])
        } else {
            None
        },
        ExprKind::Binary(BinOp::Eq, left, right) => compared_with_literal(*left, *right),
        _ => None,
    }
}

/// The local variable that is compared, where one of `a` and `b` is a string and the
/// other a string literal.
fn compare_with_literal(a: &Expr, b: &Expr) -> (r: Option<usize>)
    ensures
        r == compared_with_literal(*a, *b),
{
    if is_string_like(a) && is_str_lit(b) {
        return path_hir_id(a);
    }
    if is_str_lit(a) && is_string_like(b) {
        return path_hir_id(b);
    }
    None
}

/// The local variable that `expr` compares with a string literal.
pub fn extract_str_eq_comparison(expr: &Expr) -> (r: Option<usize>)
    ensures
        r == compared_variable(*expr),
{
    match &expr.kind {
        ExprKind::MethodCall { method, receiver, args } => {
            if text::equal(method.as_str(), "eq") && args.len() == 1 {
                compare_with_literal(receiver, &args[0])
            } else {
                None
            }
        },
        ExprKind::Binary(BinOp::Eq, left, right) => compare_with_literal(left, right),
        _ => None,
    }
}

/// The number of conditions in a chain of `if` and `else if` that compare the
/// variable `target` with a string literal.
pub open spec fn chain_length(expr: Expr, target: usize) -> nat
    decreases expr, 1nat,
{
    match expr.kind {
        ExprKind::If { cond, else_branch, .. } => {
            let here: nat = if compared_variable(*cond) == Some(target) {
                1
            } else {
                0
            };
            match else_branch {
                Some(other) => here + chain_rest(*other, target),
                None => here,
            }
        },
        _ => 0,
    }
}

/// The number of conditions in the chain that goes on in the `else` branch `expr`:
/// in what it is, or in what it holds alone, as its value or as its one statement.
pub open spec fn chain_rest(expr: Expr, target: usize) -> nat
    decreases expr, 2nat,
{
    match expr.kind {
        ExprKind::Block { stmts, tail: Some(inner), .. } => if stmts.len() == 0 {
            chain_length(*inner, target)
        } else {
            0
        },
        ExprKind::Block { stmts, tail: None, .. } => if stmts.len() == 1 {
            match stmts@[0] {
                Stmt::Expr(inner) => chain_length(inner, target),
                Stmt::Semi(inner) => chain_length(inner, target),
                _ => 0,
            }
        } else {
            0
        },
        _ => chain_length(expr, target),
    }
}

/// The number of conditions in the chain `expr` that compare the variable
/// `target_id` with a string literal.
pub fn count_str_eq_chain(expr: &Expr, target_id: usize) -> (r: usize)
    ensures
        r == hir::capped(chain_length(*expr, target_id)),
    decreases expr, 1nat,
{
    match &expr.kind {
        ExprKind::If { cond, else_branch, .. } => {
            let here: usize = match extract_str_eq_comparison(cond) {
                Some(id) => if id == target_id {
                    1
                } else {
                    0
                },
                None => 0,
            };
            match else_branch {
                Some(other) => hir::capped_sum(here, count_rest(other, target_id)),
                None => here,
            }
        },
        _ => 0,
    }
}

/// The number of conditions in the chain that goes on in the `else` branch `expr`.
fn count_rest(expr: &Expr, target_id: usize) -> (r: usize)
    ensures
        r == hir::capped(chain_rest(*expr, target_id)),
    decreases expr, 2nat,
{
    match &expr.kind {
        ExprKind::Block { stmts, tail, .. } => match tail {
            Some(inner) => if stmts.len() == 0 {
                count_str_eq_chain(inner, target_id)
            } else {
                0
            },
            None => if stmts.len() == 1 {
                proof {
                    assert(decreases_to!(*expr => stmts@[0]));
                }
                match &stmts[0] {
                    Stmt::Expr(inner) => count_str_eq_chain(inner, target_id),
                    Stmt::Semi(inner) => count_str_eq_chain(inner, target_id),
                    _ => 0,
                }
            } else {
                0
            },
        },
        _ => count_str_eq_chain(expr, target_id),
    }
}

/// A node around an expression.
#[derive(Debug)]
pub enum Parent {
    /// An `if` with the number of its `else` branch.
    If(Option<usize>),
    /// A block expression.
    BlockExpr,
    /// Any other expression.
    Expr,
    /// A block.
    Block,
    /// A statement.
    Stmt,
    /// Anything else.
    Other,
}

/// Whether the expression `id` is the `else` branch of an `if`, looking through the
/// blocks and statements around it; `parents` goes from the inside out.
pub open spec fn else_of(parents: Seq<Parent>, id: usize) -> bool
    decreases parents.len(),
{
    if parents.len() == 0 {
        false
    } else {
        match parents[0] {
            Parent::If(branch) => branch == Some(id),
            Parent::BlockExpr => else_of(parents.drop_first(), id),
            Parent::Block => else_of(parents.drop_first(), id),
            Parent::Stmt => else_of(parents.drop_first(), id),
            Parent::Expr => false,
            Parent::Other => false,
        }
    }
}

/// Whether the expression `id` is the `else` branch of an `if`.
pub fn is_else_if(parents: &Vec<Parent>, id: usize) -> (b: bool)
    ensures
        b == else_of(parents@, id),
{
    let mut i: usize = 0;
    proof {
        assert(parents@.skip(0) =~= parents@);
    }
    while i < parents.len()
        invariant
            i <= parents.len(),
            else_of(parents@, id) == else_of(parents@.skip(i as int), id),
        decreases parents.len() - i,
    {
        proof {
            assert(parents@.skip(i as int)[0] == parents@[i as int]);
            assert(parents@.skip(i as int).drop_first() =~= parents@.skip(i + 1));
        }
        match &parents[i] {
            Parent::If(branch) => {
                return match branch {
                    Some(other) => *other == id,
                    None => false,
                };
            },
            Parent::Expr | Parent::Other => {
                return false;
            },
            _ => {},
        }
        i = i + 1;
    }
    false
}

/// Whether `expr` itself inserts a literal key into the map `target`.
pub open spec fn is_literal_insert(expr: Expr, target: usize) -> bool {
    match expr.kind {
        ExprKind::MethodCall { method, receiver, args } => method@ == "insert"@ && args.len() > 0
            && str_lit(args@[0]) && borrowed_local(*receiver) == Some(target),
        _ => false,
    }
}

/// The number of inserts with a literal key into the map `target` in `expr` and in
/// all the expressions that it is made of.
pub open spec fn literal_inserts(expr: Expr, target: usize) -> nat
    decreases expr,
{
    match expr.kind {
        ExprKind::Lit(_) => 0,
        ExprKind::Path { .. } => 0,
        ExprKind::Binary(_, left, right) => literal_inserts(*left, target) + literal_inserts(
            *right,
            target,
        ),
        ExprKind::Unary(_, inner) => literal_inserts(*inner, target),
        ExprKind::AddrOf(inner) => literal_inserts(*inner, target),
        ExprKind::MethodCall { receiver, args, .. } => (if is_literal_insert(expr, target) {
            1nat
        } else {
            0
        }) + literal_inserts(*receiver, target) + inserts_in_all(args@, target),
        ExprKind::Call { callee, args } => literal_inserts(*callee, target) + inserts_in_all(
            args@,
            target,
        ),
        ExprKind::Field { base, .. } => literal_inserts(*base, target),
        ExprKind::Tup(items) => inserts_in_all(items@, target),
        ExprKind::Cast(inner) => literal_inserts(*inner, target),
        ExprKind::Block { stmts, tail, .. } => stmt_inserts(stmts@, target) + match tail {
            Some(inner) => literal_inserts(*inner, target),
            None => 0,
        },
        ExprKind::If { cond, then_branch, else_branch } => literal_inserts(*cond, target)
            + literal_inserts(*then_branch, target) + match else_branch {
            Some(inner) => literal_inserts(*inner, target),
            None => 0,
        },
        ExprKind::Match { scrutinee, arms, .. } => literal_inserts(*scrutinee, target)
            + arm_inserts(arms@, target),
        ExprKind::Struct { fields, rest, .. } => field_inserts(fields@, target) + match rest {
            Some(inner) => literal_inserts(*inner, target),
            None => 0,
        },
        ExprKind::Assign(place, value) => literal_inserts(*place, target) + literal_inserts(
            *value,
            target,
        ),
        ExprKind::Other(parts) => inserts_in_all(parts@, target),
    }
}

/// The number of inserts with a literal key into the map `target` in `exprs`.
pub open spec fn inserts_in_all(exprs: Seq<Expr>, target: usize) -> nat
    decreases exprs,
{
    if exprs.len() == 0 {
        0
    } else {
        inserts_in_all(exprs.drop_last(), target) + literal_inserts(exprs.last(), target)
    }
}

/// The number of inserts with a literal key into the map `target` in `fields`.
pub open spec fn field_inserts(fields: Seq<ExprField>, target: usize) -> nat
    decreases fields,
{
    if fields.len() == 0 {
        0
    } else {
        field_inserts(fields.drop_last(), target) + literal_inserts(fields.last().expr, target)
    }
}

/// The number of inserts with a literal key into the map `target` in the guards and
/// bodies of `arms`.
pub open spec fn arm_inserts(arms: Seq<Arm>, target: usize) -> nat
    decreases arms,
{
    if arms.len() == 0 {
        0
    } else {
        arm_inserts(arms.drop_last(), target) + match arms.last().guard {
            Some(guard) => literal_inserts(*guard, target),
            None => 0,
        } + literal_inserts(*arms.last().body, target)
    }
}

/// The number of inserts with a literal key into the map `target` in `stmts`.
pub open spec fn stmt_inserts(stmts: Seq<Stmt>, target: usize) -> nat
    decreases stmts,
{
    if stmts.len() == 0 {
        0
    } else {
        stmt_inserts(stmts.drop_last(), target) + match stmts.last() {
            Stmt::Expr(expr) => literal_inserts(expr, target),
            Stmt::Semi(expr) => literal_inserts(expr, target),
            Stmt::Let(Some(init)) => literal_inserts(init, target),
            Stmt::Let(None) => 0,
            Stmt::LetElse(init, otherwise) => literal_inserts(init, target) + literal_inserts(
                otherwise,
                target,
            ),
            Stmt::Item => 0,
        }
    }
}

/// Whether `expr` itself inserts a literal key into the map `target_id`.
fn inserts_into(expr: &Expr, target_id: usize) -> (b: bool)
    ensures
        b == is_literal_insert(*expr, target_id),
{
    match &expr.kind {
        ExprKind::MethodCall { method, receiver, args } => {
            if !text::equal(method.as_str(), "insert") || args.len() == 0 || !is_str_lit(&args[0]) {
                return false;
            }
            match path_hir_id(receiver) {
                Some(id) => id == target_id,
                None => false,
            }
        },
        _ => false,
    }
}

/// The number of inserts with a literal key into the map `target_id` in `expr` and in
/// all the expressions that it is made of.
pub fn count_inserts_in_expr(expr: &Expr, target_id: usize) -> (r: usize)
    ensures
        r == hir::capped(literal_inserts(*expr, target_id)),
    decreases expr,
{
    match &expr.kind {
        ExprKind::Lit(_) => 0,
        ExprKind::Path { .. } => 0,
        ExprKind::Binary(_, left, right) => hir::capped_sum(
            count_inserts_in_expr(left, target_id),
            count_inserts_in_expr(right, target_id),
        ),
        ExprKind::Unary(_, inner) => count_inserts_in_expr(inner, target_id),
        ExprKind::AddrOf(inner) => count_inserts_in_expr(inner, target_id),
        ExprKind::MethodCall { receiver, args, .. } => {
            let own: usize = if inserts_into(expr, target_id) {
                1
            } else {
                0
            };
            let count = hir::capped_sum(own, count_inserts_in_expr(receiver, target_id));
            hir::capped_sum(count, count_inserts_in_all(args, target_id))
        },
        ExprKind::Call { callee, args } => hir::capped_sum(
            count_inserts_in_expr(callee, target_id),
            count_inserts_in_all(args, target_id),
        ),
        ExprKind::Field { base, .. } => count_inserts_in_expr(base, target_id),
        ExprKind::Tup(items) => count_inserts_in_all(items, target_id),
        ExprKind::Cast(inner) => count_inserts_in_expr(inner, target_id),
        ExprKind::Block { stmts, tail, .. } => {
            let count = count_inserts_in_stmts(stmts, target_id);
            match tail {
                Some(inner) => hir::capped_sum(count, count_inserts_in_expr(inner, target_id)),
                None => count,
            }
        },
        ExprKind::If { cond, then_branch, else_branch } => {
            let count = hir::capped_sum(
                count_inserts_in_expr(cond, target_id),
                count_inserts_in_expr(then_branch, target_id),
            );
            match else_branch {
                Some(inner) => hir::capped_sum(count, count_inserts_in_expr(inner, target_id)),
                None => count,
            }
        },
        ExprKind::Match { scrutinee, arms, .. } => hir::capped_sum(
            count_inserts_in_expr(scrutinee, target_id),
            count_inserts_in_arms(arms, target_id),
        ),
        ExprKind::Struct { fields, rest, .. } => {
            let count = count_inserts_in_fields(fields, target_id);
            match rest {
                Some(inner) => hir::capped_sum(count, count_inserts_in_expr(inner, target_id)),
                None => count,
            }
        },
        ExprKind::Assign(place, value) => hir::capped_sum(
            count_inserts_in_expr(place, target_id),
            count_inserts_in_expr(value, target_id),
        ),
        ExprKind::Other(parts) => count_inserts_in_all(parts, target_id),
    }
}

/// The number of inserts with a literal key into the map `target_id` in `exprs`.
fn count_inserts_in_all(exprs: &Vec<Expr>, target_id: usize) -> (r: usize)
    ensures
        r == hir::capped(inserts_in_all(exprs@, target_id)),
    decreases exprs,
{
    let mut count: usize = 0;
    let mut i: usize = 0;
    proof {
        assert(exprs@.take(0) =~= Seq::empty());
    }
    while i < exprs.len()
        invariant
            i <= exprs.len(),
            count == hir::capped(inserts_in_all(exprs@.take(i as int), target_id)),
        decreases exprs.len() - i,
    {
        proof {
            assert(decreases_to!(exprs => exprs@[i as int]));
            assert(exprs@.take(i + 1).drop_last() =~= exprs@.take(i as int));
            assert(exprs@.take(i + 1).last() == exprs@[i as int]);
        }
        count = hir::capped_sum(count, count_inserts_in_expr(&exprs[i], target_id));
        i = i + 1;
    }
    proof {
        assert(exprs@.take(i as int) =~= exprs@);
    }
    count
}

/// The number of inserts with a literal key into the map `target_id` in `fields`.
fn count_inserts_in_fields(fields: &Vec<ExprField>, target_id: usize) -> (r: usize)
    ensures
        r == hir::capped(field_inserts(fields@, target_id)),
    decreases fields,
{
    let mut count: usize = 0;
    let mut i: usize = 0;
    proof {
        assert(fields@.take(0) =~= Seq::empty());
    }
    while i < fields.len()
        invariant
            i <= fields.len(),
            count == hir::capped(field_inserts(fields@.take(i as int), target_id)),
        decreases fields.len() - i,
    {
        proof {
            assert(decreases_to!(fields => fields@[i as int]));
            assert(fields@.take(i + 1).drop_last() =~= fields@.take(i as int));
            assert(fields@.take(i + 1).last() == fields@[i as int]);
        }
        count = hir::capped_sum(count, count_inserts_in_expr(&fields[i].expr, target_id));
        i = i + 1;
    }
    proof {
        assert(fields@.take(i as int) =~= fields@);
    }
    count
}

/// The number of inserts with a literal key into the map `target_id` in the guards
/// and bodies of `arms`.
fn count_inserts_in_arms(arms: &Vec<Arm>, target_id: usize) -> (r: usize)
    ensures
        r == hir::capped(arm_inserts(arms@, target_id)),
    decreases arms,
{
    let mut count: usize = 0;
    let mut i: usize = 0;
    proof {
        assert(arms@.take(0) =~= Seq::empty());
    }
    while i < arms.len()
        invariant
            i <= arms.len(),
            count == hir::capped(arm_inserts(arms@.take(i as int), target_id)),
        decreases arms.len() - i,
    {
        proof {
            assert(decreases_to!(arms => arms@[i as int]));
            assert(arms@.take(i + 1).drop_last() =~= arms@.take(i as int));
            assert(arms@.take(i + 1).last() == arms@[i as int]);
        }
        if let Some(guard) = &arms[i].guard {
            count = hir::capped_sum(count, count_inserts_in_expr(guard, target_id));
        }
        count = hir::capped_sum(count, count_inserts_in_expr(&arms[i].body, target_id));
        i = i + 1;
    }
    proof {
        assert(arms@.take(i as int) =~= arms@);
    }
    count
}

/// The number of inserts with a literal key into the map `target_id` in `stmts`.
fn count_inserts_in_stmts(stmts: &Vec<Stmt>, target_id: usize) -> (r: usize)
    ensures
        r == hir::capped(stmt_inserts(stmts@, target_id)),
    decreases stmts,
{
    let mut count: usize = 0;
    let mut i: usize = 0;
    proof {
        assert(stmts@.take(0) =~= Seq::empty());
    }
    while i < stmts.len()
        invariant
            i <= stmts.len(),
            count == hir::capped(stmt_inserts(stmts@.take(i as int), target_id)),
        decreases stmts.len() - i,
    {
        proof {
            assert(decreases_to!(stmts => stmts@[i as int]));
            assert(stmts@.take(i + 1).drop_last() =~= stmts@.take(i as int));
            assert(stmts@.take(i + 1).last() == stmts@[i as int]);
        }
        match &stmts[i] {
            Stmt::Expr(expr) => {
                count = hir::capped_sum(count, count_inserts_in_expr(expr, target_id));
            },
            Stmt::Semi(expr) => {
                count = hir::capped_sum(count, count_inserts_in_expr(expr, target_id));
            },
            Stmt::Let(Some(init)) => {
                count = hir::capped_sum(count, count_inserts_in_expr(init, target_id));
            },
            Stmt::Let(None) => {},
            Stmt::LetElse(init, otherwise) => {
                count = hir::capped_sum(count, count_inserts_in_expr(init, target_id));
                count = hir::capped_sum(count, count_inserts_in_expr(otherwise, target_id));
            },
            Stmt::Item => {},
        }
        i = i + 1;
    }
    proof {
        assert(stmts@.take(i as int) =~= stmts@);
    }
    count
}

/// The number of inserts with a literal key into the map `target` in the body around
/// them. Where there is no body only the one at hand is known.
pub open spec fn inserts_around(body: Option<&Expr>, target: usize) -> nat {
    match body {
        Some(value) => literal_inserts(*value, target),
        None => 1,
    }
}

/// The number of inserts with a literal key into the map `target_id` in the body
/// around them.
pub fn count_literal_inserts_in_parent(body: Option<&Expr>, target_id: usize) -> (r: usize)
    ensures
        r == hir::capped(inserts_around(body, target_id)),
{
    match body {
        Some(value) => count_inserts_in_expr(value, target_id),
        None => 1,
    }
}

/// The number of literal arms of a match on a string.
pub open spec fn matched_literals(expr: Expr) -> nat {
    match expr.kind {
        ExprKind::Match { scrutinee, arms, is_normal: true } => if string_like(*scrutinee) {
            str_lit_arms(arms@)
        } else {
            0
        },
        _ => 0,
    }
}

/// The length of the chain of comparisons with string literals that begins with
/// `expr`.
pub open spec fn compared_literals(expr: Expr, parents: Seq<Parent>) -> nat {
    match expr.kind {
        ExprKind::If { cond, .. } => match compared_variable(*cond) {
            Some(target) => if else_of(parents, expr.id) {
                0
            } else {
                hir::capped(chain_length(expr, target))
            },
            None => 0,
        },
        _ => 0,
    }
}

/// Whether `expr` inserts a literal key into a map with strings for keys, and is not
/// the only one to do so with that map.
pub open spec fn inserts_literal_key(expr: Expr, body: Option<&Expr>) -> bool {
    match expr.kind {
        ExprKind::MethodCall { method, receiver, args } => method@ == "insert"@ && args.len() > 0
            && str_lit(args@[0]) && string_keyed(hir::unreferenced(receiver.ty))
            && match borrowed_local(*receiver) {
            Some(target) => inserts_around(body, target) >= 2,
            None => false,
        },
        _ => false,
    }
}

/// The warning on an expression, if there is one.
pub open spec fn stringly_warning(
    expr: Expr,
    parents: Seq<Parent>,
    body: Option<&Expr>,
) -> Option<hir::DiagnosticText> {
    if matched_literals(expr) >= 2 {
        Some(
            hir::DiagnosticText {
                span: expr.span.id,
                message: "match on string with "@ + text::decimal(matched_literals(expr))
                    + " literal arms suggests a missing enum"@,
                advice:
                    "consider defining an enum for these variants and parsing the string into it"@,
            },
        )
    } else if compared_literals(expr, parents) >= 2 {
        Some(
            hir::DiagnosticText {
                span: expr.span.id,
                message: "if/else chain compares string to "@ + text::decimal(
                    compared_literals(expr, parents),
                ) + " literals, suggesting a missing enum"@,
                advice:
                    "consider defining an enum and matching on it instead of string comparisons"@,
            },
        )
    } else if inserts_literal_key(expr, body) {
        Some(
            hir::DiagnosticText {
                span: expr.span.id,
                message:
                    "inserting string-literal key into HashMap suggests a struct or enum would be more appropriate"@,
                advice: "consider using a struct with named fields or an enum-keyed map"@,
            },
        )
    } else {
        None
    }
}

/// The number of literal arms of `expr`, if it is a match on a string.
fn count_matched_literals(expr: &Expr) -> (r: usize)
    ensures
        r == matched_literals(*expr),
{
    match &expr.kind {
        ExprKind::Match { scrutinee, arms, is_normal } => {
            if *is_normal && is_string_like(scrutinee) {
                count_str_lit_arms(arms)
            } else {
                0
            }
        },
        _ => 0,
    }
}

/// The length of the chain of comparisons that begins with `expr`.
fn count_compared_literals(expr: &Expr, parents: &Vec<Parent>) -> (r: usize)
    ensures
        r == compared_literals(*expr, parents@),
{
    match &expr.kind {
        ExprKind::If { cond, .. } => match extract_str_eq_comparison(cond) {
            Some(target_id) => if is_else_if(parents, expr.id) {
                0
            } else {
                count_str_eq_chain(expr, target_id)
            },
            None => 0,
        },
        _ => 0,
    }
}

/// Whether `expr` inserts one of several literal keys into a map with strings for
/// keys.
fn inserts_key(expr: &Expr, body: Option<&Expr>) -> (b: bool)
    ensures
        b == inserts_literal_key(*expr, body),
{
    match &expr.kind {
        ExprKind::MethodCall { method, receiver, args } => {
            if !text::equal(method.as_str(), "insert") || args.len() == 0 || !is_str_lit(&args[0]) {
                return false;
            }
            if !is_hashmap_with_string_key(hir::peel_refs(&receiver.ty)) {
                return false;
            }
            match path_hir_id(receiver) {
                Some(recv_id) => count_literal_inserts_in_parent(body, recv_id) >= 2,
                None => false,
            }
        },
        _ => false,
    }
}

/// Looks at `expr`, with the nodes around it and the value of the body it stands in.
pub fn check_expr(expr: &Expr, parents: &Vec<Parent>, body: Option<&Expr>) -> (r: Option<
    Diagnostic,
>)
    ensures
        r is Some <==> stringly_warning(*expr, parents@, body) is Some,
        r matches Some(warning) ==> stringly_warning(*expr, parents@, body) == Some(warning@),
{
    let arms = count_matched_literals(expr);
    if arms >= 2 {
        let mut message = "match on string with ".to_owned();
        message.append(text::decimal_string(arms).as_str());
        message.append(" literal arms suggests a missing enum");
        return Some(
            Diagnostic {
                span: expr.span.id,
                message,
                advice:
                    "consider defining an enum for these variants and parsing the string into it".to_owned(),
            },
        );
    }
    let chain = count_compared_literals(expr, parents);
    if chain >= 2 {
        let mut message = "if/else chain compares string to ".to_owned();
        message.append(text::decimal_string(chain).as_str());
        message.append(" literals, suggesting a missing enum");
        return Some(
            Diagnostic {
                span: expr.span.id,
                message,
                advice:
                    "consider defining an enum and matching on it instead of string comparisons".to_owned(),
            },
        );
    }
    if inserts_key(expr, body) {
        return Some(
            Diagnostic {
                span: expr.span.id,
                message:
                    "inserting string-literal key into HashMap suggests a struct or enum would be more appropriate".to_owned(),
                advice: "consider using a struct with named fields or an enum-keyed map".to_owned(),
            },
        );
    }
    None
}

/// A single literal arm is not enough for a warning.
pub proof fn lemma_one_arm(expr: Expr, parents: Seq<Parent>, body: Option<&Expr>)
    requires
        expr.kind matches ExprKind::Match { arms, .. } && str_lit_arms(arms@) < 2,
    ensures
        stringly_warning(expr, parents, body) is None,
{
}

/// Only the first `if` of a chain gives a warning.
pub proof fn lemma_inner_if(expr: Expr, parents: Seq<Parent>, body: Option<&Expr>)
    requires
        expr.kind is If,
        else_of(parents, expr.id),
    ensures
        stringly_warning(expr, parents, body) is None,
{
}

proof fn lemma_any_pattern(pats: Seq<Pat>)
    ensures
        any_str_lit_pattern(pats) <==> exists|i: int|
            0 <= i < pats.len() && str_lit_pattern(#[trigger] pats[i]),
    decreases pats.len(),
{
    if pats.len() > 0 {
        let front = pats.drop_last();
        lemma_any_pattern(front);
        assert(pats[pats.len() - 1] == pats.last());
        if any_str_lit_pattern(front) {
            let i = choose|i: int| 0 <= i < front.len() && str_lit_pattern(#[trigger] front[i]);
            assert(str_lit_pattern(pats[i]));
        }
        if exists|i: int| 0 <= i < pats.len() && str_lit_pattern(#[trigger] pats[i]) {
            let i = choose|i: int| 0 <= i < pats.len() && str_lit_pattern(#[trigger] pats[i]);
            if i < front.len() {
                assert(str_lit_pattern(front[i]));
            }
        }
    }
}

/// A literal pattern counts exactly if it is a string; alternatives count exactly if one
/// of them does, whichever; no other pattern counts.
pub proof fn lemma_literal_patterns(pat: Pat)
    ensures
        match pat {
            Pat::Lit(lit) => str_lit_pattern(pat) == (lit is Str),
            Pat::Or(pats) => str_lit_pattern(pat) == exists|i: int|
                0 <= i < pats.len() && str_lit_pattern(#[trigger] pats@[i]),
            _ => !str_lit_pattern(pat),
        },
{
    if let Pat::Or(pats) = pat {
        lemma_any_pattern(pats@);
    }
}

/// The arms of two lists count together, and an arm counts once if its pattern does.
pub proof fn lemma_arms_of_two(some: Seq<Arm>, others: Seq<Arm>, one: Arm)
    ensures
        str_lit_arms(some + others) == str_lit_arms(some) + str_lit_arms(others),
        str_lit_arms(seq![one]) == if str_lit_pattern(one.pat) {
            1nat
        } else {
            0
        },
    decreases others.len(),
{
    if others.len() == 0 {
        assert(some + others =~= some);
    } else {
        lemma_arms_of_two(some, others.drop_last(), one);
        assert((some + others).drop_last() =~= some + others.drop_last());
        assert((some + others).last() == others.last());
    }
    assert(seq![one].drop_last() =~= Seq::empty());
    assert(str_lit_arms(seq![one].drop_last()) == 0);
}

/// It does not matter on which side of a comparison the literal stands, nor whether the
/// variable is borrowed.
pub proof fn lemma_either_side(variable: Expr, literal: Expr)
    requires
        string_like(variable),
        str_lit(literal),
        !str_lit(variable),
    ensures
        compared_with_literal(variable, literal) == hir::local_of(hir::unborrowed(variable)),
        compared_with_literal(literal, variable) == hir::local_of(hir::unborrowed(variable)),
{
}

/// A comparison is one by `==` or by `eq` with one argument, with a string literal on one
/// side and a string on the other; the variable is the one on that other side.
pub proof fn lemma_what_is_compared(expr: Expr, target: usize)
    requires
        compared_variable(expr) == Some(target),
    ensures
        match expr.kind {
            ExprKind::Binary(op, left, right) => {
                &&& op == BinOp::Eq
                &&& str_lit(*left) || str_lit(*right)
                &&& borrowed_local(*left) == Some(target) || borrowed_local(*right) == Some(target)
            },
            ExprKind::MethodCall { method, receiver, args } => {
                &&& method@ == "eq"@
                &&& args.len() == 1
                &&& str_lit(*receiver) || str_lit(args@[0])
                &&& borrowed_local(*receiver) == Some(target) || borrowed_local(args@[0]) == Some(
                    target,
                )
            },
            _ => false,
        },
{
}

/// `a == b` and `a.eq(b)` compare the same variable.
pub proof fn lemma_eq_is_equality(operation: Expr, call: Expr)
    requires
        operation.kind matches ExprKind::Binary(op, left, right) && op == BinOp::Eq && (
        call.kind matches ExprKind::MethodCall { method, receiver, args } && method@ == "eq"@
            && args.len() == 1 && *receiver == *left && args@[0] == *right),
    ensures
        compared_variable(operation) == compared_variable(call),
{
}

/// Each `if` of a chain adds one for its own condition, if that compares the variable, to
/// what the rest of the chain counts; what is no `if` adds nothing.
pub proof fn lemma_chain_step(expr: Expr, target: usize)
    ensures
        expr.kind matches ExprKind::If { cond, else_branch: Some(other), .. } ==> chain_length(
            expr,
            target,
        ) == chain_rest(*other, target) + if compared_variable(*cond) == Some(target) {
            1nat
        } else {
            0
        },
        expr.kind matches ExprKind::If { cond, else_branch: None, .. } ==> chain_length(
            expr,
            target,
        ) == if compared_variable(*cond) == Some(target) {
            1nat
        } else {
            0
        },
        !(expr.kind is If) ==> chain_length(expr, target) == 0,
{
}

/// The chain goes on in an `else` branch that is an `if` or a block that holds just one, as
/// its value or as its one statement.
pub proof fn lemma_chain_goes_on(expr: Expr, target: usize)
    ensures
        !(expr.kind is Block) ==> chain_rest(expr, target) == chain_length(expr, target),
        hir::is_bare_block(expr) ==> chain_rest(expr, target) == chain_length(
            *expr.kind->Block_tail->Some_0,
            target,
        ),
        expr.kind matches ExprKind::Block { stmts, tail, .. } ==> {
            &&& tail is Some && stmts.len() > 0 ==> chain_rest(expr, target) == 0
            &&& tail is None && stmts.len() != 1 ==> chain_rest(expr, target) == 0
            &&& tail is None && stmts.len() == 1 ==> (match stmts@[0] {
                Stmt::Expr(inner) => chain_rest(expr, target) == chain_length(inner, target),
                Stmt::Semi(inner) => chain_rest(expr, target) == chain_length(inner, target),
                _ => chain_rest(expr, target) == 0,
            })
        },
{
}

/// An expression is the `else` branch of an `if` exactly if the first node around it that
/// is neither a block nor a statement is an `if` with that branch.
pub proof fn lemma_else_branch(around: Seq<Parent>, parent: Parent, rest: Seq<Parent>, id: usize)
    requires
        forall|i: int|
            0 <= i < around.len() ==> (#[trigger] around[i]) is BlockExpr || around[i] is Block
                || around[i] is Stmt,
        !(parent is BlockExpr) && !(parent is Block) && !(parent is Stmt),
    ensures
        else_of(around + seq![parent] + rest, id) <==> (parent matches Parent::If(Some(branch))
            && branch == id),
        !else_of(around, id),
    decreases around.len(),
{
    let all = around + seq![parent] + rest;
    if around.len() == 0 {
        assert(all[0] == parent);
    } else {
        let inner = around.drop_first();
        assert forall|i: int| 0 <= i < inner.len() implies (#[trigger] inner[i]) is BlockExpr
            || inner[i] is Block || inner[i] is Stmt by {
            assert(inner[i] == around[i + 1]);
        }
        lemma_else_branch(inner, parent, rest, id);
        assert(all[0] == around[0]);
        assert(all.drop_first() =~= inner + seq![parent] + rest);
    }
}

/// The inserts in two lists count together, and those of one part are those in it: in
/// lists of expressions and of fields.
pub proof fn lemma_inserts_of_two(
    some: Seq<Expr>,
    others: Seq<Expr>,
    one: Expr,
    fields: Seq<ExprField>,
    more: Seq<ExprField>,
    field: ExprField,
    target: usize,
)
    ensures
        inserts_in_all(some + others, target) == inserts_in_all(some, target) + inserts_in_all(
            others,
            target,
        ),
        inserts_in_all(seq![one], target) == literal_inserts(one, target),
        field_inserts(fields + more, target) == field_inserts(fields, target) + field_inserts(
            more,
            target,
        ),
        field_inserts(seq![field], target) == literal_inserts(field.expr, target),
    decreases others.len() + more.len(),
{
    if others.len() > 0 {
        lemma_inserts_of_two(some, others.drop_last(), one, fields, more, field, target);
        assert((some + others).drop_last() =~= some + others.drop_last());
        assert((some + others).last() == others.last());
    } else {
        assert(some + others =~= some);
        if more.len() > 0 {
            lemma_inserts_of_two(some, others, one, fields, more.drop_last(), field, target);
            assert((fields + more).drop_last() =~= fields + more.drop_last());
            assert((fields + more).last() == more.last());
        } else {
            assert(fields + more =~= fields);
        }
    }
    assert(seq![one].drop_last() =~= Seq::empty());
    assert(inserts_in_all(seq![one].drop_last(), target) == 0);
    assert(seq![field].drop_last() =~= Seq::empty());
    assert(field_inserts(seq![field].drop_last(), target) == 0);
}

/// The same of the arms of a match, where guard and body count, and of statements, where
/// each expression in them counts.
pub proof fn lemma_inserts_in_arms(some: Seq<Arm>, others: Seq<Arm>, one: Arm, target: usize)
    ensures
        arm_inserts(some + others, target) == arm_inserts(some, target) + arm_inserts(
            others,
            target,
        ),
        one.guard is None ==> arm_inserts(seq![one], target) == literal_inserts(*one.body, target),
        one.guard matches Some(guard) ==> arm_inserts(seq![one], target) == literal_inserts(
            *guard,
            target,
        ) + literal_inserts(*one.body, target),
    decreases others.len(),
{
    if others.len() == 0 {
        assert(some + others =~= some);
    } else {
        lemma_inserts_in_arms(some, others.drop_last(), one, target);
        assert((some + others).drop_last() =~= some + others.drop_last());
        assert((some + others).last() == others.last());
    }
    assert(seq![one].drop_last() =~= Seq::empty());
    assert(arm_inserts(seq![one].drop_last(), target) == 0);
}

/// The inserts in two lists of statements count together, and in a statement each
/// expression counts.
pub proof fn lemma_inserts_in_stmts(some: Seq<Stmt>, others: Seq<Stmt>, one: Stmt, target: usize)
    ensures
        stmt_inserts(some + others, target) == stmt_inserts(some, target) + stmt_inserts(
            others,
            target,
        ),
        match one {
            Stmt::Expr(expr) => stmt_inserts(seq![one], target) == literal_inserts(expr, target),
            Stmt::Semi(expr) => stmt_inserts(seq![one], target) == literal_inserts(expr, target),
            Stmt::Let(Some(init)) => stmt_inserts(seq![one], target) == literal_inserts(
                init,
                target,
            ),
            Stmt::LetElse(init, otherwise) => stmt_inserts(seq![one], target) == literal_inserts(
                init,
                target,
            ) + literal_inserts(otherwise, target),
            _ => stmt_inserts(seq![one], target) == 0,
        },
    decreases others.len(),
{
    if others.len() == 0 {
        assert(some + others =~= some);
    } else {
        lemma_inserts_in_stmts(some, others.drop_last(), one, target);
        assert((some + others).drop_last() =~= some + others.drop_last());
        assert((some + others).last() == others.last());
    }
    assert(seq![one].drop_last() =~= Seq::empty());
    assert(stmt_inserts(seq![one].drop_last(), target) == 0);
}

/// An insert with a literal key counts for the one map that it inserts into, whatever
/// stands around it, and for no other.
pub proof fn lemma_insert_counts(expr: Expr, target: usize, other: usize)
    requires
        expr.kind matches ExprKind::MethodCall { method, receiver, args } && method@ == "insert"@
            && args.len() > 0 && str_lit(args@[0]) && borrowed_local(*receiver) == Some(target),
        other != target,
    ensures
        literal_inserts(expr, target) >= 1,
        expr.kind matches ExprKind::MethodCall { receiver, args, .. } && {
            &&& literal_inserts(expr, target) == 1 + literal_inserts(*receiver, target)
                + inserts_in_all(args@, target)
            &&& literal_inserts(expr, other) == literal_inserts(*receiver, other) + inserts_in_all(
                args@,
                other,
            )
        },
{
}

/// An expression that inserts nothing itself counts what its parts count: in both
/// operands, in all branches, in the condition, and in what is left over.
pub proof fn lemma_inserts_in_parts(expr: Expr, target: usize)
    ensures
        match expr.kind {
            ExprKind::Binary(_, left, right) => literal_inserts(expr, target) == literal_inserts(
                *left,
                target,
            ) + literal_inserts(*right, target),
            ExprKind::Assign(place, value) => literal_inserts(expr, target) == literal_inserts(
                *place,
                target,
            ) + literal_inserts(*value, target),
            ExprKind::If { cond, then_branch, else_branch: Some(other) } => literal_inserts(
                expr,
                target,
            ) == literal_inserts(*cond, target) + literal_inserts(*then_branch, target)
                + literal_inserts(*other, target),
            ExprKind::If { cond, then_branch, else_branch: None } => literal_inserts(expr, target)
                == literal_inserts(*cond, target) + literal_inserts(*then_branch, target),
            ExprKind::Block { stmts, tail: Some(inner), .. } => literal_inserts(expr, target)
                == stmt_inserts(stmts@, target) + literal_inserts(*inner, target),
            ExprKind::Block { stmts, tail: None, .. } => literal_inserts(expr, target)
                == stmt_inserts(stmts@, target),
            ExprKind::Match { scrutinee, arms, .. } => literal_inserts(expr, target)
                == literal_inserts(*scrutinee, target) + arm_inserts(arms@, target),
            ExprKind::Call { callee, args } => literal_inserts(expr, target) == literal_inserts(
                *callee,
                target,
            ) + inserts_in_all(args@, target),
            ExprKind::Tup(items) => literal_inserts(expr, target) == inserts_in_all(items@, target),
            ExprKind::Other(parts) => literal_inserts(expr, target) == inserts_in_all(
                parts@,
                target,
            ),
            ExprKind::Struct { fields, rest: Some(inner), .. } => literal_inserts(expr, target)
                == field_inserts(fields@, target) + literal_inserts(*inner, target),
            ExprKind::Struct { fields, rest: None, .. } => literal_inserts(expr, target)
                == field_inserts(fields@, target),
            ExprKind::Unary(_, inner) => literal_inserts(expr, target) == literal_inserts(
                *inner,
                target,
            ),
            ExprKind::AddrOf(inner) => literal_inserts(expr, target) == literal_inserts(
                *inner,
                target,
            ),
            ExprKind::Cast(inner) => literal_inserts(expr, target) == literal_inserts(
                *inner,
                target,
            ),
            ExprKind::Field { base, .. } => literal_inserts(expr, target) == literal_inserts(
                *base,
                target,
            ),
            ExprKind::MethodCall { receiver, args, .. } => literal_inserts(expr, target)
                >= literal_inserts(*receiver, target) + inserts_in_all(args@, target),
            _ => literal_inserts(expr, target) == 0,
        },
{
}

/// A match on a string gives a warning exactly if it was written as one and two or more of
/// its arms have a string literal.
pub proof fn lemma_match_warned(expr: Expr, parents: Seq<Parent>, body: Option<&Expr>)
    requires
        expr.kind is Match,
    ensures
        expr.kind matches ExprKind::Match { scrutinee, arms, is_normal } && (stringly_warning(
            expr,
            parents,
            body,
        ) is Some <==> is_normal && string_like(*scrutinee) && str_lit_arms(arms@) >= 2),
{
}

/// An `if` gives a warning exactly if it compares a variable with a string literal, its
/// chain does so twice or more with that variable, and it is the first of the chain.
pub proof fn lemma_chain_warned(expr: Expr, parents: Seq<Parent>, body: Option<&Expr>)
    requires
        expr.kind is If,
    ensures
        expr.kind matches ExprKind::If { cond, .. } && (stringly_warning(expr, parents, body)
            is Some <==> (compared_variable(*cond) matches Some(target) && chain_length(
            expr,
            target,
        ) >= 2) && !else_of(parents, expr.id)),
{
}

/// A method call gives a warning exactly if it inserts a literal key into a variable that
/// is a hash map with strings for keys, perhaps behind references, and two or more in the
/// body do so.
pub proof fn lemma_insert_warned(expr: Expr, parents: Seq<Parent>, body: &Expr)
    requires
        expr.kind is MethodCall,
    ensures
        expr.kind matches ExprKind::MethodCall { method, receiver, args } && (stringly_warning(
            expr,
            parents,
            Some(body),
        ) is Some <==> {
            let map = hir::unreferenced(receiver.ty);
            &&& method@ == "insert"@
            &&& args.len() > 0
            &&& str_lit(args@[0])
            &&& map.kind matches hir::TyKind::Adt(adt) && adt.known == KnownType::HashMap
            &&& map.parts.len() > 0
            &&& hir::is_text_type(hir::unreferenced(map.parts@[0]))
            &&& borrowed_local(*receiver) matches Some(target) && literal_inserts(*body, target)
                >= 2
        }),
        stringly_warning(expr, parents, None) is None,
{
}

/// No other expression gives a warning, and each warning is at the expression itself.
pub proof fn lemma_warned_expressions(expr: Expr, parents: Seq<Parent>, body: Option<&Expr>)
    ensures
        stringly_warning(expr, parents, body) matches Some(warning) ==> {
            &&& warning.span == expr.span.id
            &&& expr.kind is Match || expr.kind is If || expr.kind is MethodCall
        },
{
}

} // verus!

use agent_lints::hir::{
    Adt, Arm, BinOp, Body, Def, DefKind, DefPath, Diagnostic, Expr, ExprField, ExprKind, FieldDef, FnKind,
    InnerItem, Item, ItemKind, KnownType, Lit, Param, Pat, Res, Span, Stmt, Ty, TyKind, UnOp,
    VariantData,
};
use agent_lints::item_complexity;
use agent_lints::item_complexity::{Node, NodeKind, DEFAULT_THRESHOLD};
use agent_lints::interior_mutable_statics;
use agent_lints::public_fields;
use agent_lints::stringly_typed;
use agent_lints::stringly_typed::Parent;
use agent_lints::trivial_forwarding;
use agent_lints::trivial_forwarding::FnInfo;
use agent_lints::underscore_prefix;
use agent_lints::utils::SpanStart;

fn span(id: usize) -> Span {
    Span {
        id,
        from_expansion: false,
        start: SpanStart { local_path: Some("ui/main.rs".to_string()), line: id, column: 0 },
    }
}

fn place(path: &str) -> DefPath {
    DefPath { crate_name: "main".to_string(), path: path.to_string() }
}

fn plain() -> Ty {
    Ty { kind: TyKind::Other, parts: vec![] }
}

fn text_ref() -> Ty {
    Ty { kind: TyKind::Ref, parts: vec![Ty { kind: TyKind::Str, parts: vec![] }] }
}

fn known(known: KnownType, parts: Vec<Ty>) -> Ty {
    let def = Def {
        kind: DefKind::Struct,
        place: place("T"),
        name: "T".to_string(),
        is_local: false,
        known,
        field_names: vec![],
        assoc: None,
        parent: None,
    };
    Ty { kind: TyKind::Adt(Adt { known, is_struct: true, def }), parts }
}

fn item(id: usize, kind: ItemKind) -> Item {
    Item { place: place("item"), span: span(id), is_public: true, is_repr_c: false, kind }
}

fn expr(ty: Ty, kind: ExprKind) -> Expr {
    Expr { id: 0, span: span(0), ty, type_dependent: None, kind }
}

fn local(number: usize, ty: Ty) -> Expr {
    expr(ty, ExprKind::Path { resolved: true, res: Res::Local(number) })
}

fn literal(value: &str) -> Expr {
    expr(text_ref(), ExprKind::Lit(Lit::Str(value.to_string())))
}

fn number(value: u128) -> Expr {
    expr(plain(), ExprKind::Lit(Lit::Int(value)))
}

fn block(stmts: Vec<Stmt>, tail: Option<Expr>) -> Expr {
    expr(plain(), ExprKind::Block { stmts, tail: tail.map(Box::new), is_unsafe: false })
}

fn called(path: &str, args: Vec<Expr>) -> Expr {
    let callee = expr(plain(), ExprKind::Path { resolved: true, res: Res::Other });
    let _ = path;
    expr(plain(), ExprKind::Call { callee: Box::new(callee), args })
}

fn method(name: &str, receiver: Expr, args: Vec<Expr>) -> Expr {
    expr(
        plain(),
        ExprKind::MethodCall { method: name.to_string(), receiver: Box::new(receiver), args },
    )
}

fn field_of(base: Expr, name: &str) -> Expr {
    expr(plain(), ExprKind::Field { base: Box::new(base), name: name.to_string() })
}

fn binary(op: BinOp, left: Expr, right: Expr) -> Expr {
    expr(plain(), ExprKind::Binary(op, Box::new(left), Box::new(right)))
}

fn param(id: usize, name: &str, ty: &str, significant_drop: bool) -> Param {
    Param {
        pat: Pat::Binding(id, name.to_string()),
        span: span(id),
        ty_text: ty.to_string(),
        significant_drop,
        compiler_generated: false,
    }
}

fn field(id: usize, name: &str, ty: &str, significant_drop: bool, is_public: bool) -> FieldDef {
    FieldDef {
        name: name.to_string(),
        span: span(id),
        is_public,
        ty: plain(),
        ty_text: ty.to_string(),
        significant_drop,
    }
}

fn words(found: &Diagnostic) -> (usize, &str, &str) {
    (found.span, found.message.as_str(), found.advice.as_str())
}

// Bodies as trees of counted nodes.

fn node(kind: NodeKind, children: Vec<Node>) -> Node {
    Node { kind, from_expansion: false, children }
}

fn e(children: Vec<Node>) -> Node {
    node(NodeKind::Expr, children)
}

fn leaf() -> Node {
    e(vec![])
}

fn pattern() -> Node {
    node(NodeKind::Pat, vec![])
}

fn binding(init: Node) -> Node {
    node(NodeKind::Stmt, vec![node(NodeKind::Other, vec![pattern(), init])])
}

/// `a + b + ..` with `n` names.
fn sum(n: usize) -> Node {
    if n == 1 {
        leaf()
    } else {
        e(vec![sum(n - 1), leaf()])
    }
}

fn braces(value: Node) -> Node {
    e(vec![node(NodeKind::Other, vec![value])])
}

fn choice(yes: Node, no: Node) -> Node {
    e(vec![sum(2), braces(yes), braces(no)])
}

fn cases(scrutinee: Node, arms: Vec<(Node, Node)>) -> Node {
    let mut children = vec![scrutinee];
    for (pat, value) in arms {
        children.push(node(NodeKind::Other, vec![pat, value]));
    }
    e(children)
}

fn numbered(values: Vec<Node>) -> Vec<(Node, Node)> {
    values.into_iter().map(|value| (pattern(), value)).collect()
}

fn product() -> Node {
    e(vec![sum(2), sum(2)])
}

fn three_products() -> Node {
    e(vec![e(vec![product(), product()]), product()])
}

fn nested_choice(a: usize, b: usize, c: usize, d: usize) -> Node {
    choice(choice(sum(a), sum(b)), choice(sum(c), sum(d)))
}

fn small() -> Node {
    let stmts = vec![binding(leaf()), binding(leaf()), sum(2)];
    node(NodeKind::Other, vec![e(vec![node(NodeKind::Other, stmts)])])
}

fn moderate() -> Node {
    let mut stmts: Vec<Node> = (0..5).map(|_| binding(leaf())).collect();
    stmts.push(binding(choice(sum(2), sum(2))));
    stmts.push(binding(choice(sum(2), sum(2))));
    stmts.push(binding(cases(leaf(), numbered(vec![sum(2), sum(2), leaf()]))));
    node(NodeKind::Other, vec![e(vec![node(NodeKind::Other, stmts)])])
}

fn very_complex() -> Node {
    let mut stmts: Vec<Node> = (0..10).map(|_| binding(leaf())).collect();
    stmts.push(binding(choice(nested_choice(6, 4, 4, 4), nested_choice(3, 3, 3, 3))));
    stmts.push(binding(cases(
        leaf(),
        numbered(vec![sum(3), sum(3), sum(3), sum(5), sum(5), leaf()]),
    )));
    for _ in 0..2 {
        stmts.push(binding(cases(leaf(), numbered(vec![sum(3), sum(3), sum(3), leaf()]))));
    }
    stmts.push(binding(cases(
        leaf(),
        numbered(vec![sum(2), sum(2), sum(2), sum(2), sum(2)]),
    )));
    for _ in 0..10 {
        stmts.push(binding(e(vec![e(vec![e(vec![leaf()]), leaf()])])));
    }
    for _ in 0..6 {
        stmts.push(binding(three_products()));
    }
    for _ in 0..2 {
        stmts.push(binding(choice(nested_choice(3, 3, 3, 3), nested_choice(3, 3, 3, 3))));
    }
    for _ in 0..2 {
        let pair = || node(NodeKind::Pat, vec![pattern(), pattern()]);
        stmts.push(binding(cases(
            e(vec![leaf(), leaf()]),
            vec![
                (pair(), sum(2)),
                (pair(), sum(2)),
                (pair(), sum(2)),
                (pair(), sum(2)),
                (pair(), sum(3)),
                (pattern(), leaf()),
            ],
        )));
    }
    node(NodeKind::Other, vec![e(vec![node(NodeKind::Other, stmts)])])
}

#[test]
fn ui() {
    let check = |name: &str, body: &Node| {
        let kind = FnKind::ItemFn(name.to_string());
        item_complexity::check_fn(&kind, body, &span(1), DEFAULT_THRESHOLD)
    };
    assert!(check("small", &small()).is_none());
    assert!(check("moderate", &moderate()).is_none());
    assert!(item_complexity::count_nodes(&very_complex()) > 500);
    let found = check("very_complex", &very_complex()).unwrap();
    assert_eq!(
        found.message,
        format!(
            "function `very_complex` has {} HIR nodes (threshold: 250); consider breaking it into smaller functions",
            item_complexity::count_nodes(&very_complex())
        )
    );
}

#[test]
fn nodes_are_counted() {
    assert_eq!(item_complexity::count_nodes(&small()), 10);
    assert_eq!(item_complexity::count_nodes(&leaf()), 1);
    assert_eq!(item_complexity::count_nodes(&node(NodeKind::Other, vec![])), 0);
    let produced = Node { kind: NodeKind::Stmt, from_expansion: true, children: vec![leaf()] };
    assert_eq!(item_complexity::count_nodes(&produced), 0);
    assert_eq!(item_complexity::count_nodes(&e(vec![produced, leaf()])), 2);
}

#[test]
fn complexity_is_above_the_threshold() {
    let body = sum(2);
    let kind = FnKind::Method("get".to_string());
    assert!(item_complexity::check_fn(&kind, &body, &span(1), 3).is_none());
    let found = item_complexity::check_fn(&kind, &body, &span(1), 2).unwrap();
    assert_eq!(
        words(&found),
        (
            1,
            "method `get` has 3 HIR nodes (threshold: 2); consider breaking it into smaller functions",
            "",
        )
    );
    let found = item_complexity::check_fn(&FnKind::Closure, &body, &span(4), 0).unwrap();
    assert!(found.message.starts_with("closure has 3 HIR nodes"));
    let mut produced = span(1);
    produced.from_expansion = true;
    assert!(item_complexity::check_fn(&kind, &body, &produced, 0).is_none());
}

#[test]
fn interior_mutable_statics_ui() {
    let check = |ty: Ty| interior_mutable_statics::check_item(&item(5, ItemKind::Static(ty)));
    let message = |ty: Ty| check(ty).unwrap().message;
    assert_eq!(
        message(known(KnownType::Mutex, vec![plain()])),
        "`static` item uses interior-mutable type `Mutex`"
    );
    assert_eq!(
        message(known(KnownType::RwLock, vec![known(KnownType::String, vec![])])),
        "`static` item uses interior-mutable type `RwLock`"
    );
    assert_eq!(
        message(known(KnownType::Cell, vec![plain()])),
        "`static` item uses interior-mutable type `Cell`"
    );
    assert_eq!(
        message(known(KnownType::RefCell, vec![known(KnownType::Other, vec![plain()])])),
        "`static` item uses interior-mutable type `RefCell`"
    );
    assert_eq!(
        message(known(KnownType::Other, vec![known(KnownType::Mutex, vec![plain()])])),
        "`static` item uses interior-mutable type `Mutex`"
    );
    assert!(check(plain()).is_none());
    assert!(check(text_ref()).is_none());
}

#[test]
fn statics_may_lock_lazily() {
    let check = |ty: Ty| interior_mutable_statics::check_item(&item(5, ItemKind::Static(ty)));
    let mutex = || known(KnownType::Mutex, vec![plain()]);
    assert!(check(known(KnownType::LazyLock, vec![mutex()])).is_none());
    assert!(check(known(KnownType::OnceLock, vec![mutex()])).is_none());
    assert!(check(known(KnownType::Other, vec![known(KnownType::LazyLock, vec![mutex()])])).is_none());
    let both = Ty { kind: TyKind::Other, parts: vec![known(KnownType::LazyLock, vec![mutex()]), mutex()] };
    assert!(check(both).is_some());
}

#[test]
fn first_type_inside_a_static_is_named() {
    let inner = known(KnownType::UnsafeCell, vec![]);
    let later = known(KnownType::Mutex, vec![]);
    let ty = Ty { kind: TyKind::Other, parts: vec![plain(), inner, later] };
    let found = interior_mutable_statics::check_item(&item(8, ItemKind::Static(ty))).unwrap();
    assert_eq!(words(&found), (8, "`static` item uses interior-mutable type `unsafe_cell`", ""));
    assert!(interior_mutable_statics::check_item(&item(8, ItemKind::Const)).is_none());
}

#[test]
fn public_fields_ui() {
    let config = |is_public: bool| {
        ItemKind::Struct(VariantData::Struct(vec![
            field(1, "timeout", "u64", false, is_public),
            field(2, "name", "String", false, false),
            field(3, "retries", "u32", false, is_public),
        ]))
    };
    let found = public_fields::check_item(&item(9, config(true)));
    assert_eq!(found.len(), 2);
    assert_eq!(
        words(&found[0]),
        (
            1,
            "public field on a public struct",
            "consider making this field private and adding accessor methods",
        )
    );
    assert_eq!(found[1].span, 3);
    assert!(public_fields::check_item(&item(9, config(false))).is_empty());

    let mut private = item(9, config(true));
    private.is_public = false;
    assert!(public_fields::check_item(&private).is_empty());
    let mut c_layout = item(9, config(true));
    c_layout.is_repr_c = true;
    assert!(public_fields::check_item(&c_layout).is_empty());
    let tuple = ItemKind::Struct(VariantData::Tuple(vec![field(1, "0", "Bar", false, true)]));
    assert!(public_fields::check_item(&item(9, tuple)).is_empty());
    assert!(public_fields::check_item(&item(9, ItemKind::Struct(VariantData::Unit))).is_empty());
}

#[test]
fn underscore_prefix_ui() {
    let fields = |field: FieldDef| {
        let kind = ItemKind::Struct(VariantData::Struct(vec![field]));
        underscore_prefix::check_item(&item(1, kind))
    };
    let found = fields(field(1, "_count", "u32", false, false));
    assert_eq!(
        words(&found[0]),
        (
            1,
            "`_`-prefixed field `_count` has type `u32` which does not implement `Drop`",
            "the `_` prefix is conventionally used to keep a value alive for its destructor; consider removing the prefix or the field",
        )
    );
    assert!(fields(field(2, "_guard", "MutexGuard<'a, i32>", true, false)).is_empty());
    assert_eq!(fields(field(3, "_flag", "bool", false, false)).len(), 1);
    assert_eq!(fields(field(4, "_data", "Vec<u8>", false, false)).len(), 1);
    assert!(fields(field(5, "count", "u32", false, false)).is_empty());

    let params = |param: Param| underscore_prefix::check_fn(&vec![param]);
    let found = params(param(1, "_x", "i32", false));
    assert_eq!(
        words(&found[0]),
        (
            1,
            "`_`-prefixed binding `_x` has type `i32` which does not implement `Drop`",
            "the `_` prefix is conventionally used to keep a value alive for its destructor; consider removing the prefix or the binding",
        )
    );
    assert_eq!(params(param(1, "_v", "Vec<String>", false)).len(), 1);
    assert!(params(param(1, "x", "i32", false)).is_empty());
    assert_eq!(params(param(1, "_flag", "bool", false)).len(), 1);
    let mut wildcard = param(1, "", "i32", false);
    wildcard.pat = Pat::Other;
    assert!(params(wildcard).is_empty());
    assert_eq!(params(param(1, "_s", "String", false)).len(), 1);

    let mut plumbing = param(2, "_task_context", "ResumeTy", false);
    plumbing.compiler_generated = true;
    let found = underscore_prefix::check_fn(&vec![param(1, "_x", "i32", false), plumbing]);
    assert_eq!(found.len(), 1);

    let this = || param(0, "self", "&Self", false);
    assert_eq!(
        underscore_prefix::check_fn(&vec![this(), param(1, "_val", "u64", false)]).len(),
        1
    );
    assert_eq!(
        underscore_prefix::check_fn(&vec![this(), param(1, "_buf", "Vec<u8>", false)]).len(),
        1
    );
    let guard = param(1, "_guard", "MutexGuard<'_, i32>", true);
    assert!(underscore_prefix::check_fn(&vec![this(), guard]).is_empty());
}

#[test]
fn underscores_stand_before_a_name() {
    assert!(underscore_prefix::is_underscore_prefixed("_x"));
    assert!(underscore_prefix::is_underscore_prefixed("__"));
    assert!(!underscore_prefix::is_underscore_prefixed("_"));
    assert!(!underscore_prefix::is_underscore_prefixed(""));
    assert!(!underscore_prefix::is_underscore_prefixed("x_"));
    let tuple = ItemKind::Struct(VariantData::Tuple(vec![field(1, "0", "u8", false, false)]));
    assert!(underscore_prefix::check_item(&item(1, tuple)).is_empty());
}

fn info(kind: FnKind) -> FnInfo {
    FnInfo { kind, span: span(7), is_unsafe: false, in_trait_impl: false, owner_field_count: 0 }
}

fn free(name: &str, count: usize, value: Expr) -> Option<Diagnostic> {
    let params = (0..count).map(|i| param(i, "p", "i32", false)).collect();
    let body = Body { params, value: block(vec![], Some(value)) };
    trivial_forwarding::check_trivial_forwarding_fn(&info(FnKind::ItemFn(name.to_string())), &body)
}

fn of_struct(
    name: &str,
    params: Vec<&str>,
    value: Expr,
    fields: usize,
) -> Option<Diagnostic> {
    let params =
        params.into_iter().enumerate().map(|(i, name)| param(i, name, "i32", false)).collect();
    let body = Body { params, value: block(vec![], Some(value)) };
    let mut about = info(FnKind::Method(name.to_string()));
    about.owner_field_count = fields;
    trivial_forwarding::check_trivial_forwarding_fn(&about, &body)
}

fn outer_method(name: &str, count: usize, value: Expr, fields: usize) -> Option<Diagnostic> {
    let params = (0..count).map(|i| if i == 0 { "self" } else { "p" }).collect();
    of_struct(name, params, value, fields)
}

#[test]
fn lib_ui() {
    let module = |inner: Vec<(bool, bool)>| {
        let items = inner
            .into_iter()
            .map(|(is_single_use, is_public)| InnerItem { is_single_use, is_public })
            .collect();
        trivial_forwarding::check_trivial_wrapper_module(&item(3, ItemKind::Mod(items)))
    };
    let found = module(vec![(true, true)]).unwrap();
    assert_eq!(
        words(&found),
        (
            3,
            "module contains only a single `pub use` re-export",
            "consider replacing this module with the `pub use` at the parent scope",
        )
    );
    assert!(module(vec![(true, true), (true, true)]).is_none());
    assert!(module(vec![(true, true), (false, true)]).is_none());
    assert!(module(vec![]).is_none());
    assert!(module(vec![(false, true)]).is_none());
    assert!(module(vec![(true, false), (false, true)]).is_none());
    assert!(module(vec![(true, false)]).is_none());

    let x = || local(0, plain());
    let y = || local(1, plain());
    let found = free("forwarding_add", 2, called("target_add", vec![x(), y()])).unwrap();
    assert_eq!(
        words(&found),
        (
            7,
            "function `forwarding_add` body is a trivial forwarding call",
            "consider removing this wrapper and calling the target directly, or using a re-export",
        )
    );
    assert!(free("forwarding_greet", 1, called("target_greet", vec![x()])).is_some());
    assert!(free("forwarding_noop", 0, called("target_noop", vec![])).is_some());
    assert!(free("reordered", 2, called("target_add", vec![y(), x()])).is_none());
    let call = called("target_add", vec![x(), y()]);
    assert!(free("extra_work", 2, binary(BinOp::Add, call, number(1))).is_none());
    let call = called("target_add", vec![x(), y()]);
    let stmts = vec![Stmt::Semi(called("print", vec![]))];
    assert!(free("with_side_effect", 2, block(stmts, Some(call))).is_none());
    assert!(free("partial", 2, called("target_greet", vec![literal("constant")])).is_none());

    let inner = || field_of(local(0, plain()), "inner");
    assert!(outer_method("get", 1, method("get", inner(), vec![]), 1).is_some());
    let found = outer_method("add", 2, method("add", inner(), vec![y()]), 1).unwrap();
    assert_eq!(found.message, "method `add` body is a trivial forwarding call");
    let doubled = binary(BinOp::Mul, method("get", inner(), vec![]), number(2));
    assert!(outer_method("get_doubled", 1, doubled, 1).is_none());
    assert!(outer_method("builder", 1, method("get", inner(), vec![]), 1).is_none());
    assert!(outer_method("new", 1, method("get", inner(), vec![]), 1).is_none());
    assert!(outer_method("get", 1, method("get", inner(), vec![]), 2).is_none());
    let helper = called("multi_outer_add_via_helper", vec![x(), y()]);
    assert!(outer_method("add_via_helper", 2, helper, 2).is_none());

    let mut read = info(FnKind::Method("read".to_string()));
    read.in_trait_impl = true;
    read.owner_field_count = 1;
    let body = Body {
        params: vec![param(0, "self", "&Self", false)],
        value: block(vec![], Some(method("get", inner(), vec![]))),
    };
    assert!(trivial_forwarding::check_trivial_forwarding_fn(&read, &body).is_none());

    let mut wrapped = block(vec![], Some(called("dangerous_extern", vec![x()])));
    if let ExprKind::Block { is_unsafe, .. } = &mut wrapped.kind {
        *is_unsafe = true;
    }
    assert!(free("safe_wrapper", 1, wrapped).is_none());
}

#[test]
fn structs_with_several_fields_spare_only_methods_with_self() {
    let target = || called("target", vec![local(0, plain())]);
    let found = of_struct("make", vec!["x"], target(), 2).unwrap();
    assert_eq!(found.message, "method `make` body is a trivial forwarding call");
    assert!(of_struct("pass", vec!["self"], target(), 2).is_none());
    assert!(of_struct("pass", vec!["self"], target(), 1).is_some());
    assert!(of_struct("nothing", vec![], called("target", vec![]), 2).is_some());
    assert!(of_struct("new", vec!["x"], target(), 2).is_none());
    let second = called("target", vec![local(0, plain()), local(1, plain())]);
    assert!(of_struct("both", vec!["x", "y"], second, 2).is_some());
}

#[test]
fn forwarding_is_seen_through_borrows() {
    let x = || local(0, plain());
    let borrowed = expr(plain(), ExprKind::AddrOf(Box::new(x())));
    assert!(free("by_ref", 1, called("target", vec![borrowed])).is_some());
    let copied = expr(plain(), ExprKind::Unary(UnOp::Deref, Box::new(x())));
    assert!(free("by_value", 1, called("target", vec![copied])).is_some());
    let negated = expr(plain(), ExprKind::Unary(UnOp::Neg, Box::new(x())));
    assert!(free("negated", 1, called("target", vec![negated])).is_none());
    assert!(free("on_first", 2, method("run", x(), vec![local(1, plain())])).is_some());
    assert!(free("no_receiver", 0, method("run", x(), vec![])).is_none());
    assert!(free("constant", 0, number(1)).is_none());
    assert!(free("empty", 0, block(vec![], None)).is_none());
}

#[test]
fn forwarding_spares_closures_macros_and_unsafe_functions() {
    let body = || Body { params: vec![], value: called("target", vec![]) };
    assert!(trivial_forwarding::check_trivial_forwarding_fn(&info(FnKind::Closure), &body()).is_none());
    let mut produced = info(FnKind::ItemFn("f".to_string()));
    produced.span.from_expansion = true;
    assert!(trivial_forwarding::check_trivial_forwarding_fn(&produced, &body()).is_none());

    let mut wrapped = block(vec![], Some(called("target", vec![])));
    if let ExprKind::Block { is_unsafe, .. } = &mut wrapped.kind {
        *is_unsafe = true;
    }
    let mut dangerous = info(FnKind::ItemFn("f".to_string()));
    dangerous.is_unsafe = true;
    let body = Body { params: vec![], value: wrapped };
    assert!(trivial_forwarding::check_trivial_forwarding_fn(&dangerous, &body).is_some());
}

fn arm(pat: Pat, body: Expr) -> Arm {
    Arm { pat, guard: None, body: Box::new(body) }
}

fn string_match(scrutinee: Expr, arms: &[&str]) -> Expr {
    let mut pats: Vec<Pat> = arms.iter().map(|arm| Pat::Lit(Lit::Str(arm.to_string()))).collect();
    pats.push(Pat::Other);
    let arms = pats.into_iter().map(|pat| arm(pat, number(0))).collect();
    expr(plain(), ExprKind::Match { scrutinee: Box::new(scrutinee), arms, is_normal: true })
}

fn chain(words: &[&str]) -> Expr {
    let mut rest = block(vec![], Some(number(0)));
    for (index, word) in words.iter().enumerate().rev() {
        let cond = binary(BinOp::Eq, local(0, text_ref()), literal(word));
        rest = expr(
            plain(),
            ExprKind::If {
                cond: Box::new(cond),
                then_branch: Box::new(block(vec![], Some(number(1)))),
                else_branch: Some(Box::new(rest)),
            },
        );
        rest.id = 100 + index;
    }
    rest
}

fn map_of(key: Ty) -> Ty {
    known(KnownType::HashMap, vec![key, plain()])
}

fn insert(key: Expr) -> Expr {
    method("insert", local(0, map_of(text_ref())), vec![key, number(1)])
}

fn filled(keys: &[&str]) -> Expr {
    let mut stmts = vec![Stmt::Let(Some(called("new", vec![])))];
    for key in keys {
        stmts.push(Stmt::Semi(insert(literal(key))));
    }
    block(stmts, None)
}

#[test]
fn stringly_typed_ui() {
    let check = |value: &Expr| stringly_typed::check_expr(value, &vec![], None);
    let found = check(&string_match(local(0, text_ref()), &["start", "stop"])).unwrap();
    assert_eq!(
        words(&found),
        (
            0,
            "match on string with 2 literal arms suggests a missing enum",
            "consider defining an enum for these variants and parsing the string into it",
        )
    );
    let mut as_str = method("as_str", local(0, known(KnownType::String, vec![])), vec![]);
    as_str.ty = text_ref();
    let found = check(&string_match(as_str, &["create", "update", "delete"])).unwrap();
    assert!(found.message.contains("3 literal arms"));
    assert!(check(&string_match(local(0, text_ref()), &["only"])).is_none());
    assert!(check(&string_match(local(0, plain()), &["start", "stop"])).is_none());

    let found = check(&chain(&["alpha", "beta"])).unwrap();
    assert_eq!(
        words(&found),
        (
            0,
            "if/else chain compares string to 2 literals, suggesting a missing enum",
            "consider defining an enum and matching on it instead of string comparisons",
        )
    );
    let found = check(&chain(&["run", "compile", "check"])).unwrap();
    assert!(found.message.contains("3 literals"));
    assert!(check(&chain(&["only_one"])).is_none());

    let body = filled(&["timeout", "retries"]);
    let trigger = insert(literal("timeout"));
    let found = stringly_typed::check_expr(&trigger, &vec![], Some(&body)).unwrap();
    assert_eq!(
        words(&found),
        (
            0,
            "inserting string-literal key into HashMap suggests a struct or enum would be more appropriate",
            "consider using a struct with named fields or an enum-keyed map",
        )
    );
    let body = filled(&["name", "role", "dept"]);
    assert!(stringly_typed::check_expr(&trigger, &vec![], Some(&body)).is_some());
    let owned = insert(method("to_string", literal("name"), vec![]));
    assert!(stringly_typed::check_expr(&owned, &vec![], Some(&body)).is_none());
    let dynamic = insert(local(1, text_ref()));
    assert!(stringly_typed::check_expr(&dynamic, &vec![], Some(&body)).is_none());
    let body = filled(&["only"]);
    assert!(stringly_typed::check_expr(&trigger, &vec![], Some(&body)).is_none());
    assert!(stringly_typed::check_expr(&trigger, &vec![], None).is_none());
}

#[test]
fn only_the_first_comparison_of_a_chain_is_reported() {
    let inner = chain(&["beta", "gamma"]);
    let parents = vec![Parent::If(Some(inner.id)), Parent::Other];
    assert!(stringly_typed::check_expr(&inner, &parents, None).is_none());
    let parents = vec![Parent::Block, Parent::BlockExpr, Parent::Stmt, Parent::If(Some(inner.id))];
    assert!(stringly_typed::check_expr(&inner, &parents, None).is_none());
    let parents = vec![Parent::If(Some(inner.id + 1))];
    assert!(stringly_typed::check_expr(&inner, &parents, None).is_some());
    let parents = vec![Parent::Expr, Parent::If(Some(inner.id))];
    assert!(stringly_typed::check_expr(&inner, &parents, None).is_some());
}

#[test]
fn comparisons_are_found_on_both_sides() {
    let s = || local(4, text_ref());
    assert_eq!(
        stringly_typed::extract_str_eq_comparison(&binary(BinOp::Eq, literal("a"), s())),
        Some(4)
    );
    assert_eq!(
        stringly_typed::extract_str_eq_comparison(&method("eq", s(), vec![literal("a")])),
        Some(4)
    );
    let unequal = binary(BinOp::Ne, s(), literal("a"));
    assert_eq!(stringly_typed::extract_str_eq_comparison(&unequal), None);
    let prefix = method("starts_with", s(), vec![literal("a")]);
    assert_eq!(stringly_typed::extract_str_eq_comparison(&prefix), None);
    let two = binary(BinOp::Eq, literal("a"), literal("b"));
    assert_eq!(stringly_typed::extract_str_eq_comparison(&two), None);
}

#[test]
fn alternatives_are_literal_arms() {
    let lit = |value: &str| Pat::Lit(Lit::Str(value.to_string()));
    assert!(stringly_typed::pat_is_str_lit(&Pat::Or(vec![Pat::Other, lit("a")])));
    assert!(!stringly_typed::pat_is_str_lit(&Pat::Or(vec![Pat::Other])));
    assert!(!stringly_typed::pat_is_str_lit(&Pat::Lit(Lit::Int(1))));
    assert!(stringly_typed::is_hashmap_with_string_key(&map_of(text_ref())));
    assert!(!stringly_typed::is_hashmap_with_string_key(&map_of(plain())));
    assert!(!stringly_typed::is_hashmap_with_string_key(&text_ref()));
}

/// `if c { m.insert(..); .. } else { .. }` with the given keys.
fn filling_if(then_keys: &[&str], else_keys: &[&str]) -> Expr {
    let branch = |keys: &[&str]| {
        block(keys.iter().map(|key| Stmt::Semi(insert(literal(key)))).collect(), None)
    };
    expr(
        plain(),
        ExprKind::If {
            cond: Box::new(local(9, plain())),
            then_branch: Box::new(branch(then_keys)),
            else_branch: Some(Box::new(branch(else_keys))),
        },
    )
}

#[test]
fn inserts_inside_an_if_are_counted() {
    let count = |value: &Expr| stringly_typed::count_inserts_in_expr(value, 0);
    assert_eq!(count(&filling_if(&["a", "b"], &[])), 2);
    assert_eq!(count(&filling_if(&["a"], &["b", "c"])), 3);
    assert_eq!(stringly_typed::count_inserts_in_expr(&filling_if(&["a", "b"], &[]), 1), 0);

    let trigger = insert(literal("a"));
    let body = block(vec![Stmt::Expr(filling_if(&["a", "b"], &[]))], None);
    assert!(stringly_typed::check_expr(&trigger, &vec![], Some(&body)).is_some());
    let body = block(vec![Stmt::Expr(filling_if(&["a"], &[]))], None);
    assert!(stringly_typed::check_expr(&trigger, &vec![], Some(&body)).is_none());
}

#[test]
fn inserts_are_counted_in_every_part_of_an_expression() {
    let count = |value: &Expr| stringly_typed::count_inserts_in_expr(value, 0);
    let one = || insert(literal("k"));
    let boxed = || Box::new(one());
    let of = |kind: ExprKind| expr(plain(), kind);

    assert_eq!(count(&one()), 1);
    assert_eq!(count(&insert(local(1, text_ref()))), 0);
    assert_eq!(count(&method("get", one(), vec![one()])), 2);
    assert_eq!(count(&method("insert", local(0, plain()), vec![literal("k"), one()])), 2);
    assert_eq!(count(&called("f", vec![one(), number(1), one()])), 2);
    assert_eq!(count(&binary(BinOp::Add, one(), one())), 2);
    assert_eq!(count(&of(ExprKind::Unary(UnOp::Not, boxed()))), 1);
    assert_eq!(count(&of(ExprKind::AddrOf(boxed()))), 1);
    assert_eq!(count(&of(ExprKind::Cast(boxed()))), 1);
    assert_eq!(count(&of(ExprKind::Field { base: boxed(), name: "x".to_string() })), 1);
    assert_eq!(count(&of(ExprKind::Tup(vec![one(), one(), one()]))), 3);
    assert_eq!(count(&of(ExprKind::Assign(boxed(), boxed()))), 2);
    let in_loop = of(ExprKind::Other(vec![block(vec![Stmt::Semi(one()), Stmt::Expr(one())], None)]));
    assert_eq!(count(&in_loop), 2);

    let guarded = Arm { pat: Pat::Other, guard: Some(boxed()), body: boxed() };
    let choice = of(ExprKind::Match {
        scrutinee: boxed(),
        arms: vec![arm(Pat::Other, one()), guarded],
        is_normal: true,
    });
    assert_eq!(count(&choice), 4);

    let made = of(ExprKind::Struct {
        res: Res::Other,
        fields: vec![ExprField { name: "f".to_string(), expr: one() }],
        has_base: true,
        rest: Some(boxed()),
    });
    assert_eq!(count(&made), 2);

    let stmts = vec![
        Stmt::Let(Some(one())),
        Stmt::Let(None),
        Stmt::LetElse(one(), block(vec![Stmt::Semi(one())], None)),
        Stmt::Item,
    ];
    assert_eq!(count(&block(stmts, Some(one()))), 4);
}

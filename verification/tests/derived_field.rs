use agent_lints::derived_field::{
    aggregate_artifacts, build_local_to_field_map, classify_redundancy, copy_expr, normalize_expr,
    normalize_lit, references_other_sibling, same_expr, Finish, LintState, NormalizedExpr,
    TargetArtifact,
};
use agent_lints::hir::{
    BinOp, Def, DefKind, DefPath, Expr, ExprField, ExprKind, FieldDef, Item, ItemKind, KnownType,
    Lit, Res, Span, Stmt, Ty, TyKind, UnOp, VariantData,
};
use agent_lints::utils::SpanStart;
use agent_lints::workspace_lint::{CrateInfo, Mode};
use std::collections::HashMap;
use std::path::PathBuf;

fn span(id: usize) -> Span {
    Span {
        id,
        from_expansion: false,
        start: SpanStart { local_path: Some("src/lib.rs".to_string()), line: id, column: 0 },
    }
}

fn plain() -> Ty {
    Ty { kind: TyKind::Other, parts: vec![] }
}

fn place(path: &str) -> DefPath {
    DefPath { crate_name: "shapes".to_string(), path: path.to_string() }
}

fn def(kind: DefKind, path: &str) -> Def {
    Def {
        kind,
        place: place(path),
        name: path.to_string(),
        is_local: true,
        known: KnownType::Other,
        field_names: vec![],
        assoc: None,
        parent: None,
    }
}

fn expr(kind: ExprKind) -> Expr {
    Expr { id: 0, span: span(0), ty: plain(), type_dependent: None, kind }
}

fn local(number: usize) -> Expr {
    expr(ExprKind::Path { resolved: true, res: Res::Local(number) })
}

fn whole(value: u128) -> Expr {
    expr(ExprKind::Lit(Lit::Int(value)))
}

fn times(left: Expr, right: Expr) -> Expr {
    expr(ExprKind::Binary(BinOp::Mul, Box::new(left), Box::new(right)))
}

fn set(name: &str, expr: Expr) -> ExprField {
    ExprField { name: name.to_string(), expr }
}

fn rectangle(area: Expr, sides: Expr) -> Expr {
    expr(ExprKind::Struct {
        res: Res::Def(def(DefKind::Struct, "Rectangle")),
        fields: vec![
            set("width", local(1)),
            set("height", local(2)),
            set("area", area),
            set("sides", sides),
        ],
        has_base: false,
        rest: None,
    })
}

fn field(name: &str, id: usize) -> FieldDef {
    FieldDef {
        name: name.to_string(),
        span: span(id),
        is_public: false,
        ty: plain(),
        ty_text: "u32".to_string(),
        significant_drop: false,
    }
}

fn rectangle_item() -> Item {
    Item {
        place: place("Rectangle"),
        span: span(1),
        is_public: true,
        is_repr_c: false,
        kind: ItemKind::Struct(VariantData::Struct(vec![
            field("width", 2),
            field("height", 3),
            field("area", 4),
            field("sides", 5),
        ])),
    }
}

fn info() -> CrateInfo {
    CrateInfo::for_current_crate("id", "shapes", Some("shapes"), None)
}

fn collect(exprs: &[Expr]) -> TargetArtifact {
    let mut state = LintState::new(Mode::Collect { artifact_dir: PathBuf::from("out") }, info());
    state.check_item(&rectangle_item());
    for expr in exprs {
        state.check_expr(expr);
    }
    match state.finish() {
        Finish::Write { artifact_dir, artifact } => {
            assert_eq!(artifact_dir, PathBuf::from("out"));
            artifact
        }
        _ => panic!("expected an artifact"),
    }
}

fn sibling(name: &str) -> NormalizedExpr {
    NormalizedExpr::SiblingField(name.to_string())
}

#[test]
fn fields_with_one_expression_are_reported() {
    let site = || rectangle(times(local(1), local(2)), whole(4));
    let artifacts = vec![collect(&[site()]), collect(&[site(), site()])];
    let report = aggregate_artifacts(&artifacts);
    let paths: Vec<&str> = report.redundant_fields.iter().map(|e| e.display_path.as_str()).collect();
    assert_eq!(paths, vec!["shapes::Rectangle::area", "shapes::Rectangle::sides"]);
    assert_eq!(report.redundant_fields[0].construction_site_count, 3);
    assert_eq!(
        report.redundant_fields[0].expr,
        NormalizedExpr::BinOp(
            "Mul".to_string(),
            Box::new(sibling("width")),
            Box::new(sibling("height"))
        )
    );
    assert_eq!(report.redundant_fields[1].expr, NormalizedExpr::LitInt(4));

    let mut state = LintState::new(Mode::Emit { data: report.redundant_fields }, info());
    state.check_item(&rectangle_item());
    let Finish::Warn(found) = state.finish() else {
        panic!("expected warnings");
    };
    assert_eq!(found.len(), 2);
    assert_eq!(found[0].span, 4);
    assert_eq!(
        found[0].message,
        "field `area` is always initialized to an expression derived from other fields across 3 construction sites"
    );
    assert_eq!(found[0].advice, "consider making this a method instead of a stored field");
    assert_eq!(
        found[1].message,
        "field `sides` is always initialized to the same constant value across 3 construction sites"
    );
    assert_eq!(found[1].advice, "consider making this a const or removing it from the struct");
}

#[test]
fn a_single_site_is_not_enough() {
    let report = aggregate_artifacts(&vec![collect(&[rectangle(whole(1), whole(4))])]);
    assert!(report.redundant_fields.is_empty());
}

#[test]
fn different_expressions_are_not_redundant() {
    let sites = [rectangle(whole(1), whole(4)), rectangle(whole(2), whole(4))];
    let report = aggregate_artifacts(&vec![collect(&sites)]);
    assert_eq!(report.redundant_fields.len(), 1);
    assert_eq!(report.redundant_fields[0].key.field_name, "sides");
}

#[test]
fn expressions_without_a_normal_form_are_ignored() {
    let opaque = || expr(ExprKind::Other(vec![]));
    let sites = [
        rectangle(whole(1), opaque()),
        rectangle(whole(1), whole(4)),
        rectangle(whole(1), whole(4)),
    ];
    let report = aggregate_artifacts(&vec![collect(&sites)]);
    assert_eq!(report.redundant_fields.len(), 2);
    assert_eq!(report.redundant_fields[0].construction_site_count, 3);
    assert_eq!(report.redundant_fields[1].construction_site_count, 2);
    let sites = [rectangle(whole(1), local(9)), rectangle(whole(1), whole(4))];
    let report = aggregate_artifacts(&vec![collect(&sites)]);
    assert_eq!(report.redundant_fields.len(), 1);
}

#[test]
fn updates_and_macros_are_ignored() {
    let mut update = rectangle(whole(1), whole(4));
    if let ExprKind::Struct { has_base, .. } = &mut update.kind {
        *has_base = true;
    }
    let mut produced = rectangle(whole(1), whole(4));
    produced.span.from_expansion = true;
    let mut variant = rectangle(whole(1), whole(4));
    if let ExprKind::Struct { res, .. } = &mut variant.kind {
        *res = Res::Def(def(DefKind::Other, "Shape::Rectangle"));
    }
    assert!(collect(&[update, produced, variant]).observations.is_empty());
    let mut item = rectangle_item();
    item.span.from_expansion = true;
    let mut state = LintState::new(Mode::Collect { artifact_dir: PathBuf::from("out") }, info());
    state.check_item(&item);
    assert!(state.candidates.is_empty());
}

#[test]
fn local_variables_stand_for_the_fields_they_set() {
    let fields = vec![set("width", local(1)), set("area", whole(1)), set("side", local(1))];
    let map = build_local_to_field_map(&fields);
    assert_eq!(map.len(), 1);
    assert_eq!(map.get(&1).unwrap(), "side");
}

#[test]
fn expressions_are_normalized() {
    let mut names = HashMap::new();
    names.insert(1, "width".to_string());
    let form = |value: Expr| normalize_expr(&value, &names);
    assert_eq!(form(local(1)), sibling("width"));
    assert_eq!(form(local(2)), NormalizedExpr::Opaque);
    let unresolved = expr(ExprKind::Path { resolved: false, res: Res::Local(1) });
    assert_eq!(form(unresolved), NormalizedExpr::Opaque);
    let braces = expr(ExprKind::Block {
        stmts: vec![],
        tail: Some(Box::new(local(1))),
        is_unsafe: false,
    });
    assert_eq!(form(braces), sibling("width"));
    let busy = expr(ExprKind::Block {
        stmts: vec![Stmt::Item],
        tail: Some(Box::new(local(1))),
        is_unsafe: false,
    });
    assert_eq!(form(busy), NormalizedExpr::Opaque);
    assert_eq!(
        form(expr(ExprKind::Unary(UnOp::Neg, Box::new(whole(3))))),
        NormalizedExpr::UnaryOp("Neg".to_string(), Box::new(NormalizedExpr::LitInt(3)))
    );
    assert_eq!(form(times(local(1), local(2))), NormalizedExpr::Opaque);
    assert_eq!(form(expr(ExprKind::Cast(Box::new(local(1))))), sibling("width"));
    let len = expr(ExprKind::MethodCall {
        method: "min".to_string(),
        receiver: Box::new(local(1)),
        args: vec![whole(3)],
    });
    assert_eq!(
        form(len),
        NormalizedExpr::MethodCall(
            "min".to_string(),
            vec![sibling("width"), NormalizedExpr::LitInt(3)]
        )
    );
    let callee = expr(ExprKind::Path { resolved: true, res: Res::Def(def(DefKind::Fn, "a::f")) });
    let call = expr(ExprKind::Call { callee: Box::new(callee), args: vec![local(1)] });
    assert_eq!(form(call), NormalizedExpr::FnCall("a::f".to_string(), vec![sibling("width")]));
    let unknown = expr(ExprKind::Call { callee: Box::new(local(1)), args: vec![] });
    assert_eq!(form(unknown), NormalizedExpr::Opaque);
    let access = expr(ExprKind::Field { base: Box::new(local(1)), name: "x".to_string() });
    assert_eq!(
        form(access),
        NormalizedExpr::FieldAccess(Box::new(sibling("width")), "x".to_string())
    );
    assert_eq!(
        form(expr(ExprKind::Tup(vec![whole(1), local(1)]))),
        NormalizedExpr::Tuple(vec![NormalizedExpr::LitInt(1), sibling("width")])
    );
    assert_eq!(form(expr(ExprKind::Tup(vec![whole(1), local(2)]))), NormalizedExpr::Opaque);
    assert_eq!(form(expr(ExprKind::Other(vec![]))), NormalizedExpr::Opaque);
}

#[test]
fn literals_are_normalized() {
    assert_eq!(normalize_lit(&Lit::Int(u128::MAX)), NormalizedExpr::LitInt(-1));
    assert_eq!(
        normalize_lit(&Lit::Float("1.5".to_string())),
        NormalizedExpr::LitFloat("1.5".to_string())
    );
    assert_eq!(normalize_lit(&Lit::Bool(true)), NormalizedExpr::LitBool(true));
    assert_eq!(
        normalize_lit(&Lit::Str("a".to_string())),
        NormalizedExpr::LitStr("a".to_string())
    );
    assert_eq!(normalize_lit(&Lit::Char('c')), NormalizedExpr::LitChar('c'));
    assert_eq!(normalize_lit(&Lit::Other), NormalizedExpr::Opaque);
}

#[test]
fn a_field_is_not_derived_from_itself() {
    assert!(!references_other_sibling(&sibling("x"), "x"));
    assert!(references_other_sibling(&sibling("y"), "x"));
    let call = NormalizedExpr::FnCall("f".to_string(), vec![sibling("x"), sibling("y")]);
    assert!(references_other_sibling(&call, "x"));
    assert_eq!(classify_redundancy(&sibling("x"), "x").0, "the same constant value");
    assert_eq!(classify_redundancy(&call, "x").0, "an expression derived from other fields");
}

#[test]
fn copies_are_the_same() {
    let form = NormalizedExpr::MethodCall(
        "m".to_string(),
        vec![
            NormalizedExpr::Tuple(vec![sibling("a"), NormalizedExpr::LitBool(false)]),
            NormalizedExpr::FieldAccess(Box::new(NormalizedExpr::LitChar('c')), "f".to_string()),
        ],
    );
    assert!(same_expr(&form, &copy_expr(&form)));
    assert_eq!(form, copy_expr(&form));
    assert!(!same_expr(&form, &sibling("a")));
    let shorter = NormalizedExpr::MethodCall("m".to_string(), vec![]);
    assert!(!same_expr(&form, &shorter));
}

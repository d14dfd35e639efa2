use agent_lints::hir::{
    Adt, Assoc, Def, DefKind, DefPath, Expr, ExprField, ExprKind, FieldDef, FnSig, ImplItem,
    ImplItemKind, ImplOwner, Item, ItemKind, KnownType, Lit, Res, SelfType, Span, Stmt, TraitItem,
    TraitItemKind, Ty, TyKind, VariantData,
};
use agent_lints::option_report;
use agent_lints::option_report::{
    Finish, LintState, ObservedValue, OptionKey, OptionVariant, TargetArtifact,
};
use agent_lints::option_single_variant;
use agent_lints::trait_option_single_variant;
use agent_lints::utils::SpanStart;
use agent_lints::workspace_lint::{CrateInfo, Mode};
use std::path::PathBuf;

fn span(id: usize) -> Span {
    Span {
        id,
        from_expansion: false,
        start: SpanStart { local_path: Some("src/lib.rs".to_string()), line: id, column: 4 },
    }
}

fn place(path: &str) -> DefPath {
    let crate_name = path.split("::").next().unwrap();
    DefPath { crate_name: crate_name.to_string(), path: path.to_string() }
}

fn def(kind: DefKind, path: &str) -> Def {
    Def {
        kind,
        place: place(path),
        name: path.rsplit("::").next().unwrap().to_string(),
        is_local: false,
        known: KnownType::Other,
        field_names: vec![],
        assoc: None,
        parent: None,
    }
}

fn plain() -> Ty {
    Ty { kind: TyKind::Other, parts: vec![] }
}

fn option() -> Ty {
    let mut owner = def(DefKind::Other, "core::option::Option");
    owner.known = KnownType::Option;
    let adt = Adt { known: KnownType::Option, is_struct: false, def: owner };
    Ty { kind: TyKind::Adt(adt), parts: vec![plain()] }
}

fn expr(kind: ExprKind) -> Expr {
    Expr { id: 0, span: span(0), ty: plain(), type_dependent: None, kind }
}

fn path_to(target: Def) -> Expr {
    expr(ExprKind::Path { resolved: true, res: Res::Def(target) })
}

/// The constructor of a variant of `Option`.
fn variant(name: &str) -> Def {
    let mut owner = def(DefKind::Other, "core::option::Option");
    owner.known = KnownType::Option;
    let mut variant = def(DefKind::Other, &format!("core::option::Option::{name}"));
    variant.parent = Some(Box::new(owner));
    let mut ctor = def(DefKind::Ctor, &format!("core::option::Option::{name}"));
    ctor.parent = Some(Box::new(variant));
    ctor
}

fn some() -> Expr {
    let value = expr(ExprKind::Lit(Lit::Int(1)));
    expr(ExprKind::Call { callee: Box::new(path_to(variant("Some"))), args: vec![value] })
}

fn none() -> Expr {
    path_to(variant("None"))
}

fn value() -> Expr {
    expr(ExprKind::Path { resolved: true, res: Res::Local(9) })
}

/// A method with one `Option` behind `self`.
fn method_sig(first_span: usize) -> FnSig {
    FnSig {
        written: vec![span(first_span), span(first_span + 1)],
        inputs: vec![plain(), option()],
        output: plain(),
        is_method: true,
    }
}

fn fn_sig(first_span: usize) -> FnSig {
    FnSig {
        written: vec![span(first_span)],
        inputs: vec![option()],
        output: plain(),
        is_method: false,
    }
}

fn trait_item(path: &str, id: usize, kind: TraitItemKind) -> TraitItem {
    TraitItem { place: place(path), span: span(id), kind }
}

fn impl_const(path: &str, value: Expr) -> ImplItem {
    ImplItem {
        place: place("impls::First::VALUE"),
        span: span(1),
        is_public: true,
        kind: ImplItemKind::Const(value),
        owner: ImplOwner::Trait,
        implements: Some(place(path)),
    }
}

/// A method of a trait, or the method `path` of a type.
fn method_def(path: &str, of_trait: bool) -> Def {
    let mut target = def(DefKind::Other, path);
    target.assoc = Some(Assoc {
        is_fn: true,
        is_method: true,
        of_trait,
        trait_item_or_self: Some(place(path)),
    });
    target
}

fn method_call(path: &str, of_trait: bool, arg: Expr) -> Expr {
    let mut call = expr(ExprKind::MethodCall {
        method: path.rsplit("::").next().unwrap().to_string(),
        receiver: Box::new(value()),
        args: vec![arg],
    });
    call.type_dependent = Some(method_def(path, of_trait));
    call
}

/// The call of a method as a function.
fn path_call(path: &str, of_trait: bool, arg: Expr) -> Expr {
    let callee = path_to(method_def(path, of_trait));
    expr(ExprKind::Call { callee: Box::new(callee), args: vec![value(), arg] })
}

fn fn_call(path: &str, arg: Expr) -> Expr {
    let callee = path_to(def(DefKind::Fn, path));
    expr(ExprKind::Call { callee: Box::new(callee), args: vec![arg] })
}

fn field(name: &str, id: usize) -> FieldDef {
    FieldDef {
        name: name.to_string(),
        span: span(id),
        is_public: true,
        ty: option(),
        ty_text: "Option<u32>".to_string(),
        significant_drop: false,
    }
}

fn item(path: &str, kind: ItemKind) -> Item {
    Item { place: place(path), span: span(50), is_public: true, is_repr_c: false, kind }
}

fn config_def() -> Def {
    let mut target = def(DefKind::Struct, "models::Config");
    target.field_names =
        vec!["always_some".to_string(), "mixed".to_string(), "always_none".to_string()];
    target
}

fn config_value() -> Expr {
    let mut base = value();
    base.ty = Ty {
        kind: TyKind::Adt(Adt { known: KnownType::Other, is_struct: true, def: config_def() }),
        parts: vec![],
    };
    base
}

fn assign(name: &str, value: Expr) -> Expr {
    let target = expr(ExprKind::Field { base: Box::new(config_value()), name: name.to_string() });
    expr(ExprKind::Assign(Box::new(target), Box::new(value)))
}

fn set(name: &str, expr: Expr) -> ExprField {
    ExprField { name: name.to_string(), expr }
}

fn pair(first: Expr, second: Expr) -> Expr {
    let mut ctor = def(DefKind::Ctor, "models::Pair");
    ctor.parent = Some(Box::new(def(DefKind::Struct, "models::Pair")));
    expr(ExprKind::Call { callee: Box::new(path_to(ctor)), args: vec![first, second] })
}

fn info(name: &str) -> CrateInfo {
    CrateInfo::for_current_crate("id", name, Some(name), None)
}

fn collecting<K: OptionKey>(name: &str) -> LintState<K> {
    LintState::new(Mode::Collect { artifact_dir: PathBuf::from("out") }, info(name))
}

fn written<K: OptionKey>(state: LintState<K>) -> TargetArtifact<K> {
    match state.finish() {
        Finish::Write { artifact_dir, artifact } => {
            assert_eq!(artifact_dir, PathBuf::from("out"));
            artifact
        }
        _ => panic!("expected an artifact"),
    }
}

fn warned<K: OptionKey>(state: LintState<K>) -> Vec<String> {
    match state.finish() {
        Finish::Warn(found) => found.into_iter().map(|warning| warning.message).collect(),
        _ => panic!("expected warnings"),
    }
}

fn api_items() -> Vec<TraitItem> {
    vec![
        trait_item("api::Api::always_some", 1, TraitItemKind::Fn(method_sig(1))),
        trait_item("api::Api::mixed", 3, TraitItemKind::Fn(method_sig(3))),
        trait_item("api::Api::DEFAULT_VALUE", 5, TraitItemKind::Const(option(), None)),
        trait_item("api::Api::MIXED_VALUE", 6, TraitItemKind::Const(option(), None)),
    ]
}

fn impl_items() -> Vec<ImplItem> {
    vec![
        impl_const("api::Api::DEFAULT_VALUE", some()),
        impl_const("api::Api::MIXED_VALUE", some()),
        impl_const("api::Api::DEFAULT_VALUE", some()),
        impl_const("api::Api::MIXED_VALUE", none()),
    ]
}

fn trait_calls() -> Vec<Expr> {
    vec![
        method_call("api::Api::always_some", true, some()),
        method_call("api::Api::always_some", true, some()),
        path_call("api::Api::always_some", true, some()),
        method_call("api::Api::mixed", true, some()),
        method_call("api::Api::mixed", true, none()),
    ]
}

fn handler_method(path: &str, id: usize) -> ImplItem {
    ImplItem {
        place: place(path),
        span: span(id),
        is_public: true,
        kind: ImplItemKind::Fn(method_sig(id)),
        owner: ImplOwner::Inherent(Some(SelfType { is_local: true, is_public: true })),
        implements: None,
    }
}

fn look_at_functions(state: &mut LintState<option_single_variant::CandidateKey>) {
    option_single_variant::check_item(
        state,
        &item("functions::always_some", ItemKind::Fn(fn_sig(10))),
    );
    option_single_variant::check_item(state, &item("functions::mixed", ItemKind::Fn(fn_sig(11))));
    option_single_variant::check_impl_item(
        state,
        &handler_method("functions::Handler::always_none", 12),
    );
    option_single_variant::check_impl_item(
        state,
        &handler_method("functions::Handler::method_mixed", 14),
    );
}

fn look_at_models(state: &mut LintState<option_single_variant::CandidateKey>) {
    let fields = vec![field("always_some", 20), field("mixed", 21), field("always_none", 22)];
    let config = ItemKind::Struct(VariantData::Struct(fields));
    option_single_variant::check_item(state, &item("models::Config", config));
    let pair = ItemKind::Struct(VariantData::Tuple(vec![field("0", 23), field("1", 24)]));
    option_single_variant::check_item(state, &item("models::Pair", pair));
}

fn look_at_client(state: &mut LintState<option_single_variant::CandidateKey>) {
    let mut all = trait_calls();
    all.push(fn_call("functions::always_some", some()));
    all.push(fn_call("functions::always_some", some()));
    all.push(fn_call("functions::mixed", some()));
    all.push(fn_call("functions::mixed", none()));
    all.push(method_call("functions::Handler::always_none", false, none()));
    all.push(path_call("functions::Handler::always_none", false, none()));
    all.push(method_call("functions::Handler::method_mixed", false, some()));
    all.push(method_call("functions::Handler::method_mixed", false, none()));
    all.push(expr(ExprKind::Struct {
        res: Res::Def(config_def()),
        fields: vec![set("always_some", some()), set("mixed", some()), set("always_none", none())],
        has_base: false,
        rest: None,
    }));
    all.push(assign("mixed", none()));
    all.push(assign("always_some", some()));
    all.push(assign("always_none", none()));
    all.push(pair(some(), none()));
    all.push(pair(some(), some()));
    for expr in &all {
        option_single_variant::check_expr(state, expr);
    }
}

#[test]
fn detects_option_items_that_only_use_one_variant_across_workspace() {
    let mut api = collecting("api");
    for item in &api_items() {
        option_single_variant::check_trait_item(&mut api, item);
    }
    let mut impls = collecting("impls");
    for item in &impl_items() {
        option_single_variant::check_impl_item(&mut impls, item);
    }
    let mut functions = collecting("functions");
    look_at_functions(&mut functions);
    let mut models = collecting("models");
    look_at_models(&mut models);
    let mut client = collecting("client");
    look_at_client(&mut client);

    let artifacts =
        vec![written(api), written(impls), written(functions), written(models), written(client)];
    let report = option_report::aggregate_artifacts(&artifacts);
    let paths: Vec<&str> = report.redundant.iter().map(|e| e.display_path.as_str()).collect();
    for expected in [
        "api::Api::always_some",
        "api::Api::DEFAULT_VALUE",
        "functions::always_some",
        "functions::Handler::always_none",
        "models::Config::always_some",
        "models::Config::always_none",
        "models::Pair::0",
    ] {
        assert!(paths.contains(&expected), "missing {} in {:?}", expected, paths);
    }
    for unexpected in [
        "api::Api::mixed",
        "api::Api::MIXED_VALUE",
        "functions::mixed",
        "functions::Handler::method_mixed",
        "models::Config::mixed",
        "models::Pair::1",
    ] {
        assert!(!paths.contains(&unexpected), "unexpected {} in {:?}", unexpected, paths);
    }

    let mut emit = LintState::new(Mode::Emit { data: report.redundant }, info("all"));
    for item in &api_items() {
        option_single_variant::check_trait_item(&mut emit, item);
    }
    look_at_functions(&mut emit);
    look_at_models(&mut emit);
    let messages = warned(emit);
    assert_eq!(
        messages,
        vec![
            "parameter #1 of trait method `api::Api::always_some` has type `Option<_>` but is only ever passed `Some` across the workspace",
            "associated const `api::Api::DEFAULT_VALUE` has type `Option<_>` but is only ever assigned `Some` across the workspace",
            "parameter #1 of function `functions::always_some` has type `Option<_>` but is only ever passed `Some` across the workspace",
            "parameter #1 of method `functions::Handler::always_none` has type `Option<_>` but is only ever passed `None` across the workspace",
            "field `models::Config::always_some` has type `Option<_>` but is only ever set `Some` across the workspace",
            "field `models::Config::always_none` has type `Option<_>` but is only ever set `None` across the workspace",
            "field #1 of tuple struct `models::Pair` has type `Option<_>` but is only ever set `Some` across the workspace",
        ]
    );
}

#[test]
fn detects_trait_option_items_that_only_use_some_across_workspace() {
    let mut api = collecting("api");
    for item in &api_items() {
        trait_option_single_variant::check_trait_item(&mut api, item);
    }
    let mut impls = collecting("impls");
    for item in &impl_items() {
        trait_option_single_variant::check_impl_item(&mut impls, item);
    }
    let mut client = collecting("client");
    for expr in &trait_calls() {
        trait_option_single_variant::check_expr(&mut client, expr);
    }
    let artifacts = vec![written(api), written(impls), written(client)];
    let report = option_report::aggregate_artifacts(&artifacts);
    let paths: Vec<&str> = report.redundant.iter().map(|e| e.display_path.as_str()).collect();
    assert_eq!(paths, vec!["api::Api::always_some", "api::Api::DEFAULT_VALUE"]);

    let mut emit = LintState::new(Mode::Emit { data: report.redundant }, info("api"));
    for item in &api_items() {
        trait_option_single_variant::check_trait_item(&mut emit, item);
    }
    assert_eq!(
        warned(emit),
        vec![
            "parameter #1 of trait method `api::Api::always_some` has type `Option<_>` but is only ever passed `Some` across the workspace",
            "associated const `api::Api::DEFAULT_VALUE` has type `Option<_>` but is only ever assigned `Some` across the workspace",
        ]
    );
}

#[test]
fn locations_go_with_the_candidates() {
    let mut api = collecting("api");
    for item in &api_items() {
        option_single_variant::check_trait_item(&mut api, item);
    }
    let artifact = written(api);
    assert_eq!(artifact.crate_name, "api");
    assert_eq!(artifact.candidates.len(), 4);
    assert_eq!(artifact.candidates[0].line, 2);
    assert_eq!(artifact.candidates[0].column, 5);
    assert_eq!(artifact.candidates[0].file, "src/lib.rs");

    let mut unplaced = api_items();
    if let TraitItemKind::Fn(sig) = &mut unplaced[0].kind {
        sig.written[1].start.local_path = None;
    }
    let mut api = collecting("api");
    option_single_variant::check_trait_item(&mut api, &unplaced[0]);
    assert!(written(api).candidates.is_empty());
}

#[test]
fn values_are_classified() {
    assert_eq!(option_report::classify_option_expr(&some()), ObservedValue::Present);
    assert_eq!(option_report::classify_option_expr(&none()), ObservedValue::Absent);
    assert_eq!(option_report::classify_option_expr(&value()), ObservedValue::Other);
    let ctor = path_to(variant("Some"));
    assert_eq!(option_report::classify_option_expr(&ctor), ObservedValue::Other);
    let braces = |tail: Expr| {
        expr(ExprKind::Block { stmts: vec![], tail: Some(Box::new(tail)), is_unsafe: false })
    };
    assert_eq!(option_report::classify_option_expr(&braces(braces(none()))), ObservedValue::Absent);
    let busy = expr(ExprKind::Block {
        stmts: vec![Stmt::Item],
        tail: Some(Box::new(none())),
        is_unsafe: false,
    });
    assert_eq!(option_report::classify_option_expr(&busy), ObservedValue::Other);
    assert_eq!(
        option_report::option_variant_for_def(&variant("None")),
        Some(OptionVariant::Absent)
    );
    assert_eq!(option_report::option_variant_for_def(&variant("Other")), None);
    assert_eq!(option_report::option_variant_for_def(&def(DefKind::Fn, "a::Some")), None);
}

#[test]
fn one_variant_must_be_seen_everywhere() {
    let some = ObservedValue::Present;
    let none = ObservedValue::Absent;
    let other = ObservedValue::Other;
    assert_eq!(option_report::find_sole_variant(&vec![]), None);
    assert_eq!(option_report::find_sole_variant(&vec![some, some]), Some(OptionVariant::Present));
    assert_eq!(option_report::find_sole_variant(&vec![none]), Some(OptionVariant::Absent));
    assert_eq!(option_report::find_sole_variant(&vec![some, none]), None);
    assert_eq!(option_report::find_sole_variant(&vec![some, other]), None);
    assert_eq!(option_report::find_sole_variant(&vec![other]), None);
}

#[test]
fn advice_goes_by_place_and_variant() {
    let function = option_single_variant::CandidateKey::FunctionParam {
        function: place("a::f").key(),
        index: 0,
    };
    let constant =
        option_single_variant::CandidateKey::TraitConst { trait_item: place("a::T::C").key() };
    let field = option_single_variant::CandidateKey::StructField {
        struct_item: place("a::S").key(),
        index: 0,
    };
    let some = OptionVariant::Present;
    let none = OptionVariant::Absent;
    assert_eq!(function.advice(some), "consider making this parameter non-optional");
    assert_eq!(
        function.advice(none),
        "consider removing this parameter or using a clearer API for absence"
    );
    assert_eq!(constant.advice(some), "consider making this associated const non-optional");
    assert_eq!(
        constant.advice(none),
        "consider removing this associated const or using a clearer sentinel"
    );
    assert_eq!(field.advice(some), "consider making this field non-optional");
    assert_eq!(field.advice(none), "consider removing this field or using a clearer sentinel");
    assert!(!function.same(&field) && field.same(&field.copied()));
}

#[test]
fn struct_updates_and_macros_are_not_observed() {
    let literal = |has_base: bool| {
        expr(ExprKind::Struct {
            res: Res::Def(config_def()),
            fields: vec![set("mixed", some()), set("unknown", some())],
            has_base,
            rest: None,
        })
    };
    let mut state = collecting("client");
    option_single_variant::check_expr(&mut state, &literal(true));
    let mut produced = literal(false);
    produced.span.from_expansion = true;
    option_single_variant::check_expr(&mut state, &produced);
    assert!(state.observations.is_empty());
    option_single_variant::check_expr(&mut state, &literal(false));
    assert_eq!(state.observations.len(), 1);

    let mut disabled = LintState::new(Mode::Disabled, info("client"));
    option_single_variant::check_expr(&mut disabled, &literal(false));
    look_at_models(&mut disabled);
    assert!(disabled.observations.is_empty() && disabled.candidates.is_empty());
    assert!(matches!(disabled.finish(), Finish::Nothing));
}

#[test]
fn defaults_of_constants_count() {
    let item = trait_item("a::T::C", 1, TraitItemKind::Const(option(), Some(none())));
    let mut state = collecting("a");
    option_single_variant::check_trait_item(&mut state, &item);
    let report = option_report::aggregate_artifacts(&vec![written(state)]);
    assert_eq!(report.redundant.len(), 1);
    assert_eq!(report.redundant[0].variant, OptionVariant::Absent);
    let item = trait_item("a::T::C", 1, TraitItemKind::Const(plain(), Some(none())));
    let mut state = collecting("a");
    trait_option_single_variant::check_trait_item(&mut state, &item);
    assert!(state.candidates.is_empty() && state.observations.is_empty());
}

#[test]
fn inherent_methods_are_no_trait_items() {
    let mut state = collecting("client");
    let call = method_call("functions::Handler::always_none", false, none());
    trait_option_single_variant::check_expr(&mut state, &call);
    assert!(state.observations.is_empty());
    let call = path_call("api::Api::always_some", true, some());
    trait_option_single_variant::check_expr(&mut state, &call);
    assert_eq!(state.observations.len(), 1);
    assert_eq!(state.observations[0].value, ObservedValue::Present);
}

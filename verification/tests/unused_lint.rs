use agent_lints::hir::{
    Adt, Def, DefKind, DefPath, Expr, ExprKind, FnSig, ImplItem, ImplItemKind, ImplOwner, Item,
    ItemKind, KnownType, Res, SelfType, Span, Ty, TyKind, VariantData,
};
use agent_lints::unused::{aggregate_artifacts, TargetArtifact};
use agent_lints::unused_lint::{Finish, LintState};
use agent_lints::utils::SpanStart;
use agent_lints::workspace_lint::{CrateInfo, Mode};
use std::path::PathBuf;

fn span(id: usize) -> Span {
    Span {
        id,
        from_expansion: false,
        start: SpanStart { local_path: Some("src/lib.rs".to_string()), line: id, column: 0 },
    }
}

fn place(path: &str) -> DefPath {
    DefPath { crate_name: "crate_a".to_string(), path: path.to_string() }
}

fn def(path: &str, is_local: bool) -> Def {
    Def {
        kind: DefKind::Fn,
        place: place(path),
        name: path.to_string(),
        is_local,
        known: KnownType::Other,
        field_names: vec![],
        assoc: None,
        parent: None,
    }
}

fn plain() -> Ty {
    Ty { kind: TyKind::Other, parts: vec![] }
}

fn adt(path: &str, parts: Vec<Ty>) -> Ty {
    let adt = Adt { known: KnownType::Other, is_struct: true, def: def(path, true) };
    Ty { kind: TyKind::Adt(adt), parts }
}

fn sig(output: Ty) -> FnSig {
    FnSig { written: vec![], inputs: vec![], output, is_method: false }
}

fn item(path: &str, id: usize, kind: ItemKind) -> Item {
    Item { place: place(path), span: span(id), is_public: true, is_repr_c: false, kind }
}

fn impl_item(path: &str, id: usize, kind: ImplItemKind) -> ImplItem {
    ImplItem {
        place: place(path),
        span: span(id),
        is_public: true,
        kind,
        owner: ImplOwner::Inherent(Some(SelfType { is_local: true, is_public: true })),
        implements: None,
    }
}

fn info(name: &str) -> CrateInfo {
    CrateInfo::for_current_crate("id", name, Some(name), None)
}

fn collecting(name: &str) -> LintState {
    LintState::new(Mode::Collect { artifact_dir: PathBuf::from("out") }, info(name))
}

fn written(state: LintState) -> TargetArtifact {
    match state.finish() {
        Finish::Write { artifact_dir, artifact } => {
            assert_eq!(artifact_dir, PathBuf::from("out"));
            artifact
        }
        _ => panic!("expected an artifact"),
    }
}

fn value(kind: ExprKind, found: Option<Def>) -> Expr {
    Expr { id: 0, span: span(0), ty: plain(), type_dependent: found, kind }
}

fn call(receiver: Expr) -> ExprKind {
    ExprKind::MethodCall { method: "m".to_string(), receiver: Box::new(receiver), args: vec![] }
}

#[test]
fn public_items_are_collected_with_their_kinds() {
    let mut state = collecting("crate_a");
    state.check_item(&item("f", 1, ItemKind::Fn(sig(plain()))));
    state.check_item(&item("C", 2, ItemKind::Const));
    state.check_item(&item("S", 3, ItemKind::Static(plain())));
    state.check_item(&item("A", 4, ItemKind::TyAlias));
    state.check_item(&item("T", 5, ItemKind::Struct(VariantData::Unit)));
    state.check_item(&item("E", 6, ItemKind::Enum));
    state.check_item(&item("U", 7, ItemKind::Union));
    state.check_item(&item("R", 8, ItemKind::Trait));
    state.check_item(&item("m", 9, ItemKind::Mod(vec![])));
    state.check_item(&item("x", 10, ItemKind::Other));
    state.check_impl_item(&impl_item("T::f", 11, ImplItemKind::Fn(sig(plain()))));
    state.check_impl_item(&impl_item("T::C", 12, ImplItemKind::Const(value(ExprKind::Other(vec![]), None))));
    state.check_impl_item(&impl_item("T::A", 13, ImplItemKind::Type));
    let artifact = written(state);
    let kinds: Vec<&str> = artifact.candidates.iter().map(|c| c.kind.as_str()).collect();
    assert_eq!(
        kinds,
        vec![
            "fn", "const", "static", "type_alias", "struct", "enum", "union", "trait",
            "inherent_method", "inherent_const", "inherent_type"
        ]
    );
    assert_eq!(artifact.candidates[0].display_path, "crate_a::f");
    assert_eq!(artifact.candidates[0].line, 1);
    assert_eq!(artifact.candidates[0].column, 1);
}

#[test]
fn other_items_are_not_collected() {
    let mut state = collecting("crate_a");
    let mut private = item("f", 1, ItemKind::Const);
    private.is_public = false;
    state.check_item(&private);
    let mut produced = item("f", 1, ItemKind::Const);
    produced.span.from_expansion = true;
    state.check_item(&produced);
    let mut of_trait = impl_item("T::f", 1, ImplItemKind::Type);
    of_trait.owner = ImplOwner::Trait;
    state.check_impl_item(&of_trait);
    let mut of_private = impl_item("T::f", 1, ImplItemKind::Type);
    of_private.owner = ImplOwner::Inherent(Some(SelfType { is_local: true, is_public: false }));
    state.check_impl_item(&of_private);
    let mut unnamed = impl_item("T::f", 1, ImplItemKind::Type);
    unnamed.owner = ImplOwner::Inherent(None);
    state.check_impl_item(&unnamed);
    assert!(state.candidates.is_empty());
}

#[test]
fn uses_of_other_crates_are_collected_once_and_in_order() {
    let mut state = collecting("crate_b");
    state.check_path(&Res::Def(def("b", false)), false);
    state.check_path(&Res::Def(def("a", false)), false);
    state.check_path(&Res::Def(def("b", false)), false);
    state.check_path(&Res::Def(def("imported", false)), true);
    state.check_path(&Res::Def(def("own", true)), false);
    state.check_path(&Res::Local(3), false);
    let other = || value(ExprKind::Other(vec![]), None);
    state.check_expr(&value(call(other()), Some(def("T::m", false))));
    let field = ExprKind::Field { base: Box::new(other()), name: "x".to_string() };
    state.check_expr(&value(field, Some(def("T::x", false))));
    let path = ExprKind::Path { resolved: false, res: Res::Other };
    state.check_expr(&value(path, Some(def("T::new", false))));
    state.check_expr(&value(ExprKind::Other(vec![]), Some(def("T::other", false))));
    let artifact = written(state);
    let uses: Vec<&str> = artifact.uses.iter().map(|u| u.def_key.path.as_str()).collect();
    assert_eq!(
        uses,
        vec!["crate_a::T::m", "crate_a::T::new", "crate_a::T::x", "crate_a::a", "crate_a::b"]
    );
}

#[test]
fn functions_need_the_types_they_hand_out() {
    let mut state = collecting("crate_a");
    let output = adt("Wrapper", vec![plain(), adt("Inner", vec![])]);
    state.check_item(&item("f", 1, ItemKind::Fn(sig(output))));
    let artifact = written(state);
    let needed: Vec<&str> =
        artifact.candidates[0].required_defs.iter().map(|d| d.path.as_str()).collect();
    assert_eq!(needed, vec!["crate_a::Wrapper", "crate_a::Inner"]);
}

#[test]
fn unused_items_are_warned_of() {
    let look = |state: &mut LintState| {
        state.check_item(&item("Needed", 1, ItemKind::Struct(VariantData::Unit)));
        state.check_item(&item("Unused", 3, ItemKind::Struct(VariantData::Unit)));
        state.check_item(&item("boot", 5, ItemKind::Fn(sig(adt("Needed", vec![])))));
    };
    let mut a = collecting("crate_a");
    look(&mut a);
    let mut b = collecting("crate_b");
    b.check_path(&Res::Def(def("boot", false)), false);
    let report = aggregate_artifacts(&vec![written(a), written(b)]).unwrap();

    let mut emit = LintState::new(Mode::Emit { data: report.unused }, info("crate_a"));
    look(&mut emit);
    let Finish::Warn(found) = emit.finish() else {
        panic!("expected warnings");
    };
    assert_eq!(found.len(), 1);
    assert_eq!(found[0].span, 3);
    assert_eq!(found[0].message, "public item is not referenced from any other workspace crate");
    assert_eq!(found[0].advice, "consider reducing visibility or removing the item");
}

#[test]
fn a_disabled_pass_collects_nothing() {
    let mut state = LintState::new(Mode::Disabled, info("crate_a"));
    state.check_item(&item("f", 1, ItemKind::Const));
    state.check_path(&Res::Def(def("b", false)), false);
    state.check_expr(&value(call(value(ExprKind::Other(vec![]), None)), Some(def("m", false))));
    assert!(state.candidates.is_empty());
    assert_eq!(state.uses.len(), 0);
    assert!(matches!(state.finish(), Finish::Nothing));
}

#[test]
fn what_another_crate_reaches_is_not_reported() {
    let look = |state: &mut LintState| {
        state.check_item(&item("fixtures::shared", 1, ItemKind::Fn(sig(plain()))));
        state.check_item(&item("Builder", 3, ItemKind::Struct(VariantData::Unit)));
        let built = sig(adt("Builder", vec![]));
        state.check_impl_item(&impl_item("Builder::new", 4, ImplItemKind::Fn(built)));
        state.check_item(&item("Item", 6, ItemKind::Struct(VariantData::Unit)));
        state.check_impl_item(&impl_item("Item::value", 7, ImplItemKind::Fn(sig(plain()))));
        state.check_impl_item(&impl_item("Item::spare", 8, ImplItemKind::Fn(sig(plain()))));
        state.check_item(&item("unused", 9, ItemKind::Fn(sig(plain()))));
    };
    let mut a = collecting("crate_a");
    look(&mut a);

    let mut b = collecting("crate_b");
    // use crate_a::{shared, Builder, Item};
    b.check_path(&Res::Def(def("fixtures::shared", false)), true);
    // shared();
    b.check_path(&Res::Def(def("fixtures::shared", false)), false);
    // Builder::new();
    let relative = || ExprKind::Path { resolved: false, res: Res::Other };
    let callee = value(relative(), Some(def("Builder::new", false)));
    b.check_path(&Res::Def(def("Builder", false)), false);
    b.check_expr(&callee);
    b.check_expr(&value(ExprKind::Call { callee: Box::new(callee), args: vec![] }, None));
    // items.iter().map(Item::value)
    b.check_path(&Res::Def(def("Item", false)), false);
    b.check_expr(&value(relative(), Some(def("Item::value", false))));
    let b = written(b);
    let uses: Vec<&str> = b.uses.iter().map(|u| u.def_key.path.as_str()).collect();
    assert_eq!(
        uses,
        vec![
            "crate_a::Builder",
            "crate_a::Builder::new",
            "crate_a::Item",
            "crate_a::Item::value",
            "crate_a::fixtures::shared"
        ]
    );

    let report = aggregate_artifacts(&vec![written(a), b]).unwrap();
    let reported: Vec<&str> =
        report.unused.iter().map(|found| found.display_path.as_str()).collect();
    assert_eq!(reported, vec!["crate_a::Item::spare", "crate_a::unused"]);

    let mut emit = LintState::new(Mode::Emit { data: report.unused }, info("crate_a"));
    look(&mut emit);
    let Finish::Warn(found) = emit.finish() else {
        panic!("expected warnings");
    };
    let spans: Vec<usize> = found.iter().map(|diagnostic| diagnostic.span).collect();
    assert_eq!(spans, vec![8, 9]);
}

//! Fields that every construction of a struct sets to the same expression.
use std::collections::HashMap;

use vstd::prelude::*;

use crate::hir;
use crate::hir::{BinOp, Diagnostic, Expr, ExprField, ExprKind, FieldDef, Item, ItemKind, Lit, Res, Span, UnOp, VariantData};
use crate::sorting;
use crate::text;
use crate::utils;
use crate::utils::DefKey;
use crate::workspace_lint::{CrateInfo, Mode};

verus! {

broadcast use vstd::std_specs::hash::group_hash_axioms;

/// An expression in which the fields that are set beside it stand for the local
/// variables that set them.
#[derive(Debug, PartialEq, Eq, Hash)]
pub enum NormalizedExpr {
    /// Another field of the same struct expression.
    SiblingField(String),
    /// An integer.
    LitInt(i128),
    /// A floating-point number, by its digits.
    LitFloat(String),
    /// A truth value.
    LitBool(bool),
    /// A string.
    LitStr(String),
    /// A character.
    LitChar(char),
    /// An operation on two values, by the name of the operator.
    BinOp(String, Box<NormalizedExpr>, Box<NormalizedExpr>),
    /// An operation on one value, by the name of the operator.
    UnaryOp(String, Box<NormalizedExpr>),
    /// A call of a method: the receiver, then the arguments.
    MethodCall(String, Vec<NormalizedExpr>),
    /// A call of a function.
    FnCall(String, Vec<NormalizedExpr>),
    /// A field of a value.
    FieldAccess(Box<NormalizedExpr>, String),
    /// A tuple.
    Tuple(Vec<NormalizedExpr>),
    /// An expression that has no normal form.
    Opaque,
}

/// The values of a normalized expression.
pub ghost enum NormalText {
    SiblingField(Seq<char>),
    LitInt(i128),
    LitFloat(Seq<char>),
    LitBool(bool),
    LitStr(Seq<char>),
    LitChar(char),
    BinOp(Seq<char>, Box<NormalText>, Box<NormalText>),
    UnaryOp(Seq<char>, Box<NormalText>),
    MethodCall(Seq<char>, Seq<NormalText>),
    FnCall(Seq<char>, Seq<NormalText>),
    FieldAccess(Box<NormalText>, Seq<char>),
    Tuple(Seq<NormalText>),
    Opaque,
}

/// The values of `expr`.
pub open spec fn text_of(expr: NormalizedExpr) -> NormalText
    decreases expr,
{
    match expr {
        NormalizedExpr::SiblingField(name) => NormalText::SiblingField(name@),
        NormalizedExpr::LitInt(value) => NormalText::LitInt(value),
        NormalizedExpr::LitFloat(digits) => NormalText::LitFloat(digits@),
        NormalizedExpr::LitBool(value) => NormalText::LitBool(value),
        NormalizedExpr::LitStr(value) => NormalText::LitStr(value@),
        NormalizedExpr::LitChar(value) => NormalText::LitChar(value),
        NormalizedExpr::BinOp(op, left, right) => NormalText::BinOp(
            op@,
            Box::new(text_of(*left)),
            Box::new(text_of(*right)),
        ),
        NormalizedExpr::UnaryOp(op, inner) => NormalText::UnaryOp(
            op@,
            Box::new(text_of(*inner)),
        ),
        NormalizedExpr::MethodCall(name, args) => NormalText::MethodCall(name@, texts_of(args@)),
        NormalizedExpr::FnCall(name, args) => NormalText::FnCall(name@, texts_of(args@)),
        NormalizedExpr::FieldAccess(base, name) => NormalText::FieldAccess(
            Box::new(text_of(*base)),
            name@,
        ),
        NormalizedExpr::Tuple(items) => NormalText::Tuple(texts_of(items@)),
        NormalizedExpr::Opaque => NormalText::Opaque,
    }
}

/// The values of each of `exprs`.
pub open spec fn texts_of(exprs: Seq<NormalizedExpr>) -> Seq<NormalText>
    decreases exprs,
{
    if exprs.len() == 0 {
        Seq::empty()
    } else {
        texts_of(exprs.drop_last()).push(text_of(exprs.last()))
    }
}

/// The name of an operator with two operands.
pub open spec fn binary_name(op: BinOp) -> Seq<char> {
    match op {
        BinOp::Add => "Add"@,
        BinOp::Sub => "Sub"@,
        BinOp::Mul => "Mul"@,
        BinOp::Div => "Div"@,
        BinOp::Rem => "Rem"@,
        BinOp::And => "And"@,
        BinOp::Or => "Or"@,
        BinOp::BitXor => "BitXor"@,
        BinOp::BitAnd => "BitAnd"@,
        BinOp::BitOr => "BitOr"@,
        BinOp::Shl => "Shl"@,
        BinOp::Shr => "Shr"@,
        BinOp::Eq => "Eq"@,
        BinOp::Lt => "Lt"@,
        BinOp::Le => "Le"@,
        BinOp::Ne => "Ne"@,
        BinOp::Ge => "Ge"@,
        BinOp::Gt => "Gt"@,
    }
}

/// The name of `op`.
fn name_binary(op: BinOp) -> (r: &'static str)
    ensures
        r@ == binary_name(op),
{
    match op {
        BinOp::Add => "Add",
        BinOp::Sub => "Sub",
        BinOp::Mul => "Mul",
        BinOp::Div => "Div",
        BinOp::Rem => "Rem",
        BinOp::And => "And",
        BinOp::Or => "Or",
        BinOp::BitXor => "BitXor",
        BinOp::BitAnd => "BitAnd",
        BinOp::BitOr => "BitOr",
        BinOp::Shl => "Shl",
        BinOp::Shr => "Shr",
        BinOp::Eq => "Eq",
        BinOp::Lt => "Lt",
        BinOp::Le => "Le",
        BinOp::Ne => "Ne",
        BinOp::Ge => "Ge",
        BinOp::Gt => "Gt",
    }
}

/// The name of an operator with one operand.
pub open spec fn unary_name(op: UnOp) -> Seq<char> {
    match op {
        UnOp::Deref => "Deref"@,
        UnOp::Not => "Not"@,
        UnOp::Neg => "Neg"@,
    }
}

/// The name of `op`.
fn name_unary(op: UnOp) -> (r: &'static str)
    ensures
        r@ == unary_name(op),
{
    match op {
        UnOp::Deref => "Deref",
        UnOp::Not => "Not",
        UnOp::Neg => "Neg",
    }
}

/// The normal form of a literal.
pub open spec fn normal_lit(lit: Lit) -> NormalText {
    match lit {
        Lit::Int(value) => NormalText::LitInt(value as i128),
        Lit::Float(digits) => NormalText::LitFloat(digits@),
        Lit::Bool(value) => NormalText::LitBool(value),
        Lit::Str(value) => NormalText::LitStr(value@),
        Lit::Char(value) => NormalText::LitChar(value),
        Lit::Other => NormalText::Opaque,
    }
}

/// The normal form of the literal `lit`. An integer above the largest `i128` wraps
/// around.
pub fn normalize_lit(lit: &Lit) -> (r: NormalizedExpr)
    ensures
        text_of(r) == normal_lit(*lit),
{
    match lit {
        Lit::Int(value) => NormalizedExpr::LitInt(#[verifier::truncate] (*value as i128)),
        Lit::Float(digits) => NormalizedExpr::LitFloat(digits.clone()),
        Lit::Bool(value) => NormalizedExpr::LitBool(*value),
        Lit::Str(value) => NormalizedExpr::LitStr(value.clone()),
        Lit::Char(value) => NormalizedExpr::LitChar(*value),
        Lit::Other => NormalizedExpr::Opaque,
    }
}

/// The definition that an expression names, as a path.
pub open spec fn named_path(expr: Expr) -> Option<Seq<char>> {
    match expr.kind {
        ExprKind::Path { res: Res::Def(def), .. } => Some(def.place.path@),
        _ => None,
    }
}

/// The normal form of an expression, where `names` gives the field that each local
/// variable sets. An expression has none if a part of it has none.
pub open spec fn normal_form(expr: Expr, names: Map<usize, Seq<char>>) -> NormalText
    decreases expr,
{
    match expr.kind {
        ExprKind::Block { stmts, tail: Some(inner), .. } => if stmts.len() == 0 {
            normal_form(*inner, names)
        } else {
            NormalText::Opaque
        },
        ExprKind::Lit(lit) => normal_lit(lit),
        ExprKind::Path { resolved: true, res: Res::Local(number) } => if names.contains_key(
            number,
        ) {
            NormalText::SiblingField(names[number])
        } else {
            NormalText::Opaque
        },
        ExprKind::Binary(op, left, right) => {
            let l = normal_form(*left, names);
            let r = normal_form(*right, names);
            if l is Opaque || r is Opaque {
                NormalText::Opaque
            } else {
                NormalText::BinOp(binary_name(op), Box::new(l), Box::new(r))
            }
        },
        ExprKind::Unary(op, inner) => {
            let n = normal_form(*inner, names);
            if n is Opaque {
                NormalText::Opaque
            } else {
                NormalText::UnaryOp(unary_name(op), Box::new(n))
            }
        },
        ExprKind::MethodCall { method, receiver, args } => {
            let r = normal_form(*receiver, names);
            match normal_forms(args@, names) {
                Some(list) => if r is Opaque {
                    NormalText::Opaque
                } else {
                    NormalText::MethodCall(method@, seq![r] + list)
                },
                None => NormalText::Opaque,
            }
        },
        ExprKind::Call { callee, args } => match (named_path(*callee), normal_forms(args@, names)) {
            (Some(name), Some(list)) => NormalText::FnCall(name, list),
            _ => NormalText::Opaque,
        },
        ExprKind::Field { base, name } => {
            let b = normal_form(*base, names);
            if b is Opaque {
                NormalText::Opaque
            } else {
                NormalText::FieldAccess(Box::new(b), name@)
            }
        },
        ExprKind::Tup(items) => match normal_forms(items@, names) {
            Some(list) => NormalText::Tuple(list),
            None => NormalText::Opaque,
        },
        ExprKind::Cast(inner) => normal_form(*inner, names),
        _ => NormalText::Opaque,
    }
}

/// The normal forms of `exprs`, if all of them have one.
pub open spec fn normal_forms(exprs: Seq<Expr>, names: Map<usize, Seq<char>>) -> Option<
    Seq<NormalText>,
>
    decreases exprs,
{
    if exprs.len() == 0 {
        Some(Seq::empty())
    } else {
        let last = normal_form(exprs.last(), names);
        match normal_forms(exprs.drop_last(), names) {
            Some(list) => if last is Opaque {
                None
            } else {
                Some(list.push(last))
            },
            None => None,
        }
    }
}

/// The names in `names`.
pub open spec fn names_in(names: Map<usize, String>) -> Map<usize, Seq<char>> {
    names.map_values(|name: String| name@)
}

proof fn lemma_opaque_part(exprs: Seq<Expr>, names: Map<usize, Seq<char>>, i: int)
    requires
        0 <= i < exprs.len(),
        normal_forms(exprs.take(i + 1), names) is None,
    ensures
        normal_forms(exprs, names) is None,
    decreases exprs.len() - i,
{
    if i + 1 < exprs.len() {
        assert(exprs.take(i + 2).drop_last() =~= exprs.take(i + 1));
        lemma_opaque_part(exprs, names, i + 1);
    } else {
        assert(exprs.take(i + 1) =~= exprs);
    }
}

/// The normal forms of `exprs`, if all of them have one.
fn normalize_all(exprs: &Vec<Expr>, local_to_field: &HashMap<usize, String>) -> (r: Option<
    Vec<NormalizedExpr>,
>)
    ensures
        r is Some <==> normal_forms(exprs@, names_in(local_to_field@)) is Some,
        r matches Some(list) ==> normal_forms(exprs@, names_in(local_to_field@)) == Some(
            texts_of(list@),
        ),
    decreases exprs,
{
    let ghost names = names_in(local_to_field@);
    let mut list: Vec<NormalizedExpr> = Vec::new();
    let mut i: usize = 0;
    proof {
        assert(exprs@.take(0) =~= Seq::empty());
    }
    while i < exprs.len()
        invariant
            i <= exprs.len(),
            names == names_in(local_to_field@),
            normal_forms(exprs@.take(i as int), names) == Some(texts_of(list@)),
        decreases exprs.len() - i,
    {
        proof {
            assert(exprs@.take(i + 1).drop_last() =~= exprs@.take(i as int));
            assert(exprs@.take(i + 1).last() == exprs@[i as int]);
            assert(decreases_to!(exprs => exprs@[i as int]));
        }
        let normalized = normalize_expr(&exprs[i], local_to_field);
        let is_opaque = is_opaque(&normalized);
        if is_opaque {
            proof {
                lemma_opaque_part(exprs@, names, i as int);
            }
            return None;
        }
        let ghost had = list@;
        list.push(normalized);
        proof {
            assert(list@.drop_last() =~= had);
        }
        i = i + 1;
    }
    proof {
        assert(exprs@.take(i as int) =~= exprs@);
    }
    Some(list)
}

/// Whether `expr` is the form of an expression without one.
fn is_opaque(expr: &NormalizedExpr) -> (b: bool)
    ensures
        b == (text_of(*expr) is Opaque),
{
    match expr {
        NormalizedExpr::Opaque => true,
        _ => false,
    }
}

/// The normal form of `expr`.
pub fn normalize_expr(expr: &Expr, local_to_field: &HashMap<usize, String>) -> (r: NormalizedExpr)
    ensures
        text_of(r) == normal_form(*expr, names_in(local_to_field@)),
    decreases expr,
{
    match &expr.kind {
        ExprKind::Block { stmts, tail, .. } => match tail {
            Some(inner) => if stmts.len() == 0 {
                normalize_expr(inner, local_to_field)
            } else {
                NormalizedExpr::Opaque
            },
            None => NormalizedExpr::Opaque,
        },
        ExprKind::Lit(lit) => normalize_lit(lit),
        ExprKind::Path { .. } => match expr.local() {
            Some(number) => match local_to_field.get(&number) {
                Some(name) => NormalizedExpr::SiblingField(name.clone()),
                None => NormalizedExpr::Opaque,
            },
            None => NormalizedExpr::Opaque,
        },
        ExprKind::Binary(op, left, right) => {
            let l = normalize_expr(left, local_to_field);
            let r = normalize_expr(right, local_to_field);
            if is_opaque(&l) || is_opaque(&r) {
                return NormalizedExpr::Opaque;
            }
            NormalizedExpr::BinOp(name_binary(*op).to_owned(), Box::new(l), Box::new(r))
        },
        ExprKind::Unary(op, inner) => {
            let n = normalize_expr(inner, local_to_field);
            if is_opaque(&n) {
                return NormalizedExpr::Opaque;
            }
            NormalizedExpr::UnaryOp(name_unary(*op).to_owned(), Box::new(n))
        },
        ExprKind::MethodCall { method, receiver, args } => {
            let r = normalize_expr(receiver, local_to_field);
            if is_opaque(&r) {
                return NormalizedExpr::Opaque;
            }
            match normalize_all(args, local_to_field) {
                None => NormalizedExpr::Opaque,
                Some(list) => {
                    let mut all = list;
                    let ghost rest = all@;
                    all.insert(0, r);
                    proof {
                        lemma_texts_of_prepend(r, rest);
                        assert(all@ =~= seq![r] + rest);
                    }
                    NormalizedExpr::MethodCall(method.clone(), all)
                },
            }
        },
        ExprKind::Call { callee, args } => {
            let name = match &callee.kind {
                ExprKind::Path { res, .. } => match res {
                    Res::Def(def) => def.place.path.clone(),
                    _ => {
                        return NormalizedExpr::Opaque;
                    },
                },
                _ => {
                    return NormalizedExpr::Opaque;
                },
            };
            match normalize_all(args, local_to_field) {
                None => NormalizedExpr::Opaque,
                Some(list) => NormalizedExpr::FnCall(name, list),
            }
        },
        ExprKind::Field { base, name } => {
            let b = normalize_expr(base, local_to_field);
            if is_opaque(&b) {
                return NormalizedExpr::Opaque;
            }
            NormalizedExpr::FieldAccess(Box::new(b), name.clone())
        },
        ExprKind::Tup(items) => match normalize_all(items, local_to_field) {
            None => NormalizedExpr::Opaque,
            Some(list) => NormalizedExpr::Tuple(list),
        },
        ExprKind::Cast(inner) => normalize_expr(inner, local_to_field),
        _ => NormalizedExpr::Opaque,
    }
}

proof fn lemma_texts_of_prepend(first: NormalizedExpr, rest: Seq<NormalizedExpr>)
    ensures
        texts_of(seq![first] + rest) == seq![text_of(first)] + texts_of(rest),
    decreases rest.len(),
{
    let whole = seq![first] + rest;
    if rest.len() == 0 {
        assert(whole.drop_last() =~= Seq::empty());
        assert(whole.last() == first);
        reveal_with_fuel(texts_of, 2);
        assert(texts_of(whole) =~= seq![text_of(first)] + texts_of(rest));
    } else {
        lemma_texts_of_prepend(first, rest.drop_last());
        assert(whole.drop_last() =~= seq![first] + rest.drop_last());
        assert(whole.last() == rest.last());
        assert(texts_of(whole) =~= seq![text_of(first)] + texts_of(rest));
    }
}

/// The field that each local variable sets by itself. Of two fields set by one
/// variable the later counts.
pub open spec fn local_names(fields: Seq<ExprField>) -> Map<usize, Seq<char>>
    decreases fields.len(),
{
    if fields.len() == 0 {
        Map::empty()
    } else {
        let known = local_names(fields.drop_last());
        match hir::local_of(hir::unblocked(fields.last().expr)) {
            Some(number) => known.insert(number, fields.last().name@),
            None => known,
        }
    }
}

/// The field of `fields` that each local variable sets by itself.
pub fn build_local_to_field_map(fields: &Vec<ExprField>) -> (r: HashMap<usize, String>)
    ensures
        names_in(r@) == local_names(fields@),
{
    let mut map: HashMap<usize, String> = HashMap::new();
    let mut i: usize = 0;
    proof {
        assert(fields@.take(0) =~= Seq::empty());
        assert(names_in(map@) =~= Map::empty());
    }
    while i < fields.len()
        invariant
            i <= fields.len(),
            names_in(map@) == local_names(fields@.take(i as int)),
        decreases fields.len() - i,
    {
        let ghost had = map@;
        proof {
            assert(fields@.take(i + 1).drop_last() =~= fields@.take(i as int));
            assert(fields@.take(i + 1).last() == fields@[i as int]);
        }
        let init = hir::peel_blocks(&fields[i].expr);
        if let Some(number) = init.local() {
            let name = fields[i].name.clone();
            map.insert(number, name);
            proof {
                assert(names_in(map@) =~= names_in(had).insert(number, name@));
            }
        }
        i = i + 1;
    }
    proof {
        assert(fields@.take(i as int) =~= fields@);
    }
    map
}

/// A field of a struct.
#[derive(Debug, PartialEq, Eq, PartialOrd, Ord, Hash)]
pub struct FieldKey {
    pub struct_def: DefKey,
    pub field_name: String,
}

impl View for FieldKey {
    type V = (Seq<char>, Seq<char>);

    open spec fn view(&self) -> (Seq<char>, Seq<char>) {
        (self.struct_def@, self.field_name@)
    }
}

impl Clone for FieldKey {
    fn clone(&self) -> (r: FieldKey)
        ensures
            r@ == self@,
    {
        FieldKey { struct_def: self.struct_def.clone(), field_name: self.field_name.clone() }
    }
}

impl FieldKey {
    /// Whether the two keys are the same.
    pub fn same(&self, other: &FieldKey) -> (b: bool)
        ensures
            b == (self@ == other@),
    {
        text::equal(self.struct_def.path.as_str(), other.struct_def.path.as_str()) && text::equal(
            self.field_name.as_str(),
            other.field_name.as_str(),
        )
    }
}

/// A field whose initializations are compared.
#[derive(Debug)]
pub struct Candidate {
    pub key: FieldKey,
    pub display_path: String,
    pub span: Span,
}

/// A field with its location.
#[derive(Debug)]
pub struct CandidateRecord {
    pub key: FieldKey,
    pub display_path: String,
    pub file: String,
    pub line: u32,
    pub column: u32,
}

/// An initialization of a field.
#[derive(Debug)]
pub struct ObservationRecord {
    pub key: FieldKey,
    pub expr: NormalizedExpr,
}

/// What was collected from one target.
#[derive(Debug)]
pub struct TargetArtifact {
    pub crate_stable_id: String,
    pub crate_name: String,
    pub target_name: String,
    pub target_kind: String,
    pub candidates: Vec<CandidateRecord>,
    pub observations: Vec<ObservationRecord>,
}

/// A field that is always set to the same expression.
#[derive(Debug)]
pub struct ReportEntry {
    pub key: FieldKey,
    pub display_path: String,
    pub expr: NormalizedExpr,
    pub construction_site_count: usize,
    pub file: String,
    pub line: u32,
    pub column: u32,
}

/// The redundant fields of a workspace.
#[derive(Debug)]
pub struct AggregatedReport {
    pub redundant_fields: Vec<ReportEntry>,
}

/// The values of a candidate.
pub ghost struct CandidateText {
    pub key: (Seq<char>, Seq<char>),
    pub display_path: Seq<char>,
    pub span: Span,
}

/// The values of a candidate with its location.
pub ghost struct RecordText {
    pub key: (Seq<char>, Seq<char>),
    pub display_path: Seq<char>,
    pub file: Seq<char>,
    pub line: u32,
    pub column: u32,
}

/// The values of an initialization.
pub ghost struct ObservationText {
    pub key: (Seq<char>, Seq<char>),
    pub expr: NormalText,
}

/// The values of an entry of the report.
pub ghost struct EntryText {
    pub key: (Seq<char>, Seq<char>),
    pub display_path: Seq<char>,
    pub expr: NormalText,
    pub construction_site_count: nat,
    pub file: Seq<char>,
    pub line: u32,
    pub column: u32,
}

impl View for Candidate {
    type V = CandidateText;

    open spec fn view(&self) -> CandidateText {
        CandidateText { key: self.key@, display_path: self.display_path@, span: self.span }
    }
}

impl View for CandidateRecord {
    type V = RecordText;

    open spec fn view(&self) -> RecordText {
        RecordText {
            key: self.key@,
            display_path: self.display_path@,
            file: self.file@,
            line: self.line,
            column: self.column,
        }
    }
}

impl View for ObservationRecord {
    type V = ObservationText;

    open spec fn view(&self) -> ObservationText {
        ObservationText { key: self.key@, expr: text_of(self.expr) }
    }
}

impl View for ReportEntry {
    type V = EntryText;

    open spec fn view(&self) -> EntryText {
        EntryText {
            key: self.key@,
            display_path: self.display_path@,
            expr: text_of(self.expr),
            construction_site_count: self.construction_site_count as nat,
            file: self.file@,
            line: self.line,
            column: self.column,
        }
    }
}

/// The candidate for the field `field` of the struct `place`.
pub open spec fn field_candidate(place: hir::DefPath, field: FieldDef) -> CandidateText {
    CandidateText {
        key: (hir::key_at(place), field.name@),
        display_path: hir::key_at(place) + "::"@ + field.name@,
        span: field.span,
    }
}

/// The candidates of an item: the named fields of a struct that no macro produced.
pub open spec fn item_candidates(item: Item) -> Seq<CandidateText> {
    match item.kind {
        ItemKind::Struct(VariantData::Struct(fields)) => if item.span.from_expansion {
            Seq::empty()
        } else {
            fields@.map_values(|f: FieldDef| field_candidate(item.place, f))
        },
        _ => Seq::empty(),
    }
}

/// Adds the candidates of `item`.
pub fn register_struct_field_candidates(item: &Item, candidates: &mut Vec<Candidate>)
    ensures
        sorting::views(final(candidates)@) == sorting::views(old(candidates)@) + item_candidates(
            *item,
        ),
{
    let ghost known = sorting::views(candidates@);
    let ghost all = item_candidates(*item);
    proof {
        assert(known + Seq::empty() =~= known);
    }
    let ItemKind::Struct(VariantData::Struct(fields)) = &item.kind else {
        return;
    };
    if item.span.from_expansion {
        return;
    }
    let struct_key = item.place.key();
    let mut i: usize = 0;
    proof {
        assert(known + all.take(0) =~= known);
    }
    while i < fields.len()
        invariant
            i <= fields.len(),
            struct_key@ == hir::key_at(item.place),
            all == fields@.map_values(|f: FieldDef| field_candidate(item.place, f)),
            sorting::views(candidates@) == known + all.take(i as int),
        decreases fields.len() - i,
    {
        let ghost had = candidates@;
        let mut display_path = struct_key.path.clone();
        display_path.append("::");
        display_path.append(fields[i].name.as_str());
        let candidate = Candidate {
            key: FieldKey { struct_def: struct_key.clone(), field_name: fields[i].name.clone() },
            display_path,
            span: fields[i].span.copied(),
        };
        let ghost value = candidate@;
        candidates.push(candidate);
        proof {
            assert(sorting::views(candidates@) =~= sorting::views(had).push(value));
            assert(known + all.take(i + 1) =~= (known + all.take(i as int)).push(all[i as int]));
        }
        i = i + 1;
    }
    proof {
        assert(all.take(i as int) =~= all);
    }
}

/// The initializations in an expression: those of a struct expression that sets all
/// fields and that no macro produced.
pub open spec fn literal_observations(expr: Expr) -> Seq<ObservationText> {
    match expr.kind {
        ExprKind::Struct { res: Res::Def(def), fields, has_base: false, .. } => if
            expr.span.from_expansion || def.kind != hir::DefKind::Struct {
            Seq::empty()
        } else {
            fields@.map_values(
                |f: ExprField|
                    ObservationText {
                        key: (hir::key_at(def.place), f.name@),
                        expr: normal_form(f.expr, local_names(fields@)),
                    },
            )
        },
        _ => Seq::empty(),
    }
}

/// The struct that a struct expression makes.
fn resolve_struct(res: &Res) -> (r: Option<DefKey>)
    ensures
        r is Some <==> (res matches Res::Def(def) && def.kind == hir::DefKind::Struct),
        r matches Some(key) ==> (res matches Res::Def(def) && key@ == hir::key_at(def.place)),
{
    match res {
        Res::Def(def) => if def.kind == hir::DefKind::Struct {
            Some(def.place.key())
        } else {
            None
        },
        _ => None,
    }
}

/// Adds the initializations in `expr`.
pub fn maybe_record_struct_literal(expr: &Expr, observations: &mut Vec<ObservationRecord>)
    ensures
        sorting::views(final(observations)@) == sorting::views(old(observations)@)
            + literal_observations(*expr),
{
    let ghost known = sorting::views(observations@);
    let ghost all = literal_observations(*expr);
    proof {
        assert(known + Seq::empty() =~= known);
    }
    let ExprKind::Struct { res, fields, has_base, .. } = &expr.kind else {
        return;
    };
    if *has_base || expr.span.from_expansion {
        return;
    }
    let Some(struct_key) = resolve_struct(res) else {
        return;
    };
    let local_to_field = build_local_to_field_map(fields);
    let ghost names = local_names(fields@);
    let mut i: usize = 0;
    proof {
        assert(known + all.take(0) =~= known);
    }
    while i < fields.len()
        invariant
            i <= fields.len(),
            names == names_in(local_to_field@),
            names == local_names(fields@),
            all == fields@.map_values(
                |f: ExprField|
                    ObservationText {
                        key: (struct_key@, f.name@),
                        expr: normal_form(f.expr, local_names(fields@)),
                    },
            ),
            sorting::views(observations@) == known + all.take(i as int),
        decreases fields.len() - i,
    {
        let ghost had = observations@;
        let observation = ObservationRecord {
            key: FieldKey { struct_def: struct_key.clone(), field_name: fields[i].name.clone() },
            expr: normalize_expr(&fields[i].expr, &local_to_field),
        };
        let ghost value = observation@;
        observations.push(observation);
        proof {
            assert(sorting::views(observations@) =~= sorting::views(had).push(value));
            assert(value == all[i as int]);
            assert(known + all.take(i + 1) =~= (known + all.take(i as int)).push(all[i as int]));
        }
        i = i + 1;
    }
    proof {
        assert(all.take(i as int) =~= all);
    }
}

/// Whether a normal form mentions a field other than `field`.
pub open spec fn mentions_other(form: NormalText, field: Seq<char>) -> bool
    decreases form,
{
    match form {
        NormalText::SiblingField(name) => name != field,
        NormalText::BinOp(_, left, right) => mentions_other(*left, field) || mentions_other(
            *right,
            field,
        ),
        NormalText::UnaryOp(_, inner) => mentions_other(*inner, field),
        NormalText::MethodCall(_, args) => any_mentions_other(args, field),
        NormalText::FnCall(_, args) => any_mentions_other(args, field),
        NormalText::Tuple(items) => any_mentions_other(items, field),
        NormalText::FieldAccess(base, _) => mentions_other(*base, field),
        _ => false,
    }
}

/// Whether one of `forms` mentions a field other than `field`.
pub open spec fn any_mentions_other(forms: Seq<NormalText>, field: Seq<char>) -> bool
    decreases forms,
{
    forms.len() > 0 && (any_mentions_other(forms.drop_last(), field) || mentions_other(
        forms.last(),
        field,
    ))
}

/// Whether `expr` mentions a field other than `self_field`. The field itself stands
/// for no more than its shorthand.
pub fn references_other_sibling(expr: &NormalizedExpr, self_field: &str) -> (b: bool)
    ensures
        b == mentions_other(text_of(*expr), self_field@),
    decreases expr,
{
    match expr {
        NormalizedExpr::SiblingField(name) => !text::equal(name.as_str(), self_field),
        NormalizedExpr::BinOp(_, left, right) => {
            let l = references_other_sibling(left, self_field);
            l || references_other_sibling(right, self_field)
        },
        NormalizedExpr::UnaryOp(_, inner) => references_other_sibling(inner, self_field),
        NormalizedExpr::MethodCall(_, args) => any_references_other(args, self_field),
        NormalizedExpr::FnCall(_, args) => any_references_other(args, self_field),
        NormalizedExpr::Tuple(items) => any_references_other(items, self_field),
        NormalizedExpr::FieldAccess(base, _) => references_other_sibling(base, self_field),
        _ => false,
    }
}

/// Whether one of `exprs` mentions a field other than `self_field`.
fn any_references_other(exprs: &Vec<NormalizedExpr>, self_field: &str) -> (b: bool)
    ensures
        b == any_mentions_other(texts_of(exprs@), self_field@),
    decreases exprs,
{
    let mut i: usize = 0;
    let mut found = false;
    proof {
        assert(exprs@.take(0) =~= Seq::empty());
    }
    while i < exprs.len()
        invariant
            i <= exprs.len(),
            found == any_mentions_other(texts_of(exprs@.take(i as int)), self_field@),
        decreases exprs.len() - i,
    {
        proof {
            let now = exprs@.take(i + 1);
            assert(now.drop_last() =~= exprs@.take(i as int));
            assert(now.last() == exprs@[i as int]);
            let forms = texts_of(now);
            assert(forms.drop_last() =~= texts_of(exprs@.take(i as int)));
            assert(forms.last() == text_of(exprs@[i as int]));
            assert(decreases_to!(exprs => exprs@[i as int]));
        }
        if references_other_sibling(&exprs[i], self_field) {
            found = true;
        }
        i = i + 1;
    }
    proof {
        assert(exprs@.take(i as int) =~= exprs@);
    }
    found
}

/// What the expression of a redundant field is, and what to do about the field.
pub open spec fn redundancy(form: NormalText, field: Seq<char>) -> (Seq<char>, Seq<char>) {
    if mentions_other(form, field) {
        (
            "an expression derived from other fields"@,
            "consider making this a method instead of a stored field"@,
        )
    } else {
        (
            "the same constant value"@,
            "consider making this a const or removing it from the struct"@,
        )
    }
}

/// What `expr` is for the field `self_field`, and what to do about the field.
pub fn classify_redundancy(expr: &NormalizedExpr, self_field: &str) -> (r: (
    &'static str,
    &'static str,
))
    ensures
        (r.0@, r.1@) == redundancy(text_of(*expr), self_field@),
{
    if references_other_sibling(expr, self_field) {
        (
            "an expression derived from other fields",
            "consider making this a method instead of a stored field",
        )
    } else {
        (
            "the same constant value",
            "consider making this a const or removing it from the struct",
        )
    }
}

/// The warning on a redundant field.
pub open spec fn field_warning(candidate: CandidateText, entry: EntryText) -> hir::DiagnosticText {
    let field = candidate.key.1;
    let (what, advice) = redundancy(entry.expr, field);
    hir::DiagnosticText {
        span: candidate.span.id,
        message: "field `"@ + field + "` is always initialized to "@ + what + " across "@
            + text::decimal(entry.construction_site_count) + " construction sites"@,
        advice,
    }
}

/// The warning on the field `candidate` with the entry `entry`.
pub fn emit_lint(candidate: &Candidate, entry: &ReportEntry) -> (r: Diagnostic)
    ensures
        r@ == field_warning(candidate@, entry@),
{
    let field = candidate.key.field_name.as_str();
    let (what, advice) = classify_redundancy(&entry.expr, field);
    let mut message = "field `".to_owned();
    message.append(field);
    message.append("` is always initialized to ");
    message.append(what);
    message.append(" across ");
    message.append(text::decimal_string(entry.construction_site_count).as_str());
    message.append(" construction sites");
    Diagnostic { span: candidate.span.id, message, advice: advice.to_owned() }
}

/// The last of `entries` for `key`.
pub open spec fn entry_for(entries: Seq<EntryText>, key: (Seq<char>, Seq<char>)) -> Option<
    EntryText,
>
    decreases entries.len(),
{
    if entries.len() == 0 {
        None
    } else if entries.last().key == key {
        Some(entries.last())
    } else {
        entry_for(entries.drop_last(), key)
    }
}

/// The warnings on those of `candidates` that have an entry.
pub open spec fn warnings(candidates: Seq<CandidateText>, entries: Seq<EntryText>) -> Seq<
    hir::DiagnosticText,
>
    decreases candidates.len(),
{
    if candidates.len() == 0 {
        Seq::empty()
    } else {
        let front = warnings(candidates.drop_last(), entries);
        match entry_for(entries, candidates.last().key) {
            Some(entry) => front.push(field_warning(candidates.last(), entry)),
            None => front,
        }
    }
}

/// The last of `entries` for `key`.
fn find_entry<'a>(entries: &'a Vec<ReportEntry>, key: &FieldKey) -> (r: Option<&'a ReportEntry>)
    ensures
        r is Some <==> entry_for(sorting::views(entries@), key@) is Some,
        r matches Some(entry) ==> entry_for(sorting::views(entries@), key@) == Some(entry@),
{
    let ghost all = sorting::views(entries@);
    let mut i: usize = entries.len();
    proof {
        assert(all.take(i as int) =~= all);
    }
    while i > 0
        invariant
            i <= entries.len(),
            all == sorting::views(entries@),
            entry_for(all, key@) == entry_for(all.take(i as int), key@),
        decreases i,
    {
        proof {
            assert(all.take(i as int).last() == entries@[i - 1]@);
            assert(all.take(i as int).drop_last() =~= all.take(i - 1));
        }
        if entries[i - 1].key.same(key) {
            return Some(&entries[i - 1]);
        }
        i = i - 1;
    }
    None
}

/// The warnings on those of `candidates` that have an entry in `entries`.
fn emit_warnings(candidates: &Vec<Candidate>, entries: &Vec<ReportEntry>) -> (r: Vec<Diagnostic>)
    ensures
        sorting::views(r@) == warnings(sorting::views(candidates@), sorting::views(entries@)),
{
    let ghost all = sorting::views(candidates@);
    let ghost known = sorting::views(entries@);
    let mut found: Vec<Diagnostic> = Vec::new();
    let mut i: usize = 0;
    proof {
        assert(all.take(0) =~= Seq::empty());
        assert(sorting::views(found@) =~= Seq::empty());
    }
    while i < candidates.len()
        invariant
            i <= candidates.len(),
            all == sorting::views(candidates@),
            known == sorting::views(entries@),
            sorting::views(found@) == warnings(all.take(i as int), known),
        decreases candidates.len() - i,
    {
        let ghost had = found@;
        proof {
            assert(all.take(i + 1).last() == candidates@[i as int]@);
            assert(all.take(i + 1).drop_last() =~= all.take(i as int));
        }
        if let Some(entry) = find_entry(entries, &candidates[i].key) {
            let warning = emit_lint(&candidates[i], entry);
            let ghost value = warning@;
            found.push(warning);
            proof {
                assert(sorting::views(found@) =~= sorting::views(had).push(value));
            }
        }
        i = i + 1;
    }
    proof {
        assert(all.take(i as int) =~= all);
    }
    found
}

/// The candidates that have a location, with it.
pub open spec fn located_records(candidates: Seq<CandidateText>) -> Seq<RecordText>
    decreases candidates.len(),
{
    if candidates.len() == 0 {
        Seq::empty()
    } else {
        let front = located_records(candidates.drop_last());
        let last = candidates.last();
        if utils::located(last.span.start) {
            front.push(
                RecordText {
                    key: last.key,
                    display_path: last.display_path,
                    file: last.span.start.local_path->Some_0@,
                    line: last.span.start.line as u32,
                    column: (last.span.start.column + 1) as u32,
                },
            )
        } else {
            front
        }
    }
}

/// The candidates that have a location, with it.
fn locate(candidates: &Vec<Candidate>) -> (r: Vec<CandidateRecord>)
    ensures
        sorting::views(r@) == located_records(sorting::views(candidates@)),
{
    let ghost all = sorting::views(candidates@);
    let mut found: Vec<CandidateRecord> = Vec::new();
    let mut i: usize = 0;
    proof {
        assert(all.take(0) =~= Seq::empty());
        assert(sorting::views(found@) =~= Seq::empty());
    }
    while i < candidates.len()
        invariant
            i <= candidates.len(),
            all == sorting::views(candidates@),
            sorting::views(found@) == located_records(all.take(i as int)),
        decreases candidates.len() - i,
    {
        let ghost had = found@;
        proof {
            assert(all.take(i + 1).last() == candidates@[i as int]@);
            assert(all.take(i + 1).drop_last() =~= all.take(i as int));
        }
        if let Some(location) = utils::span_location(&candidates[i].span.start) {
            let record = CandidateRecord {
                key: candidates[i].key.clone(),
                display_path: candidates[i].display_path.clone(),
                file: location.file,
                line: location.line,
                column: location.column,
            };
            let ghost value = record@;
            found.push(record);
            proof {
                assert(sorting::views(found@) =~= sorting::views(had).push(value));
            }
        }
        i = i + 1;
    }
    proof {
        assert(all.take(i as int) =~= all);
    }
    found
}

/// The state of the lint in one crate.
#[derive(Debug)]
pub struct LintState {
    pub mode: Mode<Vec<ReportEntry>>,
    pub info: CrateInfo,
    pub candidates: Vec<Candidate>,
    pub observations: Vec<ObservationRecord>,
}

/// What is left to do once a crate was looked at.
#[derive(Debug)]
pub enum Finish {
    /// Write the artifact to the directory.
    Write { artifact_dir: std::path::PathBuf, artifact: TargetArtifact },
    /// Give the warnings.
    Warn(Vec<Diagnostic>),
    /// Nothing.
    Nothing,
}

impl LintState {
    /// The state before anything of the crate was looked at.
    pub fn new(mode: Mode<Vec<ReportEntry>>, info: CrateInfo) -> (r: LintState)
        ensures
            r.mode == mode,
            r.info == info,
            r.candidates.len() == 0,
            r.observations.len() == 0,
    {
        LintState { mode, info, candidates: Vec::new(), observations: Vec::new() }
    }

    /// Looks at `item`.
    pub fn check_item(&mut self, item: &Item)
        ensures
            final(self).mode == old(self).mode,
            final(self).info == old(self).info,
            final(self).observations == old(self).observations,
            old(self).mode is Disabled ==> final(self).candidates == old(self).candidates,
            !(old(self).mode is Disabled) ==> sorting::views(final(self).candidates@)
                == sorting::views(old(self).candidates@) + item_candidates(*item),
    {
        if self.mode.is_disabled() {
            return;
        }
        register_struct_field_candidates(item, &mut self.candidates);
    }

    /// Looks at `expr`.
    pub fn check_expr(&mut self, expr: &Expr)
        ensures
            final(self).mode == old(self).mode,
            final(self).info == old(self).info,
            final(self).candidates == old(self).candidates,
            old(self).mode is Disabled ==> final(self).observations == old(self).observations,
            !(old(self).mode is Disabled) ==> sorting::views(final(self).observations@)
                == sorting::views(old(self).observations@) + literal_observations(*expr),
    {
        if self.mode.is_disabled() {
            return;
        }
        maybe_record_struct_literal(expr, &mut self.observations);
    }

    /// What is left to do once all of the crate was looked at.
    pub fn finish(self) -> (r: Finish)
        ensures
            self.mode is Disabled ==> r is Nothing,
            self.mode matches Mode::Collect { artifact_dir: dir } ==> (r matches Finish::Write {
                artifact_dir,
                artifact,
            } && {
                &&& artifact_dir == dir
                &&& artifact.crate_stable_id == self.info.crate_stable_id
                &&& artifact.crate_name == self.info.crate_name
                &&& artifact.target_name == self.info.target_name
                &&& artifact.target_kind == self.info.target_kind
                &&& sorting::views(artifact.candidates@) == located_records(
                    sorting::views(self.candidates@),
                )
                &&& artifact.observations == self.observations
            }),
            self.mode matches Mode::Emit { data } ==> (r matches Finish::Warn(found)
                && sorting::views(found@) == warnings(
                sorting::views(self.candidates@),
                sorting::views(data@),
            )),
    {
        match self.mode {
            Mode::Disabled => Finish::Nothing,
            Mode::Emit { data } => Finish::Warn(emit_warnings(&self.candidates, &data)),
            Mode::Collect { artifact_dir } => {
                let candidates = locate(&self.candidates);
                Finish::Write {
                    artifact_dir,
                    artifact: TargetArtifact {
                        crate_stable_id: self.info.crate_stable_id,
                        crate_name: self.info.crate_name,
                        target_name: self.info.target_name,
                        target_kind: self.info.target_kind,
                        candidates,
                        observations: self.observations,
                    },
                }
            },
        }
    }
}

/// The candidates of all artifacts, in their order.
pub open spec fn all_candidates(artifacts: Seq<TargetArtifact>) -> Seq<RecordText>
    decreases artifacts.len(),
{
    if artifacts.len() == 0 {
        Seq::empty()
    } else {
        all_candidates(artifacts.drop_last()) + sorting::views(artifacts.last().candidates@)
    }
}

/// The normal forms to which the field `key` is set, in the order of
/// `observations`. Initializations without a normal form are left out.
pub open spec fn forms_of(observations: Seq<ObservationText>, key: (Seq<char>, Seq<char>)) -> Seq<
    NormalText,
>
    decreases observations.len(),
{
    if observations.len() == 0 {
        Seq::empty()
    } else {
        let front = forms_of(observations.drop_last(), key);
        let last = observations.last();
        if last.key == key && !(last.expr is Opaque) {
            front.push(last.expr)
        } else {
            front
        }
    }
}

/// The normal forms to which the artifacts set the field `key`.
pub open spec fn all_forms(artifacts: Seq<TargetArtifact>, key: (Seq<char>, Seq<char>)) -> Seq<
    NormalText,
>
    decreases artifacts.len(),
{
    if artifacts.len() == 0 {
        Seq::empty()
    } else {
        all_forms(artifacts.drop_last(), key) + forms_of(
            sorting::views(artifacts.last().observations@),
            key,
        )
    }
}

/// Whether a field is redundant that is set to `forms`: there is more than one
/// construction, all are alike, and the field is more than its own shorthand.
pub open spec fn is_redundant(forms: Seq<NormalText>, field: Seq<char>) -> bool {
    &&& forms.len() >= 2
    &&& forall|i: int| 0 <= i < forms.len() ==> #[trigger] forms[i] == forms[0]
    &&& forms[0] != NormalText::SiblingField(field)
}

/// The entry for a redundant field that is set to `forms`.
pub open spec fn redundant_entry(record: RecordText, forms: Seq<NormalText>) -> EntryText {
    EntryText {
        key: record.key,
        display_path: record.display_path,
        expr: forms[0],
        construction_site_count: forms.len(),
        file: record.file,
        line: record.line,
        column: record.column,
    }
}

/// Whether one of `records` is about the field `key`.
pub open spec fn has_key(records: Seq<RecordText>, key: (Seq<char>, Seq<char>)) -> bool {
    exists|i: int| 0 <= i < records.len() && (#[trigger] records[i]).key == key
}

/// The entries for the redundant fields among `records`, in their order. A field
/// that was recorded before is left out.
pub open spec fn redundant_among(
    records: Seq<RecordText>,
    artifacts: Seq<TargetArtifact>,
) -> Seq<EntryText>
    decreases records.len(),
{
    if records.len() == 0 {
        Seq::empty()
    } else {
        let front = redundant_among(records.drop_last(), artifacts);
        let last = records.last();
        let forms = all_forms(artifacts, last.key);
        if !has_key(records.drop_last(), last.key) && is_redundant(forms, last.key.1) {
            front.push(redundant_entry(last, forms))
        } else {
            front
        }
    }
}

/// Whether two expressions are the same.
pub fn same_expr(a: &NormalizedExpr, b: &NormalizedExpr) -> (r: bool)
    ensures
        r == (text_of(*a) == text_of(*b)),
    decreases a,
{
    match (a, b) {
        (NormalizedExpr::SiblingField(x), NormalizedExpr::SiblingField(y)) => text::equal(
            x.as_str(),
            y.as_str(),
        ),
        (NormalizedExpr::LitInt(x), NormalizedExpr::LitInt(y)) => *x == *y,
        (NormalizedExpr::LitFloat(x), NormalizedExpr::LitFloat(y)) => text::equal(
            x.as_str(),
            y.as_str(),
        ),
        (NormalizedExpr::LitBool(x), NormalizedExpr::LitBool(y)) => *x == *y,
        (NormalizedExpr::LitStr(x), NormalizedExpr::LitStr(y)) => text::equal(
            x.as_str(),
            y.as_str(),
        ),
        (NormalizedExpr::LitChar(x), NormalizedExpr::LitChar(y)) => *x == *y,
        (NormalizedExpr::BinOp(p, x, y), NormalizedExpr::BinOp(q, v, w)) => {
            text::equal(p.as_str(), q.as_str()) && same_expr(x, v) && same_expr(y, w)
        },
        (NormalizedExpr::UnaryOp(p, x), NormalizedExpr::UnaryOp(q, y)) => {
            text::equal(p.as_str(), q.as_str()) && same_expr(x, y)
        },
        (NormalizedExpr::MethodCall(p, x), NormalizedExpr::MethodCall(q, y)) => {
            text::equal(p.as_str(), q.as_str()) && same_exprs(x, y)
        },
        (NormalizedExpr::FnCall(p, x), NormalizedExpr::FnCall(q, y)) => {
            text::equal(p.as_str(), q.as_str()) && same_exprs(x, y)
        },
        (NormalizedExpr::FieldAccess(x, p), NormalizedExpr::FieldAccess(y, q)) => {
            text::equal(p.as_str(), q.as_str()) && same_expr(x, y)
        },
        (NormalizedExpr::Tuple(x), NormalizedExpr::Tuple(y)) => same_exprs(x, y),
        (NormalizedExpr::Opaque, NormalizedExpr::Opaque) => true,
        _ => false,
    }
}

proof fn lemma_texts_of(exprs: Seq<NormalizedExpr>)
    ensures
        texts_of(exprs).len() == exprs.len(),
        forall|i: int|
            0 <= i < exprs.len() ==> #[trigger] texts_of(exprs)[i] == text_of(exprs[i]),
    decreases exprs.len(),
{
    if exprs.len() > 0 {
        lemma_texts_of(exprs.drop_last());
        assert forall|i: int| 0 <= i < exprs.len() implies #[trigger] texts_of(exprs)[i]
            == text_of(exprs[i]) by {
            if i < exprs.len() - 1 {
                assert(texts_of(exprs)[i] == texts_of(exprs.drop_last())[i]);
            }
        }
    }
}

/// Whether two lists of expressions are the same.
fn same_exprs(a: &Vec<NormalizedExpr>, b: &Vec<NormalizedExpr>) -> (r: bool)
    ensures
        r == (texts_of(a@) == texts_of(b@)),
    decreases a,
{
    proof {
        lemma_texts_of(a@);
        lemma_texts_of(b@);
    }
    if a.len() != b.len() {
        return false;
    }
    let mut i: usize = 0;
    while i < a.len()
        invariant
            i <= a.len(),
            a.len() == b.len(),
            texts_of(a@).len() == a.len(),
            texts_of(b@).len() == b.len(),
            forall|j: int| 0 <= j < a.len() ==> #[trigger] texts_of(a@)[j] == text_of(a@[j]),
            forall|j: int| 0 <= j < b.len() ==> #[trigger] texts_of(b@)[j] == text_of(b@[j]),
            forall|j: int| 0 <= j < i ==> texts_of(a@)[j] == texts_of(b@)[j],
        decreases a.len() - i,
    {
        proof {
            assert(decreases_to!(a => a@[i as int]));
            assert(texts_of(a@)[i as int] == text_of(a@[i as int]));
            assert(texts_of(b@)[i as int] == text_of(b@[i as int]));
        }
        if !same_expr(&a[i], &b[i]) {
            return false;
        }
        i = i + 1;
    }
    proof {
        assert(texts_of(a@) =~= texts_of(b@));
    }
    true
}

/// A copy of `expr`.
pub fn copy_expr(expr: &NormalizedExpr) -> (r: NormalizedExpr)
    ensures
        text_of(r) == text_of(*expr),
    decreases expr,
{
    match expr {
        NormalizedExpr::SiblingField(name) => NormalizedExpr::SiblingField(name.clone()),
        NormalizedExpr::LitInt(value) => NormalizedExpr::LitInt(*value),
        NormalizedExpr::LitFloat(digits) => NormalizedExpr::LitFloat(digits.clone()),
        NormalizedExpr::LitBool(value) => NormalizedExpr::LitBool(*value),
        NormalizedExpr::LitStr(value) => NormalizedExpr::LitStr(value.clone()),
        NormalizedExpr::LitChar(value) => NormalizedExpr::LitChar(*value),
        NormalizedExpr::BinOp(op, left, right) => NormalizedExpr::BinOp(
            op.clone(),
            Box::new(copy_expr(left)),
            Box::new(copy_expr(right)),
        ),
        NormalizedExpr::UnaryOp(op, inner) => NormalizedExpr::UnaryOp(
            op.clone(),
            Box::new(copy_expr(inner)),
        ),
        NormalizedExpr::MethodCall(name, args) => NormalizedExpr::MethodCall(
            name.clone(),
            copy_exprs(args),
        ),
        NormalizedExpr::FnCall(name, args) => NormalizedExpr::FnCall(
            name.clone(),
            copy_exprs(args),
        ),
        NormalizedExpr::FieldAccess(base, name) => NormalizedExpr::FieldAccess(
            Box::new(copy_expr(base)),
            name.clone(),
        ),
        NormalizedExpr::Tuple(items) => NormalizedExpr::Tuple(copy_exprs(items)),
        NormalizedExpr::Opaque => NormalizedExpr::Opaque,
    }
}

/// A copy of `exprs`.
fn copy_exprs(exprs: &Vec<NormalizedExpr>) -> (r: Vec<NormalizedExpr>)
    ensures
        texts_of(r@) == texts_of(exprs@),
    decreases exprs,
{
    let mut copy: Vec<NormalizedExpr> = Vec::new();
    let mut i: usize = 0;
    proof {
        assert(exprs@.take(0) =~= Seq::empty());
    }
    while i < exprs.len()
        invariant
            i <= exprs.len(),
            texts_of(copy@) == texts_of(exprs@.take(i as int)),
        decreases exprs.len() - i,
    {
        proof {
            assert(decreases_to!(exprs => exprs@[i as int]));
            assert(exprs@.take(i + 1).drop_last() =~= exprs@.take(i as int));
            assert(exprs@.take(i + 1).last() == exprs@[i as int]);
        }
        let ghost had = copy@;
        copy.push(copy_expr(&exprs[i]));
        proof {
            assert(copy@.drop_last() =~= had);
        }
        i = i + 1;
    }
    proof {
        assert(exprs@.take(i as int) =~= exprs@);
    }
    copy
}

/// The normal forms of `exprs`.
spec fn forms_in(exprs: Seq<&NormalizedExpr>) -> Seq<NormalText> {
    exprs.map_values(|e: &NormalizedExpr| text_of(*e))
}

/// The normal forms to which `artifacts` set the field `key`.
fn collect_forms<'a>(artifacts: &'a Vec<TargetArtifact>, key: &FieldKey) -> (r: Vec<
    &'a NormalizedExpr,
>)
    ensures
        forms_in(r@) == all_forms(artifacts@, key@),
{
    let mut found: Vec<&'a NormalizedExpr> = Vec::new();
    let mut i: usize = 0;
    proof {
        assert(artifacts@.take(0) =~= Seq::empty());
        assert(forms_in(found@) =~= Seq::empty());
    }
    while i < artifacts.len()
        invariant
            i <= artifacts.len(),
            forms_in(found@) == all_forms(artifacts@.take(i as int), key@),
        decreases artifacts.len() - i,
    {
        let ghost known = all_forms(artifacts@.take(i as int), key@);
        let observations = &artifacts[i].observations;
        let ghost all = sorting::views(observations@);
        let mut k: usize = 0;
        proof {
            assert(all.take(0) =~= Seq::empty());
            assert(known + forms_of(all.take(0), key@) =~= known);
        }
        while k < observations.len()
            invariant
                k <= observations.len(),
                all == sorting::views(observations@),
                forms_in(found@) == known + forms_of(all.take(k as int), key@),
            decreases observations.len() - k,
        {
            let ghost had = found@;
            proof {
                assert(all.take(k + 1).drop_last() =~= all.take(k as int));
                assert(all.take(k + 1).last() == observations@[k as int]@);
            }
            if observations[k].key.same(key) && !is_opaque(&observations[k].expr) {
                found.push(&observations[k].expr);
                proof {
                    assert(forms_in(found@) =~= forms_in(had).push(
                        text_of(observations@[k as int].expr),
                    ));
                    assert(known + forms_of(all.take(k + 1), key@) =~= (known + forms_of(
                        all.take(k as int),
                        key@,
                    )).push(text_of(observations@[k as int].expr)));
                }
            }
            k = k + 1;
        }
        proof {
            assert(all.take(k as int) =~= all);
            assert(artifacts@.take(i + 1).drop_last() =~= artifacts@.take(i as int));
            assert(artifacts@.take(i + 1).last() == artifacts@[i as int]);
        }
        i = i + 1;
    }
    proof {
        assert(artifacts@.take(i as int) =~= artifacts@);
    }
    found
}

/// Whether the field `field` is redundant that is set to `forms`.
fn are_redundant(forms: &Vec<&NormalizedExpr>, field: &str) -> (b: bool)
    ensures
        b == is_redundant(forms_in(forms@), field@),
{
    let ghost all = forms_in(forms@);
    if forms.len() < 2 {
        return false;
    }
    proof {
        assert(all[0] == text_of(*forms@[0]));
    }
    if let NormalizedExpr::SiblingField(name) = forms[0] {
        if text::equal(name.as_str(), field) {
            return false;
        }
    }
    let mut i: usize = 1;
    while i < forms.len()
        invariant
            1 <= i <= forms.len(),
            all == forms_in(forms@),
            forall|j: int| 0 <= j < i ==> #[trigger] all[j] == all[0],
        decreases forms.len() - i,
    {
        proof {
            assert(all[i as int] == text_of(*forms@[i as int]));
            assert(all[0] == text_of(*forms@[0]));
        }
        if !same_expr(forms[i], forms[0]) {
            return false;
        }
        i = i + 1;
    }
    true
}

/// Whether one of `records` is about the field `key`.
fn recorded(records: &Vec<&CandidateRecord>, key: &FieldKey) -> (b: bool)
    ensures
        b == has_key(sorting::views(records@), key@),
{
    let ghost all = sorting::views(records@);
    let mut i: usize = 0;
    while i < records.len()
        invariant
            i <= records.len(),
            all == sorting::views(records@),
            forall|j: int| 0 <= j < i ==> (#[trigger] all[j]).key != key@,
        decreases records.len() - i,
    {
        proof {
            assert(all[i as int] == records@[i as int]@);
        }
        if records[i].key.same(key) {
            return true;
        }
        i = i + 1;
    }
    false
}

/// The report on the fields that all construction sites in `artifacts` set to the
/// same expression.
pub fn aggregate_artifacts(artifacts: &Vec<TargetArtifact>) -> (r: AggregatedReport)
    ensures
        sorting::views(r.redundant_fields@) == redundant_among(
            all_candidates(artifacts@),
            artifacts@,
        ),
{
    let mut seen: Vec<&CandidateRecord> = Vec::new();
    let mut redundant_fields: Vec<ReportEntry> = Vec::new();
    let mut i: usize = 0;
    proof {
        assert(artifacts@.take(0) =~= Seq::empty());
        assert(sorting::views(seen@) =~= Seq::empty());
        assert(sorting::views(redundant_fields@) =~= Seq::empty());
    }
    while i < artifacts.len()
        invariant
            i <= artifacts.len(),
            sorting::views(seen@) == all_candidates(artifacts@.take(i as int)),
            sorting::views(redundant_fields@) == redundant_among(
                sorting::views(seen@),
                artifacts@,
            ),
        decreases artifacts.len() - i,
    {
        let ghost known = all_candidates(artifacts@.take(i as int));
        let candidates = &artifacts[i].candidates;
        let ghost all = sorting::views(candidates@);
        let mut k: usize = 0;
        proof {
            assert(known + all.take(0) =~= known);
        }
        while k < candidates.len()
            invariant
                k <= candidates.len(),
                all == sorting::views(candidates@),
                sorting::views(seen@) == known + all.take(k as int),
                sorting::views(redundant_fields@) == redundant_among(
                    sorting::views(seen@),
                    artifacts@,
                ),
            decreases candidates.len() - k,
        {
            let record = &candidates[k];
            let ghost before = sorting::views(seen@);
            let ghost had = redundant_fields@;
            let is_new = !recorded(&seen, &record.key);
            let forms = collect_forms(artifacts, &record.key);
            proof {
                let now = before.push(record@);
                assert(now.drop_last() =~= before);
                assert(known + all.take(k + 1) =~= (known + all.take(k as int)).push(record@));
            }
            if is_new && are_redundant(&forms, record.key.field_name.as_str()) {
                proof {
                    assert(forms_in(forms@)[0] == text_of(*forms@[0]));
                }
                let entry = ReportEntry {
                    key: record.key.clone(),
                    display_path: record.display_path.clone(),
                    expr: copy_expr(forms[0]),
                    construction_site_count: forms.len(),
                    file: record.file.clone(),
                    line: record.line,
                    column: record.column,
                };
                let ghost value = entry@;
                redundant_fields.push(entry);
                proof {
                    assert(sorting::views(redundant_fields@) =~= sorting::views(had).push(value));
                }
            }
            seen.push(record);
            proof {
                assert(sorting::views(seen@) =~= before.push(record@));
            }
            k = k + 1;
        }
        proof {
            assert(all.take(k as int) =~= all);
            assert(artifacts@.take(i + 1).drop_last() =~= artifacts@.take(i as int));
            assert(artifacts@.take(i + 1).last() == artifacts@[i as int]);
        }
        i = i + 1;
    }
    proof {
        assert(artifacts@.take(i as int) =~= artifacts@);
    }
    AggregatedReport { redundant_fields }
}

proof fn lemma_redundant_among(records: Seq<RecordText>, artifacts: Seq<TargetArtifact>, i: int)
    requires
        0 <= i < redundant_among(records, artifacts).len(),
    ensures
        ({
            let entry = redundant_among(records, artifacts)[i];
            let forms = all_forms(artifacts, entry.key);
            &&& has_key(records, entry.key)
            &&& is_redundant(forms, entry.key.1)
            &&& entry.expr == forms[0]
            &&& entry.construction_site_count == forms.len()
        }),
    decreases records.len(),
{
    let front = redundant_among(records.drop_last(), artifacts);
    let entry = redundant_among(records, artifacts)[i];
    if i < front.len() {
        lemma_redundant_among(records.drop_last(), artifacts, i);
        assert(entry == front[i]);
        let shorter = records.drop_last();
        let k = choose|k: int| 0 <= k < shorter.len() && (#[trigger] shorter[k]).key == entry.key;
        assert(records[k].key == entry.key);
    } else {
        assert(records[records.len() - 1].key == entry.key);
    }
}

/// A reported field has more than one construction site with a normal form, all of
/// these set it to the reported expression, and their number is the reported one.
pub proof fn lemma_reported_fields(artifacts: Seq<TargetArtifact>, i: int)
    requires
        0 <= i < redundant_among(all_candidates(artifacts), artifacts).len(),
    ensures
        ({
            let entry = redundant_among(all_candidates(artifacts), artifacts)[i];
            let forms = all_forms(artifacts, entry.key);
            &&& entry.construction_site_count == forms.len()
            &&& forms.len() >= 2
            &&& forall|k: int| 0 <= k < forms.len() ==> #[trigger] forms[k] == entry.expr
        }),
{
    lemma_redundant_among(all_candidates(artifacts), artifacts, i);
}

/// A field that two construction sites set to different expressions is not
/// redundant.
pub proof fn lemma_different_forms(forms: Seq<NormalText>, field: Seq<char>, i: int, j: int)
    requires
        0 <= i < forms.len(),
        0 <= j < forms.len(),
        forms[i] != forms[j],
    ensures
        !is_redundant(forms, field),
{
}

proof fn lemma_field_is_reported(
    records: Seq<RecordText>,
    artifacts: Seq<TargetArtifact>,
    key: (Seq<char>, Seq<char>),
)
    requires
        has_key(records, key),
        is_redundant(all_forms(artifacts, key), key.1),
    ensures
        exists|i: int|
            0 <= i < redundant_among(records, artifacts).len() && (#[trigger] redundant_among(
                records,
                artifacts,
            )[i]).key == key,
    decreases records.len(),
{
    let shorter = records.drop_last();
    let front = redundant_among(shorter, artifacts);
    let whole = redundant_among(records, artifacts);
    if has_key(shorter, key) {
        lemma_field_is_reported(shorter, artifacts, key);
        let i = choose|i: int| 0 <= i < front.len() && (#[trigger] front[i]).key == key;
        assert(whole[i] == front[i]);
    } else {
        let k = choose|k: int| 0 <= k < records.len() && (#[trigger] records[k]).key == key;
        if k < shorter.len() {
            assert(shorter[k].key == key);
        }
        assert(whole[whole.len() - 1].key == key);
    }
}

proof fn lemma_entry_found(entries: Seq<EntryText>, key: (Seq<char>, Seq<char>))
    ensures
        match entry_for(entries, key) {
            Some(entry) => entry.key == key && entries.contains(entry),
            None => forall|i: int| 0 <= i < entries.len() ==> (#[trigger] entries[i]).key != key,
        },
    decreases entries.len(),
{
    if entries.len() > 0 {
        let front = entries.drop_last();
        if entries.last().key == key {
            assert(entries[entries.len() - 1] == entries.last());
        } else {
            lemma_entry_found(front, key);
            match entry_for(front, key) {
                Some(entry) => {
                    let i = choose|i: int| 0 <= i < front.len() && front[i] == entry;
                    assert(entries[i] == entry);
                },
                None => {
                    assert forall|i: int| 0 <= i < entries.len() implies (#[trigger] entries[i]).key
                        != key by {
                        if i < front.len() {
                            assert(front[i] == entries[i]);
                        }
                    }
                },
            }
        }
    }
}

/// With the report on a workspace, the lint warns of a recorded field if and only if
/// it is redundant, and names the number of its construction sites.
pub proof fn lemma_warned_fields(artifacts: Seq<TargetArtifact>, key: (Seq<char>, Seq<char>))
    requires
        has_key(all_candidates(artifacts), key),
    ensures
        ({
            let report = redundant_among(all_candidates(artifacts), artifacts);
            let forms = all_forms(artifacts, key);
            match entry_for(report, key) {
                Some(entry) => is_redundant(forms, key.1) && entry.expr == forms[0]
                    && entry.construction_site_count == forms.len(),
                None => !is_redundant(forms, key.1),
            }
        }),
{
    let records = all_candidates(artifacts);
    let report = redundant_among(records, artifacts);
    lemma_entry_found(report, key);
    match entry_for(report, key) {
        Some(entry) => {
            let i = choose|i: int| 0 <= i < report.len() && report[i] == entry;
            lemma_redundant_among(records, artifacts, i);
        },
        None => {
            if is_redundant(all_forms(artifacts, key), key.1) {
                lemma_field_is_reported(records, artifacts, key);
            }
        },
    }
}

/// A construction that takes the rest from another value, or that a macro produced,
/// counts for no field.
pub proof fn lemma_partial_sites_ignored(expr: Expr)
    requires
        expr.span.from_expansion || (expr.kind matches ExprKind::Struct { has_base, .. }
            && has_base),
    ensures
        literal_observations(expr) == Seq::<ObservationText>::empty(),
{
}

/// A field with a single construction site is not redundant.
pub proof fn lemma_single_site(forms: Seq<NormalText>, field: Seq<char>)
    requires
        forms.len() < 2,
    ensures
        !is_redundant(forms, field),
{
}

/// Different operators have different names.
pub proof fn lemma_operator_names(a: BinOp, b: BinOp, c: UnOp, d: UnOp)
    ensures
        binary_name(a) == binary_name(b) <==> a == b,
        unary_name(c) == unary_name(d) <==> c == d,
{
    reveal_strlit("Add");
    reveal_strlit("Sub");
    reveal_strlit("Mul");
    reveal_strlit("Div");
    reveal_strlit("Rem");
    reveal_strlit("And");
    reveal_strlit("Or");
    reveal_strlit("BitXor");
    reveal_strlit("BitAnd");
    reveal_strlit("BitOr");
    reveal_strlit("Shl");
    reveal_strlit("Shr");
    reveal_strlit("Eq");
    reveal_strlit("Lt");
    reveal_strlit("Le");
    reveal_strlit("Ne");
    reveal_strlit("Ge");
    reveal_strlit("Gt");
    reveal_strlit("Deref");
    reveal_strlit("Not");
    reveal_strlit("Neg");
    let x = binary_name(a);
    let y = binary_name(b);
    if x == y && a != b {
        assert(x.len() == y.len());
        assert(x[0] == y[0] && x[1] == y[1]);
        if x.len() > 2 {
            assert(x[2] == y[2]);
        }
        if x.len() > 3 {
            assert(x[3] == y[3]);
        }
        assert(false);
    }
    let v = unary_name(c);
    let w = unary_name(d);
    if v == w && c != d {
        assert(v[0] == w[0] && v[1] == w[1]);
        assert(false);
    }
}

/// An operation has a normal form exactly if its operands have one, and two of them have
/// the same form exactly if they are the same operation on operands with the same forms.
pub proof fn lemma_operation_forms(
    a: Expr,
    b: Expr,
    names: Map<usize, Seq<char>>,
    others: Map<usize, Seq<char>>,
)
    requires
        a.kind is Binary,
        b.kind is Binary,
    ensures
        a.kind matches ExprKind::Binary(op, left, right) && (b.kind matches ExprKind::Binary(
            other_op,
            other_left,
            other_right,
        ) && {
            &&& normal_form(a, names) is Opaque <==> normal_form(*left, names) is Opaque
                || normal_form(*right, names) is Opaque
            &&& !(normal_form(a, names) is Opaque) && !(normal_form(b, others) is Opaque) ==> (
            normal_form(a, names) == normal_form(b, others) <==> op == other_op && normal_form(
                *left,
                names,
            ) == normal_form(*other_left, others) && normal_form(*right, names) == normal_form(
                *other_right,
                others,
            ))
        }),
{
    if let ExprKind::Binary(op, left, right) = a.kind {
        if let ExprKind::Binary(other_op, other_left, other_right) = b.kind {
            lemma_operator_names(op, other_op, UnOp::Not, UnOp::Not);
        }
    }
}

/// The same of operations on one operand and of accesses to a field.
pub proof fn lemma_single_operand_forms(
    a: Expr,
    b: Expr,
    names: Map<usize, Seq<char>>,
    others: Map<usize, Seq<char>>,
)
    ensures
        a.kind matches ExprKind::Unary(op, inner) ==> (b.kind matches ExprKind::Unary(
            other_op,
            other_inner,
        ) ==> {
            &&& normal_form(a, names) is Opaque <==> normal_form(*inner, names) is Opaque
            &&& !(normal_form(a, names) is Opaque) && !(normal_form(b, others) is Opaque) ==> (
            normal_form(a, names) == normal_form(b, others) <==> op == other_op && normal_form(
                *inner,
                names,
            ) == normal_form(*other_inner, others))
        }),
        a.kind matches ExprKind::Field { base, name } ==> (b.kind matches ExprKind::Field {
            base: other_base,
            name: other_name,
        } ==> {
            &&& normal_form(a, names) is Opaque <==> normal_form(*base, names) is Opaque
            &&& !(normal_form(a, names) is Opaque) && !(normal_form(b, others) is Opaque) ==> (
            normal_form(a, names) == normal_form(b, others) <==> name@ == other_name@
                && normal_form(*base, names) == normal_form(*other_base, others))
        }),
{
    if let ExprKind::Unary(op, inner) = a.kind {
        if let ExprKind::Unary(other_op, other_inner) = b.kind {
            lemma_operator_names(BinOp::Add, BinOp::Add, op, other_op);
        }
    }
}

/// A list has normal forms exactly if each of its expressions has one, and they are the
/// forms of these in their order.
pub proof fn lemma_forms_of_list(exprs: Seq<Expr>, names: Map<usize, Seq<char>>)
    ensures
        normal_forms(exprs, names) is Some <==> forall|i: int|
            0 <= i < exprs.len() ==> !(normal_form(#[trigger] exprs[i], names) is Opaque),
        normal_forms(exprs, names) matches Some(list) ==> {
            &&& list.len() == exprs.len()
            &&& forall|i: int|
                0 <= i < exprs.len() ==> #[trigger] list[i] == normal_form(exprs[i], names)
        },
    decreases exprs.len(),
{
    if exprs.len() > 0 {
        let front = exprs.drop_last();
        lemma_forms_of_list(front, names);
        assert(exprs[exprs.len() - 1] == exprs.last());
        assert forall|i: int| 0 <= i < front.len() implies #[trigger] front[i] == exprs[i] by {}
        if normal_forms(exprs, names) is None {
            if normal_forms(front, names) is None {
                let i = choose|i: int|
                    0 <= i < front.len() && normal_form(#[trigger] front[i], names) is Opaque;
                assert(normal_form(exprs[i], names) is Opaque);
            }
        } else {
            let known = normal_forms(front, names)->Some_0;
            let list = normal_forms(exprs, names)->Some_0;
            assert forall|i: int| 0 <= i < exprs.len() implies #[trigger] list[i] == normal_form(
                exprs[i],
                names,
            ) && !(normal_form(exprs[i], names) is Opaque) by {
                if i < front.len() {
                    assert(list[i] == known[i]);
                    assert(front[i] == exprs[i]);
                }
            }
            assert forall|i: int| 0 <= i < exprs.len() implies !(normal_form(
                #[trigger] exprs[i],
                names,
            ) is Opaque) by {
                assert(list[i] == normal_form(exprs[i], names));
            }
        }
    }
}

/// Whether two lists of expressions have the same normal forms, one by one.
pub open spec fn same_forms(
    a: Seq<Expr>,
    b: Seq<Expr>,
    names: Map<usize, Seq<char>>,
    others: Map<usize, Seq<char>>,
) -> bool {
    &&& a.len() == b.len()
    &&& forall|i: int|
        0 <= i < a.len() ==> normal_form(#[trigger] a[i], names) == normal_form(b[i], others)
}

proof fn lemma_same_lists(
    a: Seq<Expr>,
    b: Seq<Expr>,
    names: Map<usize, Seq<char>>,
    others: Map<usize, Seq<char>>,
)
    requires
        normal_forms(a, names) is Some,
        normal_forms(b, others) is Some,
    ensures
        normal_forms(a, names)->Some_0 == normal_forms(b, others)->Some_0 <==> same_forms(
            a,
            b,
            names,
            others,
        ),
{
    lemma_forms_of_list(a, names);
    lemma_forms_of_list(b, others);
    let x = normal_forms(a, names)->Some_0;
    let y = normal_forms(b, others)->Some_0;
    if x == y {
        assert forall|i: int| 0 <= i < a.len() implies normal_form(#[trigger] a[i], names)
            == normal_form(b[i], others) by {
            assert(x[i] == y[i]);
        }
    }
    if same_forms(a, b, names, others) {
        assert forall|i: int| 0 <= i < x.len() implies x[i] == y[i] by {
            assert(normal_form(a[i], names) == normal_form(b[i], others));
        }
        assert(x =~= y);
    }
}

/// Two calls have the same form exactly if they call the same thing with arguments of the
/// same forms, in the same order; two tuples if their parts have the same forms.
pub proof fn lemma_call_forms(
    a: Expr,
    b: Expr,
    names: Map<usize, Seq<char>>,
    others: Map<usize, Seq<char>>,
)
    requires
        !(normal_form(a, names) is Opaque),
        !(normal_form(b, others) is Opaque),
    ensures
        a.kind matches ExprKind::MethodCall { method, receiver, args } ==> (
        b.kind matches ExprKind::MethodCall {
            method: other_method,
            receiver: other_receiver,
            args: other_args,
        } ==> (normal_form(a, names) == normal_form(b, others) <==> method@ == other_method@
            && normal_form(*receiver, names) == normal_form(*other_receiver, others)
            && same_forms(args@, other_args@, names, others))),
        a.kind matches ExprKind::Call { callee, args } ==> (b.kind matches ExprKind::Call {
            callee: other_callee,
            args: other_args,
        } ==> (normal_form(a, names) == normal_form(b, others) <==> named_path(*callee)
            == named_path(*other_callee) && same_forms(args@, other_args@, names, others))),
        a.kind matches ExprKind::Tup(items) ==> (b.kind matches ExprKind::Tup(other_items) ==> (
        normal_form(a, names) == normal_form(b, others) <==> same_forms(
            items@,
            other_items@,
            names,
            others,
        ))),
{
    match (a.kind, b.kind) {
        (
            ExprKind::MethodCall { method, receiver, args },
            ExprKind::MethodCall {
                method: other_method,
                receiver: other_receiver,
                args: other_args,
            },
        ) => {
            lemma_same_lists(args@, other_args@, names, others);
            let x = normal_forms(args@, names)->Some_0;
            let y = normal_forms(other_args@, others)->Some_0;
            let r = normal_form(*receiver, names);
            let q = normal_form(*other_receiver, others);
            if seq![r] + x == seq![q] + y {
                assert((seq![r] + x)[0] == (seq![q] + y)[0]);
                assert((seq![r] + x).drop_first() =~= x);
                assert((seq![q] + y).drop_first() =~= y);
            }
        },
        (
            ExprKind::Call { callee, args },
            ExprKind::Call { callee: other_callee, args: other_args },
        ) => {
            lemma_same_lists(args@, other_args@, names, others);
        },
        (ExprKind::Tup(items), ExprKind::Tup(other_items)) => {
            lemma_same_lists(items@, other_items@, names, others);
        },
        _ => {},
    }
}

/// A call has a normal form exactly if all its parts have one and, for a function, the
/// function is named by a path.
pub proof fn lemma_call_has_form(expr: Expr, names: Map<usize, Seq<char>>)
    ensures
        expr.kind matches ExprKind::MethodCall { receiver, args, .. } ==> (normal_form(expr, names)
            is Opaque <==> normal_form(*receiver, names) is Opaque || exists|i: int|
            0 <= i < args.len() && normal_form(#[trigger] args@[i], names) is Opaque),
        expr.kind matches ExprKind::Call { callee, args } ==> (normal_form(expr, names)
            is Opaque <==> !(callee.kind matches ExprKind::Path { res: Res::Def(_), .. }) || exists|
            i: int,
        | 0 <= i < args.len() && normal_form(#[trigger] args@[i], names) is Opaque),
        expr.kind matches ExprKind::Tup(items) ==> (normal_form(expr, names) is Opaque <==> exists|
            i: int,
        | 0 <= i < items.len() && normal_form(#[trigger] items@[i], names) is Opaque),
{
    match expr.kind {
        ExprKind::MethodCall { args, .. } => {
            lemma_forms_of_list(args@, names);
        },
        ExprKind::Call { args, .. } => {
            lemma_forms_of_list(args@, names);
        },
        ExprKind::Tup(items) => {
            lemma_forms_of_list(items@, names);
        },
        _ => {},
    }
}

/// Expressions of different kinds have different forms: each form tells the kind that it
/// is of. A local variable has the form of the field that it sets, and only if it sets
/// one; casts and bare blocks have the form of what is in them.
pub proof fn lemma_form_tells_kind(expr: Expr, names: Map<usize, Seq<char>>)
    ensures
        ({
            let form = normal_form(expr, names);
            match expr.kind {
                ExprKind::Lit(lit) => match lit {
                    Lit::Int(_) => form is LitInt,
                    Lit::Float(digits) => form == NormalText::LitFloat(digits@),
                    Lit::Bool(value) => form == NormalText::LitBool(value),
                    Lit::Str(value) => form == NormalText::LitStr(value@),
                    Lit::Char(value) => form == NormalText::LitChar(value),
                    Lit::Other => form is Opaque,
                },
                ExprKind::Path { resolved, res } => match res {
                    Res::Local(number) => form == if resolved && names.contains_key(number) {
                        NormalText::SiblingField(names[number])
                    } else {
                        NormalText::Opaque
                    },
                    _ => form is Opaque,
                },
                ExprKind::Binary(..) => form is BinOp || form is Opaque,
                ExprKind::Unary(..) => form is UnaryOp || form is Opaque,
                ExprKind::MethodCall { .. } => form is MethodCall || form is Opaque,
                ExprKind::Call { .. } => form is FnCall || form is Opaque,
                ExprKind::Field { .. } => form is FieldAccess || form is Opaque,
                ExprKind::Tup(_) => form is Tuple || form is Opaque,
                ExprKind::Cast(inner) => form == normal_form(*inner, names),
                ExprKind::Block { stmts, tail, .. } => match tail {
                    Some(inner) => form == if stmts.len() == 0 {
                        normal_form(*inner, names)
                    } else {
                        NormalText::Opaque
                    },
                    None => form is Opaque,
                },
                _ => form is Opaque,
            }
        }),
{
}

/// Two integers that fit have the same form exactly if they are the same.
pub proof fn lemma_integer_forms(a: u128, b: u128)
    requires
        a <= i128::MAX,
        b <= i128::MAX,
    ensures
        normal_lit(Lit::Int(a)) == normal_lit(Lit::Int(b)) <==> a == b,
        normal_lit(Lit::Int(a)) matches NormalText::LitInt(value) && value == a,
{
}

/// Whether the field `i` of a struct expression is set by the local variable `number`
/// alone.
pub open spec fn set_by(field: ExprField, number: usize) -> bool {
    hir::unblocked(field.expr).kind matches ExprKind::Path { resolved: true, res: Res::Local(n) }
        && n == number
}

/// A local variable stands for the last field that it sets by itself, and for none if
/// there is no such field.
pub proof fn lemma_local_stands_for_field(fields: Seq<ExprField>, number: usize)
    ensures
        local_names(fields).contains_key(number) <==> exists|i: int|
            0 <= i < fields.len() && set_by(#[trigger] fields[i], number),
        forall|i: int|
            0 <= i < fields.len() && set_by(#[trigger] fields[i], number) && (forall|j: int|
                i < j < fields.len() ==> !set_by(#[trigger] fields[j], number))
                ==> local_names(fields)[number] == fields[i].name@,
    decreases fields.len(),
{
    if fields.len() > 0 {
        let front = fields.drop_last();
        let last = fields.last();
        let n = fields.len() - 1;
        lemma_local_stands_for_field(front, number);
        assert(fields[n] == last);
        if exists|i: int| 0 <= i < front.len() && set_by(#[trigger] front[i], number) {
            let i = choose|i: int| 0 <= i < front.len() && set_by(#[trigger] front[i], number);
            assert(set_by(fields[i], number));
        }
        if exists|i: int| 0 <= i < fields.len() && set_by(#[trigger] fields[i], number) {
            let i = choose|i: int| 0 <= i < fields.len() && set_by(#[trigger] fields[i], number);
            if i < n {
                assert(set_by(front[i], number));
            }
        }
        assert forall|i: int|
            0 <= i < fields.len() && set_by(#[trigger] fields[i], number) && (forall|j: int|
                i < j < fields.len() ==> !set_by(
                    #[trigger] fields[j],
                    number,
                )) implies local_names(fields)[number] == fields[i].name@ by {
            if i < n {
                assert(!set_by(fields[n], number));
                assert(set_by(front[i], number));
                assert forall|j: int| i < j < front.len() implies !set_by(
                    #[trigger] front[j],
                    number,
                ) by {
                    assert(!set_by(fields[j], number));
                }
            }
        }
    }
}

/// A struct expression that sets all fields and that no macro produced counts once for
/// each field that it sets, with the form of what it sets it to.
pub proof fn lemma_each_field_of_site(expr: Expr, i: int)
    requires
        !expr.span.from_expansion,
        expr.kind matches ExprKind::Struct { res: Res::Def(def), fields, has_base, .. } && def.kind
            == hir::DefKind::Struct && !has_base && 0 <= i < fields.len(),
    ensures
        expr.kind matches ExprKind::Struct { res: Res::Def(def), fields, .. } && {
            &&& literal_observations(expr).len() == fields.len()
            &&& literal_observations(expr)[i] == (ObservationText {
                key: (hir::key_at(def.place), fields@[i].name@),
                expr: normal_form(fields@[i].expr, local_names(fields@)),
            })
        },
{
}

/// The forms that two lists of initializations give a field are those of the one, then
/// those of the other; an initialization of the field with a form gives that form, and
/// any other nothing.
pub proof fn lemma_forms_of_two(
    some: Seq<ObservationText>,
    others: Seq<ObservationText>,
    one: ObservationText,
    key: (Seq<char>, Seq<char>),
)
    ensures
        forms_of(some + others, key) == forms_of(some, key) + forms_of(others, key),
        forms_of(seq![one], key) == if one.key == key && !(one.expr is Opaque) {
            seq![one.expr]
        } else {
            Seq::<NormalText>::empty()
        },
    decreases others.len(),
{
    if others.len() == 0 {
        assert(some + others =~= some);
        assert(forms_of(some, key) + forms_of(others, key) =~= forms_of(some, key));
    } else {
        lemma_forms_of_two(some, others.drop_last(), one, key);
        assert((some + others).drop_last() =~= some + others.drop_last());
        assert((some + others).last() == others.last());
        assert(forms_of(some + others, key) =~= forms_of(some, key) + forms_of(others, key));
    }
    assert(seq![one].drop_last() =~= Seq::empty());
    assert(forms_of(seq![one].drop_last(), key) =~= Seq::empty());
    assert(forms_of(seq![one], key) =~= if one.key == key && !(one.expr is Opaque) {
        seq![one.expr]
    } else {
        Seq::<NormalText>::empty()
    });
}

/// The forms that two lists of artifacts give a field are those of the one, then those of
/// the other, and those of one artifact are those of its initializations, whatever target
/// it is of. The same holds of the candidates.
pub proof fn lemma_forms_of_every_target(
    some: Seq<TargetArtifact>,
    others: Seq<TargetArtifact>,
    one: TargetArtifact,
    key: (Seq<char>, Seq<char>),
)
    ensures
        all_forms(some + others, key) == all_forms(some, key) + all_forms(others, key),
        all_forms(seq![one], key) == forms_of(sorting::views(one.observations@), key),
        all_candidates(some + others) == all_candidates(some) + all_candidates(others),
        all_candidates(seq![one]) == sorting::views(one.candidates@),
    decreases others.len(),
{
    if others.len() == 0 {
        assert(some + others =~= some);
        assert(all_forms(some, key) + all_forms(others, key) =~= all_forms(some, key));
        assert(all_candidates(some) + all_candidates(others) =~= all_candidates(some));
    } else {
        lemma_forms_of_every_target(some, others.drop_last(), one, key);
        assert((some + others).drop_last() =~= some + others.drop_last());
        assert((some + others).last() == others.last());
        assert(all_forms(some + others, key) =~= all_forms(some, key) + all_forms(others, key));
        assert(all_candidates(some + others) =~= all_candidates(some) + all_candidates(others));
    }
    assert(seq![one].drop_last() =~= Seq::empty());
    assert(all_forms(seq![one].drop_last(), key) =~= Seq::empty());
    assert(all_forms(seq![one], key) =~= forms_of(sorting::views(one.observations@), key));
    assert(all_candidates(seq![one].drop_last()) =~= Seq::empty());
    assert(all_candidates(seq![one]) =~= sorting::views(one.candidates@));
}

/// A candidate field is reported exactly if two or more construction sites give it a
/// form, all of them the same, and that is not the field itself.
pub proof fn lemma_reported_exactly_if(artifacts: Seq<TargetArtifact>, key: (Seq<char>, Seq<char>))
    requires
        exists|k: int|
            0 <= k < all_candidates(artifacts).len() && (#[trigger] all_candidates(
                artifacts,
            )[k]).key == key,
    ensures
        ({
            let report = redundant_among(all_candidates(artifacts), artifacts);
            let forms = all_forms(artifacts, key);
            (exists|n: int| 0 <= n < report.len() && (#[trigger] report[n]).key == key) <==> {
                &&& forms.len() >= 2
                &&& forall|i: int, j: int|
                    0 <= i < forms.len() && 0 <= j < forms.len() ==> #[trigger] forms[i]
                        == #[trigger] forms[j]
                &&& forms[0] != NormalText::SiblingField(key.1)
            }
        }),
{
    let records = all_candidates(artifacts);
    let report = redundant_among(records, artifacts);
    let forms = all_forms(artifacts, key);
    if exists|n: int| 0 <= n < report.len() && (#[trigger] report[n]).key == key {
        let n = choose|n: int| 0 <= n < report.len() && (#[trigger] report[n]).key == key;
        lemma_redundant_among(records, artifacts, n);
        assert forall|i: int, j: int|
            0 <= i < forms.len() && 0 <= j < forms.len() implies #[trigger] forms[i]
            == #[trigger] forms[j] by {
            assert(forms[i] == forms[0] && forms[j] == forms[0]);
        }
    }
    if is_redundant(forms, key.1) {
        lemma_field_is_reported(records, artifacts, key);
    }
}

proof fn lemma_report_from_first(
    records: Seq<RecordText>,
    artifacts: Seq<TargetArtifact>,
    n: int,
)
    requires
        0 <= n < redundant_among(records, artifacts).len(),
    ensures
        exists|k: int|
            0 <= k < records.len() && {
                let record = #[trigger] records[k];
                let entry = redundant_among(records, artifacts)[n];
                &&& entry == redundant_entry(record, all_forms(artifacts, record.key))
                &&& forall|m: int| 0 <= m < k ==> (#[trigger] records[m]).key != record.key
            },
        forall|m: int|
            0 <= m < n ==> (#[trigger] redundant_among(records, artifacts)[m]).key
                != redundant_among(records, artifacts)[n].key,
    decreases records.len(),
{
    let shorter = records.drop_last();
    let front = redundant_among(shorter, artifacts);
    let now = redundant_among(records, artifacts);
    let entry = now[n];
    if n < front.len() {
        lemma_report_from_first(shorter, artifacts, n);
        assert(entry == front[n]);
        let k = choose|k: int|
            0 <= k < shorter.len() && {
                let record = #[trigger] shorter[k];
                &&& front[n] == redundant_entry(record, all_forms(artifacts, record.key))
                &&& forall|m: int| 0 <= m < k ==> (#[trigger] shorter[m]).key != record.key
            };
        assert(records[k] == shorter[k]);
        assert forall|m: int| 0 <= m < k implies (#[trigger] records[m]).key != records[k].key by {
            assert(shorter[m] == records[m]);
        }
        assert forall|m: int| 0 <= m < n implies (#[trigger] now[m]).key != entry.key by {
            assert(now[m] == front[m]);
        }
    } else {
        let k = records.len() - 1;
        assert forall|m: int| 0 <= m < k implies (#[trigger] records[m]).key != records[k].key by {
            assert(shorter[m] == records[m]);
        }
        assert(entry == redundant_entry(records[k], all_forms(artifacts, records[k].key)));
        assert forall|m: int| 0 <= m < n implies (#[trigger] now[m]).key != entry.key by {
            assert(now[m] == front[m]);
            lemma_report_from_first(shorter, artifacts, m);
            let j = choose|j: int|
                0 <= j < shorter.len() && {
                    let record = #[trigger] shorter[j];
                    &&& front[m] == redundant_entry(record, all_forms(artifacts, record.key))
                    &&& forall|q: int| 0 <= q < j ==> (#[trigger] shorter[q]).key != record.key
                };
            assert(shorter[j].key == front[m].key);
        }
    }
}

/// No field is reported twice, and an entry is made of the first record of its field and
/// of the forms that the construction sites give it.
pub proof fn lemma_report_entries(artifacts: Seq<TargetArtifact>, n: int)
    requires
        0 <= n < redundant_among(all_candidates(artifacts), artifacts).len(),
    ensures
        ({
            let records = all_candidates(artifacts);
            let report = redundant_among(records, artifacts);
            let entry = report[n];
            let forms = all_forms(artifacts, entry.key);
            &&& entry.expr == forms[0]
            &&& entry.construction_site_count == forms.len()
            &&& exists|k: int|
                0 <= k < records.len() && {
                    let record = #[trigger] records[k];
                    &&& entry.key == record.key
                    &&& entry.display_path == record.display_path
                    &&& entry.file == record.file
                    &&& entry.line == record.line
                    &&& entry.column == record.column
                    &&& forall|m: int| 0 <= m < k ==> (#[trigger] records[m]).key != record.key
                }
            &&& forall|m: int| 0 <= m < n ==> (#[trigger] report[m]).key != entry.key
        }),
{
    lemma_report_from_first(all_candidates(artifacts), artifacts, n);
}

proof fn lemma_any_mentions(forms: Seq<NormalText>, field: Seq<char>)
    ensures
        any_mentions_other(forms, field) <==> exists|i: int|
            0 <= i < forms.len() && mentions_other(#[trigger] forms[i], field),
    decreases forms.len(),
{
    if forms.len() > 0 {
        let front = forms.drop_last();
        lemma_any_mentions(front, field);
        assert(forms[forms.len() - 1] == forms.last());
        if any_mentions_other(front, field) {
            let i = choose|i: int|
                0 <= i < front.len() && mentions_other(#[trigger] front[i], field);
            assert(mentions_other(forms[i], field));
        }
        if exists|i: int| 0 <= i < forms.len() && mentions_other(#[trigger] forms[i], field) {
            let i = choose|i: int|
                0 <= i < forms.len() && mentions_other(#[trigger] forms[i], field);
            if i < front.len() {
                assert(mentions_other(front[i], field));
            }
        }
    }
}

/// A form mentions another field exactly if it is one or one of its parts, wherever it
/// stands, mentions one; a literal mentions none.
pub proof fn lemma_mentions_through_parts(form: NormalText, field: Seq<char>)
    ensures
        match form {
            NormalText::SiblingField(name) => mentions_other(form, field) == (name != field),
            NormalText::BinOp(_, left, right) => mentions_other(form, field) == (mentions_other(
                *left,
                field,
            ) || mentions_other(*right, field)),
            NormalText::UnaryOp(_, inner) => mentions_other(form, field) == mentions_other(
                *inner,
                field,
            ),
            NormalText::FieldAccess(base, _) => mentions_other(form, field) == mentions_other(
                *base,
                field,
            ),
            NormalText::MethodCall(_, parts) => mentions_other(form, field) == exists|i: int|
                0 <= i < parts.len() && mentions_other(#[trigger] parts[i], field),
            NormalText::FnCall(_, parts) => mentions_other(form, field) == exists|i: int|
                0 <= i < parts.len() && mentions_other(#[trigger] parts[i], field),
            NormalText::Tuple(parts) => mentions_other(form, field) == exists|i: int|
                0 <= i < parts.len() && mentions_other(#[trigger] parts[i], field),
            _ => !mentions_other(form, field),
        },
{
    match form {
        NormalText::MethodCall(_, parts) => {
            lemma_any_mentions(parts, field);
        },
        NormalText::FnCall(_, parts) => {
            lemma_any_mentions(parts, field);
        },
        NormalText::Tuple(parts) => {
            lemma_any_mentions(parts, field);
        },
        _ => {},
    }
}

/// The candidates of a struct that no macro produced are its named fields, each under its
/// name and with its span; nothing else has candidates.
pub proof fn lemma_named_fields_are_candidates(item: Item)
    ensures
        match item.kind {
            ItemKind::Struct(VariantData::Struct(fields)) => if item.span.from_expansion {
                item_candidates(item).len() == 0
            } else {
                &&& item_candidates(item).len() == fields.len()
                &&& forall|i: int|
                    0 <= i < fields.len() ==> {
                        let c = #[trigger] item_candidates(item)[i];
                        &&& c.key == (hir::key_at(item.place), fields@[i].name@)
                        &&& c.display_path == hir::key_at(item.place) + "::"@ + fields@[i].name@
                        &&& c.span == fields@[i].span
                    }
            },
            _ => item_candidates(item).len() == 0,
        },
{
}

proof fn lemma_last_entry(entries: Seq<EntryText>, key: (Seq<char>, Seq<char>), i: int)
    requires
        0 <= i < entries.len(),
        entries[i].key == key,
        forall|j: int| i < j < entries.len() ==> (#[trigger] entries[j]).key != key,
    ensures
        entry_for(entries, key) == Some(entries[i]),
    decreases entries.len(),
{
    let n = entries.len() - 1;
    if i < n {
        assert(entries[n].key != key);
        lemma_last_entry(entries.drop_last(), key, i);
    }
}

/// The warnings on two lists of candidates are those on the one, then those on the other.
pub proof fn lemma_warnings_of_two(
    some: Seq<CandidateText>,
    others: Seq<CandidateText>,
    entries: Seq<EntryText>,
)
    ensures
        warnings(some + others, entries) == warnings(some, entries) + warnings(others, entries),
    decreases others.len(),
{
    if others.len() == 0 {
        assert(some + others =~= some);
        assert(warnings(some, entries) + warnings(others, entries) =~= warnings(some, entries));
    } else {
        lemma_warnings_of_two(some, others.drop_last(), entries);
        assert((some + others).drop_last() =~= some + others.drop_last());
        assert((some + others).last() == others.last());
        assert(warnings(some + others, entries) =~= warnings(some, entries) + warnings(
            others,
            entries,
        ));
    }
}

/// A candidate without an entry for its field has no warning.
pub proof fn lemma_no_entry_no_warning(one: CandidateText, entries: Seq<EntryText>)
    requires
        forall|i: int| 0 <= i < entries.len() ==> (#[trigger] entries[i]).key != one.key,
    ensures
        warnings(seq![one], entries).len() == 0,
{
    assert(seq![one].drop_last() =~= Seq::empty());
    assert(seq![one].last() == one);
    assert(warnings(seq![one].drop_last(), entries) =~= Seq::empty());
    lemma_entry_found(entries, one.key);
    if let Some(entry) = entry_for(entries, one.key) {
        let i = choose|i: int| 0 <= i < entries.len() && entries[i] == entry;
        assert(entries[i].key != one.key);
    }
}

/// A candidate with an entry for its field has one warning, made of the last such entry,
/// at its own span.
pub proof fn lemma_one_warning_for_entry(one: CandidateText, entries: Seq<EntryText>, i: int)
    requires
        0 <= i < entries.len(),
        entries[i].key == one.key,
        forall|j: int| i < j < entries.len() ==> (#[trigger] entries[j]).key != one.key,
    ensures
        warnings(seq![one], entries) == seq![field_warning(one, entries[i])],
        field_warning(one, entries[i]).span == one.span.id,
{
    assert(seq![one].drop_last() =~= Seq::empty());
    assert(seq![one].last() == one);
    assert(warnings(seq![one].drop_last(), entries) =~= Seq::empty());
    lemma_last_entry(entries, one.key, i);
    assert(warnings(seq![one], entries) =~= seq![field_warning(one, entries[i])]);
}

/// The records of two lists of candidates are those of the one, then those of the other;
/// a candidate in a file on disk, with a line and a column that fit, has one record with
/// its location, and any other has none.
pub proof fn lemma_located_of_two(
    some: Seq<CandidateText>,
    others: Seq<CandidateText>,
    one: CandidateText,
)
    ensures
        located_records(some + others) == located_records(some) + located_records(others),
        ({
            let start = one.span.start;
            let records = located_records(seq![one]);
            if start.local_path is Some && start.line <= u32::MAX && start.column < u32::MAX {
                &&& records.len() == 1
                &&& records[0].key == one.key
                &&& records[0].display_path == one.display_path
                &&& records[0].file == start.local_path->Some_0@
                &&& records[0].line == start.line
                &&& records[0].column == start.column + 1
            } else {
                records.len() == 0
            }
        }),
    decreases others.len(),
{
    if others.len() == 0 {
        assert(some + others =~= some);
        assert(located_records(some) + located_records(others) =~= located_records(some));
    } else {
        lemma_located_of_two(some, others.drop_last(), one);
        assert((some + others).drop_last() =~= some + others.drop_last());
        assert((some + others).last() == others.last());
        assert(located_records(some + others) =~= located_records(some) + located_records(others));
    }
    assert(seq![one].drop_last() =~= Seq::empty());
    assert(located_records(seq![one].drop_last()) =~= Seq::empty());
}

/// What is said of a field tells whether it repeats a constant or follows from other
/// fields.
pub proof fn lemma_what_is_said(
    form: NormalText,
    other: NormalText,
    field: Seq<char>,
    other_field: Seq<char>,
)
    ensures
        redundancy(form, field).0 == redundancy(other, other_field).0 <==> mentions_other(
            form,
            field,
        ) == mentions_other(other, other_field),
        redundancy(form, field).1 == redundancy(other, other_field).1 <==> mentions_other(
            form,
            field,
        ) == mentions_other(other, other_field),
        mentions_other(form, field) ==> redundancy(form, field).1
            == "consider making this a method instead of a stored field"@,
{
    reveal_strlit("an expression derived from other fields");
    reveal_strlit("the same constant value");
    reveal_strlit("consider making this a method instead of a stored field");
    reveal_strlit("consider making this a const or removing it from the struct");
    let derived = "consider making this a method instead of a stored field"@;
    let constant = "consider making this a const or removing it from the struct"@;
    assert("an expression derived from other fields"@[0] == 'a');
    assert("the same constant value"@[0] == 't');
    assert(derived[23] == 'm' && constant[23] == 'c');
}

/// A warning names the field and says at how many construction sites it is so.
pub proof fn lemma_warning_names_field(candidate: CandidateText, entry: EntryText)
    ensures
        ({
            let message = field_warning(candidate, entry).message;
            let field = candidate.key.1;
            let count = text::decimal(entry.construction_site_count);
            let n = message.len() - 19;
            &&& message.subrange(7, 7 + field.len() as int) == field
            &&& message.subrange(n - count.len(), n) == count
        }),
{
    reveal_strlit("field `");
    reveal_strlit(" construction sites");
    let message = field_warning(candidate, entry).message;
    let field = candidate.key.1;
    let count = text::decimal(entry.construction_site_count);
    let n = message.len() - 19;
    assert(message.subrange(7, 7 + field.len() as int) =~= field);
    assert(message.subrange(n - count.len(), n) =~= count);
}

/// The values of a record are those in its fields.
pub proof fn lemma_record_values(record: CandidateRecord, seen: ObservationRecord, entry: ReportEntry)
    ensures
        record@.key == (record.key.struct_def.path@, record.key.field_name@),
        record@.display_path == record.display_path@,
        record@.file == record.file@,
        record@.line == record.line,
        record@.column == record.column,
        seen@.key == (seen.key.struct_def.path@, seen.key.field_name@),
        seen@.expr == text_of(seen.expr),
        entry@.key == (entry.key.struct_def.path@, entry.key.field_name@),
        entry@.display_path == entry.display_path@,
        entry@.expr == text_of(entry.expr),
        entry@.construction_site_count == entry.construction_site_count,
        entry@.file == entry.file@,
        entry@.line == entry.line,
        entry@.column == entry.column,
{
}

} // verus!

//! `Option` parameters, associated constants and fields that only ever hold one
//! variant.
use vstd::prelude::*;

use crate::hir;
use crate::hir::{Def, DefKind, DefPath, Expr, ExprField, ExprKind, FieldDef, FnSig, ImplItem, ImplItemKind, ImplOwner, Item, ItemKind, KnownType, Res, TraitItem, TraitItemKind, TyKind, VariantData};
use crate::lists;
use crate::option_report;
use crate::option_report::{Candidate, LintState, ObservationRecord, OptionKey, OptionVariant};
use crate::sorting;
use crate::text;
use crate::utils::DefKey;

verus! {

/// A place for an `Option`.
#[derive(Debug, PartialEq, Eq, PartialOrd, Ord)]
pub enum CandidateKey {
    FunctionParam { function: DefKey, index: usize },
    TraitConst { trait_item: DefKey },
    StructField { struct_item: DefKey, index: usize },
}

/// The values of a place.
pub ghost enum KeyText {
    FunctionParam(Seq<char>, usize),
    TraitConst(Seq<char>),
    StructField(Seq<char>, usize),
}

impl View for CandidateKey {
    type V = KeyText;

    open spec fn view(&self) -> KeyText {
        match self {
            CandidateKey::FunctionParam { function, index } => KeyText::FunctionParam(
                function@,
                *index,
            ),
            CandidateKey::TraitConst { trait_item } => KeyText::TraitConst(trait_item@),
            CandidateKey::StructField { struct_item, index } => KeyText::StructField(
                struct_item@,
                *index,
            ),
        }
    }
}

impl OptionKey for CandidateKey {
    open spec fn action_text(key: KeyText) -> Seq<char> {
        match key {
            KeyText::FunctionParam(..) => "passed"@,
            KeyText::TraitConst(..) => "assigned"@,
            KeyText::StructField(..) => "set"@,
        }
    }

    open spec fn advice_text(key: KeyText, variant: OptionVariant) -> Seq<char> {
        match (key, variant) {
            (
                KeyText::FunctionParam(..),
                OptionVariant::Present,
            ) => "consider making this parameter non-optional"@,
            (
                KeyText::FunctionParam(..),
                OptionVariant::Absent,
            ) => "consider removing this parameter or using a clearer API for absence"@,
            (
                KeyText::TraitConst(..),
                OptionVariant::Present,
            ) => "consider making this associated const non-optional"@,
            (
                KeyText::TraitConst(..),
                OptionVariant::Absent,
            ) => "consider removing this associated const or using a clearer sentinel"@,
            (
                KeyText::StructField(..),
                OptionVariant::Present,
            ) => "consider making this field non-optional"@,
            (
                KeyText::StructField(..),
                OptionVariant::Absent,
            ) => "consider removing this field or using a clearer sentinel"@,
        }
    }

    fn same(&self, other: &CandidateKey) -> (b: bool) {
        match (self, other) {
            (
                CandidateKey::FunctionParam { function: a, index: i },
                CandidateKey::FunctionParam { function: b, index: j },
            ) => *i == *j && text::equal(a.path.as_str(), b.path.as_str()),
            (
                CandidateKey::TraitConst { trait_item: a },
                CandidateKey::TraitConst { trait_item: b },
            ) => text::equal(a.path.as_str(), b.path.as_str()),
            (
                CandidateKey::StructField { struct_item: a, index: i },
                CandidateKey::StructField { struct_item: b, index: j },
            ) => *i == *j && text::equal(a.path.as_str(), b.path.as_str()),
            _ => false,
        }
    }

    fn copied(&self) -> (r: CandidateKey) {
        match self {
            CandidateKey::FunctionParam { function, index } => CandidateKey::FunctionParam {
                function: function.clone(),
                index: *index,
            },
            CandidateKey::TraitConst { trait_item } => CandidateKey::TraitConst {
                trait_item: trait_item.clone(),
            },
            CandidateKey::StructField { struct_item, index } => CandidateKey::StructField {
                struct_item: struct_item.clone(),
                index: *index,
            },
        }
    }

    fn action(&self) -> (r: &'static str) {
        match self {
            CandidateKey::FunctionParam { .. } => "passed",
            CandidateKey::TraitConst { .. } => "assigned",
            CandidateKey::StructField { .. } => "set",
        }
    }

    fn advice(&self, variant: OptionVariant) -> (r: &'static str) {
        match (self, variant) {
            (
                CandidateKey::FunctionParam { .. },
                OptionVariant::Present,
            ) => "consider making this parameter non-optional",
            (
                CandidateKey::FunctionParam { .. },
                OptionVariant::Absent,
            ) => "consider removing this parameter or using a clearer API for absence",
            (
                CandidateKey::TraitConst { .. },
                OptionVariant::Present,
            ) => "consider making this associated const non-optional",
            (
                CandidateKey::TraitConst { .. },
                OptionVariant::Absent,
            ) => "consider removing this associated const or using a clearer sentinel",
            (
                CandidateKey::StructField { .. },
                OptionVariant::Present,
            ) => "consider making this field non-optional",
            (
                CandidateKey::StructField { .. },
                OptionVariant::Absent,
            ) => "consider removing this field or using a clearer sentinel",
        }
    }
}

/// The values of a candidate.
pub type CandidateText = option_report::CandidateText<KeyText>;

/// The values of an observation.
pub type ObservationText = option_report::ObservationText<KeyText>;

/// The number of leading parameters that are not looked at: `self`.
pub open spec fn skipped(sig: FnSig) -> int {
    if sig.is_method {
        1
    } else {
        0
    }
}

/// The candidate for the parameter `index`, counted behind `self`.
pub open spec fn param_candidate(
    place: DefPath,
    sig: FnSig,
    kind: Seq<char>,
    index: int,
) -> CandidateText {
    option_report::CandidateText {
        key: KeyText::FunctionParam(hir::key_at(place), index as usize),
        display_path: hir::key_at(place),
        description: "parameter #"@ + text::decimal((index + 1) as nat) + " of "@ + kind + " `"@
            + hir::key_at(place) + "`"@,
        span: sig.written@[index + skipped(sig)],
    }
}

/// Whether the parameter `index`, counted behind `self`, is an `Option`.
pub open spec fn is_option_param(sig: FnSig, index: int) -> bool {
    index + skipped(sig) < sig.inputs.len() && hir::is_known(
        sig.inputs@[index + skipped(sig)],
        KnownType::Option,
    )
}

/// The candidates among the first `n` parameters behind `self`.
pub open spec fn param_candidates(
    place: DefPath,
    sig: FnSig,
    kind: Seq<char>,
    n: int,
) -> Seq<CandidateText>
    decreases n,
{
    if n <= 0 {
        Seq::empty()
    } else {
        let front = param_candidates(place, sig, kind, n - 1);
        if is_option_param(sig, n - 1) {
            front.push(param_candidate(place, sig, kind, n - 1))
        } else {
            front
        }
    }
}

/// The candidates among all written parameters.
pub open spec fn fn_candidates(place: DefPath, sig: FnSig, kind: Seq<char>) -> Seq<CandidateText> {
    param_candidates(place, sig, kind, sig.written.len() - skipped(sig))
}

/// Adds the `Option` parameters of the function at `place`.
pub fn register_function_param_candidates(
    place: &DefPath,
    sig: &FnSig,
    kind: &str,
    candidates: &mut Vec<Candidate<CandidateKey>>,
)
    ensures
        sorting::views(final(candidates)@) == sorting::views(old(candidates)@) + fn_candidates(
            *place,
            *sig,
            kind@,
        ),
{
    let ghost known = sorting::views(candidates@);
    let skip: usize = if sig.is_method {
        1
    } else {
        0
    };
    proof {
        assert(known + Seq::empty() =~= known);
    }
    if sig.written.len() < skip {
        return;
    }
    let count: usize = sig.written.len() - skip;
    let mut index: usize = 0;
    proof {
        assert(known + param_candidates(*place, *sig, kind@, 0) =~= known);
    }
    while index < count
        invariant
            index <= count,
            skip == skipped(*sig),
            count + skip == sig.written.len(),
            sorting::views(candidates@) == known + param_candidates(
                *place,
                *sig,
                kind@,
                index as int,
            ),
        decreases count - index,
    {
        let ghost had = candidates@;
        if index + skip < sig.inputs.len() && sig.inputs[index + skip].is_item(KnownType::Option) {
            let key = place.key();
            let mut description = "parameter #".to_owned();
            description.append(text::decimal_string(index + 1).as_str());
            description.append(" of ");
            description.append(kind);
            description.append(" `");
            description.append(key.path.as_str());
            description.append("`");
            let candidate = Candidate {
                display_path: key.path.clone(),
                key: CandidateKey::FunctionParam { function: key, index },
                description,
                span: sig.written[index + skip].copied(),
            };
            let ghost value = candidate@;
            candidates.push(candidate);
            proof {
                assert(sorting::views(candidates@) =~= sorting::views(had).push(value));
                assert(value == param_candidate(*place, *sig, kind@, index as int));
                assert(known + param_candidates(*place, *sig, kind@, index + 1) =~= (known
                    + param_candidates(*place, *sig, kind@, index as int)).push(value));
            }
        }
        index = index + 1;
    }
}

/// The candidate for the field `index` of the struct at `place`.
pub open spec fn field_candidate(
    place: DefPath,
    fields: Seq<FieldDef>,
    tuple: bool,
    index: int,
) -> CandidateText {
    let struct_path = hir::key_at(place);
    option_report::CandidateText {
        key: KeyText::StructField(struct_path, index as usize),
        display_path: if tuple {
            struct_path + "::"@ + text::decimal(index as nat)
        } else {
            struct_path + "::"@ + fields[index].name@
        },
        description: if tuple {
            "field #"@ + text::decimal((index + 1) as nat) + " of tuple struct `"@ + struct_path
                + "`"@
        } else {
            "field `"@ + struct_path + "::"@ + fields[index].name@ + "`"@
        },
        span: fields[index].span,
    }
}

/// The candidates among the first `n` fields.
pub open spec fn field_candidates(
    place: DefPath,
    fields: Seq<FieldDef>,
    tuple: bool,
    n: int,
) -> Seq<CandidateText>
    decreases n,
{
    if n <= 0 {
        Seq::empty()
    } else {
        let front = field_candidates(place, fields, tuple, n - 1);
        if hir::is_known(fields[n - 1].ty, KnownType::Option) {
            front.push(field_candidate(place, fields, tuple, n - 1))
        } else {
            front
        }
    }
}

/// Adds the `Option` fields of the struct at `place`.
pub fn register_struct_field_candidates(
    place: &DefPath,
    fields: &Vec<FieldDef>,
    tuple: bool,
    candidates: &mut Vec<Candidate<CandidateKey>>,
)
    ensures
        sorting::views(final(candidates)@) == sorting::views(old(candidates)@) + field_candidates(
            *place,
            fields@,
            tuple,
            fields.len() as int,
        ),
{
    let ghost known = sorting::views(candidates@);
    let struct_key = place.key();
    let mut index: usize = 0;
    proof {
        assert(known + field_candidates(*place, fields@, tuple, 0) =~= known);
    }
    while index < fields.len()
        invariant
            index <= fields.len(),
            struct_key@ == hir::key_at(*place),
            sorting::views(candidates@) == known + field_candidates(
                *place,
                fields@,
                tuple,
                index as int,
            ),
        decreases fields.len() - index,
    {
        let ghost had = candidates@;
        if fields[index].ty.is_item(KnownType::Option) {
            let mut display_path = struct_key.path.clone();
            display_path.append("::");
            let description = if tuple {
                display_path.append(text::decimal_string(index).as_str());
                let mut words = "field #".to_owned();
                words.append(text::decimal_string(index + 1).as_str());
                words.append(" of tuple struct `");
                words.append(struct_key.path.as_str());
                words.append("`");
                words
            } else {
                display_path.append(fields[index].name.as_str());
                let mut words = "field `".to_owned();
                words.append(struct_key.path.as_str());
                words.append("::");
                words.append(fields[index].name.as_str());
                words.append("`");
                words
            };
            let candidate = Candidate {
                key: CandidateKey::StructField { struct_item: struct_key.clone(), index },
                display_path,
                description,
                span: fields[index].span.copied(),
            };
            let ghost value = candidate@;
            candidates.push(candidate);
            proof {
                assert(sorting::views(candidates@) =~= sorting::views(had).push(value));
                assert(value == field_candidate(*place, fields@, tuple, index as int));
                assert(known + field_candidates(*place, fields@, tuple, index + 1) =~= (known
                    + field_candidates(*place, fields@, tuple, index as int)).push(value));
            }
        }
        index = index + 1;
    }
}

/// The candidates of an item that no macro produced: the `Option` parameters of a
/// function, the `Option` fields of a struct.
pub open spec fn item_candidates(item: Item) -> Seq<CandidateText> {
    if item.span.from_expansion {
        Seq::empty()
    } else {
        match item.kind {
            ItemKind::Fn(sig) => fn_candidates(item.place, sig, "function"@),
            ItemKind::Struct(VariantData::Struct(fields)) => field_candidates(
                item.place,
                fields@,
                false,
                fields.len() as int,
            ),
            ItemKind::Struct(VariantData::Tuple(fields)) => field_candidates(
                item.place,
                fields@,
                true,
                fields.len() as int,
            ),
            _ => Seq::empty(),
        }
    }
}

/// The candidate for an associated constant of a trait.
pub open spec fn const_candidate(item: TraitItem) -> CandidateText {
    option_report::CandidateText {
        key: KeyText::TraitConst(hir::key_at(item.place)),
        display_path: hir::key_at(item.place),
        description: "associated const `"@ + hir::key_at(item.place) + "`"@,
        span: item.span,
    }
}

/// The candidates of an item of a trait that no macro produced.
pub open spec fn trait_candidates(item: TraitItem) -> Seq<CandidateText> {
    if item.span.from_expansion {
        Seq::empty()
    } else {
        match item.kind {
            TraitItemKind::Fn(sig) => fn_candidates(item.place, sig, "trait method"@),
            TraitItemKind::Const(ty, _) => if hir::is_known(ty, KnownType::Option) {
                seq![const_candidate(item)]
            } else {
                Seq::empty()
            },
            TraitItemKind::Type => Seq::empty(),
        }
    }
}

/// What an item of a trait shows: the value that the trait gives to an associated
/// constant.
pub open spec fn trait_observations(item: TraitItem) -> Seq<ObservationText> {
    match item.kind {
        TraitItemKind::Const(ty, Some(value)) => if !item.span.from_expansion && hir::is_known(
            ty,
            KnownType::Option,
        ) {
            seq![
                option_report::ObservationText {
                    key: KeyText::TraitConst(hir::key_at(item.place)),
                    value: option_report::observed(value),
                },
            ]
        } else {
            Seq::empty()
        },
        _ => Seq::empty(),
    }
}

/// The candidates of an item of an impl: the `Option` parameters of a function that
/// belongs to no trait and that no macro produced.
pub open spec fn impl_candidates(item: ImplItem) -> Seq<CandidateText> {
    match item.kind {
        ImplItemKind::Fn(sig) => if !item.span.from_expansion && item.owner is Inherent {
            fn_candidates(
                item.place,
                sig,
                if sig.is_method {
                    "method"@
                } else {
                    "associated function"@
                },
            )
        } else {
            Seq::empty()
        },
        _ => Seq::empty(),
    }
}

/// What an item of an impl shows: the value of an associated constant of a trait.
pub open spec fn impl_observations(item: ImplItem) -> Seq<ObservationText> {
    match (item.kind, item.implements) {
        (ImplItemKind::Const(value), Some(trait_item)) => seq![
            option_report::ObservationText {
                key: KeyText::TraitConst(hir::key_at(trait_item)),
                value: option_report::observed(value),
            },
        ],
        _ => Seq::empty(),
    }
}

/// The function that a definition is: for an associated function the one of the
/// trait that it implements.
pub open spec fn canonical_function(def: Def) -> Option<Seq<char>> {
    match def.assoc {
        Some(assoc) => if assoc.is_fn {
            match assoc.trait_item_or_self {
                Some(place) => Some(hir::key_at(place)),
                None => None,
            }
        } else {
            None
        },
        None => if def.kind == DefKind::Fn {
            Some(hir::key_at(def.place))
        } else {
            None
        },
    }
}

/// The function that `def` is.
pub fn canonical_function_def(def: &Def) -> (r: Option<DefKey>)
    ensures
        r is Some <==> canonical_function(*def) is Some,
        r matches Some(key) ==> canonical_function(*def) == Some(key@),
{
    match &def.assoc {
        Some(assoc) => {
            if !assoc.is_fn {
                return None;
            }
            match &assoc.trait_item_or_self {
                Some(place) => Some(place.key()),
                None => None,
            }
        },
        None => if def.kind == DefKind::Fn {
            Some(def.place.key())
        } else {
            None
        },
    }
}

/// The definition that a call calls.
pub open spec fn called(expr: Expr, callee: Expr) -> Option<Def> {
    match expr.type_dependent {
        Some(def) => Some(def),
        None => match callee.kind {
            ExprKind::Path { res: Res::Def(def), .. } => Some(def),
            _ => None,
        },
    }
}

/// The definition that the call `expr` of `callee` calls.
pub fn called_def<'a>(expr: &'a Expr, callee: &'a Expr) -> (r: Option<&'a Def>)
    ensures
        r is Some <==> called(*expr, *callee) is Some,
        r matches Some(def) ==> called(*expr, *callee) == Some(*def),
{
    match &expr.type_dependent {
        Some(def) => Some(def),
        None => match &callee.kind {
            ExprKind::Path { res, .. } => match res {
                Res::Def(def) => Some(def),
                _ => None,
            },
            _ => None,
        },
    }
}

/// The tuple struct that a definition constructs.
pub open spec fn constructed(def: Def) -> Option<Seq<char>> {
    match def.parent {
        Some(owner) => if def.kind == DefKind::Ctor && owner.kind == DefKind::Struct {
            Some(hir::key_at(owner.place))
        } else {
            None
        },
        None => None,
    }
}

/// The tuple struct that `def` constructs.
pub fn tuple_struct_def(def: &Def) -> (r: Option<DefKey>)
    ensures
        r is Some <==> constructed(*def) is Some,
        r matches Some(key) ==> constructed(*def) == Some(key@),
{
    if def.kind != DefKind::Ctor {
        return None;
    }
    match &def.parent {
        Some(owner) => if owner.kind == DefKind::Struct {
            Some(owner.place.key())
        } else {
            None
        },
        None => None,
    }
}

/// What the arguments from `skip` on show of the parameters of `function`.
pub open spec fn param_observations(
    function: Seq<char>,
    args: Seq<Expr>,
    skip: nat,
) -> Seq<ObservationText>
    decreases args.len(),
{
    if args.len() <= skip {
        Seq::empty()
    } else {
        param_observations(function, args.drop_last(), skip).push(
            option_report::ObservationText {
                key: KeyText::FunctionParam(function, (args.len() - 1 - skip) as usize),
                value: option_report::observed(args.last()),
            },
        )
    }
}

/// What the arguments of a constructor show of the fields of `struct_item`.
pub open spec fn ctor_observations(struct_item: Seq<char>, args: Seq<Expr>) -> Seq<ObservationText>
    decreases args.len(),
{
    if args.len() == 0 {
        Seq::empty()
    } else {
        ctor_observations(struct_item, args.drop_last()).push(
            option_report::ObservationText {
                key: KeyText::StructField(struct_item, (args.len() - 1) as usize),
                value: option_report::observed(args.last()),
            },
        )
    }
}

/// The index of the field `name`.
pub open spec fn field_index(names: Seq<String>, name: Seq<char>, from: int) -> Option<int>
    decreases names.len() - from,
{
    if from >= names.len() {
        None
    } else if names[from]@ == name {
        Some(from)
    } else {
        field_index(names, name, from + 1)
    }
}

/// The index of the field `field_name` of the struct `def`.
pub fn field_index_by_name(def: &Def, field_name: &str) -> (r: Option<usize>)
    ensures
        r is Some <==> field_index(def.field_names@, field_name@, 0) is Some,
        r matches Some(index) ==> field_index(def.field_names@, field_name@, 0) == Some(
            index as int,
        ),
{
    let mut i: usize = 0;
    while i < def.field_names.len()
        invariant
            i <= def.field_names.len(),
            field_index(def.field_names@, field_name@, 0) == field_index(
                def.field_names@,
                field_name@,
                i as int,
            ),
        decreases def.field_names.len() - i,
    {
        if text::equal(def.field_names[i].as_str(), field_name) {
            return Some(i);
        }
        i = i + 1;
    }
    None
}

/// What a struct expression shows of the fields of the struct `def`.
pub open spec fn literal_observations(def: Def, fields: Seq<ExprField>) -> Seq<ObservationText>
    decreases fields.len(),
{
    if fields.len() == 0 {
        Seq::empty()
    } else {
        let front = literal_observations(def, fields.drop_last());
        match field_index(def.field_names@, fields.last().name@, 0) {
            Some(index) => front.push(
                option_report::ObservationText {
                    key: KeyText::StructField(hir::key_at(def.place), index as usize),
                    value: option_report::observed(fields.last().expr),
                },
            ),
            None => front,
        }
    }
}

/// The struct that the value of an expression is.
pub open spec fn struct_of(expr: Expr) -> Option<Def> {
    match hir::unreferenced(expr.ty).kind {
        TyKind::Adt(adt) => if adt.is_struct {
            Some(adt.def)
        } else {
            None
        },
        _ => None,
    }
}

/// The struct that the value of `expr` is.
pub fn expr_struct_def<'a>(expr: &'a Expr) -> (r: Option<&'a Def>)
    ensures
        r is Some <==> struct_of(*expr) is Some,
        r matches Some(def) ==> struct_of(*expr) == Some(*def),
{
    match &hir::peel_refs(&expr.ty).kind {
        TyKind::Adt(adt) => if adt.is_struct {
            Some(&adt.def)
        } else {
            None
        },
        _ => None,
    }
}

/// What an assignment shows of the field that it assigns.
pub open spec fn assignment_observations(target: Expr, value: Expr) -> Seq<ObservationText> {
    match hir::unblocked(target).kind {
        ExprKind::Field { base, name } => match struct_of(*base) {
            Some(def) => match field_index(def.field_names@, name@, 0) {
                Some(index) => seq![
                    option_report::ObservationText {
                        key: KeyText::StructField(hir::key_at(def.place), index as usize),
                        value: option_report::observed(value),
                    },
                ],
                None => Seq::empty(),
            },
            None => Seq::empty(),
        },
        _ => Seq::empty(),
    }
}

/// What a call shows: of the fields of the tuple struct that it constructs, or else
/// of the parameters of the function that it calls.
pub open spec fn call_observations(expr: Expr, callee: Expr, args: Seq<Expr>) -> Seq<
    ObservationText,
> {
    match called(expr, callee) {
        Some(def) => if !expr.span.from_expansion && constructed(def) is Some {
            ctor_observations(constructed(def)->Some_0, args)
        } else {
            match canonical_function(def) {
                Some(function) => param_observations(
                    function,
                    args,
                    match def.assoc {
                        Some(assoc) => if assoc.is_method {
                            1nat
                        } else {
                            0nat
                        },
                        None => 0nat,
                    },
                ),
                None => Seq::empty(),
            }
        },
        None => Seq::empty(),
    }
}

/// What an expression shows.
pub open spec fn expr_observations(expr: Expr) -> Seq<ObservationText> {
    match expr.kind {
        ExprKind::MethodCall { args, .. } => match expr.type_dependent {
            Some(def) => match canonical_function(def) {
                Some(function) => param_observations(function, args@, 0),
                None => Seq::empty(),
            },
            None => Seq::empty(),
        },
        ExprKind::Call { callee, args } => call_observations(expr, *callee, args@),
        ExprKind::Struct { res: Res::Def(def), fields, has_base: false, .. } => if
            expr.span.from_expansion || def.kind != DefKind::Struct {
            Seq::empty()
        } else {
            literal_observations(def, fields@)
        },
        ExprKind::Assign(target, value) => assignment_observations(*target, *value),
        _ => Seq::empty(),
    }
}

/// Adds an observation.
fn record_observation(
    observations: &mut Vec<ObservationRecord<CandidateKey>>,
    key: CandidateKey,
    value: option_report::ObservedValue,
)
    ensures
        sorting::views(final(observations)@) == sorting::views(old(observations)@).push(
            option_report::ObservationText { key: key@, value },
        ),
{
    let ghost had = observations@;
    let record = ObservationRecord { key, value };
    let ghost seen = record@;
    observations.push(record);
    proof {
        assert(sorting::views(observations@) =~= sorting::views(had).push(seen));
    }
}

/// Adds what the arguments `args` from `skip` on show of the parameters of
/// `function`.
fn record_params(
    function: &DefKey,
    args: &Vec<Expr>,
    skip: usize,
    observations: &mut Vec<ObservationRecord<CandidateKey>>,
)
    ensures
        sorting::views(final(observations)@) == sorting::views(old(observations)@)
            + param_observations(function@, args@, skip as nat),
{
    let ghost known = sorting::views(observations@);
    proof {
        assert(known + Seq::empty() =~= known);
    }
    if args.len() <= skip {
        return;
    }
    let mut i: usize = skip;
    proof {
        assert(known + param_observations(function@, args@.take(i as int), skip as nat) =~= known);
    }
    while i < args.len()
        invariant
            skip <= i <= args.len(),
            sorting::views(observations@) == known + param_observations(
                function@,
                args@.take(i as int),
                skip as nat,
            ),
        decreases args.len() - i,
    {
        let ghost before = param_observations(function@, args@.take(i as int), skip as nat);
        proof {
            assert(args@.take(i + 1).drop_last() =~= args@.take(i as int));
            assert(args@.take(i + 1).last() == args@[i as int]);
        }
        record_observation(
            observations,
            CandidateKey::FunctionParam { function: function.clone(), index: i - skip },
            option_report::classify_option_expr(&args[i]),
        );
        proof {
            let now = param_observations(function@, args@.take(i + 1), skip as nat);
            assert(known + now =~= (known + before).push(now.last()));
        }
        i = i + 1;
    }
    proof {
        assert(args@.take(i as int) =~= args@);
    }
}

/// Adds what the arguments `args` of a constructor show of the fields of
/// `struct_item`.
fn record_ctor(
    struct_item: &DefKey,
    args: &Vec<Expr>,
    observations: &mut Vec<ObservationRecord<CandidateKey>>,
)
    ensures
        sorting::views(final(observations)@) == sorting::views(old(observations)@)
            + ctor_observations(struct_item@, args@),
{
    let ghost known = sorting::views(observations@);
    let mut i: usize = 0;
    proof {
        assert(known + ctor_observations(struct_item@, args@.take(0)) =~= known);
    }
    while i < args.len()
        invariant
            i <= args.len(),
            sorting::views(observations@) == known + ctor_observations(
                struct_item@,
                args@.take(i as int),
            ),
        decreases args.len() - i,
    {
        let ghost before = ctor_observations(struct_item@, args@.take(i as int));
        proof {
            assert(args@.take(i + 1).drop_last() =~= args@.take(i as int));
            assert(args@.take(i + 1).last() == args@[i as int]);
        }
        record_observation(
            observations,
            CandidateKey::StructField { struct_item: struct_item.clone(), index: i },
            option_report::classify_option_expr(&args[i]),
        );
        proof {
            let now = ctor_observations(struct_item@, args@.take(i + 1));
            assert(known + now =~= (known + before).push(now.last()));
        }
        i = i + 1;
    }
    proof {
        assert(args@.take(i as int) =~= args@);
    }
}

/// Adds what a struct expression shows of the fields of the struct `def`.
fn record_literal(
    def: &Def,
    fields: &Vec<ExprField>,
    observations: &mut Vec<ObservationRecord<CandidateKey>>,
)
    ensures
        sorting::views(final(observations)@) == sorting::views(old(observations)@)
            + literal_observations(*def, fields@),
{
    let ghost known = sorting::views(observations@);
    let struct_item = def.place.key();
    let mut i: usize = 0;
    proof {
        assert(known + literal_observations(*def, fields@.take(0)) =~= known);
    }
    while i < fields.len()
        invariant
            i <= fields.len(),
            struct_item@ == hir::key_at(def.place),
            sorting::views(observations@) == known + literal_observations(
                *def,
                fields@.take(i as int),
            ),
        decreases fields.len() - i,
    {
        let ghost before = literal_observations(*def, fields@.take(i as int));
        proof {
            assert(fields@.take(i + 1).drop_last() =~= fields@.take(i as int));
            assert(fields@.take(i + 1).last() == fields@[i as int]);
        }
        if let Some(index) = field_index_by_name(def, fields[i].name.as_str()) {
            record_observation(
                observations,
                CandidateKey::StructField { struct_item: struct_item.clone(), index },
                option_report::classify_option_expr(&fields[i].expr),
            );
            proof {
                let now = literal_observations(*def, fields@.take(i + 1));
                assert(known + now =~= (known + before).push(now.last()));
            }
        }
        i = i + 1;
    }
    proof {
        assert(fields@.take(i as int) =~= fields@);
    }
}

/// Adds what the assignment of `value` to `target` shows.
pub fn maybe_record_struct_field_assignment(
    target: &Expr,
    value: &Expr,
    observations: &mut Vec<ObservationRecord<CandidateKey>>,
)
    ensures
        sorting::views(final(observations)@) == sorting::views(old(observations)@)
            + assignment_observations(*target, *value),
{
    let ghost known = sorting::views(observations@);
    proof {
        assert(known + Seq::empty() =~= known);
    }
    let target = hir::peel_blocks(target);
    let ExprKind::Field { base, name } = &target.kind else {
        return;
    };
    let Some(def) = expr_struct_def(base) else {
        return;
    };
    let Some(index) = field_index_by_name(def, name.as_str()) else {
        return;
    };
    let ghost seen = option_report::ObservationText {
        key: KeyText::StructField(hir::key_at(def.place), index),
        value: option_report::observed(*value),
    };
    record_observation(
        observations,
        CandidateKey::StructField { struct_item: def.place.key(), index },
        option_report::classify_option_expr(value),
    );
    proof {
        assert(known + seq![seen] =~= known.push(seen));
    }
}

/// Adds what the call `expr` of `callee` shows.
fn record_call(
    expr: &Expr,
    callee: &Expr,
    args: &Vec<Expr>,
    observations: &mut Vec<ObservationRecord<CandidateKey>>,
)
    ensures
        sorting::views(final(observations)@) == sorting::views(old(observations)@)
            + call_observations(*expr, *callee, args@),
{
    let ghost known = sorting::views(observations@);
    proof {
        assert(known + Seq::empty() =~= known);
    }
    let Some(def) = called_def(expr, callee) else {
        return;
    };
    if !expr.span.from_expansion {
        if let Some(struct_item) = tuple_struct_def(def) {
            record_ctor(&struct_item, args, observations);
            return;
        }
    }
    let Some(function) = canonical_function_def(def) else {
        return;
    };
    let skip: usize = match &def.assoc {
        Some(assoc) => if assoc.is_method {
            1
        } else {
            0
        },
        None => 0,
    };
    record_params(&function, args, skip, observations);
}

/// Adds what `expr` shows.
pub fn maybe_record_expr_observation(
    expr: &Expr,
    observations: &mut Vec<ObservationRecord<CandidateKey>>,
)
    ensures
        sorting::views(final(observations)@) == sorting::views(old(observations)@)
            + expr_observations(*expr),
{
    let ghost known = sorting::views(observations@);
    proof {
        assert(known + Seq::empty() =~= known);
    }
    match &expr.kind {
        ExprKind::MethodCall { args, .. } => {
            if let Some(def) = &expr.type_dependent {
                if let Some(function) = canonical_function_def(def) {
                    record_params(&function, args, 0, observations);
                }
            }
        },
        ExprKind::Call { callee, args } => {
            record_call(expr, callee, args, observations);
        },
        ExprKind::Struct { res, fields, has_base, .. } => {
            if *has_base || expr.span.from_expansion {
                return;
            }
            if let Res::Def(def) = res {
                if def.kind == DefKind::Struct {
                    record_literal(def, fields, observations);
                }
            }
        },
        ExprKind::Assign(target, value) => {
            maybe_record_struct_field_assignment(target, value, observations);
        },
        _ => {},
    }
}

/// Looks at `item`.
pub fn check_item(state: &mut LintState<CandidateKey>, item: &Item)
    ensures
        final(state).mode == old(state).mode,
        final(state).info == old(state).info,
        final(state).observations == old(state).observations,
        old(state).mode is Disabled ==> final(state).candidates == old(state).candidates,
        !(old(state).mode is Disabled) ==> sorting::views(final(state).candidates@)
            == sorting::views(old(state).candidates@) + item_candidates(*item),
{
    proof {
        let known = sorting::views(state.candidates@);
        assert(known + Seq::empty() =~= known);
    }
    if state.mode.is_disabled() || item.span.from_expansion {
        return;
    }
    match &item.kind {
        ItemKind::Fn(sig) => {
            register_function_param_candidates(
                &item.place,
                sig,
                "function",
                &mut state.candidates,
            );
        },
        ItemKind::Struct(VariantData::Struct(fields)) => {
            register_struct_field_candidates(&item.place, fields, false, &mut state.candidates);
        },
        ItemKind::Struct(VariantData::Tuple(fields)) => {
            register_struct_field_candidates(&item.place, fields, true, &mut state.candidates);
        },
        _ => {},
    }
}

/// Looks at the item `item` of a trait.
pub fn check_trait_item(state: &mut LintState<CandidateKey>, item: &TraitItem)
    ensures
        final(state).mode == old(state).mode,
        final(state).info == old(state).info,
        old(state).mode is Disabled ==> *final(state) == *old(state),
        !(old(state).mode is Disabled) ==> sorting::views(final(state).candidates@)
            == sorting::views(old(state).candidates@) + trait_candidates(*item) && sorting::views(
            final(state).observations@,
        ) == sorting::views(old(state).observations@) + trait_observations(*item),
{
    let ghost known = sorting::views(state.candidates@);
    let ghost seen = sorting::views(state.observations@);
    proof {
        assert(known + Seq::empty() =~= known);
        assert(seen + Seq::empty() =~= seen);
    }
    if state.mode.is_disabled() || item.span.from_expansion {
        return;
    }
    match &item.kind {
        TraitItemKind::Fn(sig) => {
            register_function_param_candidates(
                &item.place,
                sig,
                "trait method",
                &mut state.candidates,
            );
        },
        TraitItemKind::Const(ty, default) => {
            if !ty.is_item(KnownType::Option) {
                return;
            }
            let key = item.place.key();
            let mut description = "associated const `".to_owned();
            description.append(key.path.as_str());
            description.append("`");
            let candidate = Candidate {
                display_path: key.path.clone(),
                key: CandidateKey::TraitConst { trait_item: key },
                description,
                span: item.span.copied(),
            };
            let ghost value = candidate@;
            state.candidates.push(candidate);
            proof {
                assert(sorting::views(state.candidates@) =~= known.push(value));
                assert(known + seq![value] =~= known.push(value));
                assert(value == const_candidate(*item));
            }
            if let Some(body) = default {
                let ghost shown = option_report::ObservationText {
                    key: KeyText::TraitConst(hir::key_at(item.place)),
                    value: option_report::observed(*body),
                };
                record_observation(
                    &mut state.observations,
                    CandidateKey::TraitConst { trait_item: item.place.key() },
                    option_report::classify_option_expr(body),
                );
                proof {
                    assert(seen + seq![shown] =~= seen.push(shown));
                }
            }
        },
        TraitItemKind::Type => {},
    }
}

/// Looks at the item `item` of an impl.
pub fn check_impl_item(state: &mut LintState<CandidateKey>, item: &ImplItem)
    ensures
        final(state).mode == old(state).mode,
        final(state).info == old(state).info,
        old(state).mode is Disabled ==> *final(state) == *old(state),
        !(old(state).mode is Disabled) ==> sorting::views(final(state).candidates@)
            == sorting::views(old(state).candidates@) + impl_candidates(*item) && sorting::views(
            final(state).observations@,
        ) == sorting::views(old(state).observations@) + impl_observations(*item),
{
    let ghost known = sorting::views(state.candidates@);
    let ghost seen = sorting::views(state.observations@);
    proof {
        assert(known + Seq::empty() =~= known);
        assert(seen + Seq::empty() =~= seen);
    }
    if state.mode.is_disabled() {
        return;
    }
    match &item.kind {
        ImplItemKind::Fn(sig) => {
            if item.span.from_expansion {
                return;
            }
            if let ImplOwner::Inherent(_) = &item.owner {
                let kind = if sig.is_method {
                    "method"
                } else {
                    "associated function"
                };
                register_function_param_candidates(
                    &item.place,
                    sig,
                    kind,
                    &mut state.candidates,
                );
            }
        },
        ImplItemKind::Const(body) => {
            if let Some(trait_item) = &item.implements {
                let ghost shown = option_report::ObservationText {
                    key: KeyText::TraitConst(hir::key_at(*trait_item)),
                    value: option_report::observed(*body),
                };
                record_observation(
                    &mut state.observations,
                    CandidateKey::TraitConst { trait_item: trait_item.key() },
                    option_report::classify_option_expr(body),
                );
                proof {
                    assert(seen + seq![shown] =~= seen.push(shown));
                }
            }
        },
        ImplItemKind::Type => {},
    }
}

/// Looks at `expr`.
pub fn check_expr(state: &mut LintState<CandidateKey>, expr: &Expr)
    ensures
        final(state).mode == old(state).mode,
        final(state).info == old(state).info,
        final(state).candidates == old(state).candidates,
        old(state).mode is Disabled ==> final(state).observations == old(state).observations,
        !(old(state).mode is Disabled) ==> sorting::views(final(state).observations@)
            == sorting::views(old(state).observations@) + expr_observations(*expr),
{
    if state.mode.is_disabled() {
        return;
    }
    maybe_record_expr_observation(expr, &mut state.observations);
}

/// The observations of a call are one for each argument behind `self`, in their order:
/// each is about the parameter at the place of its argument and shows what that argument
/// shows.
pub proof fn lemma_each_argument_for_its_parameter(
    function: Seq<char>,
    args: Seq<Expr>,
    skip: nat,
)
    ensures
        param_observations(function, args, skip).len() == if args.len() <= skip {
            0
        } else {
            args.len() - skip
        },
        forall|i: int|
            0 <= i < args.len() - skip ==> #[trigger] param_observations(function, args, skip)[i]
                == (option_report::ObservationText {
                key: KeyText::FunctionParam(function, i as usize),
                value: option_report::observed(args[i + skip]),
            }),
    decreases args.len(),
{
    if args.len() > skip {
        let front = args.drop_last();
        let known = param_observations(function, front, skip);
        let now = param_observations(function, args, skip);
        lemma_each_argument_for_its_parameter(function, front, skip);
        assert forall|i: int| 0 <= i < args.len() - skip implies #[trigger] now[i] == (
        option_report::ObservationText {
            key: KeyText::FunctionParam(function, i as usize),
            value: option_report::observed(args[i + skip]),
        }) by {
            if i < known.len() {
                assert(now[i] == known[i]);
                assert(front[i + skip] == args[i + skip]);
            }
        }
    }
}

/// Another value for one argument leaves what the call shows of the other parameters.
pub proof fn lemma_other_parameters_unchanged(
    function: Seq<char>,
    args: Seq<Expr>,
    skip: nat,
    changed: int,
    value: Expr,
    i: int,
)
    requires
        0 <= changed < args.len(),
        0 <= i < args.len() - skip,
        i + skip != changed,
    ensures
        param_observations(function, args.update(changed, value), skip)[i] == param_observations(
            function,
            args,
            skip,
        )[i],
{
    lemma_each_argument_for_its_parameter(function, args, skip);
    lemma_each_argument_for_its_parameter(function, args.update(changed, value), skip);
    assert(args.update(changed, value)[i + skip] == args[i + skip]);
}

/// The arguments of a constructor show, each, what the field at their place holds.
pub proof fn lemma_each_argument_for_its_field(struct_item: Seq<char>, args: Seq<Expr>)
    ensures
        ctor_observations(struct_item, args).len() == args.len(),
        forall|i: int|
            0 <= i < args.len() ==> #[trigger] ctor_observations(struct_item, args)[i] == (
            option_report::ObservationText {
                key: KeyText::StructField(struct_item, i as usize),
                value: option_report::observed(args[i]),
            }),
    decreases args.len(),
{
    if args.len() > 0 {
        let front = args.drop_last();
        let known = ctor_observations(struct_item, front);
        let now = ctor_observations(struct_item, args);
        lemma_each_argument_for_its_field(struct_item, front);
        assert forall|i: int| 0 <= i < args.len() implies #[trigger] now[i] == (
        option_report::ObservationText {
            key: KeyText::StructField(struct_item, i as usize),
            value: option_report::observed(args[i]),
        }) by {
            if i < known.len() {
                assert(now[i] == known[i]);
                assert(front[i] == args[i]);
            }
        }
    }
}

proof fn lemma_field_index_from(names: Seq<String>, name: Seq<char>, from: int)
    requires
        0 <= from,
    ensures
        match field_index(names, name, from) {
            Some(n) => {
                &&& from <= n < names.len()
                &&& names[n]@ == name
                &&& forall|i: int| from <= i < n ==> (#[trigger] names[i])@ != name
            },
            None => forall|i: int| from <= i < names.len() ==> (#[trigger] names[i])@ != name,
        },
    decreases names.len() - from,
{
    if from < names.len() && names[from]@ != name {
        lemma_field_index_from(names, name, from + 1);
    }
}

/// The index of a field is the first one at which its name stands; a name that is no
/// field has none.
pub proof fn lemma_field_index(names: Seq<String>, name: Seq<char>)
    ensures
        match field_index(names, name, 0) {
            Some(n) => {
                &&& 0 <= n < names.len()
                &&& names[n]@ == name
                &&& forall|i: int| 0 <= i < n ==> (#[trigger] names[i])@ != name
            },
            None => forall|i: int| 0 <= i < names.len() ==> (#[trigger] names[i])@ != name,
        },
{
    lemma_field_index_from(names, name, 0);
}

/// What a struct expression shows is what the parts of its list of fields show, one after
/// the other; a field of the struct shows its value at its index, and any other nothing.
pub proof fn lemma_each_field_of_literal(
    def: Def,
    some: Seq<ExprField>,
    others: Seq<ExprField>,
    field: ExprField,
)
    ensures
        literal_observations(def, some + others) == literal_observations(def, some)
            + literal_observations(def, others),
        forall|n: int|
            0 <= n < def.field_names.len() && (#[trigger] def.field_names@[n])@ == field.name@ && (
            forall|i: int| 0 <= i < n ==> (#[trigger] def.field_names@[i])@ != field.name@)
                ==> literal_observations(def, seq![field]) == seq![
                option_report::ObservationText {
                    key: KeyText::StructField(hir::key_at(def.place), n as usize),
                    value: option_report::observed(field.expr),
                },
            ],
        (forall|i: int|
            0 <= i < def.field_names.len() ==> (#[trigger] def.field_names@[i])@ != field.name@)
            ==> literal_observations(def, seq![field]).len() == 0,
    decreases others.len(),
{
    if others.len() == 0 {
        assert(some + others =~= some);
        assert(literal_observations(def, some) + literal_observations(def, others)
            =~= literal_observations(def, some));
    } else {
        lemma_each_field_of_literal(def, some, others.drop_last(), field);
        assert((some + others).drop_last() =~= some + others.drop_last());
        assert((some + others).last() == others.last());
        assert(literal_observations(def, some + others) =~= literal_observations(def, some)
            + literal_observations(def, others));
    }
    let one = seq![field];
    assert(one.drop_last() =~= Seq::empty());
    assert(one.last() == field);
    assert(literal_observations(def, one.drop_last()) =~= Seq::empty());
    lemma_field_index(def.field_names@, field.name@);
    assert forall|n: int|
        0 <= n < def.field_names.len() && (#[trigger] def.field_names@[n])@ == field.name@ && (
        forall|i: int| 0 <= i < n ==> (#[trigger] def.field_names@[i])@
            != field.name@) implies literal_observations(def, one) == seq![
        option_report::ObservationText {
            key: KeyText::StructField(hir::key_at(def.place), n as usize),
            value: option_report::observed(field.expr),
        },
    ] by {
        assert(field_index(def.field_names@, field.name@, 0) == Some(n));
        assert(literal_observations(def, one) =~= seq![
            option_report::ObservationText {
                key: KeyText::StructField(hir::key_at(def.place), n as usize),
                value: option_report::observed(field.expr),
            },
        ]);
    }
}

/// A call of a free function shows each argument at the parameter at its place.
pub proof fn lemma_function_call_shown(expr: Expr, i: int)
    requires
        expr.kind matches ExprKind::Call { callee, args } && {
            &&& callee.kind matches ExprKind::Path { res: Res::Def(def), .. } && def.kind
                == DefKind::Fn && def.assoc is None
            &&& 0 <= i < args.len()
        },
        expr.type_dependent is None,
    ensures
        expr.kind matches ExprKind::Call { callee, args } && (callee.kind matches ExprKind::Path {
            res: Res::Def(def),
            ..
        } && {
            &&& expr_observations(expr).len() == args.len()
            &&& expr_observations(expr)[i] == (option_report::ObservationText {
                key: KeyText::FunctionParam(hir::key_at(def.place), i as usize),
                value: option_report::observed(args@[i]),
            })
        }),
{
    if let ExprKind::Call { callee, args } = expr.kind {
        if let ExprKind::Path { res: Res::Def(def), .. } = callee.kind {
            lemma_each_argument_for_its_parameter(hir::key_at(def.place), args@, 0);
        }
    }
}

/// A call of an associated function shows each argument but `self` at the parameter at
/// its place behind `self`, of the function of the trait where it implements one.
pub proof fn lemma_associated_call_shown(expr: Expr, i: int)
    requires
        expr.type_dependent matches Some(def) && def.kind != DefKind::Ctor && (
        def.assoc matches Some(assoc) && assoc.is_fn && assoc.trait_item_or_self is Some),
        match expr.kind {
            ExprKind::MethodCall { args, .. } => 0 <= i < args.len(),
            ExprKind::Call { args, .. } => 0 <= i < args.len() - (if
                expr.type_dependent->Some_0.assoc->Some_0.is_method {
                1int
            } else {
                0int
            }),
            _ => false,
        },
    ensures
        ({
            let assoc = expr.type_dependent->Some_0.assoc->Some_0;
            let function = hir::key_at(assoc.trait_item_or_self->Some_0);
            let skip: int = if assoc.is_method && expr.kind is Call {
                1
            } else {
                0
            };
            match expr.kind {
                ExprKind::MethodCall { args, .. } => {
                    &&& expr_observations(expr).len() == args.len()
                    &&& expr_observations(expr)[i] == (option_report::ObservationText {
                        key: KeyText::FunctionParam(function, i as usize),
                        value: option_report::observed(args@[i]),
                    })
                },
                ExprKind::Call { args, .. } => {
                    &&& expr_observations(expr).len() == args.len() - skip
                    &&& expr_observations(expr)[i] == (option_report::ObservationText {
                        key: KeyText::FunctionParam(function, i as usize),
                        value: option_report::observed(args@[i + skip]),
                    })
                },
                _ => true,
            }
        }),
{
    let assoc = expr.type_dependent->Some_0.assoc->Some_0;
    let function = hir::key_at(assoc.trait_item_or_self->Some_0);
    match expr.kind {
        ExprKind::MethodCall { args, .. } => {
            lemma_each_argument_for_its_parameter(function, args@, 0);
        },
        ExprKind::Call { args, .. } => {
            lemma_each_argument_for_its_parameter(
                function,
                args@,
                if assoc.is_method {
                    1
                } else {
                    0
                },
            );
        },
        _ => {},
    }
}

/// A tuple struct that is constructed outside of a macro shows each argument at the field
/// at its place.
pub proof fn lemma_constructor_call_shown(expr: Expr, i: int)
    requires
        !expr.span.from_expansion,
        expr.type_dependent is None,
        expr.kind matches ExprKind::Call { callee, args } && {
            &&& callee.kind matches ExprKind::Path { res: Res::Def(def), .. } && def.kind
                == DefKind::Ctor && (def.parent matches Some(owner) && owner.kind
                == DefKind::Struct)
            &&& 0 <= i < args.len()
        },
    ensures
        expr.kind matches ExprKind::Call { callee, args } && (callee.kind matches ExprKind::Path {
            res: Res::Def(def),
            ..
        } && {
            &&& expr_observations(expr).len() == args.len()
            &&& expr_observations(expr)[i] == (option_report::ObservationText {
                key: KeyText::StructField(hir::key_at(def.parent->Some_0.place), i as usize),
                value: option_report::observed(args@[i]),
            })
        }),
{
    if let ExprKind::Call { callee, args } = expr.kind {
        if let ExprKind::Path { res: Res::Def(def), .. } = callee.kind {
            lemma_each_argument_for_its_field(hir::key_at(def.parent->Some_0.place), args@);
        }
    }
}

/// An assignment to a field of a struct shows its value at the first index of that field.
pub proof fn lemma_assignment_shown(expr: Expr, n: int)
    requires
        expr.kind matches ExprKind::Assign(target, value) && (target.kind matches ExprKind::Field {
            base,
            name,
        } && (base.ty.kind matches TyKind::Adt(adt) && {
            &&& adt.is_struct
            &&& 0 <= n < adt.def.field_names.len()
            &&& adt.def.field_names@[n]@ == name@
            &&& forall|i: int| 0 <= i < n ==> (#[trigger] adt.def.field_names@[i])@ != name@
        })),
    ensures
        expr.kind matches ExprKind::Assign(target, value) && (target.kind matches ExprKind::Field {
            base,
            name,
        } && (base.ty.kind matches TyKind::Adt(adt) && expr_observations(expr) == seq![
            option_report::ObservationText {
                key: KeyText::StructField(hir::key_at(adt.def.place), n as usize),
                value: option_report::observed(*value),
            },
        ])),
{
    if let ExprKind::Assign(target, value) = expr.kind {
        if let ExprKind::Field { base, name } = target.kind {
            if let TyKind::Adt(adt) = base.ty.kind {
                lemma_field_index(adt.def.field_names@, name@);
                assert(hir::unblocked(*target) == *target);
                assert(hir::unreferenced(base.ty) == base.ty);
            }
        }
    }
}

/// A struct expression that sets all fields itself and stands outside of a macro shows
/// its fields; any other shows nothing.
pub proof fn lemma_literal_shown(expr: Expr)
    requires
        expr.kind is Struct,
    ensures
        expr.kind matches ExprKind::Struct { res, fields, has_base, .. } && (
        if !has_base && !expr.span.from_expansion && (res matches Res::Def(def) && def.kind
            == DefKind::Struct) {
            expr_observations(expr) == literal_observations(res->Def_0, fields@)
        } else {
            expr_observations(expr).len() == 0
        }),
{
}

/// The `Option` parameters of a function are its candidates: those behind `self`, each
/// with its place behind `self` and the span at which it is written.
pub proof fn lemma_param_candidates(
    place: DefPath,
    sig: FnSig,
    kind: Seq<char>,
    n: int,
    c: CandidateText,
)
    ensures
        param_candidates(place, sig, kind, n).contains(c) <==> exists|i: int|
            0 <= i < n && c == #[trigger] param_candidate(place, sig, kind, i) && {
                let at = if sig.is_method {
                    i + 1
                } else {
                    i
                };
                at < sig.inputs.len() && (sig.inputs@[at].kind matches TyKind::Adt(adt)
                    && adt.known == KnownType::Option)
            },
    decreases n,
{
    if n > 0 {
        let front = param_candidates(place, sig, kind, n - 1);
        let now = param_candidates(place, sig, kind, n);
        let last = param_candidate(place, sig, kind, n - 1);
        lemma_param_candidates(place, sig, kind, n - 1, c);
        if is_option_param(sig, n - 1) {
            assert(now == front + seq![last]) by {
                assert(front.push(last) =~= front + seq![last]);
            }
            lists::lemma_in_either(front, seq![last], c);
            if seq![last].contains(c) {
                assert(c == param_candidate(place, sig, kind, n - 1));
            }
            assert(seq![last][0] == last);
        }
    }
}

/// A candidate parameter is known by the function and its place behind `self`, is counted
/// from one in its description, and points at where it is written.
pub proof fn lemma_param_candidate(place: DefPath, sig: FnSig, kind: Seq<char>, i: int)
    ensures
        ({
            let c = param_candidate(place, sig, kind, i);
            let at = if sig.is_method {
                i + 1
            } else {
                i
            };
            &&& c.key == KeyText::FunctionParam(hir::key_at(place), i as usize)
            &&& c.display_path == hir::key_at(place)
            &&& c.span == sig.written@[at]
            &&& c.description == "parameter #"@ + text::decimal((i + 1) as nat) + " of "@ + kind
                + " `"@ + hir::key_at(place) + "`"@
        }),
{
}

/// The `Option` fields of a struct are its candidates, each with its index and span.
pub proof fn lemma_field_candidates(
    place: DefPath,
    fields: Seq<FieldDef>,
    tuple: bool,
    n: int,
    c: CandidateText,
)
    requires
        n <= fields.len(),
    ensures
        field_candidates(place, fields, tuple, n).contains(c) <==> exists|i: int|
            0 <= i < n && c == #[trigger] field_candidate(place, fields, tuple, i) && (
            fields[i].ty.kind matches TyKind::Adt(adt) && adt.known == KnownType::Option),
        forall|i: int|
            0 <= i < n ==> {
                let e = #[trigger] field_candidate(place, fields, tuple, i);
                &&& e.key == KeyText::StructField(hir::key_at(place), i as usize)
                &&& e.span == fields[i].span
            },
    decreases n,
{
    if n > 0 {
        let front = field_candidates(place, fields, tuple, n - 1);
        let last = field_candidate(place, fields, tuple, n - 1);
        lemma_field_candidates(place, fields, tuple, n - 1, c);
        if hir::is_known(fields[n - 1].ty, KnownType::Option) {
            assert(front.push(last) =~= front + seq![last]);
            lists::lemma_in_either(front, seq![last], c);
            if seq![last].contains(c) {
                assert(c == field_candidate(place, fields, tuple, n - 1));
            }
            assert(seq![last][0] == last);
        }
    }
}

/// The candidates of a function are those among all its written parameters, if no macro
/// produced it; those of a struct are among all its fields.
pub proof fn lemma_item_candidates(item: Item)
    ensures
        item.span.from_expansion ==> item_candidates(item).len() == 0,
        !item.span.from_expansion ==> match item.kind {
            ItemKind::Fn(sig) => item_candidates(item) == param_candidates(
                item.place,
                sig,
                "function"@,
                if sig.is_method {
                    sig.written.len() - 1
                } else {
                    sig.written.len() as int
                },
            ),
            ItemKind::Struct(VariantData::Struct(fields)) => item_candidates(item)
                == field_candidates(item.place, fields@, false, fields.len() as int),
            ItemKind::Struct(VariantData::Tuple(fields)) => item_candidates(item)
                == field_candidates(item.place, fields@, true, fields.len() as int),
            _ => item_candidates(item).len() == 0,
        },
{
}

/// A function of a trait or of a type has the candidates of its written parameters, a
/// constant of a trait is a candidate if it is an `Option`; nothing that a macro produced
/// is one, nor is a function of the impl of a trait.
pub proof fn lemma_associated_candidates(item: TraitItem, impl_item: ImplItem)
    ensures
        item.span.from_expansion ==> trait_candidates(item).len() == 0,
        !item.span.from_expansion ==> match item.kind {
            TraitItemKind::Fn(sig) => trait_candidates(item) == param_candidates(
                item.place,
                sig,
                "trait method"@,
                if sig.is_method {
                    sig.written.len() - 1
                } else {
                    sig.written.len() as int
                },
            ),
            TraitItemKind::Const(ty, _) => if ty.kind matches TyKind::Adt(adt) && adt.known
                == KnownType::Option {
                &&& trait_candidates(item).len() == 1
                &&& trait_candidates(item)[0].key == KeyText::TraitConst(hir::key_at(item.place))
                &&& trait_candidates(item)[0].span == item.span
            } else {
                trait_candidates(item).len() == 0
            },
            TraitItemKind::Type => trait_candidates(item).len() == 0,
        },
        match impl_item.kind {
            ImplItemKind::Fn(sig) => if !impl_item.span.from_expansion && impl_item.owner
                is Inherent {
                impl_candidates(impl_item) == param_candidates(
                    impl_item.place,
                    sig,
                    if sig.is_method {
                        "method"@
                    } else {
                        "associated function"@
                    },
                    if sig.is_method {
                        sig.written.len() - 1
                    } else {
                        sig.written.len() as int
                    },
                )
            } else {
                impl_candidates(impl_item).len() == 0
            },
            _ => impl_candidates(impl_item).len() == 0,
        },
{
}

/// The value of a constant of a trait is seen where the trait gives it one and where an
/// impl does, both times at the constant of the trait.
pub proof fn lemma_constants_shown(item: TraitItem, impl_item: ImplItem)
    ensures
        match item.kind {
            TraitItemKind::Const(ty, Some(value)) => trait_observations(item) == if
                !item.span.from_expansion && (ty.kind matches TyKind::Adt(adt) && adt.known
                    == KnownType::Option) {
                seq![
                    option_report::ObservationText {
                        key: KeyText::TraitConst(hir::key_at(item.place)),
                        value: option_report::observed(value),
                    },
                ]
            } else {
                Seq::<ObservationText>::empty()
            },
            _ => trait_observations(item).len() == 0,
        },
        impl_item.kind matches ImplItemKind::Const(value) ==> (
        impl_item.implements matches Some(place) ==> impl_observations(impl_item) == seq![
            option_report::ObservationText {
                key: KeyText::TraitConst(hir::key_at(place)),
                value: option_report::observed(value),
            },
        ]),
        impl_item.implements is None || !(impl_item.kind is Const) ==> impl_observations(
            impl_item,
        ).len() == 0,
{
}

/// What to do about a place depends on the variant and on what the place is, and no two
/// of them have the same advice; what is done with a value depends on the place alone.
pub proof fn lemma_advice(a: KeyText, b: KeyText, variant: OptionVariant, other: OptionVariant)
    ensures
        ({
            let alike = match (a, b) {
                (KeyText::FunctionParam(..), KeyText::FunctionParam(..)) => true,
                (KeyText::TraitConst(..), KeyText::TraitConst(..)) => true,
                (KeyText::StructField(..), KeyText::StructField(..)) => true,
                _ => false,
            };
            &&& <CandidateKey as OptionKey>::advice_text(a, variant)
                == <CandidateKey as OptionKey>::advice_text(b, other) <==> alike && variant == other
            &&& <CandidateKey as OptionKey>::action_text(a)
                == <CandidateKey as OptionKey>::action_text(b) <==> alike
        }),
{
    reveal_strlit("consider making this parameter non-optional");
    reveal_strlit("consider removing this parameter or using a clearer API for absence");
    reveal_strlit("consider making this associated const non-optional");
    reveal_strlit("consider removing this associated const or using a clearer sentinel");
    reveal_strlit("consider making this field non-optional");
    reveal_strlit("consider removing this field or using a clearer sentinel");
    reveal_strlit("passed");
    reveal_strlit("assigned");
    reveal_strlit("set");
    let x = <CandidateKey as OptionKey>::advice_text(a, variant);
    let y = <CandidateKey as OptionKey>::advice_text(b, other);
    if x == y {
        assert(x.len() == y.len());
        assert(x[9] == y[9]);
        assert(x[23] == y[23]);
    }
    let v = <CandidateKey as OptionKey>::action_text(a);
    let w = <CandidateKey as OptionKey>::action_text(b);
    if v == w {
        assert(v.len() == w.len());
    }
}

/// The place of a key is the one in its fields.
pub proof fn lemma_key_values(key: CandidateKey)
    ensures
        match key {
            CandidateKey::FunctionParam { function, index } => key@ == KeyText::FunctionParam(
                function.path@,
                index,
            ),
            CandidateKey::TraitConst { trait_item } => key@ == KeyText::TraitConst(trait_item.path@),
            CandidateKey::StructField { struct_item, index } => key@ == KeyText::StructField(
                struct_item.path@,
                index,
            ),
        },
{
}

} // verus!

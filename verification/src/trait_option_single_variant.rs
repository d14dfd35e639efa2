//! `Option` parameters and constants of traits that only ever hold one variant.
use vstd::prelude::*;

use crate::hir;
use crate::hir::{Def, DefPath, Expr, ExprKind, FnSig, ImplItem, ImplItemKind, KnownType, TraitItem, TraitItemKind, TyKind};
use crate::lists;
use crate::option_report;
use crate::option_report::{Candidate, LintState, ObservationRecord, OptionKey, OptionVariant};
use crate::option_single_variant;
use crate::sorting;
use crate::text;
use crate::utils::DefKey;

verus! {

/// A place for an `Option` in a trait.
#[derive(Debug, PartialEq, Eq, PartialOrd, Ord)]
pub enum CandidateKey {
    TraitMethodParam { trait_item: DefKey, index: usize },
    TraitConst { trait_item: DefKey },
}

/// The values of a place.
pub ghost enum KeyText {
    TraitMethodParam(Seq<char>, usize),
    TraitConst(Seq<char>),
}

impl View for CandidateKey {
    type V = KeyText;

    open spec fn view(&self) -> KeyText {
        match self {
            CandidateKey::TraitMethodParam { trait_item, index } => KeyText::TraitMethodParam(
                trait_item@,
                *index,
            ),
            CandidateKey::TraitConst { trait_item } => KeyText::TraitConst(trait_item@),
        }
    }
}

impl OptionKey for CandidateKey {
    open spec fn action_text(key: KeyText) -> Seq<char> {
        match key {
            KeyText::TraitMethodParam(..) => "passed"@,
            KeyText::TraitConst(..) => "assigned"@,
        }
    }

    open spec fn advice_text(key: KeyText, variant: OptionVariant) -> Seq<char> {
        match (key, variant) {
            (
                KeyText::TraitMethodParam(..),
                OptionVariant::Present,
            ) => "consider making this parameter non-optional"@,
            (
                KeyText::TraitMethodParam(..),
                OptionVariant::Absent,
            ) => "consider removing this parameter or using a clearer API for absence"@,
            (
                KeyText::TraitConst(..),
                OptionVariant::Present,
            ) => "consider making this associated const non-optional"@,
            (
                KeyText::TraitConst(..),
                OptionVariant::Absent,
            ) => "consider removing this associated const or using a clearer sentinel"@,
        }
    }

    fn same(&self, other: &CandidateKey) -> (b: bool) {
        match (self, other) {
            (
                CandidateKey::TraitMethodParam { trait_item: a, index: i },
                CandidateKey::TraitMethodParam { trait_item: b, index: j },
            ) => *i == *j && text::equal(a.path.as_str(), b.path.as_str()),
            (
                CandidateKey::TraitConst { trait_item: a },
                CandidateKey::TraitConst { trait_item: b },
            ) => text::equal(a.path.as_str(), b.path.as_str()),
            _ => false,
        }
    }

    fn copied(&self) -> (r: CandidateKey) {
        match self {
            CandidateKey::TraitMethodParam { trait_item, index } => CandidateKey::TraitMethodParam {
                trait_item: trait_item.clone(),
                index: *index,
            },
            CandidateKey::TraitConst { trait_item } => CandidateKey::TraitConst {
                trait_item: trait_item.clone(),
            },
        }
    }

    fn action(&self) -> (r: &'static str) {
        match self {
            CandidateKey::TraitMethodParam { .. } => "passed",
            CandidateKey::TraitConst { .. } => "assigned",
        }
    }

    fn advice(&self, variant: OptionVariant) -> (r: &'static str) {
        match (self, variant) {
            (
                CandidateKey::TraitMethodParam { .. },
                OptionVariant::Present,
            ) => "consider making this parameter non-optional",
            (
                CandidateKey::TraitMethodParam { .. },
                OptionVariant::Absent,
            ) => "consider removing this parameter or using a clearer API for absence",
            (
                CandidateKey::TraitConst { .. },
                OptionVariant::Present,
            ) => "consider making this associated const non-optional",
            (
                CandidateKey::TraitConst { .. },
                OptionVariant::Absent,
            ) => "consider removing this associated const or using a clearer sentinel",
        }
    }
}

/// The values of a candidate.
pub type CandidateText = option_report::CandidateText<KeyText>;

/// The values of an observation.
pub type ObservationText = option_report::ObservationText<KeyText>;

/// The candidate for the parameter `index`, counted behind `self`. It points at the
/// written parameter with that index, counted with `self`.
pub open spec fn param_candidate(place: DefPath, sig: FnSig, index: int) -> CandidateText {
    option_report::CandidateText {
        key: KeyText::TraitMethodParam(hir::key_at(place), index as usize),
        display_path: hir::key_at(place),
        description: "parameter #"@ + text::decimal((index + 1) as nat) + " of trait method `"@
            + hir::key_at(place) + "`"@,
        span: sig.written@[index],
    }
}

/// The candidates among the first `n` parameters behind `self`.
pub open spec fn param_candidates(place: DefPath, sig: FnSig, n: int) -> Seq<CandidateText>
    decreases n,
{
    if n <= 0 {
        Seq::empty()
    } else {
        let front = param_candidates(place, sig, n - 1);
        if option_single_variant::is_option_param(sig, n - 1) {
            front.push(param_candidate(place, sig, n - 1))
        } else {
            front
        }
    }
}

/// Adds the `Option` parameters of the method at `place`.
fn register_params(
    place: &DefPath,
    sig: &FnSig,
    candidates: &mut Vec<Candidate<CandidateKey>>,
)
    ensures
        sorting::views(final(candidates)@) == sorting::views(old(candidates)@) + param_candidates(
            *place,
            *sig,
            sig.written.len() as int,
        ),
{
    let ghost known = sorting::views(candidates@);
    let skip: usize = if sig.is_method {
        1
    } else {
        0
    };
    let mut index: usize = 0;
    proof {
        assert(known + param_candidates(*place, *sig, 0) =~= known);
    }
    while index < sig.written.len()
        invariant
            index <= sig.written.len(),
            skip == option_single_variant::skipped(*sig),
            skip <= 1,
            sorting::views(candidates@) == known + param_candidates(*place, *sig, index as int),
        decreases sig.written.len() - index,
    {
        let ghost had = candidates@;
        if index + skip < sig.inputs.len() && sig.inputs[index + skip].is_item(KnownType::Option) {
            let key = place.key();
            let mut description = "parameter #".to_owned();
            description.append(text::decimal_string(index + 1).as_str());
            description.append(" of trait method `");
            description.append(key.path.as_str());
            description.append("`");
            let candidate = Candidate {
                display_path: key.path.clone(),
                key: CandidateKey::TraitMethodParam { trait_item: key, index },
                description,
                span: sig.written[index].copied(),
            };
            let ghost value = candidate@;
            candidates.push(candidate);
            proof {
                assert(sorting::views(candidates@) =~= sorting::views(had).push(value));
                assert(value == param_candidate(*place, *sig, index as int));
                assert(known + param_candidates(*place, *sig, index + 1) =~= (known
                    + param_candidates(*place, *sig, index as int)).push(value));
            }
        }
        index = index + 1;
    }
}

/// The candidate for an associated constant.
pub open spec fn const_candidate(item: TraitItem) -> CandidateText {
    option_report::CandidateText {
        key: KeyText::TraitConst(hir::key_at(item.place)),
        display_path: hir::key_at(item.place),
        description: "associated const `"@ + hir::key_at(item.place) + "`"@,
        span: item.span,
    }
}

/// The candidates of an item of a trait that no macro produced.
pub open spec fn trait_candidates(item: TraitItem) -> Seq<CandidateText> {
    if item.span.from_expansion {
        Seq::empty()
    } else {
        match item.kind {
            TraitItemKind::Fn(sig) => param_candidates(
                item.place,
                sig,
                sig.written.len() as int,
            ),
            TraitItemKind::Const(ty, _) => if hir::is_known(ty, KnownType::Option) {
                seq![const_candidate(item)]
            } else {
                Seq::empty()
            },
            TraitItemKind::Type => Seq::empty(),
        }
    }
}

/// What an item of a trait shows: the value that the trait gives to an associated
/// constant.
pub open spec fn trait_observations(item: TraitItem) -> Seq<ObservationText> {
    match item.kind {
        TraitItemKind::Const(ty, Some(value)) => if !item.span.from_expansion && hir::is_known(
            ty,
            KnownType::Option,
        ) {
            seq![
                option_report::ObservationText {
                    key: KeyText::TraitConst(hir::key_at(item.place)),
                    value: option_report::observed(value),
                },
            ]
        } else {
            Seq::empty()
        },
        _ => Seq::empty(),
    }
}

/// What an item of an impl shows: the value of an associated constant of a trait.
pub open spec fn impl_observations(item: ImplItem) -> Seq<ObservationText> {
    match (item.kind, item.implements) {
        (ImplItemKind::Const(value), Some(trait_item)) => seq![
            option_report::ObservationText {
                key: KeyText::TraitConst(hir::key_at(trait_item)),
                value: option_report::observed(value),
            },
        ],
        _ => Seq::empty(),
    }
}

/// The method of a trait that a definition is or implements.
pub open spec fn trait_method(def: Def) -> Option<Seq<char>> {
    match def.assoc {
        Some(assoc) => if assoc.is_fn && assoc.of_trait {
            match assoc.trait_item_or_self {
                Some(place) => Some(hir::key_at(place)),
                None => None,
            }
        } else {
            None
        },
        None => None,
    }
}

/// The method of a trait that `def` is or implements.
pub fn trait_method_def(def: &Def) -> (r: Option<DefKey>)
    ensures
        r is Some <==> trait_method(*def) is Some,
        r matches Some(key) ==> trait_method(*def) == Some(key@),
{
    let Some(assoc) = &def.assoc else {
        return None;
    };
    if !assoc.is_fn || !assoc.of_trait {
        return None;
    }
    match &assoc.trait_item_or_self {
        Some(place) => Some(place.key()),
        None => None,
    }
}

/// What the arguments from `skip` on show of the parameters of `trait_item`.
pub open spec fn param_observations(
    trait_item: Seq<char>,
    args: Seq<Expr>,
    skip: nat,
) -> Seq<ObservationText>
    decreases args.len(),
{
    if args.len() <= skip {
        Seq::empty()
    } else {
        param_observations(trait_item, args.drop_last(), skip).push(
            option_report::ObservationText {
                key: KeyText::TraitMethodParam(trait_item, (args.len() - 1 - skip) as usize),
                value: option_report::observed(args.last()),
            },
        )
    }
}

/// What a call of the definition `def` shows.
pub open spec fn call_observations(def: Def, args: Seq<Expr>) -> Seq<ObservationText> {
    match (trait_method(def), def.assoc) {
        (Some(trait_item), Some(assoc)) => param_observations(
            trait_item,
            args,
            if assoc.is_method {
                1
            } else {
                0
            },
        ),
        _ => Seq::empty(),
    }
}

/// What an expression shows: the arguments of a call of a method of a trait.
pub open spec fn expr_observations(expr: Expr) -> Seq<ObservationText> {
    match expr.kind {
        ExprKind::MethodCall { args, .. } => match expr.type_dependent {
            Some(def) => match trait_method(def) {
                Some(trait_item) => param_observations(trait_item, args@, 0),
                None => Seq::empty(),
            },
            None => Seq::empty(),
        },
        ExprKind::Call { callee, args } => match option_single_variant::called(expr, *callee) {
            Some(def) => call_observations(def, args@),
            None => Seq::empty(),
        },
        _ => Seq::empty(),
    }
}

/// Adds an observation.
fn record_observation(
    observations: &mut Vec<ObservationRecord<CandidateKey>>,
    key: CandidateKey,
    value: option_report::ObservedValue,
)
    ensures
        sorting::views(final(observations)@) == sorting::views(old(observations)@).push(
            option_report::ObservationText { key: key@, value },
        ),
{
    let ghost had = observations@;
    let record = ObservationRecord { key, value };
    let ghost seen = record@;
    observations.push(record);
    proof {
        assert(sorting::views(observations@) =~= sorting::views(had).push(seen));
    }
}

/// Adds what the arguments `args` from `skip` on show of the parameters of
/// `trait_item`.
fn record_params(
    trait_item: &DefKey,
    args: &Vec<Expr>,
    skip: usize,
    observations: &mut Vec<ObservationRecord<CandidateKey>>,
)
    ensures
        sorting::views(final(observations)@) == sorting::views(old(observations)@)
            + param_observations(trait_item@, args@, skip as nat),
{
    let ghost known = sorting::views(observations@);
    proof {
        assert(known + Seq::empty() =~= known);
    }
    if args.len() <= skip {
        return;
    }
    let mut i: usize = skip;
    proof {
        assert(known + param_observations(trait_item@, args@.take(i as int), skip as nat)
            =~= known);
    }
    while i < args.len()
        invariant
            skip <= i <= args.len(),
            sorting::views(observations@) == known + param_observations(
                trait_item@,
                args@.take(i as int),
                skip as nat,
            ),
        decreases args.len() - i,
    {
        let ghost before = param_observations(trait_item@, args@.take(i as int), skip as nat);
        proof {
            assert(args@.take(i + 1).drop_last() =~= args@.take(i as int));
            assert(args@.take(i + 1).last() == args@[i as int]);
        }
        record_observation(
            observations,
            CandidateKey::TraitMethodParam { trait_item: trait_item.clone(), index: i - skip },
            option_report::classify_option_expr(&args[i]),
        );
        proof {
            let now = param_observations(trait_item@, args@.take(i + 1), skip as nat);
            assert(known + now =~= (known + before).push(now.last()));
        }
        i = i + 1;
    }
    proof {
        assert(args@.take(i as int) =~= args@);
    }
}

/// Adds what `expr` shows.
pub fn maybe_record_trait_method_call(
    expr: &Expr,
    observations: &mut Vec<ObservationRecord<CandidateKey>>,
)
    ensures
        sorting::views(final(observations)@) == sorting::views(old(observations)@)
            + expr_observations(*expr),
{
    let ghost known = sorting::views(observations@);
    proof {
        assert(known + Seq::empty() =~= known);
    }
    match &expr.kind {
        ExprKind::MethodCall { args, .. } => {
            if let Some(def) = &expr.type_dependent {
                if let Some(trait_item) = trait_method_def(def) {
                    record_params(&trait_item, args, 0, observations);
                }
            }
        },
        ExprKind::Call { callee, args } => {
            if let Some(def) = option_single_variant::called_def(expr, callee) {
                if let Some(trait_item) = trait_method_def(def) {
                    let skip: usize = match &def.assoc {
                        Some(assoc) => if assoc.is_method {
                            1
                        } else {
                            0
                        },
                        None => 0,
                    };
                    record_params(&trait_item, args, skip, observations);
                }
            }
        },
        _ => {},
    }
}

/// Looks at the item `item` of a trait.
pub fn check_trait_item(state: &mut LintState<CandidateKey>, item: &TraitItem)
    ensures
        final(state).mode == old(state).mode,
        final(state).info == old(state).info,
        old(state).mode is Disabled ==> *final(state) == *old(state),
        !(old(state).mode is Disabled) ==> sorting::views(final(state).candidates@)
            == sorting::views(old(state).candidates@) + trait_candidates(*item) && sorting::views(
            final(state).observations@,
        ) == sorting::views(old(state).observations@) + trait_observations(*item),
{
    let ghost known = sorting::views(state.candidates@);
    let ghost seen = sorting::views(state.observations@);
    proof {
        assert(known + Seq::empty() =~= known);
        assert(seen + Seq::empty() =~= seen);
    }
    if state.mode.is_disabled() || item.span.from_expansion {
        return;
    }
    match &item.kind {
        TraitItemKind::Fn(sig) => {
            register_params(&item.place, sig, &mut state.candidates);
        },
        TraitItemKind::Const(ty, default) => {
            if !ty.is_item(KnownType::Option) {
                return;
            }
            let key = item.place.key();
            let mut description = "associated const `".to_owned();
            description.append(key.path.as_str());
            description.append("`");
            let candidate = Candidate {
                display_path: key.path.clone(),
                key: CandidateKey::TraitConst { trait_item: key },
                description,
                span: item.span.copied(),
            };
            let ghost value = candidate@;
            state.candidates.push(candidate);
            proof {
                assert(sorting::views(state.candidates@) =~= known.push(value));
                assert(known + seq![value] =~= known.push(value));
                assert(value == const_candidate(*item));
            }
            if let Some(body) = default {
                let ghost shown = option_report::ObservationText {
                    key: KeyText::TraitConst(hir::key_at(item.place)),
                    value: option_report::observed(*body),
                };
                record_observation(
                    &mut state.observations,
                    CandidateKey::TraitConst { trait_item: item.place.key() },
                    option_report::classify_option_expr(body),
                );
                proof {
                    assert(seen + seq![shown] =~= seen.push(shown));
                }
            }
        },
        TraitItemKind::Type => {},
    }
}

/// Looks at the item `item` of an impl.
pub fn check_impl_item(state: &mut LintState<CandidateKey>, item: &ImplItem)
    ensures
        final(state).mode == old(state).mode,
        final(state).info == old(state).info,
        final(state).candidates == old(state).candidates,
        old(state).mode is Disabled ==> final(state).observations == old(state).observations,
        !(old(state).mode is Disabled) ==> sorting::views(final(state).observations@)
            == sorting::views(old(state).observations@) + impl_observations(*item),
{
    let ghost seen = sorting::views(state.observations@);
    proof {
        assert(seen + Seq::empty() =~= seen);
    }
    if state.mode.is_disabled() {
        return;
    }
    if let ImplItemKind::Const(body) = &item.kind {
        if let Some(trait_item) = &item.implements {
            let ghost shown = option_report::ObservationText {
                key: KeyText::TraitConst(hir::key_at(*trait_item)),
                value: option_report::observed(*body),
            };
            record_observation(
                &mut state.observations,
                CandidateKey::TraitConst { trait_item: trait_item.key() },
                option_report::classify_option_expr(body),
            );
            proof {
                assert(seen + seq![shown] =~= seen.push(shown));
            }
        }
    }
}

/// Looks at `expr`.
pub fn check_expr(state: &mut LintState<CandidateKey>, expr: &Expr)
    ensures
        final(state).mode == old(state).mode,
        final(state).info == old(state).info,
        final(state).candidates == old(state).candidates,
        old(state).mode is Disabled ==> final(state).observations == old(state).observations,
        !(old(state).mode is Disabled) ==> sorting::views(final(state).observations@)
            == sorting::views(old(state).observations@) + expr_observations(*expr),
{
    if state.mode.is_disabled() {
        return;
    }
    maybe_record_trait_method_call(expr, &mut state.observations);
}

/// The observations of a call are one for each argument behind `self`, in their order:
/// each is about the parameter at the place of its argument and shows what that argument
/// shows.
pub proof fn lemma_each_argument_for_its_parameter(
    trait_item: Seq<char>,
    args: Seq<Expr>,
    skip: nat,
)
    ensures
        param_observations(trait_item, args, skip).len() == if args.len() <= skip {
            0
        } else {
            args.len() - skip
        },
        forall|i: int|
            0 <= i < args.len() - skip ==> #[trigger] param_observations(
                trait_item,
                args,
                skip,
            )[i] == (option_report::ObservationText {
                key: KeyText::TraitMethodParam(trait_item, i as usize),
                value: option_report::observed(args[i + skip]),
            }),
    decreases args.len(),
{
    if args.len() > skip {
        let front = args.drop_last();
        let known = param_observations(trait_item, front, skip);
        let now = param_observations(trait_item, args, skip);
        lemma_each_argument_for_its_parameter(trait_item, front, skip);
        assert forall|i: int| 0 <= i < args.len() - skip implies #[trigger] now[i] == (
        option_report::ObservationText {
            key: KeyText::TraitMethodParam(trait_item, i as usize),
            value: option_report::observed(args[i + skip]),
        }) by {
            if i < known.len() {
                assert(now[i] == known[i]);
                assert(front[i + skip] == args[i + skip]);
            }
        }
    }
}

/// A call of a function of a trait shows each argument but `self` at the parameter at its
/// place behind `self`; a call of any other function shows nothing.
pub proof fn lemma_trait_call_shown(expr: Expr)
    requires
        expr.kind is MethodCall || expr.kind is Call,
        expr.type_dependent is Some,
    ensures
        ({
            let def = expr.type_dependent->Some_0;
            let args = match expr.kind {
                ExprKind::MethodCall { args, .. } => args@,
                ExprKind::Call { args, .. } => args@,
                _ => Seq::empty(),
            };
            if def.assoc matches Some(assoc) && assoc.is_fn && assoc.of_trait
                && assoc.trait_item_or_self is Some {
                let assoc = def.assoc->Some_0;
                let skip: int = if assoc.is_method && expr.kind is Call {
                    1
                } else {
                    0
                };
                &&& args.len() >= skip ==> expr_observations(expr).len() == args.len() - skip
                &&& forall|i: int|
                    0 <= i < args.len() - skip ==> #[trigger] expr_observations(expr)[i] == (
                    option_report::ObservationText {
                        key: KeyText::TraitMethodParam(
                            hir::key_at(assoc.trait_item_or_self->Some_0),
                            i as usize,
                        ),
                        value: option_report::observed(args[i + skip]),
                    })
            } else {
                expr_observations(expr).len() == 0
            }
        }),
{
    let def = expr.type_dependent->Some_0;
    if let Some(assoc) = def.assoc {
        if let Some(place) = assoc.trait_item_or_self {
            match expr.kind {
                ExprKind::MethodCall { args, .. } => {
                    lemma_each_argument_for_its_parameter(hir::key_at(place), args@, 0);
                },
                ExprKind::Call { args, .. } => {
                    lemma_each_argument_for_its_parameter(
                        hir::key_at(place),
                        args@,
                        if assoc.is_method {
                            1
                        } else {
                            0
                        },
                    );
                },
                _ => {},
            }
        }
    }
}

/// The `Option` parameters of a method of a trait are its candidates: those behind
/// `self`, each with its place behind `self`.
pub proof fn lemma_param_candidates(place: DefPath, sig: FnSig, n: int, c: CandidateText)
    ensures
        param_candidates(place, sig, n).contains(c) <==> exists|i: int|
            0 <= i < n && c == #[trigger] param_candidate(place, sig, i) && {
                let at = if sig.is_method {
                    i + 1
                } else {
                    i
                };
                at < sig.inputs.len() && (sig.inputs@[at].kind matches TyKind::Adt(adt)
                    && adt.known == KnownType::Option)
            },
        forall|i: int|
            (#[trigger] param_candidate(place, sig, i)).key == KeyText::TraitMethodParam(
                hir::key_at(place),
                i as usize,
            ),
    decreases n,
{
    if n > 0 {
        let front = param_candidates(place, sig, n - 1);
        let last = param_candidate(place, sig, n - 1);
        lemma_param_candidates(place, sig, n - 1, c);
        if option_single_variant::is_option_param(sig, n - 1) {
            assert(front.push(last) =~= front + seq![last]);
            lists::lemma_in_either(front, seq![last], c);
            if seq![last].contains(c) {
                assert(c == param_candidate(place, sig, n - 1));
            }
            assert(seq![last][0] == last);
        }
    }
}

/// A method of a trait has the candidates of all its parameters, and a constant is one if
/// it is an `Option`; nothing that a macro produced is one. The value of a constant is
/// seen where the trait gives it one and where an impl does.
pub proof fn lemma_trait_items(item: TraitItem, impl_item: ImplItem)
    ensures
        item.span.from_expansion ==> trait_candidates(item).len() == 0
            && trait_observations(item).len() == 0,
        !item.span.from_expansion ==> match item.kind {
            TraitItemKind::Fn(sig) => trait_candidates(item) == param_candidates(
                item.place,
                sig,
                sig.written.len() as int,
            ) && trait_observations(item).len() == 0,
            TraitItemKind::Const(ty, value) => if ty.kind matches TyKind::Adt(adt) && adt.known
                == KnownType::Option {
                &&& trait_candidates(item).len() == 1
                &&& trait_candidates(item)[0].key == KeyText::TraitConst(hir::key_at(item.place))
                &&& trait_candidates(item)[0].span == item.span
                &&& trait_observations(item) == match value {
                    Some(given) => seq![
                        option_report::ObservationText {
                            key: KeyText::TraitConst(hir::key_at(item.place)),
                            value: option_report::observed(given),
                        },
                    ],
                    None => Seq::<ObservationText>::empty(),
                }
            } else {
                trait_candidates(item).len() == 0 && trait_observations(item).len() == 0
            },
            TraitItemKind::Type => trait_candidates(item).len() == 0,
        },
        impl_item.kind matches ImplItemKind::Const(value) ==> (
        impl_item.implements matches Some(place) ==> impl_observations(impl_item) == seq![
            option_report::ObservationText {
                key: KeyText::TraitConst(hir::key_at(place)),
                value: option_report::observed(value),
            },
        ]),
        impl_item.implements is None || !(impl_item.kind is Const) ==> impl_observations(
            impl_item,
        ).len() == 0,
{
}

/// What to do about a place depends on the variant and on what the place is, and no two
/// of them have the same advice; what is done with a value depends on the place alone.
pub proof fn lemma_advice(a: KeyText, b: KeyText, variant: OptionVariant, other: OptionVariant)
    ensures
        ({
            let alike = (a is TraitConst) == (b is TraitConst);
            &&& <CandidateKey as OptionKey>::advice_text(a, variant)
                == <CandidateKey as OptionKey>::advice_text(b, other) <==> alike && variant == other
            &&& <CandidateKey as OptionKey>::action_text(a)
                == <CandidateKey as OptionKey>::action_text(b) <==> alike
        }),
{
    reveal_strlit("consider making this parameter non-optional");
    reveal_strlit("consider removing this parameter or using a clearer API for absence");
    reveal_strlit("consider making this associated const non-optional");
    reveal_strlit("consider removing this associated const or using a clearer sentinel");
    reveal_strlit("passed");
    reveal_strlit("assigned");
    let x = <CandidateKey as OptionKey>::advice_text(a, variant);
    let y = <CandidateKey as OptionKey>::advice_text(b, other);
    if x == y {
        assert(x.len() == y.len());
        assert(x[9] == y[9]);
        assert(x[23] == y[23]);
    }
    let v = <CandidateKey as OptionKey>::action_text(a);
    let w = <CandidateKey as OptionKey>::action_text(b);
    if v == w {
        assert(v.len() == w.len());
    }
}

/// The place of a key is the one in its fields.
pub proof fn lemma_key_values(key: CandidateKey)
    ensures
        match key {
            CandidateKey::TraitMethodParam { trait_item, index } => key@
                == KeyText::TraitMethodParam(trait_item.path@, index),
            CandidateKey::TraitConst { trait_item } => key@ == KeyText::TraitConst(trait_item.path@),
        },
{
}

} // verus!

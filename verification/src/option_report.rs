//! Places for an `Option` that only ever hold one of its variants.
use vstd::prelude::*;

use crate::hir;
use crate::hir::{Def, DefKind, Diagnostic, Expr, ExprKind, KnownType, Res, Span};
use crate::lists;
use crate::sorting;
use crate::text;
use crate::utils;
use crate::workspace_lint::{CrateInfo, Mode};

verus! {

/// One of the two variants of an `Option`.
#[derive(Debug, Clone, Copy, PartialEq, Eq, Structural)]
pub enum OptionVariant {
    Present,
    Absent,
}

/// What is seen of an `Option` at one place.
#[derive(Debug, Clone, Copy, PartialEq, Eq, Structural)]
pub enum ObservedValue {
    Present,
    Absent,
    /// Neither variant is written out.
    Other,
}

/// The name of a variant.
pub open spec fn variant_name(variant: OptionVariant) -> Seq<char> {
    match variant {
        OptionVariant::Present => "Some"@,
        OptionVariant::Absent => "None"@,
    }
}

impl OptionVariant {
    /// The name of the variant.
    pub fn as_str(self) -> (r: &'static str)
        ensures
            r@ == variant_name(self),
    {
        match self {
            OptionVariant::Present => "Some",
            OptionVariant::Absent => "None",
        }
    }
}

/// The variant of `Option` that the definition `variant` is.
pub open spec fn variant_of(variant: Def) -> Option<OptionVariant> {
    match variant.parent {
        Some(owner) => if owner.known != KnownType::Option {
            None
        } else if variant.name@ == "Some"@ {
            Some(OptionVariant::Present)
        } else if variant.name@ == "None"@ {
            Some(OptionVariant::Absent)
        } else {
            None
        },
        None => None,
    }
}

/// The variant of `Option` that a definition stands for, as the variant or as its
/// constructor.
pub open spec fn option_variant(def: Def) -> Option<OptionVariant> {
    if def.kind == DefKind::Ctor {
        match def.parent {
            Some(variant) => variant_of(*variant),
            None => None,
        }
    } else {
        variant_of(def)
    }
}

/// The variant of `Option` that `variant` is.
fn find_variant(variant: &Def) -> (r: Option<OptionVariant>)
    ensures
        r == variant_of(*variant),
{
    let Some(owner) = &variant.parent else {
        return None;
    };
    if owner.known != KnownType::Option {
        return None;
    }
    proof {
        reveal_strlit("Some");
        reveal_strlit("None");
        assert("Some"@[0] != "None"@[0]);
    }
    if text::equal(variant.name.as_str(), "Some") {
        Some(OptionVariant::Present)
    } else if text::equal(variant.name.as_str(), "None") {
        Some(OptionVariant::Absent)
    } else {
        None
    }
}

/// The variant of `Option` that `def` stands for.
pub fn option_variant_for_def(def: &Def) -> (r: Option<OptionVariant>)
    ensures
        r == option_variant(*def),
{
    if def.kind == DefKind::Ctor {
        match &def.parent {
            Some(variant) => find_variant(variant),
            None => None,
        }
    } else {
        find_variant(def)
    }
}

/// What an expression shows of an `Option`: the call of a constructor with one
/// argument, a bare variant, or neither.
pub open spec fn observed(expr: Expr) -> ObservedValue {
    match hir::unblocked(expr).kind {
        ExprKind::Call { callee, args } => match callee.kind {
            ExprKind::Path { res: Res::Def(def), .. } => if args.len() == 1 && option_variant(def)
                == Some(OptionVariant::Present) {
                ObservedValue::Present
            } else {
                ObservedValue::Other
            },
            _ => ObservedValue::Other,
        },
        ExprKind::Path { res: Res::Def(def), .. } => if option_variant(def) == Some(
            OptionVariant::Absent,
        ) {
            ObservedValue::Absent
        } else {
            ObservedValue::Other
        },
        _ => ObservedValue::Other,
    }
}

/// What `expr` shows of an `Option`.
pub fn classify_option_expr(expr: &Expr) -> (r: ObservedValue)
    ensures
        r == observed(*expr),
{
    let expr = hir::peel_blocks(expr);
    match &expr.kind {
        ExprKind::Call { callee, args } => {
            if args.len() != 1 {
                return ObservedValue::Other;
            }
            let ExprKind::Path { res, .. } = &callee.kind else {
                return ObservedValue::Other;
            };
            let Res::Def(def) = res else {
                return ObservedValue::Other;
            };
            match option_variant_for_def(def) {
                Some(OptionVariant::Present) => ObservedValue::Present,
                _ => ObservedValue::Other,
            }
        },
        ExprKind::Path { res, .. } => {
            let Res::Def(def) = res else {
                return ObservedValue::Other;
            };
            match option_variant_for_def(def) {
                Some(OptionVariant::Absent) => ObservedValue::Absent,
                _ => ObservedValue::Other,
            }
        },
        _ => ObservedValue::Other,
    }
}

/// A place for an `Option`.
pub trait OptionKey: View + Sized {
    /// What is done with a value at such a place.
    spec fn action_text(key: Self::V) -> Seq<char>;

    /// What to do about a place that only ever holds `variant`.
    spec fn advice_text(key: Self::V, variant: OptionVariant) -> Seq<char>;

    /// Whether the two places are the same.
    fn same(&self, other: &Self) -> (b: bool)
        ensures
            b == (self@ == other@),
    ;

    /// A copy of the place.
    fn copied(&self) -> (r: Self)
        ensures
            r@ == self@,
    ;

    /// What is done with a value at the place.
    fn action(&self) -> (r: &'static str)
        ensures
            r@ == Self::action_text(self@),
    ;

    /// What to do about the place if it only ever holds `variant`.
    fn advice(&self, variant: OptionVariant) -> (r: &'static str)
        ensures
            r@ == Self::advice_text(self@, variant),
    ;
}

/// A place for an `Option` in the crate at hand.
#[derive(Debug)]
pub struct Candidate<K> {
    pub key: K,
    pub display_path: String,
    pub description: String,
    pub span: Span,
}

/// A place for an `Option` with its location.
#[derive(Debug)]
pub struct CandidateRecord<K> {
    pub key: K,
    pub display_path: String,
    pub description: String,
    pub file: String,
    pub line: u32,
    pub column: u32,
}

/// A value seen at a place.
#[derive(Debug)]
pub struct ObservationRecord<K> {
    pub key: K,
    pub value: ObservedValue,
}

/// What was collected from one target.
#[derive(Debug)]
pub struct TargetArtifact<K> {
    pub crate_stable_id: String,
    pub crate_name: String,
    pub target_name: String,
    pub target_kind: String,
    pub candidates: Vec<CandidateRecord<K>>,
    pub observations: Vec<ObservationRecord<K>>,
}

/// A place that only ever holds one variant.
#[derive(Debug)]
pub struct ReportEntry<K> {
    pub key: K,
    pub display_path: String,
    pub description: String,
    pub variant: OptionVariant,
    pub file: String,
    pub line: u32,
    pub column: u32,
}

/// The redundant places of a workspace.
#[derive(Debug)]
pub struct AggregatedReport<K> {
    pub redundant: Vec<ReportEntry<K>>,
}

/// The values of a candidate.
pub ghost struct CandidateText<W> {
    pub key: W,
    pub display_path: Seq<char>,
    pub description: Seq<char>,
    pub span: Span,
}

/// The values of a candidate with its location.
pub ghost struct RecordText<W> {
    pub key: W,
    pub display_path: Seq<char>,
    pub description: Seq<char>,
    pub file: Seq<char>,
    pub line: u32,
    pub column: u32,
}

/// The values of an observation.
pub ghost struct ObservationText<W> {
    pub key: W,
    pub value: ObservedValue,
}

/// The values of an entry of the report.
pub ghost struct EntryText<W> {
    pub key: W,
    pub display_path: Seq<char>,
    pub description: Seq<char>,
    pub variant: OptionVariant,
    pub file: Seq<char>,
    pub line: u32,
    pub column: u32,
}

impl<K: View> View for Candidate<K> {
    type V = CandidateText<K::V>;

    open spec fn view(&self) -> CandidateText<K::V> {
        CandidateText {
            key: self.key@,
            display_path: self.display_path@,
            description: self.description@,
            span: self.span,
        }
    }
}

impl<K: View> View for CandidateRecord<K> {
    type V = RecordText<K::V>;

    open spec fn view(&self) -> RecordText<K::V> {
        RecordText {
            key: self.key@,
            display_path: self.display_path@,
            description: self.description@,
            file: self.file@,
            line: self.line,
            column: self.column,
        }
    }
}

impl<K: View> View for ObservationRecord<K> {
    type V = ObservationText<K::V>;

    open spec fn view(&self) -> ObservationText<K::V> {
        ObservationText { key: self.key@, value: self.value }
    }
}

impl<K: View> View for ReportEntry<K> {
    type V = EntryText<K::V>;

    open spec fn view(&self) -> EntryText<K::V> {
        EntryText {
            key: self.key@,
            display_path: self.display_path@,
            description: self.description@,
            variant: self.variant,
            file: self.file@,
            line: self.line,
            column: self.column,
        }
    }
}

/// The warning on a place that only ever holds `variant`.
pub open spec fn option_warning<K: OptionKey>(
    candidate: CandidateText<K::V>,
    variant: OptionVariant,
) -> hir::DiagnosticText {
    hir::DiagnosticText {
        span: candidate.span.id,
        message: candidate.description + " has type `Option<_>` but is only ever "@
            + K::action_text(candidate.key) + " `"@ + variant_name(variant)
            + "` across the workspace"@,
        advice: K::advice_text(candidate.key, variant),
    }
}

/// The warning on `candidate`, which only ever holds `variant`.
pub fn emit_lint<K: OptionKey>(candidate: &Candidate<K>, variant: OptionVariant) -> (r: Diagnostic)
    ensures
        r@ == option_warning::<K>(candidate@, variant),
{
    let mut message = candidate.description.clone();
    message.append(" has type `Option<_>` but is only ever ");
    message.append(candidate.key.action());
    message.append(" `");
    message.append(variant.as_str());
    message.append("` across the workspace");
    Diagnostic {
        span: candidate.span.id,
        message,
        advice: candidate.key.advice(variant).to_owned(),
    }
}

/// The last of `entries` for `key`.
pub open spec fn entry_for<W>(entries: Seq<EntryText<W>>, key: W) -> Option<EntryText<W>>
    decreases entries.len(),
{
    if entries.len() == 0 {
        None
    } else if entries.last().key == key {
        Some(entries.last())
    } else {
        entry_for(entries.drop_last(), key)
    }
}

/// The warnings on those of `candidates` that have an entry.
pub open spec fn warnings<K: OptionKey>(
    candidates: Seq<CandidateText<K::V>>,
    entries: Seq<EntryText<K::V>>,
) -> Seq<hir::DiagnosticText>
    decreases candidates.len(),
{
    if candidates.len() == 0 {
        Seq::empty()
    } else {
        let front = warnings::<K>(candidates.drop_last(), entries);
        match entry_for(entries, candidates.last().key) {
            Some(entry) => front.push(option_warning::<K>(candidates.last(), entry.variant)),
            None => front,
        }
    }
}

/// The last of `entries` for `key`.
fn find_entry<'a, K: OptionKey>(entries: &'a Vec<ReportEntry<K>>, key: &K) -> (r: Option<
    &'a ReportEntry<K>,
>)
    ensures
        r is Some <==> entry_for(sorting::views(entries@), key@) is Some,
        r matches Some(entry) ==> entry_for(sorting::views(entries@), key@) == Some(entry@),
{
    let ghost all = sorting::views(entries@);
    let mut i: usize = entries.len();
    proof {
        assert(all.take(i as int) =~= all);
    }
    while i > 0
        invariant
            i <= entries.len(),
            all == sorting::views(entries@),
            entry_for(all, key@) == entry_for(all.take(i as int), key@),
        decreases i,
    {
        proof {
            assert(all.take(i as int).last() == entries@[i - 1]@);
            assert(all.take(i as int).drop_last() =~= all.take(i - 1));
        }
        if entries[i - 1].key.same(key) {
            return Some(&entries[i - 1]);
        }
        i = i - 1;
    }
    None
}

/// The warnings on those of `candidates` that have an entry in `entries`.
fn emit_warnings<K: OptionKey>(
    candidates: &Vec<Candidate<K>>,
    entries: &Vec<ReportEntry<K>>,
) -> (r: Vec<Diagnostic>)
    ensures
        sorting::views(r@) == warnings::<K>(sorting::views(candidates@), sorting::views(entries@)),
{
    let ghost all = sorting::views(candidates@);
    let ghost known = sorting::views(entries@);
    let mut found: Vec<Diagnostic> = Vec::new();
    let mut i: usize = 0;
    proof {
        assert(all.take(0) =~= Seq::empty());
        assert(sorting::views(found@) =~= Seq::empty());
    }
    while i < candidates.len()
        invariant
            i <= candidates.len(),
            all == sorting::views(candidates@),
            known == sorting::views(entries@),
            sorting::views(found@) == warnings::<K>(all.take(i as int), known),
        decreases candidates.len() - i,
    {
        let ghost had = found@;
        proof {
            assert(all.take(i + 1).last() == candidates@[i as int]@);
            assert(all.take(i + 1).drop_last() =~= all.take(i as int));
        }
        if let Some(entry) = find_entry(entries, &candidates[i].key) {
            let warning = emit_lint(&candidates[i], entry.variant);
            let ghost value = warning@;
            found.push(warning);
            proof {
                assert(sorting::views(found@) =~= sorting::views(had).push(value));
            }
        }
        i = i + 1;
    }
    proof {
        assert(all.take(i as int) =~= all);
    }
    found
}

/// The candidates that have a location, with it.
pub open spec fn located_records<W>(candidates: Seq<CandidateText<W>>) -> Seq<RecordText<W>>
    decreases candidates.len(),
{
    if candidates.len() == 0 {
        Seq::empty()
    } else {
        let front = located_records(candidates.drop_last());
        let last = candidates.last();
        if utils::located(last.span.start) {
            front.push(
                RecordText {
                    key: last.key,
                    display_path: last.display_path,
                    description: last.description,
                    file: last.span.start.local_path->Some_0@,
                    line: last.span.start.line as u32,
                    column: (last.span.start.column + 1) as u32,
                },
            )
        } else {
            front
        }
    }
}

/// The candidates that have a location, with it.
fn locate<K: OptionKey>(candidates: &Vec<Candidate<K>>) -> (r: Vec<CandidateRecord<K>>)
    ensures
        sorting::views(r@) == located_records(sorting::views(candidates@)),
{
    let ghost all = sorting::views(candidates@);
    let mut found: Vec<CandidateRecord<K>> = Vec::new();
    let mut i: usize = 0;
    proof {
        assert(all.take(0) =~= Seq::empty());
        assert(sorting::views(found@) =~= Seq::empty());
    }
    while i < candidates.len()
        invariant
            i <= candidates.len(),
            all == sorting::views(candidates@),
            sorting::views(found@) == located_records(all.take(i as int)),
        decreases candidates.len() - i,
    {
        let ghost had = found@;
        proof {
            assert(all.take(i + 1).last() == candidates@[i as int]@);
            assert(all.take(i + 1).drop_last() =~= all.take(i as int));
        }
        if let Some(location) = utils::span_location(&candidates[i].span.start) {
            let record = CandidateRecord {
                key: candidates[i].key.copied(),
                display_path: candidates[i].display_path.clone(),
                description: candidates[i].description.clone(),
                file: location.file,
                line: location.line,
                column: location.column,
            };
            let ghost value = record@;
            found.push(record);
            proof {
                assert(sorting::views(found@) =~= sorting::views(had).push(value));
            }
        }
        i = i + 1;
    }
    proof {
        assert(all.take(i as int) =~= all);
    }
    found
}

/// The state of a lint in one crate.
#[derive(Debug)]
pub struct LintState<K> {
    pub mode: Mode<Vec<ReportEntry<K>>>,
    pub info: CrateInfo,
    pub candidates: Vec<Candidate<K>>,
    pub observations: Vec<ObservationRecord<K>>,
}

/// What is left to do once a crate was looked at.
#[derive(Debug)]
pub enum Finish<K> {
    /// Write the artifact to the directory.
    Write { artifact_dir: std::path::PathBuf, artifact: TargetArtifact<K> },
    /// Give the warnings.
    Warn(Vec<Diagnostic>),
    /// Nothing.
    Nothing,
}

impl<K: OptionKey> LintState<K> {
    /// The state before anything of the crate was looked at.
    pub fn new(mode: Mode<Vec<ReportEntry<K>>>, info: CrateInfo) -> (r: LintState<K>)
        ensures
            r.mode == mode,
            r.info == info,
            r.candidates.len() == 0,
            r.observations.len() == 0,
    {
        LintState { mode, info, candidates: Vec::new(), observations: Vec::new() }
    }

    /// What is left to do once all of the crate was looked at.
    pub fn finish(self) -> (r: Finish<K>)
        ensures
            self.mode is Disabled ==> r is Nothing,
            self.mode matches Mode::Collect { artifact_dir: dir } ==> (r matches Finish::Write {
                artifact_dir,
                artifact,
            } && {
                &&& artifact_dir == dir
                &&& artifact.crate_stable_id == self.info.crate_stable_id
                &&& artifact.crate_name == self.info.crate_name
                &&& artifact.target_name == self.info.target_name
                &&& artifact.target_kind == self.info.target_kind
                &&& sorting::views(artifact.candidates@) == located_records(
                    sorting::views(self.candidates@),
                )
                &&& artifact.observations == self.observations
            }),
            self.mode matches Mode::Emit { data } ==> (r matches Finish::Warn(found)
                && sorting::views(found@) == warnings::<K>(
                sorting::views(self.candidates@),
                sorting::views(data@),
            )),
    {
        match self.mode {
            Mode::Disabled => Finish::Nothing,
            Mode::Emit { data } => Finish::Warn(emit_warnings(&self.candidates, &data)),
            Mode::Collect { artifact_dir } => {
                let candidates = locate(&self.candidates);
                Finish::Write {
                    artifact_dir,
                    artifact: TargetArtifact {
                        crate_stable_id: self.info.crate_stable_id,
                        crate_name: self.info.crate_name,
                        target_name: self.info.target_name,
                        target_kind: self.info.target_kind,
                        candidates,
                        observations: self.observations,
                    },
                }
            },
        }
    }
}

/// The candidates of all artifacts, in their order.
pub open spec fn all_candidates<K: View>(artifacts: Seq<TargetArtifact<K>>) -> Seq<RecordText<K::V>>
    decreases artifacts.len(),
{
    if artifacts.len() == 0 {
        Seq::empty()
    } else {
        all_candidates(artifacts.drop_last()) + sorting::views(artifacts.last().candidates@)
    }
}

/// The values that `observations` shows at the place `key`.
pub open spec fn values_at<W>(observations: Seq<ObservationText<W>>, key: W) -> Seq<ObservedValue>
    decreases observations.len(),
{
    if observations.len() == 0 {
        Seq::empty()
    } else {
        let front = values_at(observations.drop_last(), key);
        if observations.last().key == key {
            front.push(observations.last().value)
        } else {
            front
        }
    }
}

/// The values that the artifacts show at the place `key`.
pub open spec fn all_values<K: View>(artifacts: Seq<TargetArtifact<K>>, key: K::V) -> Seq<
    ObservedValue,
>
    decreases artifacts.len(),
{
    if artifacts.len() == 0 {
        Seq::empty()
    } else {
        all_values(artifacts.drop_last(), key) + values_at(
            sorting::views(artifacts.last().observations@),
            key,
        )
    }
}

/// The one variant among `values`: all of them show it, and there is one at least.
pub open spec fn sole_variant(values: Seq<ObservedValue>) -> Option<OptionVariant> {
    if values.len() == 0 {
        None
    } else if forall|i: int| 0 <= i < values.len() ==> #[trigger] values[i] is Present {
        Some(OptionVariant::Present)
    } else if forall|i: int| 0 <= i < values.len() ==> #[trigger] values[i] is Absent {
        Some(OptionVariant::Absent)
    } else {
        None
    }
}

/// Whether one of `records` is about the place `key`.
pub open spec fn has_key<W>(records: Seq<RecordText<W>>, key: W) -> bool {
    exists|i: int| 0 <= i < records.len() && (#[trigger] records[i]).key == key
}

/// The entry for a place that only ever holds `variant`.
pub open spec fn redundant_entry<W>(record: RecordText<W>, variant: OptionVariant) -> EntryText<W> {
    EntryText {
        key: record.key,
        display_path: record.display_path,
        description: record.description,
        variant,
        file: record.file,
        line: record.line,
        column: record.column,
    }
}

/// The entries for those of `records`, in their order, that only ever hold one
/// variant. A place that was recorded before is left out.
pub open spec fn redundant_among<K: View>(
    records: Seq<RecordText<K::V>>,
    artifacts: Seq<TargetArtifact<K>>,
) -> Seq<EntryText<K::V>>
    decreases records.len(),
{
    if records.len() == 0 {
        Seq::empty()
    } else {
        let front = redundant_among(records.drop_last(), artifacts);
        let last = records.last();
        if has_key(records.drop_last(), last.key) {
            front
        } else {
            match sole_variant(all_values(artifacts, last.key)) {
                Some(variant) => front.push(redundant_entry(last, variant)),
                None => front,
            }
        }
    }
}

/// The values that `artifacts` shows at the place `key`.
fn collect_values<K: OptionKey>(artifacts: &Vec<TargetArtifact<K>>, key: &K) -> (r: Vec<
    ObservedValue,
>)
    ensures
        r@ == all_values(artifacts@, key@),
{
    let mut found: Vec<ObservedValue> = Vec::new();
    let mut i: usize = 0;
    proof {
        assert(artifacts@.take(0) =~= Seq::empty());
    }
    while i < artifacts.len()
        invariant
            i <= artifacts.len(),
            found@ == all_values(artifacts@.take(i as int), key@),
        decreases artifacts.len() - i,
    {
        let ghost known = all_values(artifacts@.take(i as int), key@);
        let observations = &artifacts[i].observations;
        let ghost all = sorting::views(observations@);
        let mut k: usize = 0;
        proof {
            assert(all.take(0) =~= Seq::empty());
            assert(known + values_at(all.take(0), key@) =~= known);
        }
        while k < observations.len()
            invariant
                k <= observations.len(),
                all == sorting::views(observations@),
                found@ == known + values_at(all.take(k as int), key@),
            decreases observations.len() - k,
        {
            proof {
                assert(all.take(k + 1).drop_last() =~= all.take(k as int));
                assert(all.take(k + 1).last() == observations@[k as int]@);
            }
            if observations[k].key.same(key) {
                found.push(observations[k].value);
                proof {
                    assert(known + values_at(all.take(k + 1), key@) =~= (known + values_at(
                        all.take(k as int),
                        key@,
                    )).push(observations@[k as int].value));
                }
            }
            k = k + 1;
        }
        proof {
            assert(all.take(k as int) =~= all);
            assert(artifacts@.take(i + 1).drop_last() =~= artifacts@.take(i as int));
            assert(artifacts@.take(i + 1).last() == artifacts@[i as int]);
        }
        i = i + 1;
    }
    proof {
        assert(artifacts@.take(i as int) =~= artifacts@);
    }
    found
}

/// The one variant among `values`.
pub fn find_sole_variant(values: &Vec<ObservedValue>) -> (r: Option<OptionVariant>)
    ensures
        r == sole_variant(values@),
{
    if values.len() == 0 {
        return None;
    }
    let mut all_present = true;
    let mut all_absent = true;
    let mut i: usize = 0;
    while i < values.len()
        invariant
            i <= values.len(),
            all_present == (forall|j: int| 0 <= j < i ==> #[trigger] values@[j] is Present),
            all_absent == (forall|j: int| 0 <= j < i ==> #[trigger] values@[j] is Absent),
        decreases values.len() - i,
    {
        match values[i] {
            ObservedValue::Present => {
                all_absent = false;
            },
            ObservedValue::Absent => {
                all_present = false;
            },
            ObservedValue::Other => {
                all_present = false;
                all_absent = false;
            },
        }
        i = i + 1;
    }
    if all_present {
        Some(OptionVariant::Present)
    } else if all_absent {
        Some(OptionVariant::Absent)
    } else {
        None
    }
}

/// Whether one of `records` is about the place `key`.
fn recorded<K: OptionKey>(records: &Vec<&CandidateRecord<K>>, key: &K) -> (b: bool)
    ensures
        b == has_key(sorting::views(records@), key@),
{
    let ghost all = sorting::views(records@);
    let mut i: usize = 0;
    while i < records.len()
        invariant
            i <= records.len(),
            all == sorting::views(records@),
            forall|j: int| 0 <= j < i ==> (#[trigger] all[j]).key != key@,
        decreases records.len() - i,
    {
        proof {
            assert(all[i as int] == records@[i as int]@);
        }
        if records[i].key.same(key) {
            return true;
        }
        i = i + 1;
    }
    false
}

/// The report on the places in `artifacts` that only ever hold one variant.
pub fn aggregate_artifacts<K: OptionKey>(artifacts: &Vec<TargetArtifact<K>>) -> (r:
    AggregatedReport<K>)
    ensures
        sorting::views(r.redundant@) == redundant_among(all_candidates(artifacts@), artifacts@),
{
    let mut seen: Vec<&CandidateRecord<K>> = Vec::new();
    let mut redundant: Vec<ReportEntry<K>> = Vec::new();
    let mut i: usize = 0;
    proof {
        assert(artifacts@.take(0) =~= Seq::empty());
        assert(sorting::views(seen@) =~= Seq::empty());
        assert(sorting::views(redundant@) =~= Seq::empty());
    }
    while i < artifacts.len()
        invariant
            i <= artifacts.len(),
            sorting::views(seen@) == all_candidates(artifacts@.take(i as int)),
            sorting::views(redundant@) == redundant_among(sorting::views(seen@), artifacts@),
        decreases artifacts.len() - i,
    {
        let ghost known = all_candidates(artifacts@.take(i as int));
        let candidates = &artifacts[i].candidates;
        let ghost all = sorting::views(candidates@);
        let mut k: usize = 0;
        proof {
            assert(known + all.take(0) =~= known);
        }
        while k < candidates.len()
            invariant
                k <= candidates.len(),
                all == sorting::views(candidates@),
                sorting::views(seen@) == known + all.take(k as int),
                sorting::views(redundant@) == redundant_among(sorting::views(seen@), artifacts@),
            decreases candidates.len() - k,
        {
            let record = &candidates[k];
            let ghost before = sorting::views(seen@);
            let ghost had = redundant@;
            proof {
                let now = before.push(record@);
                assert(now.drop_last() =~= before);
                assert(known + all.take(k + 1) =~= (known + all.take(k as int)).push(record@));
            }
            if !recorded(&seen, &record.key) {
                let values = collect_values(artifacts, &record.key);
                if let Some(variant) = find_sole_variant(&values) {
                    let entry = ReportEntry {
                        key: record.key.copied(),
                        display_path: record.display_path.clone(),
                        description: record.description.clone(),
                        variant,
                        file: record.file.clone(),
                        line: record.line,
                        column: record.column,
                    };
                    let ghost value = entry@;
                    redundant.push(entry);
                    proof {
                        assert(sorting::views(redundant@) =~= sorting::views(had).push(value));
                    }
                }
            }
            seen.push(record);
            proof {
                assert(sorting::views(seen@) =~= before.push(record@));
            }
            k = k + 1;
        }
        proof {
            assert(all.take(k as int) =~= all);
            assert(artifacts@.take(i + 1).drop_last() =~= artifacts@.take(i as int));
            assert(artifacts@.take(i + 1).last() == artifacts@[i as int]);
        }
        i = i + 1;
    }
    proof {
        assert(artifacts@.take(i as int) =~= artifacts@);
    }
    AggregatedReport { redundant }
}

/// A value that shows neither variant keeps a place out of the report.
pub proof fn lemma_other_suppresses(values: Seq<ObservedValue>, i: int)
    requires
        0 <= i < values.len(),
        values[i] is Other,
    ensures
        sole_variant(values) is None,
{
}

/// Values of both variants keep a place out of the report.
pub proof fn lemma_mixed_suppresses(values: Seq<ObservedValue>, i: int, j: int)
    requires
        0 <= i < values.len(),
        0 <= j < values.len(),
        values[i] is Present,
        values[j] is Absent,
    ensures
        sole_variant(values) is None,
{
}

/// A reported place holds the reported variant wherever it was seen, and was seen
/// at least once.
pub proof fn lemma_reported_places<K: OptionKey>(
    records: Seq<RecordText<K::V>>,
    artifacts: Seq<TargetArtifact<K>>,
    i: int,
)
    requires
        0 <= i < redundant_among(records, artifacts).len(),
    ensures
        ({
            let entry = redundant_among(records, artifacts)[i];
            &&& has_key(records, entry.key)
            &&& sole_variant(all_values(artifacts, entry.key)) == Some(entry.variant)
        }),
    decreases records.len(),
{
    let front = redundant_among(records.drop_last(), artifacts);
    let entry = redundant_among(records, artifacts)[i];
    if i < front.len() {
        lemma_reported_places::<K>(records.drop_last(), artifacts, i);
        assert(entry == front[i]);
        let shorter = records.drop_last();
        let k = choose|k: int| 0 <= k < shorter.len() && (#[trigger] shorter[k]).key == entry.key;
        assert(records[k].key == entry.key);
    } else {
        assert(records[records.len() - 1].key == entry.key);
    }
}

/// A recorded place that only ever holds one variant is reported.
pub proof fn lemma_place_is_reported<K: OptionKey>(
    records: Seq<RecordText<K::V>>,
    artifacts: Seq<TargetArtifact<K>>,
    key: K::V,
)
    requires
        has_key(records, key),
        sole_variant(all_values(artifacts, key)) is Some,
    ensures
        exists|i: int|
            0 <= i < redundant_among(records, artifacts).len() && (#[trigger] redundant_among(
                records,
                artifacts,
            )[i]).key == key,
    decreases records.len(),
{
    let shorter = records.drop_last();
    let front = redundant_among(shorter, artifacts);
    let whole = redundant_among(records, artifacts);
    if has_key(shorter, key) {
        lemma_place_is_reported::<K>(shorter, artifacts, key);
        let i = choose|i: int| 0 <= i < front.len() && (#[trigger] front[i]).key == key;
        assert(whole[i] == front[i]);
    } else {
        let k = choose|k: int| 0 <= k < records.len() && (#[trigger] records[k]).key == key;
        if k < shorter.len() {
            assert(shorter[k].key == key);
        }
        assert(whole[whole.len() - 1].key == key);
    }
}

proof fn lemma_entry_found<W>(entries: Seq<EntryText<W>>, key: W)
    ensures
        match entry_for(entries, key) {
            Some(entry) => entry.key == key && entries.contains(entry),
            None => forall|i: int| 0 <= i < entries.len() ==> (#[trigger] entries[i]).key != key,
        },
    decreases entries.len(),
{
    if entries.len() > 0 {
        let front = entries.drop_last();
        if entries.last().key == key {
            assert(entries[entries.len() - 1] == entries.last());
        } else {
            lemma_entry_found(front, key);
            match entry_for(front, key) {
                Some(entry) => {
                    let i = choose|i: int| 0 <= i < front.len() && front[i] == entry;
                    assert(entries[i] == entry);
                },
                None => {
                    assert forall|i: int| 0 <= i < entries.len() implies (#[trigger] entries[i]).key
                        != key by {
                        if i < front.len() {
                            assert(front[i] == entries[i]);
                        }
                    }
                },
            }
        }
    }
}

/// With the report on a workspace, the lint warns of a recorded place if and only if
/// it only ever holds one variant, and names that variant.
pub proof fn lemma_warned_places<K: OptionKey>(artifacts: Seq<TargetArtifact<K>>, key: K::V)
    requires
        has_key(all_candidates(artifacts), key),
    ensures
        ({
            let report = redundant_among(all_candidates(artifacts), artifacts);
            match entry_for(report, key) {
                Some(entry) => sole_variant(all_values(artifacts, key)) == Some(entry.variant),
                None => sole_variant(all_values(artifacts, key)) is None,
            }
        }),
{
    let records = all_candidates(artifacts);
    let report = redundant_among(records, artifacts);
    lemma_entry_found(report, key);
    match entry_for(report, key) {
        Some(entry) => {
            let i = choose|i: int| 0 <= i < report.len() && report[i] == entry;
            lemma_reported_places::<K>(records, artifacts, i);
        },
        None => {
            if sole_variant(all_values(artifacts, key)) is Some {
                lemma_place_is_reported::<K>(records, artifacts, key);
            }
        },
    }
}

/// Whether a target has an observation of `value` at the place `key`.
pub open spec fn was_seen<K: View>(
    artifacts: Seq<TargetArtifact<K>>,
    key: K::V,
    value: ObservedValue,
) -> bool {
    exists|i: int, j: int|
        0 <= i < artifacts.len() && 0 <= j < artifacts[i].observations.len()
            && (#[trigger] artifacts[i].observations@[j]).key@ == key
            && artifacts[i].observations@[j].value == value
}

proof fn lemma_values_at<W>(observations: Seq<ObservationText<W>>, key: W, value: ObservedValue)
    ensures
        values_at(observations, key).contains(value) <==> exists|j: int|
            0 <= j < observations.len() && (#[trigger] observations[j]).key == key
                && observations[j].value == value,
    decreases observations.len(),
{
    if observations.len() > 0 {
        let front = observations.drop_last();
        let last = observations.last();
        let known = values_at(front, key);
        lemma_values_at(front, key, value);
        assert(known.push(last.value) =~= known + seq![last.value]);
        lists::lemma_in_either(known, seq![last.value], value);
        assert(seq![last.value][0] == last.value);
        if known.contains(value) {
            let j = choose|j: int|
                0 <= j < front.len() && (#[trigger] front[j]).key == key && front[j].value == value;
            assert(observations[j] == front[j]);
        }
        assert(observations[observations.len() - 1] == last);
        if exists|j: int|
            0 <= j < observations.len() && (#[trigger] observations[j]).key == key
                && observations[j].value == value {
            let j = choose|j: int|
                0 <= j < observations.len() && (#[trigger] observations[j]).key == key
                    && observations[j].value == value;
            if j < front.len() {
                assert(front[j] == observations[j]);
            }
        }
    }
}

/// The values of a place are those that some target has an observation of, in whatever
/// target.
pub proof fn lemma_values_of_every_target<K: View>(
    artifacts: Seq<TargetArtifact<K>>,
    key: K::V,
    value: ObservedValue,
)
    ensures
        all_values(artifacts, key).contains(value) <==> was_seen(artifacts, key, value),
    decreases artifacts.len(),
{
    if artifacts.len() > 0 {
        let front = artifacts.drop_last();
        let last = artifacts.last();
        let n = artifacts.len() - 1;
        let here = sorting::views(last.observations@);
        lemma_values_of_every_target(front, key, value);
        lemma_values_at(here, key, value);
        lists::lemma_in_either(all_values(front, key), values_at(here, key), value);
        if was_seen(front, key, value) {
            let (i, j) = choose|i: int, j: int|
                0 <= i < front.len() && 0 <= j < front[i].observations.len()
                    && (#[trigger] front[i].observations@[j]).key@ == key
                    && front[i].observations@[j].value == value;
            assert(artifacts[i].observations@[j].key@ == key);
        }
        if values_at(here, key).contains(value) {
            let j = choose|j: int|
                0 <= j < here.len() && (#[trigger] here[j]).key == key && here[j].value == value;
            assert(artifacts[n].observations@[j].key@ == key);
        }
        if was_seen(artifacts, key, value) {
            let (i, j) = choose|i: int, j: int|
                0 <= i < artifacts.len() && 0 <= j < artifacts[i].observations.len()
                    && (#[trigger] artifacts[i].observations@[j]).key@ == key
                    && artifacts[i].observations@[j].value == value;
            if i < n {
                assert(front[i].observations@[j].key@ == key);
            } else {
                assert(here[j].key == key);
            }
        }
    }
}

/// Whether the one value that was ever seen at the place `key` is `value`.
pub open spec fn only_ever<K: View>(
    artifacts: Seq<TargetArtifact<K>>,
    key: K::V,
    value: ObservedValue,
) -> bool {
    &&& was_seen(artifacts, key, value)
    &&& forall|other: ObservedValue| #[trigger] was_seen(artifacts, key, other) ==> other == value
}

proof fn lemma_sole_variant<K: View>(artifacts: Seq<TargetArtifact<K>>, key: K::V)
    ensures
        sole_variant(all_values(artifacts, key)) == Some(OptionVariant::Present) <==> only_ever(
            artifacts,
            key,
            ObservedValue::Present,
        ),
        sole_variant(all_values(artifacts, key)) == Some(OptionVariant::Absent) <==> only_ever(
            artifacts,
            key,
            ObservedValue::Absent,
        ),
{
    let values = all_values(artifacts, key);
    assert forall|v: ObservedValue| #[trigger]
        was_seen(artifacts, key, v) <==> values.contains(v) by {
        lemma_values_of_every_target(artifacts, key, v);
    }
    assert forall|i: int| 0 <= i < values.len() implies was_seen(
        artifacts,
        key,
        #[trigger] values[i],
    ) by {
        assert(values.contains(values[i]));
    }
    if only_ever(artifacts, key, ObservedValue::Present) {
        assert(values.contains(ObservedValue::Present));
        assert forall|i: int| 0 <= i < values.len() implies #[trigger] values[i] is Present by {
            assert(was_seen(artifacts, key, values[i]));
        }
    }
    if only_ever(artifacts, key, ObservedValue::Absent) {
        assert(values.contains(ObservedValue::Absent));
        assert forall|i: int| 0 <= i < values.len() implies #[trigger] values[i] is Absent by {
            assert(was_seen(artifacts, key, values[i]));
        }
    }
    if sole_variant(values) == Some(OptionVariant::Present) {
        assert(values.contains(values[0]));
        assert forall|other: ObservedValue| #[trigger]
            was_seen(artifacts, key, other) implies other == ObservedValue::Present by {
            let i = choose|i: int| 0 <= i < values.len() && values[i] == other;
            assert(values[i] is Present);
        }
    }
    if sole_variant(values) == Some(OptionVariant::Absent) {
        assert(values.contains(values[0]));
        assert(!(values[0] is Present));
        assert forall|other: ObservedValue| #[trigger]
            was_seen(artifacts, key, other) implies other == ObservedValue::Absent by {
            let i = choose|i: int| 0 <= i < values.len() && values[i] == other;
            assert(values[i] is Absent);
        }
    }
}

proof fn lemma_has_candidate<K: View>(artifacts: Seq<TargetArtifact<K>>, key: K::V)
    ensures
        has_key(all_candidates(artifacts), key) <==> exists|i: int, c: int|
            0 <= i < artifacts.len() && 0 <= c < artifacts[i].candidates.len()
                && (#[trigger] artifacts[i].candidates@[c]).key@ == key,
    decreases artifacts.len(),
{
    if artifacts.len() > 0 {
        let front = artifacts.drop_last();
        let last = artifacts.last();
        let n = artifacts.len() - 1;
        let early = all_candidates(front);
        let here = sorting::views(last.candidates@);
        let all = all_candidates(artifacts);
        lemma_has_candidate(front, key);
        if has_key(all, key) {
            let k = choose|k: int| 0 <= k < all.len() && (#[trigger] all[k]).key == key;
            if k < early.len() {
                assert(early[k] == all[k]);
                let (i, c) = choose|i: int, c: int|
                    0 <= i < front.len() && 0 <= c < front[i].candidates.len()
                        && (#[trigger] front[i].candidates@[c]).key@ == key;
                assert(artifacts[i].candidates@[c].key@ == key);
            } else {
                assert(artifacts[n].candidates@[k - early.len()].key@ == key);
            }
        }
        if exists|i: int, c: int|
            0 <= i < artifacts.len() && 0 <= c < artifacts[i].candidates.len()
                && (#[trigger] artifacts[i].candidates@[c]).key@ == key {
            let (i, c) = choose|i: int, c: int|
                0 <= i < artifacts.len() && 0 <= c < artifacts[i].candidates.len()
                    && (#[trigger] artifacts[i].candidates@[c]).key@ == key;
            if i < n {
                assert(front[i].candidates@[c].key@ == key);
                let k = choose|k: int| 0 <= k < early.len() && (#[trigger] early[k]).key == key;
                assert(all[k] == early[k]);
            } else {
                assert(all[early.len() + c] == here[c]);
            }
        }
    }
}

/// A place is reported as only ever holding a variant exactly if a target has it as a
/// candidate and every observation of it in any target, one at least, shows that variant.
pub proof fn lemma_reported_if_only_ever<K: OptionKey>(
    artifacts: Seq<TargetArtifact<K>>,
    key: K::V,
    variant: OptionVariant,
)
    ensures
        ({
            let report = redundant_among(all_candidates(artifacts), artifacts);
            (exists|n: int|
                0 <= n < report.len() && (#[trigger] report[n]).key == key && report[n].variant
                    == variant) <==> {
                &&& exists|i: int, c: int|
                    0 <= i < artifacts.len() && 0 <= c < artifacts[i].candidates.len()
                        && (#[trigger] artifacts[i].candidates@[c]).key@ == key
                &&& only_ever(
                    artifacts,
                    key,
                    match variant {
                        OptionVariant::Present => ObservedValue::Present,
                        OptionVariant::Absent => ObservedValue::Absent,
                    },
                )
            }
        }),
{
    let records = all_candidates(artifacts);
    let report = redundant_among(records, artifacts);
    lemma_has_candidate(artifacts, key);
    lemma_sole_variant(artifacts, key);
    if exists|n: int|
        0 <= n < report.len() && (#[trigger] report[n]).key == key && report[n].variant
            == variant {
        let n = choose|n: int|
            0 <= n < report.len() && (#[trigger] report[n]).key == key && report[n].variant
                == variant;
        lemma_reported_places::<K>(records, artifacts, n);
    }
    if has_key(records, key) && sole_variant(all_values(artifacts, key)) == Some(variant) {
        lemma_place_is_reported::<K>(records, artifacts, key);
        let n = choose|n: int| 0 <= n < report.len() && (#[trigger] report[n]).key == key;
        lemma_reported_places::<K>(records, artifacts, n);
        assert(report[n].key == key && report[n].variant == variant);
    }
}

proof fn lemma_report_from_first<K: View>(
    records: Seq<RecordText<K::V>>,
    artifacts: Seq<TargetArtifact<K>>,
    n: int,
)
    requires
        0 <= n < redundant_among(records, artifacts).len(),
    ensures
        exists|k: int|
            0 <= k < records.len() && {
                let record = #[trigger] records[k];
                let entry = redundant_among(records, artifacts)[n];
                &&& entry == redundant_entry(record, entry.variant)
                &&& forall|m: int| 0 <= m < k ==> (#[trigger] records[m]).key != record.key
            },
        forall|m: int|
            0 <= m < n ==> (#[trigger] redundant_among(records, artifacts)[m]).key
                != redundant_among(records, artifacts)[n].key,
    decreases records.len(),
{
    let shorter = records.drop_last();
    let front = redundant_among(shorter, artifacts);
    let now = redundant_among(records, artifacts);
    let entry = now[n];
    if n < front.len() {
        lemma_report_from_first(shorter, artifacts, n);
        assert(entry == front[n]);
        let k = choose|k: int|
            0 <= k < shorter.len() && {
                let record = #[trigger] shorter[k];
                &&& front[n] == redundant_entry(record, front[n].variant)
                &&& forall|m: int| 0 <= m < k ==> (#[trigger] shorter[m]).key != record.key
            };
        assert(records[k] == shorter[k]);
        assert forall|m: int| 0 <= m < k implies (#[trigger] records[m]).key != records[k].key by {
            assert(shorter[m] == records[m]);
        }
        assert forall|m: int| 0 <= m < n implies (#[trigger] now[m]).key != entry.key by {
            assert(now[m] == front[m]);
        }
    } else {
        let k = records.len() - 1;
        assert forall|m: int| 0 <= m < k implies (#[trigger] records[m]).key != records[k].key by {
            assert(shorter[m] == records[m]);
        }
        assert(entry == redundant_entry(records[k], entry.variant));
        assert forall|m: int| 0 <= m < n implies (#[trigger] now[m]).key != entry.key by {
            assert(now[m] == front[m]);
            lemma_report_from_first(shorter, artifacts, m);
            let j = choose|j: int|
                0 <= j < shorter.len() && {
                    let record = #[trigger] shorter[j];
                    &&& front[m] == redundant_entry(record, front[m].variant)
                    &&& forall|q: int| 0 <= q < j ==> (#[trigger] shorter[q]).key != record.key
                };
            assert(shorter[j].key == front[m].key);
        }
    }
}

/// No place is reported twice, and an entry is made of the first record of its place: the
/// path, the description and the location are those of the record.
pub proof fn lemma_report_entries<K: OptionKey>(artifacts: Seq<TargetArtifact<K>>, n: int)
    requires
        0 <= n < redundant_among(all_candidates(artifacts), artifacts).len(),
    ensures
        ({
            let records = all_candidates(artifacts);
            let report = redundant_among(records, artifacts);
            let entry = report[n];
            &&& exists|k: int|
                0 <= k < records.len() && {
                    let record = #[trigger] records[k];
                    &&& entry.key == record.key
                    &&& entry.display_path == record.display_path
                    &&& entry.description == record.description
                    &&& entry.file == record.file
                    &&& entry.line == record.line
                    &&& entry.column == record.column
                    &&& forall|m: int| 0 <= m < k ==> (#[trigger] records[m]).key != record.key
                }
            &&& forall|m: int| 0 <= m < n ==> (#[trigger] report[m]).key != entry.key
        }),
{
    lemma_report_from_first::<K>(all_candidates(artifacts), artifacts, n);
}

/// The candidates of two lists of artifacts are those of the one, then those of the
/// other, and those of one artifact are its candidates.
pub proof fn lemma_candidates_of_all<K: View>(
    some: Seq<TargetArtifact<K>>,
    others: Seq<TargetArtifact<K>>,
    one: TargetArtifact<K>,
)
    ensures
        all_candidates(some + others) == all_candidates(some) + all_candidates(others),
        all_candidates(seq![one]) == one.candidates@.map_values(
            |c: CandidateRecord<K>|
                RecordText {
                    key: c.key@,
                    display_path: c.display_path@,
                    description: c.description@,
                    file: c.file@,
                    line: c.line,
                    column: c.column,
                },
        ),
    decreases others.len(),
{
    if others.len() == 0 {
        assert(some + others =~= some);
        assert(all_candidates(some) + all_candidates(others) =~= all_candidates(some));
    } else {
        lemma_candidates_of_all(some, others.drop_last(), one);
        assert((some + others).drop_last() =~= some + others.drop_last());
        assert((some + others).last() == others.last());
        assert(all_candidates(some + others) =~= all_candidates(some) + all_candidates(others));
    }
    assert(seq![one].drop_last() =~= Seq::empty());
    assert(all_candidates(seq![one].drop_last()) =~= Seq::empty());
    assert(all_candidates(seq![one]) =~= one.candidates@.map_values(
        |c: CandidateRecord<K>|
            RecordText {
                key: c.key@,
                display_path: c.display_path@,
                description: c.description@,
                file: c.file@,
                line: c.line,
                column: c.column,
            },
    ));
}

/// Whether a definition is the variant `name` of `Option`, or its constructor.
pub open spec fn is_variant(def: Def, name: Seq<char>) -> bool {
    let variant = if def.kind == DefKind::Ctor {
        match def.parent {
            Some(owner) => *owner,
            None => def,
        }
    } else {
        def
    };
    &&& def.kind == DefKind::Ctor ==> def.parent is Some
    &&& variant.name@ == name
    &&& variant.parent matches Some(owner) && owner.known == KnownType::Option
}

/// `Some` with a value shows that variant whatever the value is, and `None` shows that
/// it is absent. Everything else shows neither.
pub proof fn lemma_what_is_shown(expr: Expr)
    requires
        !(expr.kind is Block),
    ensures
        observed(expr) == ObservedValue::Present <==> (expr.kind matches ExprKind::Call {
            callee,
            args,
        } && args.len() == 1 && (callee.kind matches ExprKind::Path { res: Res::Def(def), .. }
            && is_variant(def, "Some"@))),
        observed(expr) == ObservedValue::Absent <==> (expr.kind matches ExprKind::Path {
            res: Res::Def(def),
            ..
        } && is_variant(def, "None"@)),
{
    reveal_strlit("Some");
    reveal_strlit("None");
    assert("Some"@[0] != "None"@[0]);
}

/// A block with nothing but a value in it shows what the value shows.
pub proof fn lemma_blocks_show_their_value(expr: Expr)
    requires
        expr.kind matches ExprKind::Block { stmts, tail, .. } && stmts.len() == 0 && tail is Some,
    ensures
        observed(expr) == observed(*expr.kind->Block_tail->Some_0),
{
}

/// The warnings on two lists of candidates are those on the one, then those on the other.
pub proof fn lemma_warnings_of_two<K: OptionKey>(
    some: Seq<CandidateText<K::V>>,
    others: Seq<CandidateText<K::V>>,
    entries: Seq<EntryText<K::V>>,
)
    ensures
        warnings::<K>(some + others, entries) == warnings::<K>(some, entries) + warnings::<K>(
            others,
            entries,
        ),
    decreases others.len(),
{
    if others.len() == 0 {
        assert(some + others =~= some);
        assert(warnings::<K>(some, entries) + warnings::<K>(others, entries) =~= warnings::<K>(
            some,
            entries,
        ));
    } else {
        lemma_warnings_of_two::<K>(some, others.drop_last(), entries);
        assert((some + others).drop_last() =~= some + others.drop_last());
        assert((some + others).last() == others.last());
        assert(warnings::<K>(some + others, entries) =~= warnings::<K>(some, entries)
            + warnings::<K>(others, entries));
    }
}

/// A candidate without an entry for its place has no warning.
pub proof fn lemma_no_entry_no_warning<K: OptionKey>(
    one: CandidateText<K::V>,
    entries: Seq<EntryText<K::V>>,
)
    requires
        forall|i: int| 0 <= i < entries.len() ==> (#[trigger] entries[i]).key != one.key,
    ensures
        warnings::<K>(seq![one], entries).len() == 0,
{
    assert(seq![one].drop_last() =~= Seq::empty());
    assert(seq![one].last() == one);
    assert(warnings::<K>(seq![one].drop_last(), entries) =~= Seq::empty());
    lemma_entry_found(entries, one.key);
    if let Some(entry) = entry_for(entries, one.key) {
        let i = choose|i: int| 0 <= i < entries.len() && entries[i] == entry;
        assert(entries[i].key != one.key);
    }
}

/// A candidate with an entry for its place has one warning, which names the variant of
/// the last such entry.
pub proof fn lemma_one_warning_for_entry<K: OptionKey>(
    one: CandidateText<K::V>,
    entries: Seq<EntryText<K::V>>,
    i: int,
)
    requires
        0 <= i < entries.len(),
        entries[i].key == one.key,
        forall|j: int| i < j < entries.len() ==> (#[trigger] entries[j]).key != one.key,
    ensures
        warnings::<K>(seq![one], entries) == seq![option_warning::<K>(one, entries[i].variant)],
{
    assert(seq![one].drop_last() =~= Seq::empty());
    assert(seq![one].last() == one);
    assert(warnings::<K>(seq![one].drop_last(), entries) =~= Seq::empty());
    lemma_last_entry(entries, one.key, i);
    assert(warnings::<K>(seq![one], entries) =~= seq![
        option_warning::<K>(one, entries[i].variant),
    ]);
}

proof fn lemma_last_entry<W>(entries: Seq<EntryText<W>>, key: W, i: int)
    requires
        0 <= i < entries.len(),
        entries[i].key == key,
        forall|j: int| i < j < entries.len() ==> (#[trigger] entries[j]).key != key,
    ensures
        entry_for(entries, key) == Some(entries[i]),
    decreases entries.len(),
{
    let n = entries.len() - 1;
    if i < n {
        assert(entries[n].key != key);
        lemma_last_entry(entries.drop_last(), key, i);
    }
}

/// The records of two lists of candidates are those of the one, then those of the other;
/// a candidate in a file on disk, with a line and a column that fit, has one record with
/// its location, and any other has none.
pub proof fn lemma_located_of_two<W>(
    some: Seq<CandidateText<W>>,
    others: Seq<CandidateText<W>>,
    one: CandidateText<W>,
)
    ensures
        located_records(some + others) == located_records(some) + located_records(others),
        ({
            let start = one.span.start;
            let records = located_records(seq![one]);
            if start.local_path is Some && start.line <= u32::MAX && start.column < u32::MAX {
                &&& records.len() == 1
                &&& records[0].key == one.key
                &&& records[0].display_path == one.display_path
                &&& records[0].description == one.description
                &&& records[0].file == start.local_path->Some_0@
                &&& records[0].line == start.line
                &&& records[0].column == start.column + 1
            } else {
                records.len() == 0
            }
        }),
    decreases others.len(),
{
    if others.len() == 0 {
        assert(some + others =~= some);
        assert(located_records(some) + located_records(others) =~= located_records(some));
    } else {
        lemma_located_of_two(some, others.drop_last(), one);
        assert((some + others).drop_last() =~= some + others.drop_last());
        assert((some + others).last() == others.last());
        assert(located_records(some + others) =~= located_records(some) + located_records(others));
    }
    assert(seq![one].drop_last() =~= Seq::empty());
    assert(located_records(seq![one].drop_last()) =~= Seq::empty());
}

/// The two variants have the names that they have in `Option`.
pub proof fn lemma_variant_names(variant: OptionVariant)
    ensures
        variant_name(variant) == "Some"@ <==> variant == OptionVariant::Present,
        variant_name(variant) == "None"@ <==> variant == OptionVariant::Absent,
{
    reveal_strlit("Some");
    reveal_strlit("None");
    assert("Some"@[0] != "None"@[0]);
}

/// A definition stands for a variant exactly if it is one of `Option`, or the constructor
/// of one, with that name.
pub proof fn lemma_variant_of_definition(def: Def)
    ensures
        option_variant(def) == Some(OptionVariant::Present) <==> is_variant(def, "Some"@),
        option_variant(def) == Some(OptionVariant::Absent) <==> is_variant(def, "None"@),
{
    reveal_strlit("Some");
    reveal_strlit("None");
    assert("Some"@[0] != "None"@[0]);
}

/// A warning begins with what the place is, and names the one variant that it holds.
pub proof fn lemma_warning_names_variant<K: OptionKey>(
    candidate: CandidateText<K::V>,
    variant: OptionVariant,
)
    ensures
        ({
            let warning = option_warning::<K>(candidate, variant);
            let n = warning.message.len() - 22;
            &&& warning.message.take(candidate.description.len() as int) == candidate.description
            &&& warning.message.subrange(n - 4, n) == variant_name(variant)
            &&& warning.advice == K::advice_text(candidate.key, variant)
        }),
{
    reveal_strlit("Some");
    reveal_strlit("None");
    reveal_strlit("` across the workspace");
    let message = option_warning::<K>(candidate, variant).message;
    let n = message.len() - 22;
    assert(message.take(candidate.description.len() as int) =~= candidate.description);
    assert(message.subrange(n - 4, n) =~= variant_name(variant));
}

/// The values of a record are those in its fields.
pub proof fn lemma_record_values<K: View>(
    record: CandidateRecord<K>,
    seen: ObservationRecord<K>,
    entry: ReportEntry<K>,
)
    ensures
        record@.key == record.key@,
        record@.display_path == record.display_path@,
        record@.description == record.description@,
        record@.file == record.file@,
        record@.line == record.line,
        record@.column == record.column,
        seen@.key == seen.key@,
        seen@.value == seen.value,
        entry@.key == entry.key@,
        entry@.display_path == entry.display_path@,
        entry@.description == entry.description@,
        entry@.variant == entry.variant,
        entry@.file == entry.file@,
        entry@.line == entry.line,
        entry@.column == entry.column,
{
}

} // verus!

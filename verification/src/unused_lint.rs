//! Collecting the public items of a crate and its uses of other crates.
use vstd::prelude::*;

use crate::hir;
use crate::hir::{Def, DefPath, Diagnostic, Expr, ExprKind, FnSig, ImplItem, ImplItemKind, ImplOwner, Item, ItemKind, Res, Span, Ty, TyKind};
use crate::lists;
use crate::sorting;
use crate::strings;
use crate::unused;
use crate::unused::{CandidateRecord, TargetArtifact, UnusedDef, UseRecord};
use crate::utils;
use crate::utils::DefKey;
use crate::workspace_lint::{CrateInfo, Mode};

verus! {

/// A public item of the crate at hand.
#[derive(Debug)]
pub struct Candidate {
    pub def_key: DefKey,
    pub kind: &'static str,
    pub display_path: String,
    pub span: Span,
    /// The items that are part of its interface.
    pub required_defs: Vec<DefKey>,
}

/// The values of a candidate.
pub ghost struct CandidateText {
    pub def_key: Seq<char>,
    pub kind: Seq<char>,
    pub display_path: Seq<char>,
    pub span: Span,
    pub required_defs: Seq<Seq<char>>,
}

impl View for Candidate {
    type V = CandidateText;

    open spec fn view(&self) -> CandidateText {
        CandidateText {
            def_key: self.def_key@,
            kind: self.kind@,
            display_path: self.display_path@,
            span: self.span,
            required_defs: sorting::views(self.required_defs@),
        }
    }
}

/// The structs, enums and unions in a type and the types it is made of, from the
/// outside in.
pub open spec fn types_in(ty: Ty) -> Seq<Seq<char>>
    decreases ty,
{
    match ty.kind {
        TyKind::Adt(adt) => seq![hir::key_at(adt.def.place)] + types_in_all(ty.parts@),
        _ => types_in_all(ty.parts@),
    }
}

/// The structs, enums and unions in `parts`.
pub open spec fn types_in_all(parts: Seq<Ty>) -> Seq<Seq<char>>
    decreases parts,
{
    if parts.len() == 0 {
        Seq::empty()
    } else {
        types_in_all(parts.drop_last()) + types_in(parts.last())
    }
}

/// Adds the structs, enums and unions in `ty`.
fn collect_types(ty: &Ty, found: &mut Vec<DefKey>)
    ensures
        sorting::views(final(found)@) == sorting::views(old(found)@) + types_in(*ty),
    decreases ty,
{
    let ghost known = sorting::views(found@);
    if let TyKind::Adt(adt) = &ty.kind {
        let key = adt.def.place.key();
        let ghost name = key@;
        found.push(key);
        proof {
            assert(sorting::views(found@) =~= known.push(name));
            assert(known + seq![name] =~= known.push(name));
            assert((known + seq![name]) + types_in_all(ty.parts@) =~= known + types_in(*ty));
        }
    }
    collect_types_in_all(&ty.parts, found);
}

/// Adds the structs, enums and unions in `parts`.
fn collect_types_in_all(parts: &Vec<Ty>, found: &mut Vec<DefKey>)
    ensures
        sorting::views(final(found)@) == sorting::views(old(found)@) + types_in_all(parts@),
    decreases parts,
{
    let ghost known = sorting::views(found@);
    let mut i: usize = 0;
    proof {
        assert(known + types_in_all(parts@.take(0)) =~= known);
    }
    while i < parts.len()
        invariant
            i <= parts.len(),
            sorting::views(found@) == known + types_in_all(parts@.take(i as int)),
        decreases parts.len() - i,
    {
        let ghost before = types_in_all(parts@.take(i as int));
        proof {
            assert(decreases_to!(parts => parts@[i as int]));
            assert(parts@.take(i + 1).drop_last() =~= parts@.take(i as int));
            assert(parts@.take(i + 1).last() == parts@[i as int]);
        }
        collect_types(&parts[i], found);
        proof {
            assert((known + before) + types_in(parts@[i as int]) =~= known + types_in_all(
                parts@.take(i + 1),
            ));
        }
        i = i + 1;
    }
    proof {
        assert(parts@.take(i as int) =~= parts@);
    }
}

/// The kind of a public item that is reported, as it is named.
pub open spec fn item_kind(kind: ItemKind) -> Option<Seq<char>> {
    match kind {
        ItemKind::Fn(_) => Some("fn"@),
        ItemKind::Const => Some("const"@),
        ItemKind::Static(_) => Some("static"@),
        ItemKind::TyAlias => Some("type_alias"@),
        ItemKind::Struct(_) => Some("struct"@),
        ItemKind::Enum => Some("enum"@),
        ItemKind::Union => Some("union"@),
        ItemKind::Trait => Some("trait"@),
        _ => None,
    }
}

/// The types that a function hands out.
pub open spec fn handed_out(sig: FnSig) -> Seq<Seq<char>> {
    types_in(sig.output)
}

/// The candidate of an item: a public item that no macro produced. With a function
/// go the types that it hands out.
pub open spec fn item_candidate(item: Item) -> Option<CandidateText> {
    match item_kind(item.kind) {
        Some(kind) => if item.is_public && !item.span.from_expansion {
            Some(
                CandidateText {
                    def_key: hir::key_at(item.place),
                    kind,
                    display_path: hir::key_at(item.place),
                    span: item.span,
                    required_defs: match item.kind {
                        ItemKind::Fn(sig) => handed_out(sig),
                        _ => Seq::empty(),
                    },
                },
            )
        } else {
            None
        },
        None => None,
    }
}

/// The kind of an item of an impl, as it is named.
pub open spec fn impl_item_kind(kind: ImplItemKind) -> Seq<char> {
    match kind {
        ImplItemKind::Fn(_) => "inherent_method"@,
        ImplItemKind::Const(_) => "inherent_const"@,
        ImplItemKind::Type => "inherent_type"@,
    }
}

/// Whether an impl belongs to a public type of the crate and to no trait.
pub open spec fn of_public_type(owner: ImplOwner) -> bool {
    match owner {
        ImplOwner::Inherent(Some(self_type)) => self_type.is_local && self_type.is_public,
        _ => false,
    }
}

/// The candidate of an item of an impl: a public item of a public type that no macro
/// produced.
pub open spec fn impl_item_candidate(item: ImplItem) -> Option<CandidateText> {
    if item.is_public && !item.span.from_expansion && of_public_type(item.owner) {
        Some(
            CandidateText {
                def_key: hir::key_at(item.place),
                kind: impl_item_kind(item.kind),
                display_path: hir::key_at(item.place),
                span: item.span,
                required_defs: match item.kind {
                    ImplItemKind::Fn(sig) => handed_out(sig),
                    _ => Seq::empty(),
                },
            },
        )
    } else {
        None
    }
}

/// `candidates` with `candidate`, if there is one.
pub open spec fn with_candidate(
    candidates: Seq<CandidateText>,
    candidate: Option<CandidateText>,
) -> Seq<CandidateText> {
    match candidate {
        Some(value) => candidates.push(value),
        None => candidates,
    }
}

/// Adds the candidate of the kind `kind` at `place`.
fn add_candidate(
    place: &DefPath,
    kind: &'static str,
    span: &Span,
    sig: Option<&FnSig>,
    candidates: &mut Vec<Candidate>,
)
    ensures
        sorting::views(final(candidates)@) == sorting::views(old(candidates)@).push(
            CandidateText {
                def_key: hir::key_at(*place),
                kind: kind@,
                display_path: hir::key_at(*place),
                span: *span,
                required_defs: match sig {
                    Some(sig) => handed_out(*sig),
                    None => Seq::empty(),
                },
            },
        ),
{
    let ghost had = candidates@;
    let mut required_defs: Vec<DefKey> = Vec::new();
    proof {
        assert(sorting::views(required_defs@) =~= Seq::empty());
    }
    if let Some(sig) = sig {
        collect_types(&sig.output, &mut required_defs);
        proof {
            assert(Seq::<Seq<char>>::empty() + handed_out(*sig) =~= handed_out(*sig));
        }
    }
    let def_key = place.key();
    let candidate = Candidate {
        display_path: def_key.path.clone(),
        def_key,
        kind,
        span: span.copied(),
        required_defs,
    };
    let ghost value = candidate@;
    candidates.push(candidate);
    proof {
        assert(sorting::views(candidates@) =~= sorting::views(had).push(value));
    }
}

/// Adds the candidate of `item`.
pub fn maybe_record_item_candidate(item: &Item, candidates: &mut Vec<Candidate>)
    ensures
        sorting::views(final(candidates)@) == with_candidate(
            sorting::views(old(candidates)@),
            item_candidate(*item),
        ),
{
    if !item.is_public || item.span.from_expansion {
        return;
    }
    match &item.kind {
        ItemKind::Fn(sig) => add_candidate(&item.place, "fn", &item.span, Some(sig), candidates),
        ItemKind::Const => add_candidate(&item.place, "const", &item.span, None, candidates),
        ItemKind::Static(_) => add_candidate(&item.place, "static", &item.span, None, candidates),
        ItemKind::TyAlias => add_candidate(
            &item.place,
            "type_alias",
            &item.span,
            None,
            candidates,
        ),
        ItemKind::Struct(_) => add_candidate(&item.place, "struct", &item.span, None, candidates),
        ItemKind::Enum => add_candidate(&item.place, "enum", &item.span, None, candidates),
        ItemKind::Union => add_candidate(&item.place, "union", &item.span, None, candidates),
        ItemKind::Trait => add_candidate(&item.place, "trait", &item.span, None, candidates),
        _ => {},
    }
}

/// Adds the candidate of the item `item` of an impl.
pub fn maybe_record_impl_item_candidate(item: &ImplItem, candidates: &mut Vec<Candidate>)
    ensures
        sorting::views(final(candidates)@) == with_candidate(
            sorting::views(old(candidates)@),
            impl_item_candidate(*item),
        ),
{
    if !item.is_public || item.span.from_expansion {
        return;
    }
    let ImplOwner::Inherent(Some(self_type)) = &item.owner else {
        return;
    };
    if !self_type.is_local || !self_type.is_public {
        return;
    }
    match &item.kind {
        ImplItemKind::Fn(sig) => add_candidate(
            &item.place,
            "inherent_method",
            &item.span,
            Some(sig),
            candidates,
        ),
        ImplItemKind::Const(_) => add_candidate(
            &item.place,
            "inherent_const",
            &item.span,
            None,
            candidates,
        ),
        ImplItemKind::Type => add_candidate(
            &item.place,
            "inherent_type",
            &item.span,
            None,
            candidates,
        ),
    }
}

/// The item of another crate that a definition is.
pub open spec fn foreign_use(def: Def) -> Option<Seq<char>> {
    if def.is_local {
        None
    } else {
        Some(hir::key_at(def.place))
    }
}

/// The item of another crate that a path uses. The path of a `use` item uses
/// nothing.
pub open spec fn path_use(res: Res, in_use_item: bool) -> Option<Seq<char>> {
    match res {
        Res::Def(def) => if in_use_item {
            None
        } else {
            foreign_use(def)
        },
        _ => None,
    }
}

/// The item of another crate that an expression uses through the type of a value: a
/// method, a field, or an associated item named by a path.
pub open spec fn expr_use(expr: Expr) -> Option<Seq<char>> {
    match (expr.kind, expr.type_dependent) {
        (ExprKind::MethodCall { .. }, Some(def)) => foreign_use(def),
        (ExprKind::Field { .. }, Some(def)) => foreign_use(def),
        (ExprKind::Path { .. }, Some(def)) => foreign_use(def),
        _ => None,
    }
}

/// `uses` with `used`, if there is one.
pub open spec fn with_use(uses: Set<Seq<char>>, used: Option<Seq<char>>) -> Set<Seq<char>> {
    match used {
        Some(key) => uses.insert(key),
        None => uses,
    }
}

/// Adds the use of `def`.
pub fn record_use(def: &Def, uses: &mut strings::StringSet)
    requires
        old(uses).well_formed(),
    ensures
        final(uses).well_formed(),
        final(uses)@ == with_use(old(uses)@, foreign_use(*def)),
{
    if def.is_local {
        return;
    }
    let key = def.place.key();
    uses.insert(key.path);
}

/// The state of the lint in one crate.
#[derive(Debug)]
pub struct LintState {
    pub mode: Mode<Vec<UnusedDef>>,
    pub info: CrateInfo,
    pub candidates: Vec<Candidate>,
    pub uses: strings::StringSet,
}

/// What is left to do once a crate was looked at.
#[derive(Debug)]
pub enum Finish {
    /// Write the artifact to the directory.
    Write { artifact_dir: std::path::PathBuf, artifact: TargetArtifact },
    /// Give the warnings.
    Warn(Vec<Diagnostic>),
    /// Nothing.
    Nothing,
}

/// The values of a candidate with its location.
pub ghost struct RecordText {
    pub def_key: Seq<char>,
    pub kind: Seq<char>,
    pub display_path: Seq<char>,
    pub file: Seq<char>,
    pub line: u32,
    pub column: u32,
    pub required_defs: Seq<Seq<char>>,
}

/// The values of `record`.
pub open spec fn record_text(record: CandidateRecord) -> RecordText {
    RecordText {
        def_key: record.def_key@,
        kind: record.kind@,
        display_path: record.display_path@,
        file: record.file@,
        line: record.line,
        column: record.column,
        required_defs: sorting::views(record.required_defs@),
    }
}

/// The values of `records`.
pub open spec fn record_texts(records: Seq<CandidateRecord>) -> Seq<RecordText> {
    records.map_values(|r: CandidateRecord| record_text(r))
}

/// The candidates that have a location, with it.
pub open spec fn located_records(candidates: Seq<CandidateText>) -> Seq<RecordText>
    decreases candidates.len(),
{
    if candidates.len() == 0 {
        Seq::empty()
    } else {
        let front = located_records(candidates.drop_last());
        let last = candidates.last();
        if utils::located(last.span.start) {
            front.push(
                RecordText {
                    def_key: last.def_key,
                    kind: last.kind,
                    display_path: last.display_path,
                    file: last.span.start.local_path->Some_0@,
                    line: last.span.start.line as u32,
                    column: (last.span.start.column + 1) as u32,
                    required_defs: last.required_defs,
                },
            )
        } else {
            front
        }
    }
}

/// A copy of `keys`.
fn copy_keys(keys: &Vec<DefKey>) -> (r: Vec<DefKey>)
    ensures
        sorting::views(r@) == sorting::views(keys@),
{
    let ghost all = sorting::views(keys@);
    let mut copy: Vec<DefKey> = Vec::new();
    let mut i: usize = 0;
    proof {
        assert(sorting::views(copy@) =~= all.take(0));
    }
    while i < keys.len()
        invariant
            i <= keys.len(),
            all == sorting::views(keys@),
            sorting::views(copy@) == all.take(i as int),
        decreases keys.len() - i,
    {
        let ghost had = copy@;
        let key = keys[i].clone();
        let ghost name = key@;
        copy.push(key);
        proof {
            assert(sorting::views(copy@) =~= sorting::views(had).push(name));
            assert(all.take(i + 1) =~= all.take(i as int).push(all[i as int]));
        }
        i = i + 1;
    }
    proof {
        assert(all.take(i as int) =~= all);
    }
    copy
}

/// The candidates that have a location, with it.
fn locate(candidates: &Vec<Candidate>) -> (r: Vec<CandidateRecord>)
    ensures
        record_texts(r@) == located_records(sorting::views(candidates@)),
{
    let ghost all = sorting::views(candidates@);
    let mut found: Vec<CandidateRecord> = Vec::new();
    let mut i: usize = 0;
    proof {
        assert(all.take(0) =~= Seq::empty());
        assert(record_texts(found@) =~= Seq::empty());
    }
    while i < candidates.len()
        invariant
            i <= candidates.len(),
            all == sorting::views(candidates@),
            record_texts(found@) == located_records(all.take(i as int)),
        decreases candidates.len() - i,
    {
        let ghost had = found@;
        proof {
            assert(all.take(i + 1).last() == candidates@[i as int]@);
            assert(all.take(i + 1).drop_last() =~= all.take(i as int));
        }
        if let Some(location) = utils::span_location(&candidates[i].span.start) {
            let record = CandidateRecord {
                def_key: candidates[i].def_key.clone(),
                kind: candidates[i].kind.to_owned(),
                display_path: candidates[i].display_path.clone(),
                file: location.file,
                line: location.line,
                column: location.column,
                required_defs: copy_keys(&candidates[i].required_defs),
            };
            let ghost value = record_text(record);
            found.push(record);
            proof {
                assert(record_texts(found@) =~= record_texts(had).push(value));
            }
        }
        i = i + 1;
    }
    proof {
        assert(all.take(i as int) =~= all);
    }
    found
}

/// The warning on an unused item.
pub open spec fn unused_warning(span: usize) -> hir::DiagnosticText {
    hir::DiagnosticText {
        span,
        message: "public item is not referenced from any other workspace crate"@,
        advice: "consider reducing visibility or removing the item"@,
    }
}

/// Whether one of `unused` is the item `key`.
pub open spec fn is_listed(unused: Seq<UnusedDef>, key: Seq<char>) -> bool {
    exists|i: int| 0 <= i < unused.len() && (#[trigger] unused[i]).def_key@ == key
}

/// The warnings on those of `candidates` that are listed as unused.
pub open spec fn warnings(candidates: Seq<CandidateText>, unused: Seq<UnusedDef>) -> Seq<
    hir::DiagnosticText,
>
    decreases candidates.len(),
{
    if candidates.len() == 0 {
        Seq::empty()
    } else {
        let front = warnings(candidates.drop_last(), unused);
        if is_listed(unused, candidates.last().def_key) {
            front.push(unused_warning(candidates.last().span.id))
        } else {
            front
        }
    }
}

/// The keys of `unused`.
fn collect_unused(unused: &Vec<UnusedDef>) -> (r: strings::StringSet)
    ensures
        r.well_formed(),
        forall|key: Seq<char>| r@.contains(key) <==> is_listed(unused@, key),
{
    let mut keys = strings::StringSet::new();
    let mut i: usize = 0;
    while i < unused.len()
        invariant
            i <= unused.len(),
            keys.well_formed(),
            forall|key: Seq<char>| keys@.contains(key) <==> is_listed(unused@.take(i as int), key),
        decreases unused.len() - i,
    {
        keys.insert(unused[i].def_key.path.clone());
        proof {
            let now = unused@.take(i + 1);
            let earlier = unused@.take(i as int);
            assert forall|key: Seq<char>| keys@.contains(key) <==> is_listed(now, key) by {
                if is_listed(earlier, key) {
                    let j = choose|j: int|
                        0 <= j < earlier.len() && (#[trigger] earlier[j]).def_key@ == key;
                    assert(now[j].def_key@ == key);
                }
                if key == unused@[i as int].def_key@ {
                    assert(now[i as int].def_key@ == key);
                }
                if is_listed(now, key) {
                    let j = choose|j: int|
                        0 <= j < now.len() && (#[trigger] now[j]).def_key@ == key;
                    if j < i {
                        assert(earlier[j].def_key@ == key);
                    }
                }
            }
        }
        i = i + 1;
    }
    proof {
        assert(unused@.take(i as int) =~= unused@);
    }
    keys
}

/// The warnings on those of `candidates` that are listed as unused.
fn emit_warnings(candidates: &Vec<Candidate>, unused: &Vec<UnusedDef>) -> (r: Vec<Diagnostic>)
    ensures
        sorting::views(r@) == warnings(sorting::views(candidates@), unused@),
{
    let ghost all = sorting::views(candidates@);
    let keys = collect_unused(unused);
    let mut found: Vec<Diagnostic> = Vec::new();
    let mut i: usize = 0;
    proof {
        assert(all.take(0) =~= Seq::empty());
        assert(sorting::views(found@) =~= Seq::empty());
    }
    while i < candidates.len()
        invariant
            i <= candidates.len(),
            all == sorting::views(candidates@),
            keys.well_formed(),
            forall|key: Seq<char>| keys@.contains(key) <==> is_listed(unused@, key),
            sorting::views(found@) == warnings(all.take(i as int), unused@),
        decreases candidates.len() - i,
    {
        let ghost had = found@;
        proof {
            assert(all.take(i + 1).last() == candidates@[i as int]@);
            assert(all.take(i + 1).drop_last() =~= all.take(i as int));
        }
        if keys.contains(candidates[i].def_key.path.as_str()) {
            let warning = Diagnostic {
                span: candidates[i].span.id,
                message: "public item is not referenced from any other workspace crate".to_owned(),
                advice: "consider reducing visibility or removing the item".to_owned(),
            };
            let ghost value = warning@;
            found.push(warning);
            proof {
                assert(sorting::views(found@) =~= sorting::views(had).push(value));
            }
        }
        i = i + 1;
    }
    proof {
        assert(all.take(i as int) =~= all);
    }
    found
}

/// The records of `uses`, in ascending order.
fn use_records(uses: &strings::StringSet) -> (r: Vec<UseRecord>)
    ensures
        r@.map_values(|u: UseRecord| u.def_key@) == uses.members(),
{
    let ghost all = uses.members();
    let mut records: Vec<UseRecord> = Vec::new();
    let mut i: usize = 0;
    proof {
        assert(records@.map_values(|u: UseRecord| u.def_key@) =~= all.take(0));
    }
    while i < uses.len()
        invariant
            i <= all.len(),
            all == uses.members(),
            records@.map_values(|u: UseRecord| u.def_key@) == all.take(i as int),
        decreases all.len() - i,
    {
        let ghost had = records@;
        let record = UseRecord { def_key: DefKey { path: uses.get(i).clone() } };
        let ghost name = record.def_key@;
        records.push(record);
        proof {
            assert(records@.map_values(|u: UseRecord| u.def_key@) =~= had.map_values(
                |u: UseRecord| u.def_key@,
            ).push(name));
            assert(all.take(i + 1) =~= all.take(i as int).push(all[i as int]));
        }
        i = i + 1;
    }
    proof {
        assert(all.take(i as int) =~= all);
    }
    records
}

impl LintState {
    /// The state before anything of the crate was looked at.
    pub fn new(mode: Mode<Vec<UnusedDef>>, info: CrateInfo) -> (r: LintState)
        ensures
            r.mode == mode,
            r.info == info,
            r.candidates.len() == 0,
            r.uses.well_formed(),
            r.uses@ == Set::<Seq<char>>::empty(),
    {
        LintState { mode, info, candidates: Vec::new(), uses: strings::StringSet::new() }
    }

    /// Looks at `item`.
    pub fn check_item(&mut self, item: &Item)
        ensures
            final(self).mode == old(self).mode,
            final(self).info == old(self).info,
            final(self).uses == old(self).uses,
            old(self).mode is Disabled ==> final(self).candidates == old(self).candidates,
            !(old(self).mode is Disabled) ==> sorting::views(final(self).candidates@)
                == with_candidate(sorting::views(old(self).candidates@), item_candidate(*item)),
    {
        if self.mode.is_disabled() {
            return;
        }
        maybe_record_item_candidate(item, &mut self.candidates);
    }

    /// Looks at the item `item` of an impl.
    pub fn check_impl_item(&mut self, item: &ImplItem)
        ensures
            final(self).mode == old(self).mode,
            final(self).info == old(self).info,
            final(self).uses == old(self).uses,
            old(self).mode is Disabled ==> final(self).candidates == old(self).candidates,
            !(old(self).mode is Disabled) ==> sorting::views(final(self).candidates@)
                == with_candidate(
                sorting::views(old(self).candidates@),
                impl_item_candidate(*item),
            ),
    {
        if self.mode.is_disabled() {
            return;
        }
        maybe_record_impl_item_candidate(item, &mut self.candidates);
    }

    /// Looks at a path that stands for `res`; `in_use_item` if it stands in a `use`
    /// item.
    pub fn check_path(&mut self, res: &Res, in_use_item: bool)
        requires
            old(self).uses.well_formed(),
        ensures
            final(self).mode == old(self).mode,
            final(self).info == old(self).info,
            final(self).candidates == old(self).candidates,
            final(self).uses.well_formed(),
            final(self).uses@ == if old(self).mode is Disabled {
                old(self).uses@
            } else {
                with_use(old(self).uses@, path_use(*res, in_use_item))
            },
    {
        if in_use_item {
            return;
        }
        let Res::Def(def) = res else {
            return;
        };
        if self.mode.is_disabled() {
            return;
        }
        record_use(def, &mut self.uses);
    }

    /// Looks at `expr`.
    pub fn check_expr(&mut self, expr: &Expr)
        requires
            old(self).uses.well_formed(),
        ensures
            final(self).mode == old(self).mode,
            final(self).info == old(self).info,
            final(self).candidates == old(self).candidates,
            final(self).uses.well_formed(),
            final(self).uses@ == if old(self).mode is Disabled {
                old(self).uses@
            } else {
                with_use(old(self).uses@, expr_use(*expr))
            },
    {
        match &expr.kind {
            ExprKind::MethodCall { .. } | ExprKind::Field { .. } | ExprKind::Path { .. } => {},
            _ => {
                return;
            },
        }
        let Some(def) = &expr.type_dependent else {
            return;
        };
        if self.mode.is_disabled() {
            return;
        }
        record_use(def, &mut self.uses);
    }

    /// What is left to do once all of the crate was looked at.
    pub fn finish(self) -> (r: Finish)
        ensures
            self.mode is Disabled ==> r is Nothing,
            self.mode matches Mode::Collect { artifact_dir: dir } ==> (r matches Finish::Write {
                artifact_dir,
                artifact,
            } && {
                &&& artifact_dir == dir
                &&& artifact.crate_stable_id == self.info.crate_stable_id
                &&& artifact.crate_name == self.info.crate_name
                &&& artifact.target_name == self.info.target_name
                &&& artifact.target_kind == self.info.target_kind
                &&& record_texts(artifact.candidates@) == located_records(
                    sorting::views(self.candidates@),
                )
                &&& artifact.uses@.map_values(|u: UseRecord| u.def_key@) == self.uses.members()
            }),
            self.mode matches Mode::Emit { data } ==> (r matches Finish::Warn(found)
                && sorting::views(found@) == warnings(sorting::views(self.candidates@), data@)),
    {
        match self.mode {
            Mode::Disabled => Finish::Nothing,
            Mode::Emit { data } => Finish::Warn(emit_warnings(&self.candidates, &data)),
            Mode::Collect { artifact_dir } => {
                let candidates = locate(&self.candidates);
                let uses = use_records(&self.uses);
                Finish::Write {
                    artifact_dir,
                    artifact: TargetArtifact {
                        crate_stable_id: self.info.crate_stable_id,
                        crate_name: self.info.crate_name,
                        target_name: self.info.target_name,
                        target_kind: self.info.target_kind,
                        candidates,
                        uses,
                    },
                }
            },
        }
    }
}

/// A use of an item of the crate itself is no use.
pub proof fn lemma_local_use(def: Def)
    requires
        def.is_local,
    ensures
        foreign_use(def) is None,
{
}

/// Whether one of the artifacts has the item `key` as a candidate.
pub open spec fn is_candidate(artifacts: Seq<TargetArtifact>, key: Seq<char>) -> bool {
    exists|e: (Seq<char>, unused::UnusedText)| #[trigger]
        unused::all_entries(artifacts).contains(e) && e.0 == key
}

/// With the report on a workspace, the lint warns of a candidate if and only if no
/// target uses it, neither directly nor through the interface of a used item.
pub proof fn lemma_warned_items(
    artifacts: Seq<TargetArtifact>,
    report: Seq<UnusedDef>,
    key: Seq<char>,
)
    requires
        sorting::views(report) == unused::unused_entries(artifacts),
        is_candidate(artifacts, key),
    ensures
        is_listed(report, key) <==> !unused::is_used(
            unused::all_uses(artifacts),
            unused::all_needs(artifacts),
            key,
        ),
{
    let entries = unused::unused_entries(artifacts);
    unused::lemma_unused_entries(artifacts);
    if is_listed(report, key) {
        let i = choose|i: int| 0 <= i < report.len() && (#[trigger] report[i]).def_key@ == key;
        assert(sorting::views(report)[i] == report[i]@);
        assert(entries[i].def_key == key);
    }
    if !unused::is_used(unused::all_uses(artifacts), unused::all_needs(artifacts), key) {
        let e = choose|e: (Seq<char>, unused::UnusedText)| #[trigger]
            unused::all_entries(artifacts).contains(e) && e.0 == key;
        let i = choose|i: int|
            0 <= i < entries.len() && (#[trigger] entries[i]).def_key == e.0;
        assert(sorting::views(report)[i] == report[i]@);
        assert(report[i].def_key@ == key);
    }
}

/// Modules and reexports are never reported.
pub proof fn lemma_ignored_items(item: Item)
    requires
        item.kind is Mod || item.kind is Other,
    ensures
        item_candidate(item) is None,
{
}

/// What belongs to the impl of a trait is never reported.
pub proof fn lemma_trait_impls_ignored(item: ImplItem)
    requires
        item.owner is Trait,
    ensures
        impl_item_candidate(item) is None,
{
}

/// What a macro produced is never reported.
pub proof fn lemma_expansions_ignored(item: Item, impl_item: ImplItem)
    requires
        item.span.from_expansion,
        impl_item.span.from_expansion,
    ensures
        item_candidate(item) is None,
        impl_item_candidate(impl_item) is None,
{
}

proof fn lemma_types_in_parts(parts: Seq<Ty>, key: Seq<char>)
    ensures
        types_in_all(parts).contains(key) <==> exists|i: int|
            0 <= i < parts.len() && types_in(#[trigger] parts[i]).contains(key),
    decreases parts.len(),
{
    if parts.len() > 0 {
        let front = parts.drop_last();
        lemma_types_in_parts(front, key);
        lists::lemma_in_either(types_in_all(front), types_in(parts.last()), key);
        assert(parts[parts.len() - 1] == parts.last());
        if types_in_all(front).contains(key) {
            let i = choose|i: int|
                0 <= i < front.len() && types_in(#[trigger] front[i]).contains(key);
            assert(parts[i] == front[i]);
        }
        if exists|i: int| 0 <= i < parts.len() && types_in(#[trigger] parts[i]).contains(key) {
            let i = choose|i: int|
                0 <= i < parts.len() && types_in(#[trigger] parts[i]).contains(key);
            if i < front.len() {
                assert(front[i] == parts[i]);
            }
        }
    }
}

/// A definition is in a type exactly if the type is that struct, enum or union or one of
/// the types it is made of has it, at whatever position.
pub proof fn lemma_types_of_every_part(ty: Ty, key: Seq<char>)
    ensures
        types_in(ty).contains(key) <==> (ty.kind matches TyKind::Adt(adt) && hir::key_at(
            adt.def.place,
        ) == key) || exists|i: int|
            0 <= i < ty.parts.len() && types_in(#[trigger] ty.parts@[i]).contains(key),
{
    lemma_types_in_parts(ty.parts@, key);
    if let TyKind::Adt(adt) = ty.kind {
        let own = seq![hir::key_at(adt.def.place)];
        lists::lemma_in_either(own, types_in_all(ty.parts@), key);
        assert(own[0] == hir::key_at(adt.def.place));
    }
}

/// An item is a candidate exactly if it is public, no macro produced it and it is neither
/// a module nor a reexport. It stands under its own key, at its own span, and needs just
/// the types in its result, if it is a function.
pub proof fn lemma_public_items(item: Item, key: Seq<char>)
    ensures
        item_candidate(item) is Some <==> item.is_public && !item.span.from_expansion && !(item.kind
            is Mod) && !(item.kind is Other),
        item_candidate(item) matches Some(c) ==> {
            &&& c.def_key == hir::key_at(item.place)
            &&& c.display_path == hir::key_at(item.place)
            &&& c.span == item.span
            &&& c.required_defs.contains(key) <==> (item.kind matches ItemKind::Fn(sig)
                && types_in(sig.output).contains(key))
        },
{
}

/// An item of an impl is a candidate exactly if it is public, no macro produced it and the
/// impl is that of a public type of the crate and of no trait.
pub proof fn lemma_public_impl_items(item: ImplItem, key: Seq<char>)
    ensures
        impl_item_candidate(item) is Some <==> item.is_public && !item.span.from_expansion && (
        item.owner matches ImplOwner::Inherent(Some(self_type)) && self_type.is_local
            && self_type.is_public),
        impl_item_candidate(item) matches Some(c) ==> {
            &&& c.def_key == hir::key_at(item.place)
            &&& c.display_path == hir::key_at(item.place)
            &&& c.span == item.span
            &&& c.required_defs.contains(key) <==> (item.kind matches ImplItemKind::Fn(sig)
                && types_in(sig.output).contains(key))
        },
{
}

/// Whether two kinds of items are the same, whatever the items hold.
pub open spec fn same_kind(a: ItemKind, b: ItemKind) -> bool {
    match (a, b) {
        (ItemKind::Fn(_), ItemKind::Fn(_)) => true,
        (ItemKind::Const, ItemKind::Const) => true,
        (ItemKind::Static(_), ItemKind::Static(_)) => true,
        (ItemKind::TyAlias, ItemKind::TyAlias) => true,
        (ItemKind::Struct(_), ItemKind::Struct(_)) => true,
        (ItemKind::Enum, ItemKind::Enum) => true,
        (ItemKind::Union, ItemKind::Union) => true,
        (ItemKind::Trait, ItemKind::Trait) => true,
        _ => false,
    }
}

/// Whether two kinds of items of an impl are the same, whatever the items hold.
pub open spec fn same_impl_kind(a: ImplItemKind, b: ImplItemKind) -> bool {
    match (a, b) {
        (ImplItemKind::Fn(_), ImplItemKind::Fn(_)) => true,
        (ImplItemKind::Const(_), ImplItemKind::Const(_)) => true,
        (ImplItemKind::Type, ImplItemKind::Type) => true,
        _ => false,
    }
}

/// Two items are named as of the same kind exactly if they are of the same kind.
pub proof fn lemma_kind_names(a: ItemKind, b: ItemKind, c: ImplItemKind, d: ImplItemKind)
    requires
        item_kind(a) is Some,
        item_kind(b) is Some,
    ensures
        item_kind(a) == item_kind(b) <==> same_kind(a, b),
        impl_item_kind(c) == impl_item_kind(d) <==> same_impl_kind(c, d),
        item_kind(a)->Some_0 != impl_item_kind(c),
{
    reveal_strlit("fn");
    reveal_strlit("const");
    reveal_strlit("static");
    reveal_strlit("type_alias");
    reveal_strlit("struct");
    reveal_strlit("enum");
    reveal_strlit("union");
    reveal_strlit("trait");
    reveal_strlit("inherent_method");
    reveal_strlit("inherent_const");
    reveal_strlit("inherent_type");
    let x = item_kind(a)->Some_0;
    let y = item_kind(b)->Some_0;
    if x == y && !same_kind(a, b) {
        assert(x.len() == y.len());
        assert(x[0] == y[0]);
        if x.len() > 2 {
            assert(x[2] == y[2]);
        }
        assert(false);
    }
    assert(impl_item_kind(c).len() > 10);
}

/// What is used is an item of another crate: one that a path outside of `use` items
/// stands for, or one that a method call, a field access or a path was resolved to.
pub proof fn lemma_what_is_used(res: Res, in_use_item: bool, expr: Expr)
    ensures
        path_use(res, in_use_item) is Some <==> !in_use_item && (res matches Res::Def(def)
            && !def.is_local),
        path_use(res, in_use_item) matches Some(key) ==> (res matches Res::Def(def) && key
            == hir::key_at(def.place)),
        expr_use(expr) is Some <==> (expr.kind is MethodCall || expr.kind is Field || expr.kind
            is Path) && (expr.type_dependent matches Some(def) && !def.is_local),
        expr_use(expr) matches Some(key) ==> (expr.type_dependent matches Some(def) && key
            == hir::key_at(def.place)),
{
}

/// The records of two lists of candidates are those of the one, then those of the other;
/// a candidate in a file on disk, with a line and a column that fit, has one record with
/// its location, and any other has none.
pub proof fn lemma_located_of_two(
    some: Seq<CandidateText>,
    others: Seq<CandidateText>,
    one: CandidateText,
)
    ensures
        located_records(some + others) == located_records(some) + located_records(others),
        ({
            let start = one.span.start;
            let records = located_records(seq![one]);
            if start.local_path is Some && start.line <= u32::MAX && start.column < u32::MAX {
                &&& records.len() == 1
                &&& records[0].def_key == one.def_key
                &&& records[0].kind == one.kind
                &&& records[0].display_path == one.display_path
                &&& records[0].required_defs == one.required_defs
                &&& records[0].file == start.local_path->Some_0@
                &&& records[0].line == start.line
                &&& records[0].column == start.column + 1
            } else {
                records.len() == 0
            }
        }),
    decreases others.len(),
{
    if others.len() == 0 {
        assert(some + others =~= some);
        assert(located_records(some) + located_records(others) =~= located_records(some));
    } else {
        lemma_located_of_two(some, others.drop_last(), one);
        assert((some + others).drop_last() =~= some + others.drop_last());
        assert((some + others).last() == others.last());
        assert(located_records(some + others) =~= located_records(some) + located_records(others));
    }
    assert(seq![one].drop_last() =~= Seq::empty());
    assert(located_records(seq![one].drop_last()) =~= Seq::empty());
}

/// The warnings on two lists of candidates are those on the one, then those on the other;
/// a candidate has one warning, at its span, if an entry of the report has its key, and
/// none otherwise.
pub proof fn lemma_warnings_of_two(
    some: Seq<CandidateText>,
    others: Seq<CandidateText>,
    one: CandidateText,
    unused: Seq<UnusedDef>,
)
    ensures
        warnings(some + others, unused) == warnings(some, unused) + warnings(others, unused),
        ({
            let found = warnings(seq![one], unused);
            if exists|i: int| 0 <= i < unused.len() && (#[trigger] unused[i]).def_key@ == one.def_key {
                found.len() == 1 && found[0].span == one.span.id
            } else {
                found.len() == 0
            }
        }),
    decreases others.len(),
{
    if others.len() == 0 {
        assert(some + others =~= some);
        assert(warnings(some, unused) + warnings(others, unused) =~= warnings(some, unused));
    } else {
        lemma_warnings_of_two(some, others.drop_last(), one, unused);
        assert((some + others).drop_last() =~= some + others.drop_last());
        assert((some + others).last() == others.last());
        assert(warnings(some + others, unused) =~= warnings(some, unused) + warnings(
            others,
            unused,
        ));
    }
    assert(seq![one].drop_last() =~= Seq::empty());
    assert(warnings(seq![one].drop_last(), unused) =~= Seq::empty());
}

/// The values of a record are those in its fields.
pub proof fn lemma_record_values(record: CandidateRecord, candidate: Candidate, i: int)
    ensures
        record_text(record).def_key == record.def_key.path@,
        record_text(record).kind == record.kind@,
        record_text(record).display_path == record.display_path@,
        record_text(record).file == record.file@,
        record_text(record).line == record.line,
        record_text(record).column == record.column,
        record_text(record).required_defs.len() == record.required_defs.len(),
        0 <= i < record.required_defs.len() ==> record_text(record).required_defs[i]
            == record.required_defs@[i].path@,
        candidate@.def_key == candidate.def_key.path@,
        candidate@.kind == candidate.kind@,
        candidate@.display_path == candidate.display_path@,
        candidate@.span == candidate.span,
        candidate@.required_defs.len() == candidate.required_defs.len(),
        0 <= i < candidate.required_defs.len() ==> candidate@.required_defs[i]
            == candidate.required_defs@[i].path@,
{
}

/// Looking at an item or an expression keeps what is known and adds at most the one
/// candidate or use that it is.
pub proof fn lemma_what_is_added(
    candidates: Seq<CandidateText>,
    candidate: Option<CandidateText>,
    uses: Set<Seq<char>>,
    used: Option<Seq<char>>,
    key: Seq<char>,
)
    ensures
        candidates.is_prefix_of(with_candidate(candidates, candidate)),
        candidate is None ==> with_candidate(candidates, candidate).len() == candidates.len(),
        candidate matches Some(one) ==> with_candidate(candidates, candidate).len()
            == candidates.len() + 1 && with_candidate(candidates, candidate).last() == one,
        with_use(uses, used).contains(key) <==> uses.contains(key) || used == Some(key),
{
}

} // verus!

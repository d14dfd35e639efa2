//! Collecting the structs of a crate and warning of those that overlap.
use vstd::prelude::*;

use crate::hir;
use crate::hir::{Diagnostic, FieldDef, Item, ItemKind, Span, VariantData};
use crate::overlap;
use crate::overlap::{EntryText, FieldText, OverlapEntry, RecordText, StructField, StructRecord, TargetArtifact};
use crate::sorting;
use crate::text;
use crate::utils;
use crate::utils::DefKey;
use crate::workspace_lint::{CrateInfo, Mode};

verus! {

/// A struct of the crate at hand.
#[derive(Debug)]
pub struct LocalStruct {
    pub def_key: DefKey,
    pub display_path: String,
    pub span: Span,
}

/// The values of a struct of the crate at hand.
pub ghost struct LocalText {
    pub def_key: Seq<char>,
    pub display_path: Seq<char>,
    pub span: Span,
}

impl View for LocalStruct {
    type V = LocalText;

    open spec fn view(&self) -> LocalText {
        LocalText { def_key: self.def_key@, display_path: self.display_path@, span: self.span }
    }
}

/// The fields as they are compared.
pub open spec fn field_texts(fields: Seq<FieldDef>) -> Seq<FieldText> {
    fields.map_values(|f: FieldDef| FieldText { name: f.name@, ty: f.ty_text@ })
}

/// The fields of an item that is compared: a struct with at least one named field
/// that no macro produced and that has not the layout of C.
pub open spec fn compared_fields(item: Item) -> Option<Seq<FieldText>> {
    match item.kind {
        ItemKind::Struct(VariantData::Struct(fields)) => if !item.span.from_expansion
            && !item.is_repr_c && fields.len() > 0 {
            Some(field_texts(fields@))
        } else {
            None
        },
        _ => None,
    }
}

/// `structs` with the struct that `item` is.
pub open spec fn with_local(structs: Seq<LocalText>, item: Item) -> Seq<LocalText> {
    match compared_fields(item) {
        Some(_) => structs.push(
            LocalText {
                def_key: hir::key_at(item.place),
                display_path: hir::key_at(item.place),
                span: item.span,
            },
        ),
        None => structs,
    }
}

/// `records` with the struct that `item` is, if it has a location.
pub open spec fn with_record(records: Seq<RecordText>, item: Item) -> Seq<RecordText> {
    match compared_fields(item) {
        Some(fields) => if utils::located(item.span.start) {
            records.push(
                RecordText {
                    def_key: hir::key_at(item.place),
                    display_path: hir::key_at(item.place),
                    fields,
                    file: item.span.start.local_path->Some_0@,
                    line: item.span.start.line as u32,
                    column: (item.span.start.column + 1) as u32,
                },
            )
        } else {
            records
        },
        None => records,
    }
}

/// The state of the lint in one crate.
#[derive(Debug)]
pub struct LintState {
    pub mode: Mode<Vec<OverlapEntry>>,
    pub info: CrateInfo,
    /// The structs with their fields.
    pub struct_records: Vec<StructRecord>,
    /// The structs with their spans.
    pub local_structs: Vec<LocalStruct>,
}

/// What is left to do once a crate was looked at.
#[derive(Debug)]
pub enum Finish {
    /// Write the artifact to the directory.
    Write { artifact_dir: std::path::PathBuf, artifact: TargetArtifact },
    /// Give the warnings.
    Warn(Vec<Diagnostic>),
    /// Nothing.
    Nothing,
}

/// The fields as they are compared.
fn copy_fields(fields: &Vec<FieldDef>) -> (r: Vec<StructField>)
    ensures
        sorting::views(r@) == field_texts(fields@),
        r.len() == fields.len(),
{
    let ghost all = field_texts(fields@);
    let mut copy: Vec<StructField> = Vec::new();
    let mut i: usize = 0;
    proof {
        assert(sorting::views(copy@) =~= all.take(0));
    }
    while i < fields.len()
        invariant
            i <= fields.len(),
            copy.len() == i,
            all == field_texts(fields@),
            sorting::views(copy@) == all.take(i as int),
        decreases fields.len() - i,
    {
        let ghost had = copy@;
        let field = StructField { name: fields[i].name.clone(), ty: fields[i].ty_text.clone() };
        let ghost value = field@;
        copy.push(field);
        proof {
            assert(sorting::views(copy@) =~= sorting::views(had).push(value));
            assert(all.take(i + 1) =~= all.take(i as int).push(all[i as int]));
        }
        i = i + 1;
    }
    proof {
        assert(all.take(i as int) =~= all);
    }
    copy
}

/// The fields of a struct as they are printed.
pub open spec fn printed_fields(fields: Seq<FieldText>) -> Seq<Seq<char>> {
    fields.map_values(|f: FieldText| f.name + ": "@ + f.ty)
}

/// The warning on a struct that shares fields with another.
pub open spec fn overlap_warning(local: LocalText, entry: EntryText) -> hir::DiagnosticText {
    hir::DiagnosticText {
        span: local.span.id,
        message: "struct `"@ + local.display_path + "` shares "@ + text::decimal(
            entry.shared_fields.len(),
        ) + " fields with `"@ + entry.display_path_b + "`: ["@ + text::joined(
            printed_fields(entry.shared_fields),
            ", "@,
        ) + "]"@,
        advice: "consider extracting the shared fields into a common struct and composing it"@,
    }
}

/// The warning on `local_struct` with the entry `entry`.
pub fn emit_lint(local_struct: &LocalStruct, entry: &OverlapEntry) -> (r: Diagnostic)
    ensures
        r@ == overlap_warning(local_struct@, entry@),
{
    let ghost all = printed_fields(entry@.shared_fields);
    let mut list: Vec<String> = Vec::new();
    let mut i: usize = 0;
    while i < entry.shared_fields.len()
        invariant
            i <= entry.shared_fields.len(),
            all == printed_fields(entry@.shared_fields),
            entry@.shared_fields == sorting::views(entry.shared_fields@),
            list.deep_view() == all.take(i as int),
        decreases entry.shared_fields.len() - i,
    {
        let ghost had = list.deep_view();
        let field = &entry.shared_fields[i];
        let mut words = field.name.clone();
        words.append(": ");
        words.append(field.ty.as_str());
        let ghost printed = words@;
        list.push(words);
        proof {
            assert(entry@.shared_fields[i as int] == field@);
            assert(list.deep_view() =~= had.push(printed));
            assert(all.take(i + 1) =~= all.take(i as int).push(all[i as int]));
        }
        i = i + 1;
    }
    proof {
        assert(all.take(i as int) =~= all);
        assert(entry@.shared_fields.len() == entry.shared_fields.len());
    }
    let mut message = "struct `".to_owned();
    message.append(local_struct.display_path.as_str());
    message.append("` shares ");
    message.append(text::decimal_string(entry.shared_fields.len()).as_str());
    message.append(" fields with `");
    message.append(entry.display_path_b.as_str());
    message.append("`: [");
    message.append(text::join_owned(&list, ", ").as_str());
    message.append("]");
    Diagnostic {
        span: local_struct.span.id,
        message,
        advice:
            "consider extracting the shared fields into a common struct and composing it".to_owned(),
    }
}

/// The warnings on the struct `local`, one for each of its entries.
pub open spec fn struct_warnings(local: LocalText, entries: Seq<EntryText>) -> Seq<
    hir::DiagnosticText,
>
    decreases entries.len(),
{
    if entries.len() == 0 {
        Seq::empty()
    } else {
        let front = struct_warnings(local, entries.drop_last());
        if entries.last().struct_a == local.def_key {
            front.push(overlap_warning(local, entries.last()))
        } else {
            front
        }
    }
}

/// The warnings on `locals`, in their order.
pub open spec fn warnings(locals: Seq<LocalText>, entries: Seq<EntryText>) -> Seq<
    hir::DiagnosticText,
>
    decreases locals.len(),
{
    if locals.len() == 0 {
        Seq::empty()
    } else {
        warnings(locals.drop_last(), entries) + struct_warnings(locals.last(), entries)
    }
}

/// The warnings on `locals`.
fn emit_warnings(locals: &Vec<LocalStruct>, entries: &Vec<OverlapEntry>) -> (r: Vec<Diagnostic>)
    ensures
        sorting::views(r@) == warnings(sorting::views(locals@), sorting::views(entries@)),
{
    let ghost all = sorting::views(locals@);
    let ghost known = sorting::views(entries@);
    let mut found: Vec<Diagnostic> = Vec::new();
    let mut i: usize = 0;
    proof {
        assert(all.take(0) =~= Seq::empty());
        assert(sorting::views(found@) =~= Seq::empty());
    }
    while i < locals.len()
        invariant
            i <= locals.len(),
            all == sorting::views(locals@),
            known == sorting::views(entries@),
            sorting::views(found@) == warnings(all.take(i as int), known),
        decreases locals.len() - i,
    {
        let local = &locals[i];
        let ghost before = warnings(all.take(i as int), known);
        let mut k: usize = 0;
        proof {
            assert(all.take(i + 1).last() == local@);
            assert(all.take(i + 1).drop_last() =~= all.take(i as int));
            assert(before + struct_warnings(local@, known.take(0)) =~= before);
        }
        while k < entries.len()
            invariant
                k <= entries.len(),
                known == sorting::views(entries@),
                sorting::views(found@) == before + struct_warnings(local@, known.take(k as int)),
            decreases entries.len() - k,
        {
            let ghost had = found@;
            proof {
                assert(known.take(k + 1).last() == entries@[k as int]@);
                assert(known.take(k + 1).drop_last() =~= known.take(k as int));
            }
            if text::equal(
                entries[k].struct_a.path.as_str(),
                local.def_key.path.as_str(),
            ) {
                let warning = emit_lint(local, &entries[k]);
                let ghost value = warning@;
                found.push(warning);
                proof {
                    assert(sorting::views(found@) =~= sorting::views(had).push(value));
                    assert(before + struct_warnings(local@, known.take(k + 1)) =~= (before
                        + struct_warnings(local@, known.take(k as int))).push(value));
                }
            }
            k = k + 1;
        }
        proof {
            assert(known.take(k as int) =~= known);
        }
        i = i + 1;
    }
    proof {
        assert(all.take(i as int) =~= all);
    }
    found
}

impl LintState {
    /// The state before anything of the crate was looked at.
    pub fn new(mode: Mode<Vec<OverlapEntry>>, info: CrateInfo) -> (r: LintState)
        ensures
            r.mode == mode,
            r.info == info,
            r.struct_records.len() == 0,
            r.local_structs.len() == 0,
    {
        LintState { mode, info, struct_records: Vec::new(), local_structs: Vec::new() }
    }

    /// Adds the struct that `item` is.
    pub fn register_struct(&mut self, item: &Item)
        ensures
            final(self).mode == old(self).mode,
            final(self).info == old(self).info,
            sorting::views(final(self).local_structs@) == with_local(
                sorting::views(old(self).local_structs@),
                *item,
            ),
            sorting::views(final(self).struct_records@) == with_record(
                sorting::views(old(self).struct_records@),
                *item,
            ),
    {
        let ghost locals = sorting::views(self.local_structs@);
        let ghost records = sorting::views(self.struct_records@);
        let ItemKind::Struct(VariantData::Struct(fields)) = &item.kind else {
            return;
        };
        if item.span.from_expansion || item.is_repr_c || fields.len() == 0 {
            return;
        }
        let def_key = item.place.key();
        let local = LocalStruct {
            display_path: def_key.path.clone(),
            def_key: def_key.clone(),
            span: item.span.copied(),
        };
        let ghost value = local@;
        self.local_structs.push(local);
        proof {
            assert(sorting::views(self.local_structs@) =~= locals.push(value));
        }
        if let Some(location) = utils::span_location(&item.span.start) {
            let record = StructRecord {
                display_path: def_key.path.clone(),
                def_key,
                fields: copy_fields(fields),
                file: location.file,
                line: location.line,
                column: location.column,
            };
            let ghost described = record@;
            self.struct_records.push(record);
            proof {
                assert(sorting::views(self.struct_records@) =~= records.push(described));
            }
        }
    }

    /// Looks at `item`.
    pub fn check_item(&mut self, item: &Item)
        ensures
            final(self).mode == old(self).mode,
            final(self).info == old(self).info,
            old(self).mode is Disabled ==> *final(self) == *old(self),
            !(old(self).mode is Disabled) ==> sorting::views(final(self).local_structs@)
                == with_local(sorting::views(old(self).local_structs@), *item) && sorting::views(
                final(self).struct_records@,
            ) == with_record(sorting::views(old(self).struct_records@), *item),
    {
        if self.mode.is_disabled() {
            return;
        }
        self.register_struct(item);
    }

    /// What is left to do once all of the crate was looked at.
    pub fn finish(self) -> (r: Finish)
        ensures
            self.mode is Disabled ==> r is Nothing,
            self.mode matches Mode::Collect { artifact_dir: dir } ==> (r matches Finish::Write {
                artifact_dir,
                artifact,
            } && {
                &&& artifact_dir == dir
                &&& artifact.crate_stable_id == self.info.crate_stable_id
                &&& artifact.crate_name == self.info.crate_name
                &&& artifact.target_name == self.info.target_name
                &&& artifact.target_kind == self.info.target_kind
                &&& artifact.structs == self.struct_records
            }),
            self.mode matches Mode::Emit { data } ==> (r matches Finish::Warn(found)
                && sorting::views(found@) == warnings(
                sorting::views(self.local_structs@),
                sorting::views(data@),
            )),
    {
        match self.mode {
            Mode::Disabled => Finish::Nothing,
            Mode::Emit { data } => Finish::Warn(emit_warnings(&self.local_structs, &data)),
            Mode::Collect { artifact_dir } => Finish::Write {
                artifact_dir,
                artifact: TargetArtifact {
                    crate_stable_id: self.info.crate_stable_id,
                    crate_name: self.info.crate_name,
                    target_name: self.info.target_name,
                    target_kind: self.info.target_kind,
                    structs: self.struct_records,
                },
            },
        }
    }
}

/// A struct with the layout of C is not compared: its fields are where others expect
/// them.
pub proof fn lemma_fixed_layout_skipped(item: Item)
    requires
        item.is_repr_c,
    ensures
        compared_fields(item) is None,
{
}

/// Whether the structs `i` and `j` of `records` overlap.
pub open spec fn overlapping(records: Seq<RecordText>, i: int, j: int) -> bool {
    &&& 0 <= i < records.len()
    &&& 0 <= j < records.len()
    &&& i != j
    &&& if i < j {
        overlap::shared(records[i], records[j]).len() >= overlap::OVERLAP_THRESHOLD
    } else {
        overlap::shared(records[j], records[i]).len() >= overlap::OVERLAP_THRESHOLD
    }
}

proof fn lemma_warned_by_entry(local: LocalText, entries: Seq<EntryText>)
    ensures
        struct_warnings(local, entries).len() > 0 <==> exists|k: int|
            0 <= k < entries.len() && (#[trigger] entries[k]).struct_a == local.def_key,
    decreases entries.len(),
{
    if entries.len() > 0 {
        let front = entries.drop_last();
        lemma_warned_by_entry(local, front);
        if entries.last().struct_a == local.def_key {
            assert(entries[entries.len() - 1].struct_a == local.def_key);
        } else if exists|k: int|
            0 <= k < entries.len() && (#[trigger] entries[k]).struct_a == local.def_key {
            let k = choose|k: int|
                0 <= k < entries.len() && (#[trigger] entries[k]).struct_a == local.def_key;
            assert(front[k].struct_a == local.def_key);
        } else {
            assert forall|k: int| 0 <= k < front.len() implies (
            #[trigger] front[k]).struct_a != local.def_key by {
                assert(front[k] == entries[k]);
            }
        }
    }
}

/// With the report on a workspace, the lint warns of a struct if and only if it
/// overlaps with another one.
pub proof fn lemma_warned_structs(artifacts: Seq<TargetArtifact>, local: LocalText)
    ensures
        ({
            let records = overlap::compared(artifacts);
            struct_warnings(local, overlap::overlap_entries(artifacts)).len() > 0 <==> exists|
                i: int,
                j: int,
            | #[trigger]
                overlapping(records, i, j) && records[i].def_key == local.def_key
        }),
{
    let records = overlap::compared(artifacts);
    let entries = overlap::overlap_entries(artifacts);
    lemma_warned_by_entry(local, entries);
    if exists|k: int| 0 <= k < entries.len() && (#[trigger] entries[k]).struct_a == local.def_key {
        let k = choose|k: int|
            0 <= k < entries.len() && (#[trigger] entries[k]).struct_a == local.def_key;
        overlap::lemma_overlap_entries(artifacts, entries[k]);
        assert(entries.contains(entries[k]));
        let (i, j) = choose|i: int, j: int| #[trigger]
            overlap::from_pair(records, entries[k], i, j);
        let fields = overlap::shared(records[i], records[j]);
        let pair = overlap::pair_entries(records[i], records[j]);
        let side = choose|side: int| 0 <= side < pair.len() && pair[side] == entries[k];
        if side == 0 {
            assert(overlapping(records, i, j));
        } else {
            assert(pair[1] == overlap::entry_of(records[j], records[i], fields));
            assert(overlapping(records, j, i));
        }
    }
    if exists|i: int, j: int| #[trigger]
        overlapping(records, i, j) && records[i].def_key == local.def_key {
        let (i, j) = choose|i: int, j: int| #[trigger]
            overlapping(records, i, j) && records[i].def_key == local.def_key;
        let (a, b) = if i < j {
            (i, j)
        } else {
            (j, i)
        };
        let fields = overlap::shared(records[a], records[b]);
        let pair = overlap::pair_entries(records[a], records[b]);
        let entry = overlap::entry_of(
            records[i],
            records[j],
            fields,
        );
        if i < j {
            assert(pair[0] == entry);
        } else {
            assert(pair[1] == entry);
        }
        assert(overlap::from_pair(records, entry, a, b));
        overlap::lemma_overlap_entries(artifacts, entry);
        let k = choose|k: int| 0 <= k < entries.len() && entries[k] == entry;
        assert(entries[k].struct_a == local.def_key);
    }
}

/// An item is compared exactly if it is a struct with named fields, at least one, that no
/// macro produced and that has not the layout of C. Each field counts with its name and
/// its type, in their order.
pub proof fn lemma_compared_structs(item: Item)
    ensures
        compared_fields(item) is Some <==> (item.kind matches ItemKind::Struct(
            VariantData::Struct(fields),
        ) && fields.len() > 0) && !item.span.from_expansion && !item.is_repr_c,
        compared_fields(item) matches Some(list) ==> (item.kind matches ItemKind::Struct(
            VariantData::Struct(fields),
        ) && list.len() == fields.len() && forall|i: int|
            0 <= i < fields.len() ==> (#[trigger] list[i]).name == fields@[i].name@ && list[i].ty
                == fields@[i].ty_text@),
{
}

/// What is known stays known when an item is looked at; a struct that is compared is
/// added with its key, its fields and, if it has one, its location, and nothing else is.
pub proof fn lemma_struct_added(locals: Seq<LocalText>, records: Seq<RecordText>, item: Item)
    ensures
        locals.is_prefix_of(with_local(locals, item)),
        records.is_prefix_of(with_record(records, item)),
        with_local(locals, item).len() == locals.len() + if compared_fields(item) is Some {
            1int
        } else {
            0
        },
        compared_fields(item) is Some ==> {
            let local = with_local(locals, item).last();
            &&& local.def_key == hir::key_at(item.place)
            &&& local.display_path == hir::key_at(item.place)
            &&& local.span == item.span
        },
        ({
            let start = item.span.start;
            if compared_fields(item) is Some && start.local_path is Some && start.line <= u32::MAX
                && start.column < u32::MAX {
                let record = with_record(records, item).last();
                &&& with_record(records, item).len() == records.len() + 1
                &&& record.def_key == hir::key_at(item.place)
                &&& record.display_path == hir::key_at(item.place)
                &&& Some(record.fields) == compared_fields(item)
                &&& record.file == start.local_path->Some_0@
                &&& record.line == start.line
                &&& record.column == start.column + 1
            } else {
                with_record(records, item) == records
            }
        }),
{
}

/// The warnings on a struct with two lists of entries are those with the one, then those
/// with the other; an entry whose first struct it is gives one warning, at its span, and
/// any other gives none.
pub proof fn lemma_warnings_of_entries(
    local: LocalText,
    some: Seq<EntryText>,
    others: Seq<EntryText>,
    one: EntryText,
)
    ensures
        struct_warnings(local, some + others) == struct_warnings(local, some) + struct_warnings(
            local,
            others,
        ),
        struct_warnings(local, seq![one]) == if one.struct_a == local.def_key {
            seq![overlap_warning(local, one)]
        } else {
            Seq::<hir::DiagnosticText>::empty()
        },
        overlap_warning(local, one).span == local.span.id,
    decreases others.len(),
{
    if others.len() == 0 {
        assert(some + others =~= some);
        assert(struct_warnings(local, some) + struct_warnings(local, others) =~= struct_warnings(
            local,
            some,
        ));
    } else {
        lemma_warnings_of_entries(local, some, others.drop_last(), one);
        assert((some + others).drop_last() =~= some + others.drop_last());
        assert((some + others).last() == others.last());
        assert(struct_warnings(local, some + others) =~= struct_warnings(local, some)
            + struct_warnings(local, others));
    }
    assert(seq![one].drop_last() =~= Seq::empty());
    assert(struct_warnings(local, seq![one].drop_last()) =~= Seq::empty());
    assert(struct_warnings(local, seq![one]) =~= if one.struct_a == local.def_key {
        seq![overlap_warning(local, one)]
    } else {
        Seq::<hir::DiagnosticText>::empty()
    });
}

/// The warnings on two lists of structs are those on the one, then those on the other, and
/// those on one struct are those that its entries give.
pub proof fn lemma_warnings_of_two(
    some: Seq<LocalText>,
    others: Seq<LocalText>,
    one: LocalText,
    entries: Seq<EntryText>,
)
    ensures
        warnings(some + others, entries) == warnings(some, entries) + warnings(others, entries),
        warnings(seq![one], entries) == struct_warnings(one, entries),
    decreases others.len(),
{
    if others.len() == 0 {
        assert(some + others =~= some);
        assert(warnings(some, entries) + warnings(others, entries) =~= warnings(some, entries));
    } else {
        lemma_warnings_of_two(some, others.drop_last(), one, entries);
        assert((some + others).drop_last() =~= some + others.drop_last());
        assert((some + others).last() == others.last());
        assert(warnings(some + others, entries) =~= warnings(some, entries) + warnings(
            others,
            entries,
        ));
    }
    assert(seq![one].drop_last() =~= Seq::empty());
    assert(warnings(seq![one].drop_last(), entries) =~= Seq::empty());
    assert(warnings(seq![one], entries) =~= struct_warnings(one, entries));
}

/// Each shared field is printed with its name and its type, in their order.
pub proof fn lemma_each_field_printed(fields: Seq<FieldText>, i: int)
    requires
        0 <= i < fields.len(),
    ensures
        printed_fields(fields).len() == fields.len(),
        fields[i].name.is_prefix_of(printed_fields(fields)[i]),
        printed_fields(fields)[i].skip(fields[i].name.len() as int + 2) == fields[i].ty,
{
    reveal_strlit(": ");
    let printed = printed_fields(fields)[i];
    assert(printed == fields[i].name + ": "@ + fields[i].ty);
    assert(printed.skip(fields[i].name.len() as int + 2) =~= fields[i].ty);
}

/// Each struct that the warning is about is named in it: what is said of it begins with
/// the path of the one at hand.
pub proof fn lemma_warning_names_struct(local: LocalText, entry: EntryText)
    ensures
        ({
            let message = overlap_warning(local, entry).message;
            message.subrange(8, 8 + local.display_path.len() as int) == local.display_path
        }),
{
    reveal_strlit("struct `");
    let message = overlap_warning(local, entry).message;
    assert(message.subrange(8, 8 + local.display_path.len() as int) =~= local.display_path);
}

} // verus!

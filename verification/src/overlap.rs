//! Structs of a workspace that share many fields.
use vstd::prelude::*;

use crate::lists;
use crate::order;
use crate::sorting;
use crate::strings;
use crate::text;
use crate::utils::DefKey;

verus! {

/// A field of a struct by its name and the text of its type.
#[derive(Debug, PartialEq, Eq, PartialOrd, Ord, Hash)]
pub struct StructField {
    pub name: String,
    pub ty: String,
}

/// A struct with named fields.
#[derive(Debug)]
pub struct StructRecord {
    pub def_key: DefKey,
    pub display_path: String,
    pub fields: Vec<StructField>,
    pub file: String,
    pub line: u32,
    pub column: u32,
}

/// What was collected from one target.
#[derive(Debug)]
pub struct TargetArtifact {
    pub crate_stable_id: String,
    pub crate_name: String,
    pub target_name: String,
    pub target_kind: String,
    pub structs: Vec<StructRecord>,
}

/// A struct that shares fields with another.
#[derive(Debug)]
pub struct OverlapEntry {
    pub struct_a: DefKey,
    pub struct_b: DefKey,
    pub display_path_a: String,
    pub display_path_b: String,
    pub shared_fields: Vec<StructField>,
}

/// The overlapping structs of a workspace.
#[derive(Debug)]
pub struct AggregatedReport {
    pub overlaps: Vec<OverlapEntry>,
}

/// The number of shared fields from which on two structs overlap.
pub const OVERLAP_THRESHOLD: usize = 3;

/// The name and the type of a field.
pub ghost struct FieldText {
    pub name: Seq<char>,
    pub ty: Seq<char>,
}

/// The values of a struct.
pub ghost struct RecordText {
    pub def_key: Seq<char>,
    pub display_path: Seq<char>,
    pub fields: Seq<FieldText>,
    pub file: Seq<char>,
    pub line: u32,
    pub column: u32,
}

/// The values of an entry of the report.
pub ghost struct EntryText {
    pub struct_a: Seq<char>,
    pub struct_b: Seq<char>,
    pub display_path_a: Seq<char>,
    pub display_path_b: Seq<char>,
    pub shared_fields: Seq<FieldText>,
}

impl View for StructField {
    type V = FieldText;

    open spec fn view(&self) -> FieldText {
        FieldText { name: self.name@, ty: self.ty@ }
    }
}

impl View for StructRecord {
    type V = RecordText;

    open spec fn view(&self) -> RecordText {
        RecordText {
            def_key: self.def_key@,
            display_path: self.display_path@,
            fields: sorting::views(self.fields@),
            file: self.file@,
            line: self.line,
            column: self.column,
        }
    }
}

impl View for OverlapEntry {
    type V = EntryText;

    open spec fn view(&self) -> EntryText {
        EntryText {
            struct_a: self.struct_a@,
            struct_b: self.struct_b@,
            display_path_a: self.display_path_a@,
            display_path_b: self.display_path_b@,
            shared_fields: sorting::views(self.shared_fields@),
        }
    }
}

impl Clone for StructField {
    fn clone(&self) -> (r: StructField)
        ensures
            r@ == self@,
    {
        StructField { name: self.name.clone(), ty: self.ty.clone() }
    }
}

/// The structs of all targets, in the order of the artifacts, each with its key.
pub open spec fn all_records(artifacts: Seq<TargetArtifact>) -> Seq<(Seq<char>, RecordText)>
    decreases artifacts.len(),
{
    if artifacts.len() == 0 {
        Seq::empty()
    } else {
        all_records(artifacts.drop_last()) + artifacts.last().structs@.map_values(
            |s: StructRecord| (s.def_key@, s@),
        )
    }
}

/// The structs that are compared: the first record of each, in ascending order of
/// keys.
pub open spec fn compared(artifacts: Seq<TargetArtifact>) -> Seq<RecordText> {
    strings::values_of(strings::first_by_key(all_records(artifacts)))
}

/// The fields of `b` that `a` has too.
pub open spec fn shared(a: RecordText, b: RecordText) -> Seq<FieldText> {
    b.fields.filter(|f: FieldText| a.fields.contains(f))
}

/// The entry for `a`, which shares `fields` with `b`.
pub open spec fn entry_of(a: RecordText, b: RecordText, fields: Seq<FieldText>) -> EntryText {
    EntryText {
        struct_a: a.def_key,
        struct_b: b.def_key,
        display_path_a: a.display_path,
        display_path_b: b.display_path,
        shared_fields: fields,
    }
}

/// The entries for two structs: one for each, if they overlap.
pub open spec fn pair_entries(a: RecordText, b: RecordText) -> Seq<EntryText> {
    let fields = shared(a, b);
    if fields.len() >= OVERLAP_THRESHOLD {
        seq![entry_of(a, b, fields), entry_of(b, a, fields)]
    } else {
        Seq::empty()
    }
}

/// The entries for the struct `i` and those between it and the struct `end`.
pub open spec fn row_entries(records: Seq<RecordText>, i: int, end: int) -> Seq<EntryText>
    decreases end - i,
{
    if end <= i + 1 {
        Seq::empty()
    } else {
        row_entries(records, i, end - 1) + pair_entries(records[i], records[end - 1])
    }
}

/// The entries for the first `n` structs with all that follow each.
pub open spec fn first_rows(records: Seq<RecordText>, n: int) -> Seq<EntryText>
    decreases n,
{
    if n <= 0 {
        Seq::empty()
    } else {
        first_rows(records, n - 1) + row_entries(records, n - 1, records.len() as int)
    }
}

/// The order of the entries: by the two display paths.
pub struct OverlapOrder;

impl sorting::Order<OverlapEntry> for OverlapOrder {
    open spec fn later(a: EntryText, b: EntryText) -> bool {
        order::chained(
            order::text_rank(a.display_path_a, b.display_path_a),
            order::text_rank(a.display_path_b, b.display_path_b),
        ) is Greater
    }

    fn is_later(a: &OverlapEntry, b: &OverlapEntry) -> (r: bool) {
        match order::rank_text(a.display_path_a.as_str(), b.display_path_a.as_str()) {
            order::Rank::Greater => true,
            order::Rank::Less => false,
            order::Rank::Equal => match order::rank_text(
                a.display_path_b.as_str(),
                b.display_path_b.as_str(),
            ) {
                order::Rank::Greater => true,
                _ => false,
            },
        }
    }
}

/// The entries of the report for `artifacts`.
pub open spec fn overlap_entries(artifacts: Seq<TargetArtifact>) -> Seq<EntryText> {
    let records = compared(artifacts);
    sorting::sorted::<OverlapEntry, OverlapOrder>(first_rows(records, records.len() as int))
}

/// Whether `fields` has the field `field`.
fn has_field(fields: &Vec<StructField>, field: &StructField) -> (b: bool)
    ensures
        b == sorting::views(fields@).contains(field@),
{
    let mut i: usize = 0;
    while i < fields.len()
        invariant
            i <= fields.len(),
            forall|j: int| 0 <= j < i ==> #[trigger] sorting::views(fields@)[j] != field@,
        decreases fields.len() - i,
    {
        if text::equal(fields[i].name.as_str(), field.name.as_str()) && text::equal(
            fields[i].ty.as_str(),
            field.ty.as_str(),
        ) {
            proof {
                assert(sorting::views(fields@)[i as int] == field@);
            }
            return true;
        }
        i = i + 1;
    }
    false
}

/// The fields of `b` that `a` has too.
fn shared_fields(a: &StructRecord, b: &StructRecord) -> (r: Vec<StructField>)
    ensures
        sorting::views(r@) == shared(a@, b@),
{
    let ghost all = b@.fields;
    let ghost keep = |f: FieldText| a@.fields.contains(f);
    let mut found: Vec<StructField> = Vec::new();
    let mut i: usize = 0;
    proof {
        reveal(Seq::filter);
        assert(sorting::views(found@) =~= all.take(0).filter(keep));
    }
    while i < b.fields.len()
        invariant
            i <= b.fields.len(),
            all == sorting::views(b.fields@),
            keep == (|f: FieldText| a@.fields.contains(f)),
            sorting::views(found@) == all.take(i as int).filter(keep),
        decreases b.fields.len() - i,
    {
        let ghost had = found@;
        proof {
            reveal(Seq::filter);
            assert(all.take(i + 1).drop_last() =~= all.take(i as int));
            assert(all.take(i + 1).last() == b.fields@[i as int]@);
        }
        if has_field(&a.fields, &b.fields[i]) {
            let field = b.fields[i].clone();
            let ghost value = field@;
            found.push(field);
            proof {
                assert(sorting::views(found@) =~= sorting::views(had).push(value));
            }
        }
        i = i + 1;
    }
    proof {
        assert(all.take(i as int) =~= all);
    }
    found
}

/// A copy of `fields`.
fn copy_fields(fields: &Vec<StructField>) -> (r: Vec<StructField>)
    ensures
        sorting::views(r@) == sorting::views(fields@),
{
    let ghost all = sorting::views(fields@);
    let mut copy: Vec<StructField> = Vec::new();
    let mut i: usize = 0;
    proof {
        assert(sorting::views(copy@) =~= all.take(0));
    }
    while i < fields.len()
        invariant
            i <= fields.len(),
            all == sorting::views(fields@),
            sorting::views(copy@) == all.take(i as int),
        decreases fields.len() - i,
    {
        let ghost had = copy@;
        let field = fields[i].clone();
        let ghost value = field@;
        copy.push(field);
        proof {
            assert(sorting::views(copy@) =~= sorting::views(had).push(value));
            assert(all.take(i + 1) =~= all.take(i as int).push(all[i as int]));
        }
        i = i + 1;
    }
    proof {
        assert(all.take(i as int) =~= all);
    }
    copy
}

/// The entry for `a`, which shares `fields` with `b`.
fn make_entry(a: &StructRecord, b: &StructRecord, fields: Vec<StructField>) -> (r: OverlapEntry)
    ensures
        r@ == entry_of(a@, b@, sorting::views(fields@)),
{
    OverlapEntry {
        struct_a: a.def_key.clone(),
        struct_b: b.def_key.clone(),
        display_path_a: a.display_path.clone(),
        display_path_b: b.display_path.clone(),
        shared_fields: fields,
    }
}

/// The first record of each struct.
fn collect_first_records<'a>(artifacts: &'a Vec<TargetArtifact>) -> (r: strings::StringMap<
    &'a StructRecord,
>)
    ensures
        r.well_formed(),
        r.entries() == strings::first_by_key(all_records(artifacts@)),
{
    let mut found = strings::StringMap::<&'a StructRecord>::new();
    let mut i: usize = 0;
    proof {
        assert(artifacts@.take(0) =~= Seq::empty());
    }
    while i < artifacts.len()
        invariant
            i <= artifacts.len(),
            found.well_formed(),
            found.entries() == strings::first_by_key(all_records(artifacts@.take(i as int))),
        decreases artifacts.len() - i,
    {
        let ghost known = all_records(artifacts@.take(i as int));
        let ghost records = artifacts@[i as int].structs@.map_values(
            |s: StructRecord| (s.def_key@, s@),
        );
        let mut k: usize = 0;
        proof {
            assert(known + records.take(0) =~= known);
        }
        while k < artifacts[i].structs.len()
            invariant
                i < artifacts.len(),
                k <= artifacts[i as int].structs.len(),
                records == artifacts@[i as int].structs@.map_values(
                    |s: StructRecord| (s.def_key@, s@),
                ),
                found.well_formed(),
                found.entries() == strings::first_by_key(known + records.take(k as int)),
            decreases artifacts[i as int].structs.len() - k,
        {
            let record = &artifacts[i].structs[k];
            proof {
                let now = known + records.take(k + 1);
                assert(now.drop_last() =~= known + records.take(k as int));
                assert(now.last() == records[k as int]);
            }
            if found.get(record.def_key.path.as_str()).is_none() {
                found.insert(record.def_key.path.clone(), record);
            }
            k = k + 1;
        }
        proof {
            assert(records.take(k as int) =~= records);
            assert(artifacts@.take(i + 1).drop_last() =~= artifacts@.take(i as int));
            assert(artifacts@.take(i + 1).last() == artifacts@[i as int]);
        }
        i = i + 1;
    }
    proof {
        assert(artifacts@.take(i as int) =~= artifacts@);
    }
    found
}

/// The report on the structs in `artifacts` that share many fields.
pub fn aggregate_artifacts(artifacts: &Vec<TargetArtifact>) -> (r: AggregatedReport)
    ensures
        sorting::views(r.overlaps@) == overlap_entries(artifacts@),
{
    let found = collect_first_records(artifacts);
    let ghost records = compared(artifacts@);
    let mut overlaps: Vec<OverlapEntry> = Vec::new();
    let mut i: usize = 0;
    proof {
        assert(sorting::views(overlaps@) =~= first_rows(records, 0));
    }
    while i < found.len()
        invariant
            i <= records.len(),
            found.well_formed(),
            records == strings::values_of(found.entries()),
            records.len() == found.entries().len(),
            sorting::views(overlaps@) == first_rows(records, i as int),
        decreases records.len() - i,
    {
        let a = found.value_at(i);
        let mut j: usize = i + 1;
        proof {
            assert(records[i as int] == a@);
            assert(sorting::views(overlaps@) =~= first_rows(records, i as int) + row_entries(
                records,
                i as int,
                j as int,
            ));
        }
        while j < found.len()
            invariant
                i < j <= records.len(),
                found.well_formed(),
                records == strings::values_of(found.entries()),
                records.len() == found.entries().len(),
                records[i as int] == a@,
                sorting::views(overlaps@) == first_rows(records, i as int) + row_entries(
                    records,
                    i as int,
                    j as int,
                ),
            decreases records.len() - j,
        {
            let b = found.value_at(j);
            let ghost had = sorting::views(overlaps@);
            proof {
                assert(records[j as int] == b@);
            }
            let fields = shared_fields(a, b);
            if fields.len() >= OVERLAP_THRESHOLD {
                let copy = copy_fields(&fields);
                let ghost names = sorting::views(fields@);
                let first = make_entry(a, b, copy);
                let second = make_entry(b, a, fields);
                overlaps.push(first);
                overlaps.push(second);
                proof {
                    assert(names.len() == fields@.len());
                    assert(sorting::views(overlaps@) =~= had + pair_entries(a@, b@));
                }
            } else {
                proof {
                    assert(sorting::views(fields@).len() == fields@.len());
                    assert(sorting::views(overlaps@) =~= had + pair_entries(a@, b@));
                }
            }
            proof {
                assert(sorting::views(overlaps@) =~= first_rows(records, i as int) + row_entries(
                    records,
                    i as int,
                    j + 1,
                ));
            }
            j = j + 1;
        }
        i = i + 1;
    }
    AggregatedReport { overlaps: sorting::sort_stable::<OverlapEntry, OverlapOrder>(overlaps) }
}

/// Whether the structs `i` and `j` of `records` give the entry `entry`.
pub open spec fn from_pair(records: Seq<RecordText>, entry: EntryText, i: int, j: int) -> bool {
    0 <= i < j < records.len() && pair_entries(records[i], records[j]).contains(entry)
}

proof fn lemma_row_members(records: Seq<RecordText>, i: int, end: int, entry: EntryText)
    requires
        0 <= i,
        end <= records.len(),
    ensures
        row_entries(records, i, end).contains(entry) <==> exists|j: int|
            j < end && #[trigger] from_pair(records, entry, i, j),
    decreases end - i,
{
    let row = row_entries(records, i, end);
    if end > i + 1 {
        let front = row_entries(records, i, end - 1);
        let pair = pair_entries(records[i], records[end - 1]);
        lemma_row_members(records, i, end - 1, entry);
        lemma_contains_either(front, pair, entry);
        if pair.contains(entry) {
            assert(from_pair(records, entry, i, end - 1));
        }
        if exists|j: int| j < end && #[trigger] from_pair(records, entry, i, j) {
            let j = choose|j: int| j < end && #[trigger] from_pair(records, entry, i, j);
            if j < end - 1 {
                assert(front.contains(entry));
            }
        }
    } else {
        assert(!row.contains(entry));
        if exists|j: int| j < end && #[trigger] from_pair(records, entry, i, j) {
            let j = choose|j: int| j < end && #[trigger] from_pair(records, entry, i, j);
            assert(i < j < end);
        }
    }
}

proof fn lemma_contains_either(a: Seq<EntryText>, b: Seq<EntryText>, entry: EntryText)
    ensures
        (a + b).contains(entry) <==> a.contains(entry) || b.contains(entry),
{
    if a.contains(entry) {
        let k = choose|k: int| 0 <= k < a.len() && a[k] == entry;
        assert((a + b)[k] == entry);
    }
    if b.contains(entry) {
        let k = choose|k: int| 0 <= k < b.len() && b[k] == entry;
        assert((a + b)[a.len() + k] == entry);
    }
    if (a + b).contains(entry) {
        let k = choose|k: int| 0 <= k < (a + b).len() && (a + b)[k] == entry;
        if k < a.len() {
            assert(a[k] == entry);
        } else {
            assert(b[k - a.len()] == entry);
        }
    }
}

proof fn lemma_rows_members(records: Seq<RecordText>, n: int, entry: EntryText)
    requires
        0 <= n <= records.len(),
    ensures
        first_rows(records, n).contains(entry) <==> exists|i: int, j: int|
            i < n && #[trigger] from_pair(records, entry, i, j),
    decreases n,
{
    if n > 0 {
        let front = first_rows(records, n - 1);
        let row = row_entries(records, n - 1, records.len() as int);
        lemma_rows_members(records, n - 1, entry);
        lemma_row_members(records, n - 1, records.len() as int, entry);
        lemma_contains_either(front, row, entry);
        if front.contains(entry) {
            let (i, j) = choose|i: int, j: int|
                i < n - 1 && #[trigger] from_pair(records, entry, i, j);
            assert(i < n && from_pair(records, entry, i, j));
        }
        if row.contains(entry) {
            let j = choose|j: int|
                j < records.len() && #[trigger] from_pair(records, entry, n - 1, j);
            assert(n - 1 < n && from_pair(records, entry, n - 1, j));
        }
        if exists|i: int, j: int| i < n && #[trigger] from_pair(records, entry, i, j) {
            let (i, j) = choose|i: int, j: int|
                i < n && #[trigger] from_pair(records, entry, i, j);
            if i < n - 1 {
                assert(front.contains(entry));
            } else {
                assert(j < records.len() && from_pair(records, entry, n - 1, j));
                assert(row.contains(entry));
            }
        }
    } else {
        assert(!first_rows(records, n).contains(entry));
    }
}

/// The report has an entry if and only if two of the compared structs give it.
pub proof fn lemma_overlap_entries(artifacts: Seq<TargetArtifact>, entry: EntryText)
    ensures
        overlap_entries(artifacts).contains(entry) <==> exists|i: int, j: int| #[trigger]
            from_pair(compared(artifacts), entry, i, j),
{
    let records = compared(artifacts);
    let rows = first_rows(records, records.len() as int);
    lemma_rows_members(records, records.len() as int, entry);
    sorting::lemma_sorted_items::<OverlapEntry, OverlapOrder>(rows);
    assert(overlap_entries(artifacts).contains(entry) <==> rows.contains(entry));
    if exists|i: int, j: int| #[trigger] from_pair(records, entry, i, j) {
        let (i, j) = choose|i: int, j: int| #[trigger] from_pair(records, entry, i, j);
        assert(i < records.len() && from_pair(records, entry, i, j));
    }
}

/// An entry seen from the other struct.
pub open spec fn mirrored(entry: EntryText) -> EntryText {
    EntryText {
        struct_a: entry.struct_b,
        struct_b: entry.struct_a,
        display_path_a: entry.display_path_b,
        display_path_b: entry.display_path_a,
        shared_fields: entry.shared_fields,
    }
}

/// Both structs of an overlap are reported: with an entry the report has the entry
/// seen from the other struct.
pub proof fn lemma_both_reported(artifacts: Seq<TargetArtifact>, entry: EntryText)
    requires
        overlap_entries(artifacts).contains(entry),
    ensures
        overlap_entries(artifacts).contains(mirrored(entry)),
{
    let records = compared(artifacts);
    lemma_overlap_entries(artifacts, entry);
    lemma_overlap_entries(artifacts, mirrored(entry));
    let (i, j) = choose|i: int, j: int| #[trigger] from_pair(records, entry, i, j);
    let pair = pair_entries(records[i], records[j]);
    let k = choose|k: int| 0 <= k < pair.len() && pair[k] == entry;
    assert(pair[1 - k] == mirrored(entry));
    assert(from_pair(records, mirrored(entry), i, j));
}

/// The two structs of an entry share at least the threshold of fields with the
/// same name and type, and each field of the entry is a field of both.
pub proof fn lemma_enough_shared(artifacts: Seq<TargetArtifact>, entry: EntryText)
    requires
        overlap_entries(artifacts).contains(entry),
    ensures
        entry.shared_fields.len() >= OVERLAP_THRESHOLD,
        exists|i: int, j: int| #[trigger]
            from_pair(compared(artifacts), entry, i, j) && forall|f: FieldText| #[trigger]
                entry.shared_fields.contains(f) ==> compared(artifacts)[i].fields.contains(f)
                    && compared(artifacts)[j].fields.contains(f),
{
    let records = compared(artifacts);
    lemma_overlap_entries(artifacts, entry);
    let (i, j) = choose|i: int, j: int| #[trigger] from_pair(records, entry, i, j);
    let a = records[i];
    sorting::lemma_filtered_members(records[j].fields, |f: FieldText| a.fields.contains(f));
    assert(entry.shared_fields == shared(records[i], records[j]));
}

/// The entries are in order.
pub proof fn lemma_overlaps_in_order(artifacts: Seq<TargetArtifact>)
    ensures
        sorting::in_order::<OverlapEntry, OverlapOrder>(overlap_entries(artifacts)),
{
    assert forall|a: EntryText, b: EntryText|
        !(#[trigger] <OverlapOrder as sorting::Order<OverlapEntry>>::later(a, b)
            && <OverlapOrder as sorting::Order<OverlapEntry>>::later(b, a)) by {
        order::lemma_precedes_total(a.display_path_a, b.display_path_a);
        order::lemma_precedes_asymmetric(a.display_path_a, b.display_path_a);
        order::lemma_precedes_total(a.display_path_b, b.display_path_b);
        order::lemma_precedes_asymmetric(a.display_path_b, b.display_path_b);
    }
    assert forall|a: EntryText, b: EntryText, c: EntryText|
        !(#[trigger] <OverlapOrder as sorting::Order<OverlapEntry>>::later(a, b)) && !(
        #[trigger] <OverlapOrder as sorting::Order<OverlapEntry>>::later(
            b,
            c,
        )) implies !<OverlapOrder as sorting::Order<OverlapEntry>>::later(a, c) by {
        order::lemma_text_rank_chain(a.display_path_a, b.display_path_a, c.display_path_a);
        order::lemma_text_rank_chain(a.display_path_b, b.display_path_b, c.display_path_b);
    }
    let records = compared(artifacts);
    sorting::lemma_sorted_in_order::<OverlapEntry, OverlapOrder>(
        first_rows(records, records.len() as int),
    );
}

/// A field is shared exactly if it is a field of both structs, with the same name and
/// type.
pub proof fn lemma_shared_by_both(a: RecordText, b: RecordText, f: FieldText)
    ensures
        shared(a, b).contains(f) <==> a.fields.contains(f) && b.fields.contains(f),
{
    sorting::lemma_filtered_members(b.fields, |g: FieldText| a.fields.contains(g));
}

/// Nothing but the fields of two structs decides what they share.
pub proof fn lemma_only_fields_count(
    a: RecordText,
    b: RecordText,
    other_a: RecordText,
    other_b: RecordText,
)
    requires
        a.fields == other_a.fields,
        b.fields == other_b.fields,
    ensures
        shared(a, b) == shared(other_a, other_b),
{
}

/// The shared fields stand in the order of the second struct, each as often as there.
pub proof fn lemma_shared_in_order(
    a: RecordText,
    b: RecordText,
    some: Seq<FieldText>,
    others: Seq<FieldText>,
    f: FieldText,
)
    ensures
        shared(a, RecordText { fields: some + others, ..b }) == shared(
            a,
            RecordText { fields: some, ..b },
        ) + shared(a, RecordText { fields: others, ..b }),
        shared(a, RecordText { fields: seq![f], ..b }) == if a.fields.contains(f) {
            seq![f]
        } else {
            Seq::<FieldText>::empty()
        },
    decreases others.len(),
{
    let keep = |g: FieldText| a.fields.contains(g);
    reveal(Seq::filter);
    if others.len() == 0 {
        assert(some + others =~= some);
        assert(some.filter(keep) + others.filter(keep) =~= some.filter(keep));
    } else {
        lemma_shared_in_order(a, b, some, others.drop_last(), f);
        assert((some + others).drop_last() =~= some + others.drop_last());
        assert((some + others).last() == others.last());
        assert((some + others).filter(keep) =~= some.filter(keep) + others.filter(keep));
    }
    let one = seq![f];
    assert(one.drop_last() =~= Seq::empty());
    assert(one.drop_last().filter(keep) =~= Seq::empty());
    assert(one.filter(keep) =~= if keep(f) {
        seq![f]
    } else {
        Seq::<FieldText>::empty()
    });
}

/// Whether the record `k` of the artifact `i` is the first one of its struct.
pub open spec fn is_first_record(artifacts: Seq<TargetArtifact>, i: int, k: int) -> bool {
    &&& 0 <= i < artifacts.len()
    &&& 0 <= k < artifacts[i].structs.len()
    &&& forall|j: int, m: int|
        0 <= j < i && 0 <= m < artifacts[j].structs.len() ==> (
        #[trigger] artifacts[j].structs@[m]).def_key@ != artifacts[i].structs@[k].def_key@
    &&& forall|m: int|
        0 <= m < k ==> (#[trigger] artifacts[i].structs@[m]).def_key@
            != artifacts[i].structs@[k].def_key@
}

/// Whether the struct of a record has a field with this name and type.
pub open spec fn record_has(record: StructRecord, name: Seq<char>, ty: Seq<char>) -> bool {
    exists|k: int|
        0 <= k < record.fields.len() && (#[trigger] record.fields@[k]).name@ == name
            && record.fields@[k].ty@ == ty
}

proof fn lemma_record_has(record: StructRecord, f: FieldText)
    ensures
        record@.fields.contains(f) <==> record_has(record, f.name, f.ty),
{
    let fields = record@.fields;
    if fields.contains(f) {
        let k = choose|k: int| 0 <= k < fields.len() && fields[k] == f;
        assert(record.fields@[k].name@ == f.name);
    }
    if record_has(record, f.name, f.ty) {
        let k = choose|k: int|
            0 <= k < record.fields.len() && (#[trigger] record.fields@[k]).name@ == f.name
                && record.fields@[k].ty@ == f.ty;
        assert(fields[k] == f);
    }
}

spec fn records_in(artifact: TargetArtifact) -> Seq<(Seq<char>, RecordText)> {
    artifact.structs@.map_values(|s: StructRecord| (s.def_key@, s@))
}

proof fn lemma_all_records_flat(artifacts: Seq<TargetArtifact>)
    ensures
        all_records(artifacts) == lists::flat(artifacts, |a: TargetArtifact| records_in(a)),
    decreases artifacts.len(),
{
    if artifacts.len() > 0 {
        lemma_all_records_flat(artifacts.drop_last());
        assert(artifacts.last().structs@.map_values(|s: StructRecord| (s.def_key@, s@))
            =~= records_in(artifacts.last()));
    }
}

proof fn lemma_first_record_compared(artifacts: Seq<TargetArtifact>, i: int, k: int) -> (n: int)
    requires
        is_first_record(artifacts, i, k),
    ensures
        0 <= n < compared(artifacts).len(),
        compared(artifacts)[n] == artifacts[i].structs@[k]@,
{
    let part = |a: TargetArtifact| records_in(a);
    let record = artifacts[i].structs@[k];
    lemma_all_records_flat(artifacts);
    assert forall|j: int, m: int|
        0 <= j < i && 0 <= m < part(artifacts[j]).len() implies (
    #[trigger] part(artifacts[j])[m]).0 != part(artifacts[i])[k].0 by {
        assert(artifacts[j].structs@[m].def_key@ != record.def_key@);
    }
    assert forall|m: int| 0 <= m < k implies (#[trigger] part(artifacts[i])[m]).0
        != part(artifacts[i])[k].0 by {
        assert(artifacts[i].structs@[m].def_key@ != record.def_key@);
    }
    lists::lemma_first_part_counts(artifacts, part, i, k);
    let found = strings::first_by_key(all_records(artifacts));
    strings::lemma_lookup_found(found, record.def_key@)
}

/// Whether `i` and `k` are the place of a record with the key `key`.
spec fn record_at(artifacts: Seq<TargetArtifact>, key: Seq<char>, i: int, k: int) -> bool {
    0 <= i < artifacts.len() && 0 <= k < artifacts[i].structs.len()
        && artifacts[i].structs@[k].def_key@ == key
}

/// A struct with a record has a first one.
proof fn lemma_has_first_record(artifacts: Seq<TargetArtifact>, i: int, k: int) -> (place: (
    int,
    int,
))
    requires
        0 <= i < artifacts.len(),
        0 <= k < artifacts[i].structs.len(),
    ensures
        is_first_record(artifacts, place.0, place.1),
        artifacts[place.0].structs@[place.1].def_key@ == artifacts[i].structs@[k].def_key@,
    decreases i, k,
{
    let key = artifacts[i].structs@[k].def_key@;
    if exists|j: int, m: int| j < i && #[trigger] record_at(artifacts, key, j, m) {
        let (j, m) = choose|j: int, m: int| j < i && #[trigger] record_at(artifacts, key, j, m);
        lemma_has_first_record(artifacts, j, m)
    } else if exists|m: int| m < k && #[trigger] record_at(artifacts, key, i, m) {
        let m = choose|m: int| m < k && #[trigger] record_at(artifacts, key, i, m);
        lemma_has_first_record(artifacts, i, m)
    } else {
        assert forall|j: int, m: int|
            0 <= j < i && 0 <= m < artifacts[j].structs.len() implies (
        #[trigger] artifacts[j].structs@[m]).def_key@ != key by {
            assert(!record_at(artifacts, key, j, m));
        }
        assert forall|m: int| 0 <= m < k implies (#[trigger] artifacts[i].structs@[m]).def_key@
            != key by {
            assert(!record_at(artifacts, key, i, m));
        }
        (i, k)
    }
}

proof fn lemma_compared_is_first_record(artifacts: Seq<TargetArtifact>, n: int) -> (place: (
    int,
    int,
))
    requires
        0 <= n < compared(artifacts).len(),
    ensures
        is_first_record(artifacts, place.0, place.1),
        compared(artifacts)[n] == artifacts[place.0].structs@[place.1]@,
{
    let part = |a: TargetArtifact| records_in(a);
    let found = strings::first_by_key(all_records(artifacts));
    lemma_all_records_flat(artifacts);
    strings::lemma_first_by_key(all_records(artifacts));
    assert(all_records(artifacts).contains(found[n]));
    lists::lemma_flat_members(artifacts, part, found[n]);
    let i = choose|i: int|
        0 <= i < artifacts.len() && part(#[trigger] artifacts[i]).contains(found[n]);
    let here = records_in(artifacts[i]);
    let k = choose|k: int| 0 <= k < here.len() && here[k] == found[n];
    let place = lemma_has_first_record(artifacts, i, k);
    let m = lemma_first_record_compared(artifacts, place.0, place.1);
    lemma_compared_distinct(artifacts);
    assert(found[n].1.def_key == found[n].0);
    assert(compared(artifacts)[n] == found[n].1);
    place
}

proof fn lemma_compared_distinct(artifacts: Seq<TargetArtifact>)
    ensures
        forall|m: int, n: int|
            0 <= m < compared(artifacts).len() && 0 <= n < compared(artifacts).len() && m != n
                ==> (#[trigger] compared(artifacts)[m]).def_key != (#[trigger] compared(
                artifacts,
            )[n]).def_key,
{
    let part = |a: TargetArtifact| records_in(a);
    let pairs = all_records(artifacts);
    let found = strings::first_by_key(pairs);
    let names = strings::keys_of(found);
    lemma_all_records_flat(artifacts);
    strings::lemma_first_by_key(pairs);
    assert forall|m: int| 0 <= m < found.len() implies (#[trigger] found[m]).0
        == found[m].1.def_key by {
        assert(pairs.contains(found[m]));
        lists::lemma_flat_members(artifacts, part, found[m]);
        let i = choose|i: int|
            0 <= i < artifacts.len() && part(#[trigger] artifacts[i]).contains(found[m]);
        let here = records_in(artifacts[i]);
        let k = choose|k: int| 0 <= k < here.len() && here[k] == found[m];
    }
    assert forall|m: int, n: int|
        0 <= m < compared(artifacts).len() && 0 <= n < compared(artifacts).len() && m
            != n implies (#[trigger] compared(artifacts)[m]).def_key != (#[trigger] compared(
        artifacts,
    )[n]).def_key by {
        assert(compared(artifacts)[m] == found[m].1 && compared(artifacts)[n] == found[n].1);
        assert(names[m] == found[m].0 && names[n] == found[n].0);
        order::lemma_precedes_irreflexive(names[m]);
    }
}

proof fn lemma_three_members(s: Seq<FieldText>, f: FieldText, g: FieldText, h: FieldText)
    requires
        s.contains(f),
        s.contains(g),
        s.contains(h),
        f != g,
        g != h,
        f != h,
    ensures
        s.len() >= 3,
{
    let i = choose|i: int| 0 <= i < s.len() && s[i] == f;
    let j = choose|j: int| 0 <= j < s.len() && s[j] == g;
    let k = choose|k: int| 0 <= k < s.len() && s[k] == h;
    assert(i != j && j != k && i != k);
}

/// Whether `entry` is the entry for the struct `a` with the struct `b`: it names both,
/// and its fields are those that both have.
pub open spec fn is_entry_for(entry: EntryText, a: StructRecord, b: StructRecord) -> bool {
    &&& entry.struct_a == a.def_key@
    &&& entry.struct_b == b.def_key@
    &&& entry.display_path_a == a.display_path@
    &&& entry.display_path_b == b.display_path@
    &&& forall|f: FieldText| #[trigger]
        entry.shared_fields.contains(f) <==> record_has(a, f.name, f.ty) && record_has(
            b,
            f.name,
            f.ty,
        )
}

/// Two different structs of a workspace, wherever they stand, that have three or more
/// fields in common are reported, each with the other.
pub proof fn lemma_three_fields_reported(
    artifacts: Seq<TargetArtifact>,
    i: int,
    k: int,
    j: int,
    m: int,
    f: FieldText,
    g: FieldText,
    h: FieldText,
)
    requires
        is_first_record(artifacts, i, k),
        is_first_record(artifacts, j, m),
        artifacts[i].structs@[k].def_key@ != artifacts[j].structs@[m].def_key@,
        f != g,
        g != h,
        f != h,
        record_has(artifacts[i].structs@[k], f.name, f.ty),
        record_has(artifacts[i].structs@[k], g.name, g.ty),
        record_has(artifacts[i].structs@[k], h.name, h.ty),
        record_has(artifacts[j].structs@[m], f.name, f.ty),
        record_has(artifacts[j].structs@[m], g.name, g.ty),
        record_has(artifacts[j].structs@[m], h.name, h.ty),
    ensures
        exists|n: int|
            0 <= n < overlap_entries(artifacts).len() && is_entry_for(
                #[trigger] overlap_entries(artifacts)[n],
                artifacts[i].structs@[k],
                artifacts[j].structs@[m],
            ),
{
    let records = compared(artifacts);
    let entries = overlap_entries(artifacts);
    let a = artifacts[i].structs@[k];
    let b = artifacts[j].structs@[m];
    let x = lemma_first_record_compared(artifacts, i, k);
    let y = lemma_first_record_compared(artifacts, j, m);
    let (lower, upper) = if x < y {
        (x, y)
    } else {
        (y, x)
    };
    let fields = shared(records[lower], records[upper]);
    assert forall|e: FieldText| #[trigger] fields.contains(e) <==> record_has(a, e.name, e.ty)
        && record_has(b, e.name, e.ty) by {
        lemma_shared_by_both(records[lower], records[upper], e);
        lemma_record_has(a, e);
        lemma_record_has(b, e);
    }
    assert(fields.contains(f) && fields.contains(g) && fields.contains(h));
    lemma_three_members(fields, f, g, h);
    let pair = pair_entries(records[lower], records[upper]);
    let entry = entry_of(records[x], records[y], fields);
    if x < y {
        assert(pair[0] == entry);
    } else {
        assert(pair[1] == entry);
    }
    assert(from_pair(records, entry, lower, upper));
    lemma_overlap_entries(artifacts, entry);
    let n = choose|n: int| 0 <= n < entries.len() && entries[n] == entry;
    assert(is_entry_for(entries[n], a, b));
}

/// Each entry is for two different structs, by their first records, and has three fields
/// or more.
pub proof fn lemma_reported_structs(artifacts: Seq<TargetArtifact>, n: int)
    requires
        0 <= n < overlap_entries(artifacts).len(),
    ensures
        overlap_entries(artifacts)[n].shared_fields.len() >= 3,
        overlap_entries(artifacts)[n].struct_a != overlap_entries(artifacts)[n].struct_b,
        exists|i: int, k: int, j: int, m: int|
            #![trigger artifacts[i].structs@[k], artifacts[j].structs@[m]]
            is_first_record(artifacts, i, k) && is_first_record(artifacts, j, m) && is_entry_for(
                overlap_entries(artifacts)[n],
                artifacts[i].structs@[k],
                artifacts[j].structs@[m],
            ),
{
    let records = compared(artifacts);
    let entry = overlap_entries(artifacts)[n];
    assert(overlap_entries(artifacts).contains(entry));
    lemma_overlap_entries(artifacts, entry);
    lemma_compared_distinct(artifacts);
    let (x, y) = choose|x: int, y: int| #[trigger] from_pair(records, entry, x, y);
    let p = lemma_compared_is_first_record(artifacts, x);
    let q = lemma_compared_is_first_record(artifacts, y);
    let a = artifacts[p.0].structs@[p.1];
    let b = artifacts[q.0].structs@[q.1];
    let fields = shared(records[x], records[y]);
    let pair = pair_entries(records[x], records[y]);
    assert forall|e: FieldText| #[trigger] fields.contains(e) <==> record_has(a, e.name, e.ty)
        && record_has(b, e.name, e.ty) by {
        lemma_shared_by_both(records[x], records[y], e);
        lemma_record_has(a, e);
        lemma_record_has(b, e);
    }
    let side = choose|side: int| 0 <= side < pair.len() && pair[side] == entry;
    assert(records[x].def_key != records[y].def_key);
    if side == 0 {
        assert(is_entry_for(entry, a, b));
    } else {
        assert(is_entry_for(entry, b, a));
    }
}

/// Whether no two of `entries` are for the same two structs in the same order.
spec fn pairs_apart(entries: Seq<EntryText>) -> bool {
    forall|m: int, n: int|
        0 <= m < n < entries.len() ==> ((#[trigger] entries[m]).struct_a, entries[m].struct_b) != (
            (#[trigger] entries[n]).struct_a,
            entries[n].struct_b,
        )
}

proof fn lemma_pairs_apart_of_two(a: Seq<EntryText>, b: Seq<EntryText>)
    requires
        pairs_apart(a),
        pairs_apart(b),
        forall|m: int, n: int|
            0 <= m < a.len() && 0 <= n < b.len() ==> ((#[trigger] a[m]).struct_a, a[m].struct_b)
                != ((#[trigger] b[n]).struct_a, b[n].struct_b),
    ensures
        pairs_apart(a + b),
{
    let all = a + b;
    assert forall|m: int, n: int| 0 <= m < n < all.len() implies (
        (#[trigger] all[m]).struct_a,
        all[m].struct_b,
    ) != ((#[trigger] all[n]).struct_a, all[n].struct_b) by {
        if n < a.len() {
            assert(all[m] == a[m] && all[n] == a[n]);
        } else if m < a.len() {
            assert(all[m] == a[m] && all[n] == b[n - a.len()]);
        } else {
            assert(all[m] == b[m - a.len()] && all[n] == b[n - a.len()]);
        }
    }
}

/// The structs of an entry that a pair gives.
proof fn lemma_pair_of_entry(records: Seq<RecordText>, entry: EntryText, i: int, j: int)
    requires
        from_pair(records, entry, i, j),
    ensures
        entry.struct_a == records[i].def_key && entry.struct_b == records[j].def_key
            || entry.struct_a == records[j].def_key && entry.struct_b == records[i].def_key,
{
    let pair = pair_entries(records[i], records[j]);
    let side = choose|side: int| 0 <= side < pair.len() && pair[side] == entry;
}

proof fn lemma_row_apart(records: Seq<RecordText>, i: int, end: int)
    requires
        0 <= i,
        end <= records.len(),
        forall|m: int, n: int|
            0 <= m < records.len() && 0 <= n < records.len() && m != n ==> (
            #[trigger] records[m]).def_key != (#[trigger] records[n]).def_key,
    ensures
        pairs_apart(row_entries(records, i, end)),
    decreases end - i,
{
    if end > i + 1 {
        let front = row_entries(records, i, end - 1);
        let pair = pair_entries(records[i], records[end - 1]);
        lemma_row_apart(records, i, end - 1);
        assert(records[i].def_key != records[end - 1].def_key);
        assert forall|m: int, n: int| 0 <= m < front.len() && 0 <= n < pair.len() implies (
            (#[trigger] front[m]).struct_a,
            front[m].struct_b,
        ) != ((#[trigger] pair[n]).struct_a, pair[n].struct_b) by {
            assert(front.contains(front[m]));
            lemma_row_members(records, i, end - 1, front[m]);
            let j = choose|j: int|
                j < end - 1 && #[trigger] from_pair(records, front[m], i, j);
            lemma_pair_of_entry(records, front[m], i, j);
            assert(records[j].def_key != records[end - 1].def_key);
            assert(records[j].def_key != records[i].def_key);
        }
        lemma_pairs_apart_of_two(front, pair);
    }
}

proof fn lemma_rows_apart(records: Seq<RecordText>, n: int)
    requires
        0 <= n <= records.len(),
        forall|m: int, n: int|
            0 <= m < records.len() && 0 <= n < records.len() && m != n ==> (
            #[trigger] records[m]).def_key != (#[trigger] records[n]).def_key,
    ensures
        pairs_apart(first_rows(records, n)),
    decreases n,
{
    if n > 0 {
        let front = first_rows(records, n - 1);
        let row = row_entries(records, n - 1, records.len() as int);
        lemma_rows_apart(records, n - 1);
        lemma_row_apart(records, n - 1, records.len() as int);
        assert forall|p: int, q: int| 0 <= p < front.len() && 0 <= q < row.len() implies (
            (#[trigger] front[p]).struct_a,
            front[p].struct_b,
        ) != ((#[trigger] row[q]).struct_a, row[q].struct_b) by {
            assert(front.contains(front[p]));
            assert(row.contains(row[q]));
            lemma_rows_members(records, n - 1, front[p]);
            lemma_row_members(records, n - 1, records.len() as int, row[q]);
            let (i, j) = choose|i: int, j: int|
                i < n - 1 && #[trigger] from_pair(records, front[p], i, j);
            let k = choose|k: int|
                k < records.len() && #[trigger] from_pair(records, row[q], n - 1, k);
            lemma_pair_of_entry(records, front[p], i, j);
            lemma_pair_of_entry(records, row[q], n - 1, k);
            assert(records[i].def_key != records[n - 1].def_key);
            assert(records[i].def_key != records[k].def_key);
        }
        lemma_pairs_apart_of_two(front, row);
    }
}

/// Two structs have at most one entry in each direction.
pub proof fn lemma_one_entry_for_each_pair(artifacts: Seq<TargetArtifact>, m: int, n: int)
    requires
        0 <= m < n < overlap_entries(artifacts).len(),
    ensures
        (overlap_entries(artifacts)[m].struct_a, overlap_entries(artifacts)[m].struct_b) != (
            overlap_entries(artifacts)[n].struct_a,
            overlap_entries(artifacts)[n].struct_b,
        ),
{
    let records = compared(artifacts);
    let rows = first_rows(records, records.len() as int);
    let entries = overlap_entries(artifacts);
    lemma_compared_distinct(artifacts);
    lemma_rows_apart(records, records.len() as int);
    assert(rows.no_duplicates()) by {
        assert forall|i: int, j: int|
            0 <= i < rows.len() && 0 <= j < rows.len() && i != j implies rows[i] != rows[j] by {
            if i < j {
                assert((rows[i].struct_a, rows[i].struct_b) != (
                    rows[j].struct_a,
                    rows[j].struct_b,
                ));
            } else {
                assert((rows[j].struct_a, rows[j].struct_b) != (
                    rows[i].struct_a,
                    rows[i].struct_b,
                ));
            }
        }
    }
    sorting::lemma_sorted_distinct::<OverlapEntry, OverlapOrder>(rows);
    sorting::lemma_sorted_items::<OverlapEntry, OverlapOrder>(rows);
    assert(entries[m] != entries[n]);
    assert(entries.contains(entries[m]) && entries.contains(entries[n]));
    let i = choose|i: int| 0 <= i < rows.len() && rows[i] == entries[m];
    let j = choose|j: int| 0 <= j < rows.len() && rows[j] == entries[n];
    if i < j {
        assert((rows[i].struct_a, rows[i].struct_b) != (rows[j].struct_a, rows[j].struct_b));
    } else {
        assert((rows[j].struct_a, rows[j].struct_b) != (rows[i].struct_a, rows[i].struct_b));
    }
}

/// The report is in ascending order of the display path of the struct, then of that of
/// the other one.
pub proof fn lemma_overlap_order(artifacts: Seq<TargetArtifact>, m: int, n: int)
    requires
        0 <= m < n < overlap_entries(artifacts).len(),
    ensures
        ({
            let a = overlap_entries(artifacts)[m];
            let b = overlap_entries(artifacts)[n];
            ||| order::precedes(a.display_path_a, b.display_path_a)
            ||| a.display_path_a == b.display_path_a && (order::precedes(
                a.display_path_b,
                b.display_path_b,
            ) || a.display_path_b == b.display_path_b)
        }),
{
    let a = overlap_entries(artifacts)[m];
    let b = overlap_entries(artifacts)[n];
    lemma_overlaps_in_order(artifacts);
    assert(!<OverlapOrder as sorting::Order<OverlapEntry>>::later(a, b));
    order::lemma_precedes_total(a.display_path_a, b.display_path_a);
    order::lemma_precedes_total(a.display_path_b, b.display_path_b);
}

/// The values of a record are those in its fields, and those of its fields are in their
/// order.
pub proof fn lemma_record_values(record: StructRecord, entry: OverlapEntry)
    ensures
        record@.def_key == record.def_key.path@,
        record@.display_path == record.display_path@,
        record@.file == record.file@,
        record@.line == record.line,
        record@.column == record.column,
        record@.fields.len() == record.fields.len(),
        forall|i: int|
            0 <= i < record.fields.len() ==> (#[trigger] record@.fields[i]).name
                == record.fields@[i].name@ && record@.fields[i].ty == record.fields@[i].ty@,
        entry@.struct_a == entry.struct_a.path@,
        entry@.struct_b == entry.struct_b.path@,
        entry@.display_path_a == entry.display_path_a@,
        entry@.display_path_b == entry.display_path_b@,
        entry@.shared_fields.len() == entry.shared_fields.len(),
        forall|i: int|
            0 <= i < entry.shared_fields.len() ==> (#[trigger] entry@.shared_fields[i]).name
                == entry.shared_fields@[i].name@ && entry@.shared_fields[i].ty
                == entry.shared_fields@[i].ty@,
{
}

} // verus!

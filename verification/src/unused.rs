//! Public items that no other target of a workspace uses.
use vstd::prelude::*;

use crate::lists;
use crate::order;
use crate::sorting;
use crate::strings;
use crate::utils::DefKey;

verus! {

/// A public item that a target defines.
#[derive(Debug)]
pub struct CandidateRecord {
    pub def_key: DefKey,
    pub kind: String,
    pub display_path: String,
    pub file: String,
    pub line: u32,
    pub column: u32,
    /// The items that are part of the interface of this one.
    pub required_defs: Vec<DefKey>,
}

/// A use of an item of another crate.
#[derive(Debug)]
pub struct UseRecord {
    pub def_key: DefKey,
}

/// What was collected from one target.
#[derive(Debug)]
pub struct TargetArtifact {
    pub crate_stable_id: String,
    pub crate_name: String,
    pub target_name: String,
    pub target_kind: String,
    pub candidates: Vec<CandidateRecord>,
    pub uses: Vec<UseRecord>,
}

/// A public item that nothing else in the workspace uses.
#[derive(Debug)]
pub struct UnusedDef {
    pub def_key: DefKey,
    pub crate_name: String,
    pub target_name: String,
    pub kind: String,
    pub display_path: String,
    pub file: String,
    pub line: u32,
    pub column: u32,
}

/// The unused public items of a workspace.
#[derive(Debug)]
pub struct AggregatedReport {
    pub unused: Vec<UnusedDef>,
}

/// Why a report cannot be made.
#[derive(Debug, Clone, Copy, PartialEq, Eq, Structural)]
pub enum AggregateError {
    /// No target left an artifact.
    NoArtifacts,
}

/// The values of an unused item.
pub ghost struct UnusedText {
    pub def_key: Seq<char>,
    pub crate_name: Seq<char>,
    pub target_name: Seq<char>,
    pub kind: Seq<char>,
    pub display_path: Seq<char>,
    pub file: Seq<char>,
    pub line: u32,
    pub column: u32,
}

impl View for UnusedDef {
    type V = UnusedText;

    open spec fn view(&self) -> UnusedText {
        UnusedText {
            def_key: self.def_key@,
            crate_name: self.crate_name@,
            target_name: self.target_name@,
            kind: self.kind@,
            display_path: self.display_path@,
            file: self.file@,
            line: self.line,
            column: self.column,
        }
    }
}

impl UnusedDef {
    /// A copy of the item.
    pub fn copied(&self) -> (r: UnusedDef)
        ensures
            r@ == self@,
    {
        UnusedDef {
            def_key: self.def_key.clone(),
            crate_name: self.crate_name.clone(),
            target_name: self.target_name.clone(),
            kind: self.kind.clone(),
            display_path: self.display_path.clone(),
            file: self.file.clone(),
            line: self.line,
            column: self.column,
        }
    }
}

/// The report entry for a candidate of a target.
pub open spec fn entry_for(artifact: TargetArtifact, candidate: CandidateRecord) -> UnusedText {
    UnusedText {
        def_key: candidate.def_key@,
        crate_name: artifact.crate_name@,
        target_name: artifact.target_name@,
        kind: candidate.kind@,
        display_path: candidate.display_path@,
        file: candidate.file@,
        line: candidate.line,
        column: candidate.column,
    }
}

/// The report entries for all candidates, in the order of the artifacts, each with
/// its key.
pub open spec fn all_entries(artifacts: Seq<TargetArtifact>) -> Seq<(Seq<char>, UnusedText)>
    decreases artifacts.len(),
{
    if artifacts.len() == 0 {
        Seq::empty()
    } else {
        let last = artifacts.last();
        all_entries(artifacts.drop_last()) + last.candidates@.map_values(
            |c: CandidateRecord| (c.def_key@, entry_for(last, c)),
        )
    }
}

/// The keys of all items that a target uses directly.
pub open spec fn all_uses(artifacts: Seq<TargetArtifact>) -> Seq<Seq<char>>
    decreases artifacts.len(),
{
    if artifacts.len() == 0 {
        Seq::empty()
    } else {
        all_uses(artifacts.drop_last()) + artifacts.last().uses@.map_values(
            |u: UseRecord| u.def_key@,
        )
    }
}

/// The pairs of a candidate and an item that is part of its interface.
pub open spec fn needs_of(candidate: CandidateRecord) -> Seq<(Seq<char>, Seq<char>)> {
    candidate.required_defs@.map_values(|d: DefKey| (candidate.def_key@, d@))
}

/// The pairs of the candidates with the items of their interfaces.
pub open spec fn candidate_needs(candidates: Seq<CandidateRecord>) -> Seq<(Seq<char>, Seq<char>)>
    decreases candidates.len(),
{
    if candidates.len() == 0 {
        Seq::empty()
    } else {
        candidate_needs(candidates.drop_last()) + needs_of(candidates.last())
    }
}

/// The pairs of all candidates with the items of their interfaces.
pub open spec fn all_needs(artifacts: Seq<TargetArtifact>) -> Seq<(Seq<char>, Seq<char>)>
    decreases artifacts.len(),
{
    if artifacts.len() == 0 {
        Seq::empty()
    } else {
        all_needs(artifacts.drop_last()) + candidate_needs(artifacts.last().candidates@)
    }
}

/// Whether `path` leads from one of `uses` along `needs` to `key`.
pub open spec fn leads_to(
    path: Seq<Seq<char>>,
    uses: Seq<Seq<char>>,
    needs: Seq<(Seq<char>, Seq<char>)>,
    key: Seq<char>,
) -> bool {
    &&& path.len() > 0
    &&& uses.contains(path[0])
    &&& path.last() == key
    &&& forall|i: int|
        0 <= i < path.len() - 1 ==> needs.contains((#[trigger] path[i], path[i + 1]))
}

/// Whether the item `key` is used: directly, or as part of the interface of a
/// used item.
#[verifier::opaque]
pub open spec fn is_used(
    uses: Seq<Seq<char>>,
    needs: Seq<(Seq<char>, Seq<char>)>,
    key: Seq<char>,
) -> bool {
    exists|path: Seq<Seq<char>>| leads_to(path, uses, needs, key)
}

/// What is used directly is used.
pub proof fn lemma_direct_use(
    uses: Seq<Seq<char>>,
    needs: Seq<(Seq<char>, Seq<char>)>,
    key: Seq<char>,
)
    requires
        uses.contains(key),
    ensures
        is_used(uses, needs, key),
{
    reveal(is_used);
    assert(leads_to(seq![key], uses, needs, key));
}

/// What is part of the interface of a used item is used.
pub proof fn lemma_needed_by_used(
    uses: Seq<Seq<char>>,
    needs: Seq<(Seq<char>, Seq<char>)>,
    user: Seq<char>,
    key: Seq<char>,
)
    requires
        is_used(uses, needs, user),
        needs.contains((user, key)),
    ensures
        is_used(uses, needs, key),
{
    reveal(is_used);
    let path = choose|path: Seq<Seq<char>>| leads_to(path, uses, needs, user);
    let longer = path.push(key);
    assert forall|i: int| 0 <= i < longer.len() - 1 implies needs.contains(
        (#[trigger] longer[i], longer[i + 1]),
    ) by {
        if i < path.len() - 1 {
            assert(longer[i] == path[i] && longer[i + 1] == path[i + 1]);
        }
    }
    assert(leads_to(longer, uses, needs, key));
}

proof fn lemma_closed_holds_path(
    uses: Seq<Seq<char>>,
    needs: Seq<(Seq<char>, Seq<char>)>,
    closed: Set<Seq<char>>,
    path: Seq<Seq<char>>,
    i: int,
)
    requires
        path.len() > 0,
        uses.contains(path[0]),
        forall|i: int|
            0 <= i < path.len() - 1 ==> needs.contains((#[trigger] path[i], path[i + 1])),
        forall|k: Seq<char>| #[trigger] uses.contains(k) ==> closed.contains(k),
        forall|a: Seq<char>, b: Seq<char>| #[trigger]
            needs.contains((a, b)) && closed.contains(a) ==> closed.contains(b),
        0 <= i < path.len(),
    ensures
        closed.contains(path[i]),
    decreases i,
{
    if i > 0 {
        lemma_closed_holds_path(uses, needs, closed, path, i - 1);
        assert(needs.contains((path[i - 1], path[i - 1 + 1])));
    }
}

/// The used items are the smallest set that holds what is used directly and, with
/// an item, what is part of its interface: every such set holds all used items.
pub proof fn lemma_least_closed(
    uses: Seq<Seq<char>>,
    needs: Seq<(Seq<char>, Seq<char>)>,
    closed: Set<Seq<char>>,
    key: Seq<char>,
)
    requires
        forall|k: Seq<char>| #[trigger] uses.contains(k) ==> closed.contains(k),
        forall|a: Seq<char>, b: Seq<char>| #[trigger]
            needs.contains((a, b)) && closed.contains(a) ==> closed.contains(b),
        is_used(uses, needs, key),
    ensures
        closed.contains(key),
{
    reveal(is_used);
    let path = choose|path: Seq<Seq<char>>| leads_to(path, uses, needs, key);
    lemma_closed_holds_path(uses, needs, closed, path, path.len() - 1);
}

/// More direct uses and more interfaces leave no item less used.
pub proof fn lemma_more_uses(
    uses: Seq<Seq<char>>,
    needs: Seq<(Seq<char>, Seq<char>)>,
    more_uses: Seq<Seq<char>>,
    more_needs: Seq<(Seq<char>, Seq<char>)>,
    key: Seq<char>,
)
    requires
        is_used(uses, needs, key),
        forall|k: Seq<char>| #[trigger] uses.contains(k) ==> more_uses.contains(k),
        forall|p: (Seq<char>, Seq<char>)| #[trigger] needs.contains(p) ==> more_needs.contains(p),
    ensures
        is_used(more_uses, more_needs, key),
{
    reveal(is_used);
    let path = choose|path: Seq<Seq<char>>| leads_to(path, uses, needs, key);
    assert(leads_to(path, more_uses, more_needs, key));
}

/// The place of one entry relative to another in the report: by file, line,
/// column and display path.
pub open spec fn entry_rank(a: UnusedText, b: UnusedText) -> order::Rank {
    order::chained(
        order::text_rank(a.file, b.file),
        order::chained(
            order::number_rank(a.line as nat, b.line as nat),
            order::chained(
                order::number_rank(a.column as nat, b.column as nat),
                order::text_rank(a.display_path, b.display_path),
            ),
        ),
    )
}

/// The order of the entries of a report.
pub struct ReportOrder;

impl sorting::Order<UnusedDef> for ReportOrder {
    open spec fn later(a: UnusedText, b: UnusedText) -> bool {
        entry_rank(a, b) is Greater
    }

    fn is_later(a: &UnusedDef, b: &UnusedDef) -> (r: bool) {
        match order::rank_text(a.file.as_str(), b.file.as_str()) {
            order::Rank::Greater => true,
            order::Rank::Less => false,
            order::Rank::Equal => if a.line != b.line {
                a.line > b.line
            } else if a.column != b.column {
                a.column > b.column
            } else {
                match order::rank_text(a.display_path.as_str(), b.display_path.as_str()) {
                    order::Rank::Greater => true,
                    _ => false,
                }
            },
        }
    }
}

/// The entries of the report for `artifacts`: of each candidate that is not used
/// the first record, in the order of the report.
pub open spec fn unused_entries(artifacts: Seq<TargetArtifact>) -> Seq<UnusedText> {
    sorting::sorted::<UnusedDef, ReportOrder>(
        strings::values_of(strings::first_by_key(all_entries(artifacts))).filter(
            |u: UnusedText| !is_used(all_uses(artifacts), all_needs(artifacts), u.def_key),
        ),
    )
}

/// A candidate and an item that is part of its interface.
#[derive(Debug)]
struct Need {
    user: String,
    key: String,
}

impl View for Need {
    type V = (Seq<char>, Seq<char>);

    closed spec fn view(&self) -> (Seq<char>, Seq<char>) {
        (self.user@, self.key@)
    }
}

/// What the targets use directly.
fn collect_uses(artifacts: &Vec<TargetArtifact>) -> (r: strings::StringSet)
    ensures
        r.well_formed(),
        r@ == all_uses(artifacts@).to_set(),
{
    let mut used = strings::StringSet::new();
    let mut i: usize = 0;
    proof {
        assert(artifacts@.take(0) =~= Seq::empty());
        assert(used@ =~= all_uses(artifacts@.take(0)).to_set());
    }
    while i < artifacts.len()
        invariant
            i <= artifacts.len(),
            used.well_formed(),
            used@ == all_uses(artifacts@.take(i as int)).to_set(),
        decreases artifacts.len() - i,
    {
        let ghost known = all_uses(artifacts@.take(i as int));
        let ghost keys = artifacts@[i as int].uses@.map_values(|u: UseRecord| u.def_key@);
        let mut k: usize = 0;
        proof {
            assert(known + keys.take(0) =~= known);
        }
        while k < artifacts[i].uses.len()
            invariant
                i < artifacts.len(),
                k <= artifacts[i as int].uses.len(),
                keys == artifacts@[i as int].uses@.map_values(|u: UseRecord| u.def_key@),
                used.well_formed(),
                used@ == (known + keys.take(k as int)).to_set(),
            decreases artifacts[i as int].uses.len() - k,
        {
            let key = artifacts[i].uses[k].def_key.path.clone();
            used.insert(key);
            proof {
                let before = known + keys.take(k as int);
                let now = known + keys.take(k + 1);
                assert(now =~= before.push(keys[k as int]));
                lemma_push_to_set(before, keys[k as int]);
            }
            k = k + 1;
        }
        proof {
            assert(keys.take(k as int) =~= keys);
            assert(artifacts@.take(i + 1).drop_last() =~= artifacts@.take(i as int));
            assert(artifacts@.take(i + 1).last() == artifacts@[i as int]);
        }
        i = i + 1;
    }
    proof {
        assert(artifacts@.take(i as int) =~= artifacts@);
    }
    used
}

proof fn lemma_push_to_set(s: Seq<Seq<char>>, x: Seq<char>)
    ensures
        s.push(x).to_set() == s.to_set().insert(x),
{
    assert forall|y: Seq<char>| s.push(x).to_set().contains(y) <==> s.to_set().insert(x).contains(
        y,
    ) by {
        if s.contains(y) {
            let j = choose|j: int| 0 <= j < s.len() && s[j] == y;
            assert(s.push(x)[j] == y);
        }
        if y == x {
            assert(s.push(x)[s.len() as int] == y);
        }
        if s.push(x).contains(y) {
            let j = choose|j: int| 0 <= j < s.push(x).len() && s.push(x)[j] == y;
            if j < s.len() {
                assert(s[j] == y);
            }
        }
    }
    assert(s.push(x).to_set() =~= s.to_set().insert(x));
}

/// The pairs of the candidates with the items of their interfaces.
fn collect_needs(artifacts: &Vec<TargetArtifact>) -> (r: Vec<Need>)
    ensures
        sorting::views(r@) == all_needs(artifacts@),
{
    let mut needs: Vec<Need> = Vec::new();
    let mut i: usize = 0;
    proof {
        assert(artifacts@.take(0) =~= Seq::empty());
        assert(sorting::views(needs@) =~= Seq::empty());
    }
    while i < artifacts.len()
        invariant
            i <= artifacts.len(),
            sorting::views(needs@) == all_needs(artifacts@.take(i as int)),
        decreases artifacts.len() - i,
    {
        let ghost known = all_needs(artifacts@.take(i as int));
        let ghost candidates = artifacts@[i as int].candidates@;
        let mut c: usize = 0;
        proof {
            assert(candidates.take(0) =~= Seq::empty());
            assert(known + candidate_needs(candidates.take(0)) =~= known);
        }
        while c < artifacts[i].candidates.len()
            invariant
                i < artifacts.len(),
                candidates == artifacts@[i as int].candidates@,
                c <= candidates.len(),
                sorting::views(needs@) == known + candidate_needs(candidates.take(c as int)),
            decreases candidates.len() - c,
        {
            let candidate = &artifacts[i].candidates[c];
            let ghost before = known + candidate_needs(candidates.take(c as int));
            let ghost new_needs = needs_of(*candidate);
            let mut d: usize = 0;
            proof {
                assert(before + new_needs.take(0) =~= before);
            }
            while d < candidate.required_defs.len()
                invariant
                    d <= candidate.required_defs.len(),
                    new_needs == needs_of(*candidate),
                    sorting::views(needs@) == before + new_needs.take(d as int),
                decreases candidate.required_defs.len() - d,
            {
                let ghost had = needs@;
                let need = Need {
                    user: candidate.def_key.path.clone(),
                    key: candidate.required_defs[d].path.clone(),
                };
                let ghost pair = need@;
                needs.push(need);
                proof {
                    assert(sorting::views(needs@) =~= sorting::views(had).push(pair));
                    assert(pair == new_needs[d as int]);
                    assert(before + new_needs.take(d + 1) =~= (before + new_needs.take(
                        d as int,
                    )).push(pair));
                }
                d = d + 1;
            }
            proof {
                assert(new_needs.take(d as int) =~= new_needs);
                assert(candidates.take(c + 1).drop_last() =~= candidates.take(c as int));
                assert(candidates.take(c + 1).last() == *candidate);
                assert(before + new_needs =~= known + candidate_needs(candidates.take(c + 1)));
            }
            c = c + 1;
        }
        proof {
            assert(candidates.take(c as int) =~= candidates);
            assert(artifacts@.take(i + 1).drop_last() =~= artifacts@.take(i as int));
            assert(artifacts@.take(i + 1).last() == artifacts@[i as int]);
        }
        i = i + 1;
    }
    proof {
        assert(artifacts@.take(i as int) =~= artifacts@);
    }
    needs
}

/// The items that `needs` asks for.
spec fn needed_keys(needs: Seq<(Seq<char>, Seq<char>)>) -> Set<Seq<char>> {
    needs.map_values(|p: (Seq<char>, Seq<char>)| p.1).to_set()
}

proof fn lemma_need_left(
    needs: Seq<(Seq<char>, Seq<char>)>,
    used: Set<Seq<char>>,
    key: Seq<char>,
    i: int,
)
    requires
        0 <= i < needs.len(),
        needs[i].1 == key,
        !used.contains(key),
    ensures
        needed_keys(needs).difference(used.insert(key)).len() < needed_keys(needs).difference(
            used,
        ).len(),
{
    let keys = needs.map_values(|p: (Seq<char>, Seq<char>)| p.1);
    keys.lemma_cardinality_of_set();
    assert(keys[i] == key);
    let left = needed_keys(needs).difference(used);
    assert(left.contains(key));
    assert(needed_keys(needs).difference(used.insert(key)) =~= left.remove(key));
    assert(needed_keys(needs).finite());
    assert(left.finite());
}

/// Adds to `used` what the used items need, as long as anything is missing.
fn add_needed(used: strings::StringSet, needs: &Vec<Need>, Ghost(uses): Ghost<Seq<Seq<char>>>) -> (r:
    strings::StringSet)
    requires
        used.well_formed(),
        used@ == uses.to_set(),
    ensures
        r.well_formed(),
        forall|k: Seq<char>|
            r@.contains(k) <==> is_used(uses, sorting::views(needs@), k),
{
    let ghost pairs = sorting::views(needs@);
    let mut used = used;
    proof {
        assert forall|k: Seq<char>| used@.contains(k) implies is_used(uses, pairs, k) by {
            assert(uses.contains(k));
            lemma_direct_use(uses, pairs, k);
        }
        assert forall|k: Seq<char>| uses.contains(k) implies used@.contains(k) by {
            assert(uses.to_set().contains(k));
        }
    }
    loop
        invariant
            used.well_formed(),
            pairs == sorting::views(needs@),
            forall|k: Seq<char>| used@.contains(k) ==> is_used(uses, pairs, k),
            forall|k: Seq<char>| uses.contains(k) ==> used@.contains(k),
        decreases needed_keys(pairs).difference(used@).len(),
    {
        let ghost at_start = used@;
        let mut changed = false;
        let mut i: usize = 0;
        while i < needs.len()
            invariant
                i <= needs.len(),
                used.well_formed(),
                pairs == sorting::views(needs@),
                pairs.len() == needs.len(),
                forall|k: Seq<char>| used@.contains(k) ==> is_used(uses, pairs, k),
                forall|k: Seq<char>| uses.contains(k) ==> used@.contains(k),
                !changed ==> used@ == at_start,
                !changed ==> forall|j: int|
                    0 <= j < i && used@.contains((#[trigger] pairs[j]).0) ==> used@.contains(
                        pairs[j].1,
                    ),
                changed ==> needed_keys(pairs).difference(used@).len() < needed_keys(
                    pairs,
                ).difference(at_start).len(),
            decreases needs.len() - i,
        {
            let ghost before = used@;
            proof {
                assert(pairs[i as int] == needs@[i as int]@);
            }
            if used.contains(needs[i].user.as_str()) {
                let key = needs[i].key.clone();
                let ghost k = key@;
                if used.insert(key) {
                    proof {
                        lemma_need_left(pairs, before, k, i as int);
                        assert(pairs.contains((needs@[i as int].user@, k)));
                        lemma_needed_by_used(uses, pairs, needs@[i as int].user@, k);
                    }
                    changed = true;
                }
            }
            i = i + 1;
        }
        if !changed {
            proof {
                assert forall|k: Seq<char>| is_used(uses, pairs, k) implies used@.contains(k) by {
                    assert forall|a: Seq<char>, b: Seq<char>| #[trigger]
                        pairs.contains((a, b)) && used@.contains(a) implies used@.contains(b) by {
                        let j = choose|j: int| 0 <= j < pairs.len() && pairs[j] == (a, b);
                        assert(used@.contains(pairs[j].1));
                    }
                    lemma_least_closed(uses, pairs, used@, k);
                }
            }
            return used;
        }
    }
}

/// The first entry for each candidate.
fn collect_first_entries(artifacts: &Vec<TargetArtifact>) -> (r: strings::StringMap<UnusedDef>)
    ensures
        r.well_formed(),
        r.entries() == strings::first_by_key(all_entries(artifacts@)),
{
    let mut found = strings::StringMap::<UnusedDef>::new();
    let mut i: usize = 0;
    proof {
        assert(artifacts@.take(0) =~= Seq::empty());
    }
    while i < artifacts.len()
        invariant
            i <= artifacts.len(),
            found.well_formed(),
            found.entries() == strings::first_by_key(all_entries(artifacts@.take(i as int))),
        decreases artifacts.len() - i,
    {
        let ghost artifact = artifacts@[i as int];
        let ghost known = all_entries(artifacts@.take(i as int));
        let ghost entries = artifact.candidates@.map_values(
            |c: CandidateRecord| (c.def_key@, entry_for(artifact, c)),
        );
        let mut c: usize = 0;
        proof {
            assert(known + entries.take(0) =~= known);
        }
        while c < artifacts[i].candidates.len()
            invariant
                i < artifacts.len(),
                artifact == artifacts@[i as int],
                entries == artifact.candidates@.map_values(
                    |c: CandidateRecord| (c.def_key@, entry_for(artifact, c)),
                ),
                c <= artifact.candidates.len(),
                found.well_formed(),
                found.entries() == strings::first_by_key(known + entries.take(c as int)),
            decreases artifact.candidates.len() - c,
        {
            let candidate = &artifacts[i].candidates[c];
            proof {
                let before = known + entries.take(c as int);
                let now = known + entries.take(c + 1);
                assert(now.drop_last() =~= before);
                assert(now.last() == entries[c as int]);
            }
            if found.get(candidate.def_key.path.as_str()).is_none() {
                let entry = UnusedDef {
                    def_key: candidate.def_key.clone(),
                    crate_name: artifacts[i].crate_name.clone(),
                    target_name: artifacts[i].target_name.clone(),
                    kind: candidate.kind.clone(),
                    display_path: candidate.display_path.clone(),
                    file: candidate.file.clone(),
                    line: candidate.line,
                    column: candidate.column,
                };
                found.insert(candidate.def_key.path.clone(), entry);
            }
            c = c + 1;
        }
        proof {
            assert(entries.take(c as int) =~= entries);
            assert(artifacts@.take(i + 1).drop_last() =~= artifacts@.take(i as int));
            assert(artifacts@.take(i + 1).last() == artifact);
        }
        i = i + 1;
    }
    proof {
        assert(artifacts@.take(i as int) =~= artifacts@);
    }
    found
}

/// The report on the items that no target in `artifacts` uses.
pub fn aggregate_artifacts(artifacts: &Vec<TargetArtifact>) -> (r: Result<
    AggregatedReport,
    AggregateError,
>)
    ensures
        r is Err <==> artifacts.len() == 0,
        r matches Err(error) ==> error is NoArtifacts,
        r matches Ok(report) ==> sorting::views(report.unused@) == unused_entries(artifacts@),
{
    if artifacts.len() == 0 {
        return Err(AggregateError::NoArtifacts);
    }
    let ghost uses = all_uses(artifacts@);
    let ghost pairs = all_needs(artifacts@);
    let direct = collect_uses(artifacts);
    let needs = collect_needs(artifacts);
    let used = add_needed(direct, &needs, Ghost(uses));
    let found = collect_first_entries(artifacts);
    let ghost values = strings::values_of(found.entries());
    let ghost keep = |u: UnusedText| !is_used(uses, pairs, u.def_key);
    let mut unused: Vec<UnusedDef> = Vec::new();
    let mut i: usize = 0;
    proof {
        reveal(Seq::filter);
        found.lemma_ascending();
        assert(sorting::views(unused@) =~= values.take(0).filter(keep));
    }
    while i < found.len()
        invariant
            i <= values.len(),
            found.well_formed(),
            used.well_formed(),
            values == strings::values_of(found.entries()),
            values.len() == found.entries().len(),
            keep == (|u: UnusedText| !is_used(uses, pairs, u.def_key)),
            forall|k: Seq<char>| used@.contains(k) <==> is_used(uses, pairs, k),
            sorting::views(unused@) == values.take(i as int).filter(keep),
        decreases found.entries().len() - i,
    {
        let entry = found.value_at(i);
        let ghost had = unused@;
        proof {
            reveal(Seq::filter);
            assert(values[i as int] == entry@);
            assert(values.take(i + 1).drop_last() =~= values.take(i as int));
            assert(values.take(i + 1).last() == entry@);
        }
        if !used.contains(entry.def_key.path.as_str()) {
            let copy = entry.copied();
            let ghost value = copy@;
            unused.push(copy);
            proof {
                assert(sorting::views(unused@) =~= sorting::views(had).push(value));
            }
        }
        i = i + 1;
    }
    proof {
        assert(values.take(i as int) =~= values);
    }
    Ok(AggregatedReport { unused: sorting::sort_stable::<UnusedDef, ReportOrder>(unused) })
}

proof fn lemma_entry_keys(artifacts: Seq<TargetArtifact>)
    ensures
        forall|i: int|
            0 <= i < all_entries(artifacts).len() ==> (#[trigger] all_entries(artifacts)[i]).0
                == all_entries(artifacts)[i].1.def_key,
    decreases artifacts.len(),
{
    if artifacts.len() > 0 {
        let front = all_entries(artifacts.drop_last());
        let whole = all_entries(artifacts);
        lemma_entry_keys(artifacts.drop_last());
        assert forall|i: int| 0 <= i < whole.len() implies (#[trigger] whole[i]).0
            == whole[i].1.def_key by {
            if i < front.len() {
                assert(whole[i] == front[i]);
            }
        }
    }
}

proof fn lemma_entry_rank_is_ranking()
    ensures
        sorting::is_ranking::<UnusedDef, ReportOrder>(),
{
    assert forall|a: UnusedText, b: UnusedText| !(#[trigger] entry_rank(a, b) is Greater
        && entry_rank(b, a) is Greater) by {
        order::lemma_precedes_total(a.file, b.file);
        order::lemma_precedes_asymmetric(a.file, b.file);
        order::lemma_precedes_total(a.display_path, b.display_path);
        order::lemma_precedes_asymmetric(a.display_path, b.display_path);
    }
    assert forall|a: UnusedText, b: UnusedText, c: UnusedText|
        !(#[trigger] entry_rank(a, b) is Greater) && !(#[trigger] entry_rank(b, c)
            is Greater) implies !(entry_rank(a, c) is Greater) by {
        order::lemma_text_rank_chain(a.file, b.file, c.file);
        order::lemma_text_rank_chain(a.display_path, b.display_path, c.display_path);
    }
    assert forall|a: UnusedText, b: UnusedText|
        !(#[trigger] <ReportOrder as sorting::Order<UnusedDef>>::later(a, b)
            && <ReportOrder as sorting::Order<UnusedDef>>::later(b, a)) by {
        assert(!(entry_rank(a, b) is Greater && entry_rank(b, a) is Greater));
    }
    assert forall|a: UnusedText, b: UnusedText, c: UnusedText|
        !(#[trigger] <ReportOrder as sorting::Order<UnusedDef>>::later(a, b))
            && !(#[trigger] <ReportOrder as sorting::Order<UnusedDef>>::later(
            b,
            c,
        )) implies !<ReportOrder as sorting::Order<UnusedDef>>::later(a, c) by {
        assert(!(entry_rank(a, b) is Greater) && !(entry_rank(b, c) is Greater));
    }
}

/// The report names an item if and only if it is a candidate that is not used. It
/// names no item twice, and its entries are in order.
pub proof fn lemma_unused_entries(artifacts: Seq<TargetArtifact>)
    ensures
        sorting::in_order::<UnusedDef, ReportOrder>(unused_entries(artifacts)),
        forall|i: int|
            0 <= i < unused_entries(artifacts).len() ==> !is_used(
                all_uses(artifacts),
                all_needs(artifacts),
                (#[trigger] unused_entries(artifacts)[i]).def_key,
            ) && all_entries(artifacts).contains(
                (unused_entries(artifacts)[i].def_key, unused_entries(artifacts)[i]),
            ),
        forall|e: (Seq<char>, UnusedText)| #[trigger]
            all_entries(artifacts).contains(e) && !is_used(
                all_uses(artifacts),
                all_needs(artifacts),
                e.0,
            ) ==> exists|i: int|
                0 <= i < unused_entries(artifacts).len() && (#[trigger] unused_entries(
                    artifacts,
                )[i]).def_key == e.0,
        forall|i: int, j: int|
            0 <= i < j < unused_entries(artifacts).len() ==> (#[trigger] unused_entries(
                artifacts,
            )[i]).def_key != (#[trigger] unused_entries(artifacts)[j]).def_key,
{
    let uses = all_uses(artifacts);
    let needs = all_needs(artifacts);
    let entries = all_entries(artifacts);
    let found = strings::first_by_key(entries);
    let values = strings::values_of(found);
    let names = strings::keys_of(found);
    let keep = |u: UnusedText| !is_used(uses, needs, u.def_key);
    let kept = values.filter(keep);
    let report = unused_entries(artifacts);
    strings::lemma_first_by_key(entries);
    lemma_entry_keys(artifacts);
    assert forall|i: int| 0 <= i < found.len() implies (#[trigger] found[i]).0
        == found[i].1.def_key by {
        assert(entries.contains(found[i]));
    }
    lemma_entry_rank_is_ranking();
    sorting::lemma_sorted_in_order::<UnusedDef, ReportOrder>(kept);
    sorting::lemma_sorted_items::<UnusedDef, ReportOrder>(kept);
    assert(report == sorting::sorted::<UnusedDef, ReportOrder>(kept));
    sorting::lemma_filtered_members(values, keep);
    assert forall|i: int, j: int|
        0 <= i < values.len() && 0 <= j < values.len() && i != j implies values[i]
        != values[j] by {
        assert(values[i] == found[i].1 && values[j] == found[j].1);
        assert(names[i] == found[i].0 && names[j] == found[j].0);
        order::lemma_precedes_irreflexive(names[i]);
    }
    sorting::lemma_filtered_distinct(values, keep);
    sorting::lemma_sorted_distinct::<UnusedDef, ReportOrder>(kept);
    assert forall|i: int| 0 <= i < report.len() implies !is_used(
        uses,
        needs,
        (#[trigger] report[i]).def_key,
    ) && entries.contains((report[i].def_key, report[i])) && values.contains(report[i]) by {
        assert(report.contains(report[i]));
        assert(kept.contains(report[i]));
        let m = choose|m: int| 0 <= m < values.len() && values[m] == report[i];
        assert(found[m].1 == values[m]);
        assert(entries.contains(found[m]));
    }
    assert forall|e: (Seq<char>, UnusedText)| #[trigger] entries.contains(e) && !is_used(
        uses,
        needs,
        e.0,
    ) implies exists|i: int| 0 <= i < report.len() && (#[trigger] report[i]).def_key == e.0 by {
        let m = strings::lemma_lookup_found(found, e.0);
        assert(values[m] == found[m].1);
        assert(values.contains(values[m]));
        assert(kept.contains(values[m]));
        assert(report.contains(values[m]));
        let i = choose|i: int| 0 <= i < report.len() && report[i] == values[m];
        assert(report[i].def_key == e.0);
    }
    assert forall|i: int, j: int| 0 <= i < j < report.len() implies (#[trigger] report[i]).def_key
        != (#[trigger] report[j]).def_key by {
        if report[i].def_key == report[j].def_key {
            let a = choose|a: int| 0 <= a < values.len() && values[a] == report[i];
            let b = choose|b: int| 0 <= b < values.len() && values[b] == report[j];
            assert(found[a].1 == values[a] && found[b].1 == values[b]);
            assert(names[a] == found[a].0 && names[b] == found[b].0);
            order::lemma_precedes_irreflexive(names[a]);
            assert(a == b);
        }
    }
}

/// Whether a target uses the item `key` directly: it has a use record for it.
pub open spec fn has_use_record(artifacts: Seq<TargetArtifact>, key: Seq<char>) -> bool {
    exists|i: int, j: int|
        0 <= i < artifacts.len() && 0 <= j < artifacts[i].uses.len()
            && (#[trigger] artifacts[i].uses@[j]).def_key@ == key
}

/// Whether a target has a candidate `user` that lists `key` as a part of its interface.
pub open spec fn has_need_record(
    artifacts: Seq<TargetArtifact>,
    user: Seq<char>,
    key: Seq<char>,
) -> bool {
    exists|i: int, c: int, d: int|
        0 <= i < artifacts.len() && 0 <= c < artifacts[i].candidates.len() && 0 <= d
            < artifacts[i].candidates@[c].required_defs.len()
            && artifacts[i].candidates@[c].def_key@ == user
            && (#[trigger] artifacts[i].candidates@[c].required_defs@[d])@ == key
}

/// What is used directly is what some target has a use record for, whatever target that
/// is.
pub proof fn lemma_uses_of_every_target(artifacts: Seq<TargetArtifact>, key: Seq<char>)
    ensures
        all_uses(artifacts).contains(key) <==> has_use_record(artifacts, key),
    decreases artifacts.len(),
{
    if artifacts.len() > 0 {
        let front = artifacts.drop_last();
        let last = artifacts.last();
        let n = artifacts.len() - 1;
        let here = last.uses@.map_values(|u: UseRecord| u.def_key@);
        lemma_uses_of_every_target(front, key);
        lists::lemma_in_either(all_uses(front), here, key);
        if has_use_record(front, key) {
            let (i, j) = choose|i: int, j: int|
                0 <= i < front.len() && 0 <= j < front[i].uses.len()
                    && (#[trigger] front[i].uses@[j]).def_key@ == key;
            assert(artifacts[i].uses@[j].def_key@ == key);
        }
        if here.contains(key) {
            let j = choose|j: int| 0 <= j < here.len() && here[j] == key;
            assert(artifacts[n].uses@[j].def_key@ == key);
        }
        if has_use_record(artifacts, key) {
            let (i, j) = choose|i: int, j: int|
                0 <= i < artifacts.len() && 0 <= j < artifacts[i].uses.len()
                    && (#[trigger] artifacts[i].uses@[j]).def_key@ == key;
            if i < n {
                assert(front[i].uses@[j].def_key@ == key);
            } else {
                assert(here[j] == key);
            }
        }
    }
}

proof fn lemma_candidate_needs(
    candidates: Seq<CandidateRecord>,
    user: Seq<char>,
    key: Seq<char>,
)
    ensures
        candidate_needs(candidates).contains((user, key)) <==> exists|c: int, d: int|
            0 <= c < candidates.len() && 0 <= d < candidates[c].required_defs.len()
                && candidates[c].def_key@ == user && (#[trigger] candidates[c].required_defs@[d])@
                == key,
    decreases candidates.len(),
{
    if candidates.len() > 0 {
        let front = candidates.drop_last();
        let last = candidates.last();
        let n = candidates.len() - 1;
        lemma_candidate_needs(front, user, key);
        lists::lemma_in_either(candidate_needs(front), needs_of(last), (user, key));
        if candidate_needs(front).contains((user, key)) {
            let (c, d) = choose|c: int, d: int|
                0 <= c < front.len() && 0 <= d < front[c].required_defs.len()
                    && front[c].def_key@ == user && (#[trigger] front[c].required_defs@[d])@ == key;
            assert(candidates[c].required_defs@[d]@ == key);
        }
        if needs_of(last).contains((user, key)) {
            let d = choose|d: int| 0 <= d < needs_of(last).len() && needs_of(last)[d] == (user, key);
            assert(candidates[n].required_defs@[d]@ == key);
        }
        if exists|c: int, d: int|
            0 <= c < candidates.len() && 0 <= d < candidates[c].required_defs.len()
                && candidates[c].def_key@ == user && (#[trigger] candidates[c].required_defs@[d])@
                == key {
            let (c, d) = choose|c: int, d: int|
                0 <= c < candidates.len() && 0 <= d < candidates[c].required_defs.len()
                    && candidates[c].def_key@ == user && (
                #[trigger] candidates[c].required_defs@[d])@ == key;
            if c < n {
                assert(front[c].required_defs@[d]@ == key);
            } else {
                assert(needs_of(last)[d] == (user, key));
            }
        }
    }
}

/// An item needs what one of the candidates of its name lists, in whatever target.
pub proof fn lemma_needs_of_every_target(
    artifacts: Seq<TargetArtifact>,
    user: Seq<char>,
    key: Seq<char>,
)
    ensures
        all_needs(artifacts).contains((user, key)) <==> has_need_record(artifacts, user, key),
    decreases artifacts.len(),
{
    if artifacts.len() > 0 {
        let front = artifacts.drop_last();
        let last = artifacts.last();
        let n = artifacts.len() - 1;
        lemma_needs_of_every_target(front, user, key);
        lemma_candidate_needs(last.candidates@, user, key);
        lists::lemma_in_either(all_needs(front), candidate_needs(last.candidates@), (user, key));
        if has_need_record(front, user, key) {
            let (i, c, d) = choose|i: int, c: int, d: int|
                0 <= i < front.len() && 0 <= c < front[i].candidates.len() && 0 <= d
                    < front[i].candidates@[c].required_defs.len()
                    && front[i].candidates@[c].def_key@ == user
                    && (#[trigger] front[i].candidates@[c].required_defs@[d])@ == key;
            assert(artifacts[i].candidates@[c].required_defs@[d]@ == key);
        }
        if candidate_needs(last.candidates@).contains((user, key)) {
            let list = last.candidates@;
            let (c, d) = choose|c: int, d: int|
                0 <= c < list.len() && 0 <= d < list[c].required_defs.len() && list[c].def_key@
                    == user && (#[trigger] list[c].required_defs@[d])@ == key;
            assert(artifacts[n].candidates@[c].required_defs@[d]@ == key);
        }
        if has_need_record(artifacts, user, key) {
            let (i, c, d) = choose|i: int, c: int, d: int|
                0 <= i < artifacts.len() && 0 <= c < artifacts[i].candidates.len() && 0 <= d
                    < artifacts[i].candidates@[c].required_defs.len()
                    && artifacts[i].candidates@[c].def_key@ == user
                    && (#[trigger] artifacts[i].candidates@[c].required_defs@[d])@ == key;
            if i < n {
                assert(front[i].candidates@[c].required_defs@[d]@ == key);
            } else {
                assert(last.candidates@[c].required_defs@[d]@ == key);
            }
        }
    }
}

/// Whether `path` leads from an item with a use record to `key`, each time from a
/// candidate to a part of its interface.
pub open spec fn reaches(
    artifacts: Seq<TargetArtifact>,
    path: Seq<Seq<char>>,
    key: Seq<char>,
) -> bool {
    &&& path.len() > 0
    &&& has_use_record(artifacts, path[0])
    &&& path.last() == key
    &&& forall|n: int|
        0 <= n < path.len() - 1 ==> has_need_record(artifacts, #[trigger] path[n], path[n + 1])
}

proof fn lemma_used_is_reached(artifacts: Seq<TargetArtifact>, key: Seq<char>)
    ensures
        is_used(all_uses(artifacts), all_needs(artifacts), key) <==> exists|
            path: Seq<Seq<char>>,
        | #[trigger] reaches(artifacts, path, key),
{
    reveal(is_used);
    let uses = all_uses(artifacts);
    let needs = all_needs(artifacts);
    if exists|path: Seq<Seq<char>>| leads_to(path, uses, needs, key) {
        let path = choose|path: Seq<Seq<char>>| leads_to(path, uses, needs, key);
        lemma_uses_of_every_target(artifacts, path[0]);
        assert forall|n: int| 0 <= n < path.len() - 1 implies has_need_record(
            artifacts,
            #[trigger] path[n],
            path[n + 1],
        ) by {
            lemma_needs_of_every_target(artifacts, path[n], path[n + 1]);
        }
        assert(reaches(artifacts, path, key));
    }
    if exists|path: Seq<Seq<char>>| #[trigger] reaches(artifacts, path, key) {
        let path = choose|path: Seq<Seq<char>>| #[trigger] reaches(artifacts, path, key);
        lemma_uses_of_every_target(artifacts, path[0]);
        assert forall|n: int| 0 <= n < path.len() - 1 implies needs.contains(
            (#[trigger] path[n], path[n + 1]),
        ) by {
            lemma_needs_of_every_target(artifacts, path[n], path[n + 1]);
        }
        assert(leads_to(path, uses, needs, key));
    }
}

spec fn entries_in(artifact: TargetArtifact) -> Seq<(Seq<char>, UnusedText)> {
    artifact.candidates@.map_values(
        |c: CandidateRecord|
            (
                c.def_key@,
                UnusedText {
                    def_key: c.def_key@,
                    crate_name: artifact.crate_name@,
                    target_name: artifact.target_name@,
                    kind: c.kind@,
                    display_path: c.display_path@,
                    file: c.file@,
                    line: c.line,
                    column: c.column,
                },
            ),
    )
}

proof fn lemma_all_entries_flat(artifacts: Seq<TargetArtifact>)
    ensures
        all_entries(artifacts) == lists::flat(artifacts, |a: TargetArtifact| entries_in(a)),
    decreases artifacts.len(),
{
    if artifacts.len() > 0 {
        lemma_all_entries_flat(artifacts.drop_last());
        let last = artifacts.last();
        assert(last.candidates@.map_values(
            |c: CandidateRecord| (c.def_key@, entry_for(last, c)),
        ) =~= entries_in(last));
    }
}

/// A candidate is reported exactly if no path leads to it from an item that some target
/// uses.
pub proof fn lemma_reported_unless_reached(artifacts: Seq<TargetArtifact>, i: int, c: int)
    requires
        0 <= i < artifacts.len(),
        0 <= c < artifacts[i].candidates.len(),
    ensures
        ({
            let key = artifacts[i].candidates@[c].def_key@;
            let report = unused_entries(artifacts);
            (exists|n: int| 0 <= n < report.len() && (#[trigger] report[n]).def_key == key)
                <==> !exists|path: Seq<Seq<char>>| #[trigger] reaches(artifacts, path, key)
        }),
{
    let candidate = artifacts[i].candidates@[c];
    let key = candidate.def_key@;
    let part = |a: TargetArtifact| entries_in(a);
    lemma_unused_entries(artifacts);
    lemma_used_is_reached(artifacts, key);
    lemma_all_entries_flat(artifacts);
    let e = entries_in(artifacts[i])[c];
    assert(part(artifacts[i]).contains(e));
    lists::lemma_flat_members(artifacts, part, e);
    assert(all_entries(artifacts).contains(e));
}

/// No item is reported that some target has a use record for, nor one that a use record
/// leads to.
pub proof fn lemma_no_used_item_reported(
    artifacts: Seq<TargetArtifact>,
    path: Seq<Seq<char>>,
    key: Seq<char>,
)
    requires
        reaches(artifacts, path, key),
    ensures
        forall|n: int|
            0 <= n < unused_entries(artifacts).len() ==> (#[trigger] unused_entries(
                artifacts,
            )[n]).def_key != key,
{
    lemma_unused_entries(artifacts);
    lemma_used_is_reached(artifacts, key);
}

/// The entry of an item is made of its first record: the report has it exactly if nothing
/// reaches the item.
pub proof fn lemma_entry_from_first_record(artifacts: Seq<TargetArtifact>, i: int, c: int)
    requires
        0 <= i < artifacts.len(),
        0 <= c < artifacts[i].candidates.len(),
        forall|j: int, m: int|
            0 <= j < i && 0 <= m < artifacts[j].candidates.len() ==> (
            #[trigger] artifacts[j].candidates@[m]).def_key@
                != artifacts[i].candidates@[c].def_key@,
        forall|m: int|
            0 <= m < c ==> (#[trigger] artifacts[i].candidates@[m]).def_key@
                != artifacts[i].candidates@[c].def_key@,
    ensures
        ({
            let artifact = artifacts[i];
            let candidate = artifact.candidates@[c];
            let entry = UnusedText {
                def_key: candidate.def_key@,
                crate_name: artifact.crate_name@,
                target_name: artifact.target_name@,
                kind: candidate.kind@,
                display_path: candidate.display_path@,
                file: candidate.file@,
                line: candidate.line,
                column: candidate.column,
            };
            unused_entries(artifacts).contains(entry) <==> !exists|path: Seq<Seq<char>>|
                #[trigger]
                reaches(artifacts, path, candidate.def_key@)
        }),
{
    let part = |a: TargetArtifact| entries_in(a);
    let key = artifacts[i].candidates@[c].def_key@;
    let entry = entries_in(artifacts[i])[c].1;
    lemma_all_entries_flat(artifacts);
    lemma_used_is_reached(artifacts, key);
    assert forall|j: int, m: int|
        0 <= j < i && 0 <= m < part(artifacts[j]).len() implies (
    #[trigger] part(artifacts[j])[m]).0 != part(artifacts[i])[c].0 by {
        assert(artifacts[j].candidates@[m].def_key@ != key);
    }
    assert forall|m: int| 0 <= m < c implies (#[trigger] part(artifacts[i])[m]).0
        != part(artifacts[i])[c].0 by {
        assert(artifacts[i].candidates@[m].def_key@ != key);
    }
    lists::lemma_first_part_counts(artifacts, part, i, c);
    let found = strings::first_by_key(all_entries(artifacts));
    let m = strings::lemma_lookup_found(found, key);
    let values = strings::values_of(found);
    let uses = all_uses(artifacts);
    let needs = all_needs(artifacts);
    let keep = |u: UnusedText| !is_used(uses, needs, u.def_key);
    assert(values[m] == entry);
    assert(values.contains(entry));
    sorting::lemma_filtered_members(values, keep);
    sorting::lemma_sorted_items::<UnusedDef, ReportOrder>(values.filter(keep));
}

/// The report is in ascending order of files, then of lines, then of columns, then of
/// display paths.
pub proof fn lemma_report_order(artifacts: Seq<TargetArtifact>, i: int, j: int)
    requires
        0 <= i < j < unused_entries(artifacts).len(),
    ensures
        ({
            let a = unused_entries(artifacts)[i];
            let b = unused_entries(artifacts)[j];
            ||| order::precedes(a.file, b.file)
            ||| a.file == b.file && a.line < b.line
            ||| a.file == b.file && a.line == b.line && a.column < b.column
            ||| a.file == b.file && a.line == b.line && a.column == b.column && (
            order::precedes(a.display_path, b.display_path) || a.display_path == b.display_path)
        }),
{
    let a = unused_entries(artifacts)[i];
    let b = unused_entries(artifacts)[j];
    lemma_unused_entries(artifacts);
    assert(!<ReportOrder as sorting::Order<UnusedDef>>::later(a, b));
    order::lemma_precedes_total(a.file, b.file);
    order::lemma_precedes_total(a.display_path, b.display_path);
}

/// The values of an item are those in its fields.
pub proof fn lemma_item_values(item: UnusedDef)
    ensures
        item@.def_key == item.def_key.path@,
        item@.crate_name == item.crate_name@,
        item@.target_name == item.target_name@,
        item@.kind == item.kind@,
        item@.display_path == item.display_path@,
        item@.file == item.file@,
        item@.line == item.line,
        item@.column == item.column,
{
}

} // verus!

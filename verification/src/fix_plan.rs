//! Which crates have reexports to fix, and where their sources are.
use vstd::prelude::*;

use crate::order;
use crate::reexports;
use crate::reexports::ReexportHint;
use crate::sorting;
use crate::strings;
use crate::text;
use crate::unused::{UnusedDef, UnusedText};

verus! {

/// A package of a workspace.
#[derive(Debug)]
pub struct Package {
    pub name: String,
    /// Whether the manifest of the package lies in a directory.
    pub has_root: bool,
    /// The names of its targets.
    pub targets: Vec<String>,
}

/// The name of the crate of a package or target: the dashes become underscores.
pub open spec fn crate_name_of(name: Seq<char>) -> Seq<char> {
    text::replaced(name, '-', '_')
}

/// `roots` with the targets of the package `index`.
pub open spec fn with_targets(
    roots: Seq<(Seq<char>, usize)>,
    targets: Seq<Seq<char>>,
    index: usize,
) -> Seq<(Seq<char>, usize)>
    decreases targets.len(),
{
    if targets.len() == 0 {
        roots
    } else {
        strings::put(
            with_targets(roots, targets.drop_last(), index),
            crate_name_of(targets.last()),
            index,
        )
    }
}

/// The package of each crate, by the name of the crate: a package and each of its
/// targets is a crate. Of two packages with a crate of one name the later counts.
pub open spec fn crate_packages(packages: Seq<Package>) -> Seq<(Seq<char>, usize)>
    decreases packages.len(),
{
    if packages.len() == 0 {
        Seq::empty()
    } else {
        let known = crate_packages(packages.drop_last());
        let last = packages.last();
        let index = (packages.len() - 1) as usize;
        if last.has_root {
            with_targets(
                strings::put(known, crate_name_of(last.name@), index),
                last.targets.deep_view(),
                index,
            )
        } else {
            known
        }
    }
}

/// The package of each crate of `packages`.
pub fn workspace_crate_roots(packages: &Vec<Package>) -> (r: strings::StringMap<usize>)
    ensures
        r.well_formed(),
        r.entries() == crate_packages(packages@),
{
    let mut roots = strings::StringMap::<usize>::new();
    let mut i: usize = 0;
    proof {
        assert(packages@.take(0) =~= Seq::empty());
    }
    while i < packages.len()
        invariant
            i <= packages.len(),
            roots.well_formed(),
            roots.entries() == crate_packages(packages@.take(i as int)),
        decreases packages.len() - i,
    {
        let package = &packages[i];
        proof {
            assert(packages@.take(i + 1).drop_last() =~= packages@.take(i as int));
            assert(packages@.take(i + 1).last() == *package);
        }
        if package.has_root {
            let ghost targets = package.targets.deep_view();
            roots.insert(text::dashes_to_underscores(package.name.as_str()), i);
            let ghost known = roots.entries();
            let mut k: usize = 0;
            proof {
                assert(targets.take(0) =~= Seq::empty());
            }
            while k < package.targets.len()
                invariant
                    k <= package.targets.len(),
                    targets == package.targets.deep_view(),
                    roots.well_formed(),
                    roots.entries() == with_targets(known, targets.take(k as int), i),
                decreases package.targets.len() - k,
            {
                proof {
                    assert(targets.take(k + 1).drop_last() =~= targets.take(k as int));
                    assert(targets.take(k + 1).last() == package.targets@[k as int]@);
                }
                roots.insert(text::dashes_to_underscores(package.targets[k].as_str()), i);
                k = k + 1;
            }
            proof {
                assert(targets.take(k as int) =~= targets);
            }
        }
        i = i + 1;
    }
    proof {
        assert(packages@.take(i as int) =~= packages@);
    }
    roots
}

/// The items of the crate `crate_name` below its root module.
pub open spec fn crate_hints(unused: Seq<UnusedText>, crate_name: Seq<char>) -> Seq<Seq<char>>
    decreases unused.len(),
{
    if unused.len() == 0 {
        Seq::empty()
    } else {
        let front = crate_hints(unused.drop_last(), crate_name);
        let last = unused.last();
        match reexports::hint_path(last.display_path) {
            Some(path) => if last.crate_name == crate_name {
                front.push(path)
            } else {
                front
            },
            None => front,
        }
    }
}

/// The names of the crates of `unused`, in ascending order.
pub open spec fn crate_names(unused: Seq<UnusedText>) -> Seq<Seq<char>> {
    strings::values_of(
        strings::first_by_key(unused.map_values(|u: UnusedText| (u.crate_name, u.crate_name))),
    )
}

/// The items of a crate that should no longer be reexported.
#[derive(Debug)]
pub struct CratePlan {
    pub crate_name: String,
    pub hints: Vec<ReexportHint>,
}

impl View for CratePlan {
    type V = (Seq<char>, Seq<Seq<char>>);

    open spec fn view(&self) -> (Seq<char>, Seq<Seq<char>>) {
        (self.crate_name@, reexports::hint_paths(self.hints@))
    }
}

/// The plans for those of the crates `names` that have an item below the root
/// module.
pub open spec fn plans_for(names: Seq<Seq<char>>, unused: Seq<UnusedText>) -> Seq<
    (Seq<char>, Seq<Seq<char>>),
>
    decreases names.len(),
{
    if names.len() == 0 {
        Seq::empty()
    } else {
        let front = plans_for(names.drop_last(), unused);
        let hints = crate_hints(unused, names.last());
        if hints.len() > 0 {
            front.push((names.last(), hints))
        } else {
            front
        }
    }
}

/// The items of the crate `crate_name` below its root module.
fn collect_hints(unused: &Vec<UnusedDef>, crate_name: &str) -> (r: Vec<ReexportHint>)
    ensures
        reexports::hint_paths(r@) == crate_hints(sorting::views(unused@), crate_name@),
        r.len() == crate_hints(sorting::views(unused@), crate_name@).len(),
{
    let ghost all = sorting::views(unused@);
    let mut hints: Vec<ReexportHint> = Vec::new();
    let mut i: usize = 0;
    proof {
        assert(all.take(0) =~= Seq::empty());
        assert(reexports::hint_paths(hints@) =~= Seq::empty());
    }
    while i < unused.len()
        invariant
            i <= unused.len(),
            all == sorting::views(unused@),
            reexports::hint_paths(hints@) == crate_hints(all.take(i as int), crate_name@),
        decreases unused.len() - i,
    {
        let ghost had = hints@;
        proof {
            assert(all.take(i + 1).drop_last() =~= all.take(i as int));
            assert(all.take(i + 1).last() == unused@[i as int]@);
        }
        if text::equal(unused[i].crate_name.as_str(), crate_name) {
            if let Some(hint) = ReexportHint::from_display_path(unused[i].display_path.as_str()) {
                let ghost path = hint@;
                hints.push(hint);
                proof {
                    assert(reexports::hint_paths(hints@) =~= reexports::hint_paths(had).push(
                        path,
                    ));
                }
            }
        }
        i = i + 1;
    }
    proof {
        assert(all.take(i as int) =~= all);
        assert(reexports::hint_paths(hints@).len() == hints@.len());
    }
    hints
}

/// The crates of `unused` by name, in ascending order.
fn collect_crate_names(unused: &Vec<UnusedDef>) -> (r: strings::StringMap<String>)
    ensures
        r.well_formed(),
        strings::values_of(r.entries()) == crate_names(sorting::views(unused@)),
{
    let ghost all = sorting::views(unused@);
    let ghost pairs = all.map_values(|u: UnusedText| (u.crate_name, u.crate_name));
    let mut names = strings::StringMap::<String>::new();
    let mut i: usize = 0;
    proof {
        assert(pairs.take(0) =~= Seq::empty());
    }
    while i < unused.len()
        invariant
            i <= unused.len(),
            all == sorting::views(unused@),
            pairs == all.map_values(|u: UnusedText| (u.crate_name, u.crate_name)),
            names.well_formed(),
            names.entries() == strings::first_by_key(pairs.take(i as int)),
        decreases unused.len() - i,
    {
        proof {
            assert(all[i as int] == unused@[i as int]@);
            assert(pairs.take(i + 1).drop_last() =~= pairs.take(i as int));
            assert(pairs.take(i + 1).last() == pairs[i as int]);
        }
        if names.get(unused[i].crate_name.as_str()).is_none() {
            names.insert(unused[i].crate_name.clone(), unused[i].crate_name.clone());
        }
        i = i + 1;
    }
    proof {
        assert(pairs.take(i as int) =~= pairs);
    }
    names
}

/// The crates whose reexports have to be looked at, in ascending order of names.
pub fn plan_reexport_fixes(unused: &Vec<UnusedDef>) -> (r: Vec<CratePlan>)
    ensures
        sorting::views(r@) == plans_for(
            crate_names(sorting::views(unused@)),
            sorting::views(unused@),
        ),
{
    let found = collect_crate_names(unused);
    let ghost names = strings::values_of(found.entries());
    let ghost all = sorting::views(unused@);
    let mut plans: Vec<CratePlan> = Vec::new();
    let mut i: usize = 0;
    proof {
        assert(names.take(0) =~= Seq::empty());
        assert(sorting::views(plans@) =~= Seq::empty());
    }
    while i < found.len()
        invariant
            i <= names.len(),
            found.well_formed(),
            names == strings::values_of(found.entries()),
            names.len() == found.entries().len(),
            all == sorting::views(unused@),
            sorting::views(plans@) == plans_for(names.take(i as int), all),
        decreases names.len() - i,
    {
        let ghost had = plans@;
        let name = found.value_at(i);
        proof {
            assert(names[i as int] == name@);
            assert(names.take(i + 1).drop_last() =~= names.take(i as int));
            assert(names.take(i + 1).last() == name@);
        }
        let hints = collect_hints(unused, name.as_str());
        if hints.len() > 0 {
            let plan = CratePlan { crate_name: name.clone(), hints };
            let ghost value = plan@;
            plans.push(plan);
            proof {
                assert(sorting::views(plans@) =~= sorting::views(had).push(value));
            }
        }
        i = i + 1;
    }
    proof {
        assert(names.take(i as int) =~= names);
    }
    plans
}

/// A crate has the hint `path` exactly if one of its unused items has it.
pub proof fn lemma_hints_of_crate(
    unused: Seq<UnusedText>,
    crate_name: Seq<char>,
    path: Seq<char>,
)
    ensures
        crate_hints(unused, crate_name).contains(path) <==> exists|i: int|
            0 <= i < unused.len() && (#[trigger] unused[i]).crate_name == crate_name
                && reexports::hint_path(unused[i].display_path) == Some(path),
    decreases unused.len(),
{
    if unused.len() > 0 {
        let front = unused.drop_last();
        let last = unused.last();
        let known = crate_hints(front, crate_name);
        let now = crate_hints(unused, crate_name);
        lemma_hints_of_crate(front, crate_name, path);
        if known.contains(path) {
            let k = choose|k: int| 0 <= k < known.len() && known[k] == path;
            assert(now[k] == path);
            let i = choose|i: int|
                0 <= i < front.len() && (#[trigger] front[i]).crate_name == crate_name
                    && reexports::hint_path(front[i].display_path) == Some(path);
            assert(unused[i] == front[i]);
        }
        if now.contains(path) && !known.contains(path) {
            let k = choose|k: int| 0 <= k < now.len() && now[k] == path;
            if k < known.len() {
                assert(known[k] == path);
            }
            assert(unused[unused.len() - 1] == last);
        }
        if exists|i: int|
            0 <= i < unused.len() && (#[trigger] unused[i]).crate_name == crate_name
                && reexports::hint_path(unused[i].display_path) == Some(path) {
            let i = choose|i: int|
                0 <= i < unused.len() && (#[trigger] unused[i]).crate_name == crate_name
                    && reexports::hint_path(unused[i].display_path) == Some(path);
            if i < front.len() {
                assert(front[i] == unused[i]);
            } else {
                assert(now[now.len() - 1] == path);
            }
        }
    }
}

/// The hints of a crate from two lists of items are those from the one, then those from
/// the other.
pub proof fn lemma_hints_of_two(
    some: Seq<UnusedText>,
    others: Seq<UnusedText>,
    crate_name: Seq<char>,
)
    ensures
        crate_hints(some + others, crate_name) == crate_hints(some, crate_name) + crate_hints(
            others,
            crate_name,
        ),
    decreases others.len(),
{
    if others.len() == 0 {
        assert(some + others =~= some);
        assert(crate_hints(some, crate_name) + crate_hints(others, crate_name) =~= crate_hints(
            some,
            crate_name,
        ));
    } else {
        lemma_hints_of_two(some, others.drop_last(), crate_name);
        assert((some + others).drop_last() =~= some + others.drop_last());
        assert((some + others).last() == others.last());
        assert(crate_hints(some + others, crate_name) =~= crate_hints(some, crate_name)
            + crate_hints(others, crate_name));
    }
}

proof fn lemma_plans_for(names: Seq<Seq<char>>, unused: Seq<UnusedText>, k: int)
    requires
        0 <= k < names.len(),
    ensures
        forall|m: int|
            0 <= m < plans_for(names, unused).len() ==> names.contains(
                (#[trigger] plans_for(names, unused)[m]).0,
            ) && plans_for(names, unused)[m].1 == crate_hints(
                unused,
                plans_for(names, unused)[m].0,
            ) && plans_for(names, unused)[m].1.len() > 0,
        crate_hints(unused, names[k]).len() > 0 ==> plans_for(names, unused).contains(
            (names[k], crate_hints(unused, names[k])),
        ),
    decreases names.len(),
{
    let front = names.drop_last();
    let known = plans_for(front, unused);
    let now = plans_for(names, unused);
    if front.len() > 0 {
        lemma_plans_for(front, unused, if k < front.len() {
            k
        } else {
            0
        });
    }
    assert forall|m: int| 0 <= m < now.len() implies names.contains((#[trigger] now[m]).0)
        && now[m].1 == crate_hints(unused, now[m].0) && now[m].1.len() > 0 by {
        if m < known.len() {
            assert(now[m] == known[m]);
            let j = choose|j: int| 0 <= j < front.len() && front[j] == known[m].0;
            assert(names[j] == known[m].0);
        } else {
            assert(names[names.len() - 1] == now[m].0);
        }
    }
    if crate_hints(unused, names[k]).len() > 0 {
        let plan = (names[k], crate_hints(unused, names[k]));
        if k < front.len() {
            assert(front[k] == names[k]);
            let j = choose|j: int| 0 <= j < known.len() && known[j] == plan;
            assert(now[j] == plan);
        } else {
            assert(now[now.len() - 1] == plan);
        }
    }
}

proof fn lemma_crate_names(unused: Seq<UnusedText>)
    ensures
        strings::ascending(crate_names(unused)),
        forall|i: int|
            0 <= i < unused.len() ==> crate_names(unused).contains(
                (#[trigger] unused[i]).crate_name,
            ),
{
    let pairs = unused.map_values(|u: UnusedText| (u.crate_name, u.crate_name));
    let found = strings::first_by_key(pairs);
    let names = crate_names(unused);
    strings::lemma_first_by_key(pairs);
    assert forall|m: int| 0 <= m < found.len() implies (#[trigger] found[m]).0 == found[m].1 by {
        assert(pairs.contains(found[m]));
    }
    assert(names =~= strings::keys_of(found));
    assert forall|i: int| 0 <= i < unused.len() implies names.contains(
        (#[trigger] unused[i]).crate_name,
    ) by {
        assert(pairs[i] == (unused[i].crate_name, unused[i].crate_name));
        assert(pairs.contains(pairs[i]));
        let m = strings::lemma_lookup_found(found, unused[i].crate_name);
        assert(names[m] == unused[i].crate_name);
    }
}

/// Each unused item below a module of its crate has its hint in the plan for the crate.
pub proof fn lemma_plan_has_every_item(unused: Seq<UnusedText>, i: int, path: Seq<char>)
    requires
        0 <= i < unused.len(),
        reexports::hint_path(unused[i].display_path) == Some(path),
    ensures
        exists|k: int|
            0 <= k < plans_for(crate_names(unused), unused).len() && (#[trigger] plans_for(
                crate_names(unused),
                unused,
            )[k]).0 == unused[i].crate_name && plans_for(
                crate_names(unused),
                unused,
            )[k].1.contains(path),
{
    let names = crate_names(unused);
    let name = unused[i].crate_name;
    let plans = plans_for(names, unused);
    let hints = crate_hints(unused, name);
    lemma_crate_names(unused);
    lemma_hints_of_crate(unused, name, path);
    assert(hints.contains(path));
    let n = choose|n: int| 0 <= n < names.len() && names[n] == name;
    lemma_plans_for(names, unused, n);
    let k = choose|k: int| 0 <= k < plans.len() && plans[k] == (name, hints);
    assert(plans[k].0 == name);
}

/// Each hint of a plan is that of an unused item of its crate, there is one at least, and
/// no crate has two plans.
pub proof fn lemma_plan_has_nothing_else(unused: Seq<UnusedText>, k: int)
    requires
        0 <= k < plans_for(crate_names(unused), unused).len(),
    ensures
        ({
            let plans = plans_for(crate_names(unused), unused);
            &&& plans[k].1.len() > 0
            &&& forall|path: Seq<char>| #[trigger]
                plans[k].1.contains(path) ==> exists|i: int|
                    0 <= i < unused.len() && (#[trigger] unused[i]).crate_name == plans[k].0
                        && reexports::hint_path(unused[i].display_path) == Some(path)
            &&& forall|m: int| 0 <= m < k ==> (#[trigger] plans[m]).0 != plans[k].0
        }),
{
    let names = crate_names(unused);
    let plans = plans_for(names, unused);
    lemma_crate_names(unused);
    if names.len() > 0 {
        lemma_plans_for(names, unused, 0);
    }
    assert(plans[k].1 == crate_hints(unused, plans[k].0));
    assert forall|path: Seq<char>| #[trigger] plans[k].1.contains(path) implies exists|i: int|
        0 <= i < unused.len() && (#[trigger] unused[i]).crate_name == plans[k].0
            && reexports::hint_path(unused[i].display_path) == Some(path) by {
        lemma_hints_of_crate(unused, plans[k].0, path);
    }
    lemma_plans_ascend(names, unused);
    assert forall|m: int| 0 <= m < k implies (#[trigger] plans[m]).0 != plans[k].0 by {
        order::lemma_precedes_irreflexive(plans[k].0);
    }
}

proof fn lemma_plans_ascend(names: Seq<Seq<char>>, unused: Seq<UnusedText>)
    requires
        strings::ascending(names),
    ensures
        forall|i: int, j: int|
            0 <= i < j < plans_for(names, unused).len() ==> order::precedes(
                (#[trigger] plans_for(names, unused)[i]).0,
                (#[trigger] plans_for(names, unused)[j]).0,
            ),
    decreases names.len(),
{
    if names.len() > 0 {
        let front = names.drop_last();
        let known = plans_for(front, unused);
        let now = plans_for(names, unused);
        assert forall|i: int, j: int| 0 <= i < j < front.len() implies order::precedes(
            #[trigger] front[i],
            #[trigger] front[j],
        ) by {
            assert(front[i] == names[i] && front[j] == names[j]);
        }
        lemma_plans_ascend(front, unused);
        if front.len() > 0 {
            lemma_plans_for(front, unused, 0);
        }
        assert forall|i: int, j: int| 0 <= i < j < now.len() implies order::precedes(
            (#[trigger] now[i]).0,
            (#[trigger] now[j]).0,
        ) by {
            assert(now[i] == known[i]);
            if j < known.len() {
                assert(now[j] == known[j]);
            } else {
                assert(front.contains(known[i].0));
                let m = choose|m: int| 0 <= m < front.len() && front[m] == known[i].0;
                assert(names[m] == known[i].0);
                assert(names[names.len() - 1] == now[j].0);
            }
        }
    }
}

/// Whether `name` as the name of a crate is `crate_name`: each dash stands as an
/// underscore, and every other character as itself.
pub open spec fn names_crate(name: Seq<char>, crate_name: Seq<char>) -> bool {
    &&& name.len() == crate_name.len()
    &&& forall|i: int|
        0 <= i < name.len() ==> #[trigger] crate_name[i] == if name[i] == '-' {
            '_'
        } else {
            name[i]
        }
}

/// Whether a package with a root has the crate `crate_name`: as itself or as a target.
pub open spec fn provides(package: Package, crate_name: Seq<char>) -> bool {
    package.has_root && (names_crate(package.name@, crate_name) || exists|t: int|
        0 <= t < package.targets.len() && names_crate(
            (#[trigger] package.targets@[t])@,
            crate_name,
        ))
}

proof fn lemma_crate_name_of(name: Seq<char>, crate_name: Seq<char>)
    ensures
        crate_name_of(name) == crate_name <==> names_crate(name, crate_name),
{
    if names_crate(name, crate_name) {
        assert(crate_name_of(name) =~= crate_name);
    }
}

proof fn lemma_with_targets(
    roots: Seq<(Seq<char>, usize)>,
    targets: Seq<Seq<char>>,
    index: usize,
    crate_name: Seq<char>,
)
    ensures
        strings::lookup(with_targets(roots, targets, index), crate_name) == if exists|t: int|
            0 <= t < targets.len() && names_crate(#[trigger] targets[t], crate_name) {
            Some(index)
        } else {
            strings::lookup(roots, crate_name)
        },
    decreases targets.len(),
{
    if targets.len() > 0 {
        let front = targets.drop_last();
        let last = targets.last();
        let known = with_targets(roots, front, index);
        lemma_with_targets(roots, front, index, crate_name);
        lemma_crate_name_of(last, crate_name);
        strings::lemma_lookup_put(known, crate_name_of(last), index, crate_name);
        if names_crate(last, crate_name) {
            assert(names_crate(targets[targets.len() - 1], crate_name));
        } else if exists|t: int|
            0 <= t < targets.len() && names_crate(#[trigger] targets[t], crate_name) {
            let t = choose|t: int|
                0 <= t < targets.len() && names_crate(#[trigger] targets[t], crate_name);
            assert(names_crate(front[t], crate_name));
        } else {
            assert forall|t: int| 0 <= t < front.len() implies !names_crate(
                #[trigger] front[t],
                crate_name,
            ) by {
                assert(front[t] == targets[t]);
            }
        }
    }
}

/// The package of a crate is the last one that has the crate; a crate that no package
/// has is unknown.
pub proof fn lemma_package_of_crate(packages: Seq<Package>, crate_name: Seq<char>)
    requires
        packages.len() <= usize::MAX,
    ensures
        match strings::lookup(crate_packages(packages), crate_name) {
            Some(i) => {
                &&& i < packages.len()
                &&& provides(packages[i as int], crate_name)
                &&& forall|j: int|
                    i < j < packages.len() ==> !provides(#[trigger] packages[j], crate_name)
            },
            None => forall|j: int|
                0 <= j < packages.len() ==> !provides(#[trigger] packages[j], crate_name),
        },
    decreases packages.len(),
{
    if packages.len() > 0 {
        let front = packages.drop_last();
        let last = packages.last();
        let known = crate_packages(front);
        let n = packages.len() - 1;
        let index = n as usize;
        lemma_package_of_crate(front, crate_name);
        lemma_crate_name_of(last.name@, crate_name);
        strings::lemma_lookup_put(known, crate_name_of(last.name@), index, crate_name);
        let targets = last.targets.deep_view();
        lemma_with_targets(
            strings::put(known, crate_name_of(last.name@), index),
            targets,
            index,
            crate_name,
        );
        assert(packages[n] == last);
        assert((exists|t: int|
            0 <= t < targets.len() && names_crate(#[trigger] targets[t], crate_name)) == (exists|
            t: int,
        |
            0 <= t < last.targets.len() && names_crate(
                (#[trigger] last.targets@[t])@,
                crate_name,
            ))) by {
            if exists|t: int|
                0 <= t < targets.len() && names_crate(#[trigger] targets[t], crate_name) {
                let t = choose|t: int|
                    0 <= t < targets.len() && names_crate(#[trigger] targets[t], crate_name);
                assert(names_crate(last.targets@[t]@, crate_name));
            }
            if exists|t: int|
                0 <= t < last.targets.len() && names_crate(
                    (#[trigger] last.targets@[t])@,
                    crate_name,
                ) {
                let t = choose|t: int|
                    0 <= t < last.targets.len() && names_crate(
                        (#[trigger] last.targets@[t])@,
                        crate_name,
                    );
                assert(names_crate(targets[t], crate_name));
            }
        }
        assert forall|j: int| 0 <= j < front.len() implies packages[j] == #[trigger] front[j] by {}
        match strings::lookup(crate_packages(packages), crate_name) {
            Some(i) => {
                if i < n {
                    assert(front[i as int] == packages[i as int]);
                }
                assert forall|j: int| i < j < packages.len() implies !provides(
                    #[trigger] packages[j],
                    crate_name,
                ) by {
                    if j < n {
                        assert(front[j] == packages[j]);
                    }
                }
            },
            None => {
                assert forall|j: int| 0 <= j < packages.len() implies !provides(
                    #[trigger] packages[j],
                    crate_name,
                ) by {
                    if j < n {
                        assert(front[j] == packages[j]);
                    }
                }
            },
        }
    }
}

proof fn lemma_plans_ascending(names: Seq<Seq<char>>, unused: Seq<UnusedText>)
    requires
        strings::ascending(names),
    ensures
        forall|i: int|
            0 <= i < plans_for(names, unused).len() ==> names.contains(
                (#[trigger] plans_for(names, unused)[i]).0,
            ),
        forall|i: int, j: int|
            0 <= i < j < plans_for(names, unused).len() ==> order::precedes(
                (#[trigger] plans_for(names, unused)[i]).0,
                (#[trigger] plans_for(names, unused)[j]).0,
            ),
    decreases names.len(),
{
    if names.len() > 0 {
        let front = names.drop_last();
        let n = names.len() - 1;
        assert(strings::ascending(front)) by {
            assert forall|i: int, j: int| 0 <= i < j < front.len() implies order::precedes(
                #[trigger] front[i],
                #[trigger] front[j],
            ) by {
                assert(front[i] == names[i] && front[j] == names[j]);
            }
        }
        lemma_plans_ascending(front, unused);
        let known = plans_for(front, unused);
        let now = plans_for(names, unused);
        assert forall|i: int| 0 <= i < now.len() implies names.contains((#[trigger] now[i]).0) by {
            if i < known.len() {
                assert(now[i] == known[i]);
                let m = choose|m: int| 0 <= m < front.len() && front[m] == known[i].0;
                assert(names[m] == known[i].0);
            } else {
                assert(names[n] == now[i].0);
            }
        }
        assert forall|i: int, j: int| 0 <= i < j < now.len() implies order::precedes(
            (#[trigger] now[i]).0,
            (#[trigger] now[j]).0,
        ) by {
            assert(now[i] == known[i]);
            if j < known.len() {
                assert(now[j] == known[j]);
            } else {
                let m = choose|m: int| 0 <= m < front.len() && front[m] == known[i].0;
                assert(order::precedes(names[m], names[n]));
            }
        }
    }
}

/// The plans are in ascending order of the names of their crates, so no crate has two.
pub proof fn lemma_plans_in_order(unused: Seq<UnusedText>, i: int, j: int)
    requires
        0 <= i < j < plans_for(crate_names(unused), unused).len(),
    ensures
        order::precedes(
            plans_for(crate_names(unused), unused)[i].0,
            plans_for(crate_names(unused), unused)[j].0,
        ),
{
    let pairs = unused.map_values(|u: UnusedText| (u.crate_name, u.crate_name));
    let entries = strings::first_by_key(pairs);
    let names = crate_names(unused);
    strings::lemma_first_by_key(pairs);
    assert forall|k: int| 0 <= k < entries.len() implies (#[trigger] entries[k]).0
        == entries[k].1 by {
        assert(pairs.contains(entries[k]));
        let m = choose|m: int| 0 <= m < pairs.len() && pairs[m] == entries[k];
        assert(pairs[m] == (unused[m].crate_name, unused[m].crate_name));
    }
    assert(names =~= strings::keys_of(entries)) by {
        assert forall|k: int| 0 <= k < names.len() implies names[k] == strings::keys_of(
            entries,
        )[k] by {
            assert(entries[k].0 == entries[k].1);
        }
    }
    lemma_plans_ascending(names, unused);
}

/// A plan has the name and the hints in its fields, these in their order.
pub proof fn lemma_plan_values(plan: CratePlan, i: int)
    ensures
        plan@.0 == plan.crate_name@,
        plan@.1.len() == plan.hints.len(),
        0 <= i < plan.hints.len() ==> plan@.1[i] == plan.hints@[i].path@,
{
}

} // verus!

//! Lists that are made of the lists of several items, one after the other.
use vstd::prelude::*;

use crate::strings;

verus! {

/// Two lists after each other hold what either holds.
pub proof fn lemma_in_either<V>(a: Seq<V>, b: Seq<V>, x: V)
    ensures
        (a + b).contains(x) <==> a.contains(x) || b.contains(x),
{
    if a.contains(x) {
        let k = choose|k: int| 0 <= k < a.len() && a[k] == x;
        assert((a + b)[k] == x);
    }
    if b.contains(x) {
        let k = choose|k: int| 0 <= k < b.len() && b[k] == x;
        assert((a + b)[a.len() + k] == x);
    }
    if (a + b).contains(x) {
        let k = choose|k: int| 0 <= k < (a + b).len() && (a + b)[k] == x;
        if k < a.len() {
            assert(a[k] == x);
        } else {
            assert(b[k - a.len()] == x);
        }
    }
}

/// The lists that `part` gives for `items`, one after the other.
pub open spec fn flat<A, V>(items: Seq<A>, part: spec_fn(A) -> Seq<V>) -> Seq<V>
    decreases items.len(),
{
    if items.len() == 0 {
        Seq::empty()
    } else {
        flat(items.drop_last(), part) + part(items.last())
    }
}

/// The whole holds what one of the parts holds.
pub proof fn lemma_flat_members<A, V>(items: Seq<A>, part: spec_fn(A) -> Seq<V>, x: V)
    ensures
        flat(items, part).contains(x) <==> exists|i: int|
            0 <= i < items.len() && part(#[trigger] items[i]).contains(x),
    decreases items.len(),
{
    if items.len() > 0 {
        let front = items.drop_last();
        lemma_flat_members(front, part, x);
        lemma_in_either(flat(front, part), part(items.last()), x);
        if flat(front, part).contains(x) {
            let i = choose|i: int| 0 <= i < front.len() && part(#[trigger] front[i]).contains(x);
            assert(items[i] == front[i]);
        }
        if part(items.last()).contains(x) {
            assert(items[items.len() - 1] == items.last());
        }
        if exists|i: int| 0 <= i < items.len() && part(#[trigger] items[i]).contains(x) {
            let i = choose|i: int| 0 <= i < items.len() && part(#[trigger] items[i]).contains(x);
            if i < front.len() {
                assert(front[i] == items[i]);
            }
        }
    }
}

/// Where the part of an item stands in the whole: behind the parts of those before it.
pub proof fn lemma_flat_place<A, V>(items: Seq<A>, part: spec_fn(A) -> Seq<V>, i: int)
    requires
        0 <= i < items.len(),
    ensures
        ({
            let n = flat(items.take(i), part).len() as int;
            let whole = flat(items, part);
            &&& n + part(items[i]).len() <= whole.len()
            &&& whole.take(n) == flat(items.take(i), part)
            &&& whole.subrange(n, n + part(items[i]).len()) == part(items[i])
        }),
    decreases items.len(),
{
    let front = items.drop_last();
    let n = flat(items.take(i), part).len() as int;
    let whole = flat(items, part);
    if i == items.len() - 1 {
        assert(items.take(i) =~= front);
        assert(whole.take(n) =~= flat(front, part));
        assert(whole.subrange(n, n + part(items[i]).len()) =~= part(items[i]));
    } else {
        lemma_flat_place(front, part, i);
        assert(front.take(i) =~= items.take(i));
        let early = flat(front, part);
        assert(whole.take(n) =~= early.take(n));
        assert(whole.subrange(n, n + part(items[i]).len()) =~= early.subrange(
            n,
            n + part(items[i]).len(),
        ));
    }
}

/// The lists of two groups of items, one after the other, are the list of both.
pub proof fn lemma_flat_of_two<A, V>(a: Seq<A>, b: Seq<A>, part: spec_fn(A) -> Seq<V>)
    ensures
        flat(a + b, part) == flat(a, part) + flat(b, part),
    decreases b.len(),
{
    if b.len() == 0 {
        assert(a + b =~= a);
        assert(flat(a, part) + flat(b, part) =~= flat(a, part));
    } else {
        lemma_flat_of_two(a, b.drop_last(), part);
        assert((a + b).drop_last() =~= a + b.drop_last());
        assert((a + b).last() == b.last());
        assert(flat(a + b, part) =~= flat(a, part) + flat(b, part));
    }
}

/// The value of a key is the first one that is given for it.
pub proof fn lemma_first_counts<W>(pairs: Seq<(Seq<char>, W)>, n: int)
    requires
        0 <= n < pairs.len(),
        forall|m: int| 0 <= m < n ==> (#[trigger] pairs[m]).0 != pairs[n].0,
    ensures
        strings::lookup(strings::first_by_key(pairs), pairs[n].0) == Some(pairs[n].1),
    decreases pairs.len(),
{
    let shorter = pairs.drop_last();
    let last = pairs.last();
    let known = strings::first_by_key(shorter);
    strings::lemma_lookup_put(known, last.0, last.1, pairs[n].0);
    if n < shorter.len() {
        assert forall|m: int| 0 <= m < n implies (#[trigger] shorter[m]).0 != shorter[n].0 by {
            assert(shorter[m] == pairs[m]);
        }
        lemma_first_counts(shorter, n);
    } else {
        strings::lemma_first_by_key(shorter);
        if strings::lookup(known, last.0) is Some {
            let i = strings::lemma_lookup_found(known, last.0);
            assert(shorter.contains(known[i]));
            let m = choose|m: int| 0 <= m < shorter.len() && shorter[m] == known[i];
            assert(pairs[m].0 == pairs[n].0);
        }
    }
}

/// The value of a key is the first one that one of the items gives for it.
pub proof fn lemma_first_part_counts<A, W>(
    items: Seq<A>,
    part: spec_fn(A) -> Seq<(Seq<char>, W)>,
    i: int,
    k: int,
)
    requires
        0 <= i < items.len(),
        0 <= k < part(items[i]).len(),
        forall|j: int, m: int|
            0 <= j < i && 0 <= m < part(items[j]).len() ==> (#[trigger] part(items[j])[m]).0
                != part(items[i])[k].0,
        forall|m: int| 0 <= m < k ==> (#[trigger] part(items[i])[m]).0 != part(items[i])[k].0,
    ensures
        strings::lookup(strings::first_by_key(flat(items, part)), part(items[i])[k].0) == Some(
            part(items[i])[k].1,
        ),
{
    let whole = flat(items, part);
    let before = flat(items.take(i), part);
    let n = before.len() as int;
    let here = part(items[i]);
    lemma_flat_place(items, part, i);
    assert(whole[n + k] == whole.subrange(n, n + here.len())[k]);
    assert forall|m: int| 0 <= m < n + k implies (#[trigger] whole[m]).0 != whole[n + k].0 by {
        if m < n {
            assert(whole.take(n)[m] == whole[m]);
            assert(before.contains(whole[m]));
            lemma_flat_members(items.take(i), part, whole[m]);
            let j = choose|j: int|
                0 <= j < items.take(i).len() && part(#[trigger] items.take(i)[j]).contains(
                    whole[m],
                );
            assert(items.take(i)[j] == items[j]);
            let there = part(items[j]);
            let q = choose|q: int| 0 <= q < there.len() && there[q] == whole[m];
            assert(part(items[j])[q].0 != here[k].0);
        } else {
            assert(whole[m] == whole.subrange(n, n + here.len())[m - n]);
            assert(here[m - n].0 != here[k].0);
        }
    }
    lemma_first_counts(whole, n + k);
}

} // verus!

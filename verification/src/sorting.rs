//! Stable sorting.
use vstd::prelude::*;

verus! {

/// An order of the values of a type.
pub trait Order<T: View> {
    /// Whether `a` belongs behind `b`.
    spec fn later(a: T::V, b: T::V) -> bool;

    /// Whether `a` belongs behind `b`.
    fn is_later(a: &T, b: &T) -> (r: bool)
        ensures
            r == Self::later(a@, b@),
    ;
}

/// The views of `items`.
pub open spec fn views<T: View>(items: Seq<T>) -> Seq<T::V> {
    items.map_values(|item: T| item@)
}

/// `front` with `item` put in: behind all that do not belong behind it.
pub open spec fn placed<T: View, O: Order<T>>(front: Seq<T::V>, item: T::V) -> Seq<T::V>
    decreases front.len(),
{
    if front.len() > 0 && O::later(front.last(), item) {
        placed::<T, O>(front.drop_last(), item).push(front.last())
    } else {
        front.push(item)
    }
}

/// `items` in order. Of two items neither of which belongs behind the other the
/// one that came first stays first.
pub open spec fn sorted<T: View, O: Order<T>>(items: Seq<T::V>) -> Seq<T::V>
    decreases items.len(),
{
    if items.len() == 0 {
        Seq::empty()
    } else {
        placed::<T, O>(sorted::<T, O>(items.drop_last()), items.last())
    }
}

proof fn lemma_placed_at<T: View, O: Order<T>>(front: Seq<T::V>, item: T::V, k: int)
    requires
        0 <= k <= front.len(),
        k > 0 ==> !O::later(front[k - 1], item),
        forall|i: int| k <= i < front.len() ==> O::later(#[trigger] front[i], item),
    ensures
        placed::<T, O>(front, item) == front.insert(k, item),
    decreases front.len(),
{
    if k < front.len() {
        let shorter = front.drop_last();
        assert(O::later(front[front.len() - 1], item));
        assert forall|i: int| k <= i < shorter.len() implies O::later(
            #[trigger] shorter[i],
            item,
        ) by {
            assert(shorter[i] == front[i]);
        }
        lemma_placed_at::<T, O>(shorter, item, k);
        assert(shorter.insert(k, item).push(front.last()) =~= front.insert(k, item));
    } else {
        assert(front.push(item) =~= front.insert(k, item));
    }
}

/// Sorts `items`, keeping the order of those that are equal in the order `O`.
pub fn sort_stable<T: View, O: Order<T>>(items: Vec<T>) -> (r: Vec<T>)
    ensures
        views(r@) == sorted::<T, O>(views(items@)),
        r.len() == items.len(),
{
    let ghost all = views(items@);
    let ghost whole = items@;
    let mut rest = items;
    let mut done: Vec<T> = Vec::new();
    let ghost mut n: int = 0;
    proof {
        assert(all.take(0) =~= Seq::empty());
        assert(views(done@) =~= Seq::empty());
        assert(rest@ =~= whole.skip(0));
    }
    while rest.len() > 0
        invariant
            0 <= n <= whole.len(),
            all == views(whole),
            rest@ == whole.skip(n),
            done.len() == n,
            views(done@) == sorted::<T, O>(all.take(n)),
        decreases rest.len(),
    {
        let item = rest.remove(0);
        let ghost front = views(done@);
        let mut k: usize = done.len();
        while k > 0 && O::is_later(&done[k - 1], &item)
            invariant
                k <= done.len(),
                front == views(done@),
                forall|i: int| k <= i < front.len() ==> O::later(#[trigger] front[i], item@),
            decreases k,
        {
            proof {
                assert(front[k - 1] == done@[k - 1]@);
            }
            k = k - 1;
        }
        proof {
            if k > 0 {
                assert(front[k - 1] == done@[k - 1]@);
            }
            lemma_placed_at::<T, O>(front, item@, k as int);
            assert(all.take(n + 1).drop_last() =~= all.take(n));
            assert(item == whole[n]);
            assert(all.take(n + 1).last() == item@);
            assert(views(done@.insert(k as int, item)) =~= front.insert(k as int, item@));
            assert(rest@ =~= whole.skip(n + 1));
        }
        done.insert(k, item);
        proof {
            n = n + 1;
        }
    }
    proof {
        assert(all.take(n) =~= all);
    }
    done
}

/// Whether the order ranks any two items, and consistently so.
pub open spec fn is_ranking<T: View, O: Order<T>>() -> bool {
    &&& forall|a: T::V, b: T::V| !(#[trigger] O::later(a, b) && O::later(b, a))
    &&& forall|a: T::V, b: T::V, c: T::V|
        !(#[trigger] O::later(a, b)) && !(#[trigger] O::later(b, c)) ==> !O::later(a, c)
}

/// Whether no item belongs behind one that follows it.
pub open spec fn in_order<T: View, O: Order<T>>(items: Seq<T::V>) -> bool {
    forall|i: int, j: int|
        0 <= i < j < items.len() ==> !O::later(#[trigger] items[i], #[trigger] items[j])
}

proof fn lemma_placed_items<T: View, O: Order<T>>(front: Seq<T::V>, item: T::V)
    ensures
        placed::<T, O>(front, item).to_multiset() == front.to_multiset().insert(item),
    decreases front.len(),
{
    broadcast use vstd::seq_lib::group_to_multiset_ensures;

    if front.len() > 0 && O::later(front.last(), item) {
        let shorter = front.drop_last();
        lemma_placed_items::<T, O>(shorter, item);
        assert(shorter.push(front.last()) =~= front);
        assert(placed::<T, O>(front, item).to_multiset() =~= front.to_multiset().insert(item));
    }
}

/// Sorting neither adds nor loses an item.
pub proof fn lemma_sorted_items<T: View, O: Order<T>>(items: Seq<T::V>)
    ensures
        sorted::<T, O>(items).to_multiset() == items.to_multiset(),
        sorted::<T, O>(items).len() == items.len(),
        forall|x: T::V| #[trigger] sorted::<T, O>(items).contains(x) <==> items.contains(x),
    decreases items.len(),
{
    broadcast use vstd::seq_lib::group_to_multiset_ensures;

    if items.len() == 0 {
        assert(items =~= Seq::empty());
    } else {
        lemma_sorted_items::<T, O>(items.drop_last());
        lemma_placed_items::<T, O>(sorted::<T, O>(items.drop_last()), items.last());
        assert(items.drop_last().push(items.last()) =~= items);
    }
    let now = sorted::<T, O>(items);
    assert(now.to_multiset() == items.to_multiset());
    assert(now.len() == now.to_multiset().len());
    assert forall|x: T::V| #[trigger] now.contains(x) <==> items.contains(x) by {
        assert(now.contains(x) <==> now.to_multiset().count(x) > 0);
        assert(items.contains(x) <==> items.to_multiset().count(x) > 0);
    }
}

/// Sorting different items gives different items.
pub proof fn lemma_sorted_distinct<T: View, O: Order<T>>(items: Seq<T::V>)
    requires
        items.no_duplicates(),
    ensures
        sorted::<T, O>(items).no_duplicates(),
{
    lemma_sorted_items::<T, O>(items);
    items.lemma_multiset_has_no_duplicates();
    sorted::<T, O>(items).lemma_multiset_has_no_duplicates_conv();
}

proof fn lemma_placed_in_order<T: View, O: Order<T>>(front: Seq<T::V>, item: T::V)
    requires
        is_ranking::<T, O>(),
        in_order::<T, O>(front),
    ensures
        in_order::<T, O>(placed::<T, O>(front, item)),
    decreases front.len(),
{
    broadcast use vstd::seq_lib::group_to_multiset_ensures;

    let now = placed::<T, O>(front, item);
    if front.len() > 0 && O::later(front.last(), item) {
        let shorter = front.drop_last();
        assert(in_order::<T, O>(shorter));
        lemma_placed_in_order::<T, O>(shorter, item);
        lemma_placed_items::<T, O>(shorter, item);
        let inner = placed::<T, O>(shorter, item);
        assert(now == inner.push(front.last()));
        assert forall|i: int| 0 <= i < inner.len() implies !O::later(
            #[trigger] inner[i],
            front.last(),
        ) by {
            assert(inner.to_multiset().contains(inner[i])) by {
                assert(inner.contains(inner[i]));
            }
            if inner[i] != item {
                assert(shorter.to_multiset().contains(inner[i]));
                assert(shorter.contains(inner[i]));
                let j = choose|j: int| 0 <= j < shorter.len() && shorter[j] == inner[i];
                assert(front[j] == shorter[j]);
            }
        }
        assert forall|i: int, j: int| 0 <= i < j < now.len() implies !O::later(
            #[trigger] now[i],
            #[trigger] now[j],
        ) by {
            assert(now[i] == inner[i]);
            if j < inner.len() {
                assert(now[j] == inner[j]);
            }
        }
    } else {
        assert(now == front.push(item));
        assert forall|i: int, j: int| 0 <= i < j < now.len() implies !O::later(
            #[trigger] now[i],
            #[trigger] now[j],
        ) by {
            if j < front.len() {
                assert(now[i] == front[i] && now[j] == front[j]);
            } else if i < front.len() - 1 {
                assert(!O::later(front[i], front[front.len() - 1]));
            }
        }
    }
}

/// Sorting by a ranking puts the items in order.
pub proof fn lemma_sorted_in_order<T: View, O: Order<T>>(items: Seq<T::V>)
    requires
        is_ranking::<T, O>(),
    ensures
        in_order::<T, O>(sorted::<T, O>(items)),
    decreases items.len(),
{
    if items.len() > 0 {
        lemma_sorted_in_order::<T, O>(items.drop_last());
        lemma_placed_in_order::<T, O>(sorted::<T, O>(items.drop_last()), items.last());
    }
}

/// Filtering keeps just the items that it asks for.
pub proof fn lemma_filtered_members<V>(values: Seq<V>, keep: spec_fn(V) -> bool)
    ensures
        forall|x: V| #[trigger] values.filter(keep).contains(x) <==> values.contains(x) && keep(x),
    decreases values.len(),
{
    reveal(Seq::filter);
    if values.len() > 0 {
        let shorter = values.drop_last();
        lemma_filtered_members(shorter, keep);
        let now = values.filter(keep);
        let known = shorter.filter(keep);
        assert forall|x: V| #[trigger] now.contains(x) <==> values.contains(x) && keep(x) by {
            if values.contains(x) && keep(x) {
                let m = choose|m: int| 0 <= m < values.len() && values[m] == x;
                if m < shorter.len() {
                    assert(shorter[m] == x);
                    assert(known.contains(x));
                    let k = choose|k: int| 0 <= k < known.len() && known[k] == x;
                    assert(now[k] == x);
                } else {
                    assert(now[now.len() - 1] == x);
                }
            }
            if now.contains(x) {
                let k = choose|k: int| 0 <= k < now.len() && now[k] == x;
                if k < known.len() {
                    assert(known[k] == x);
                    assert(known.contains(x));
                    let m = choose|m: int| 0 <= m < shorter.len() && shorter[m] == x;
                    assert(values[m] == x);
                } else {
                    assert(values[values.len() - 1] == x);
                }
            }
        }
    }
}

/// Filtering different items gives different items.
pub proof fn lemma_filtered_distinct<V>(values: Seq<V>, keep: spec_fn(V) -> bool)
    requires
        values.no_duplicates(),
    ensures
        values.filter(keep).no_duplicates(),
    decreases values.len(),
{
    reveal(Seq::filter);
    if values.len() > 0 {
        let shorter = values.drop_last();
        assert(shorter.no_duplicates());
        lemma_filtered_distinct(shorter, keep);
        lemma_filtered_members(shorter, keep);
        let known = shorter.filter(keep);
        let last = values.last();
        assert(!shorter.contains(last));
        assert(!known.contains(last));
        assert forall|i: int, j: int|
            0 <= i < known.push(last).len() && 0 <= j < known.push(last).len() && i
                != j implies known.push(last)[i] != known.push(last)[j] by {
            if i < known.len() && j < known.len() {
            } else if i < known.len() {
                assert(known.contains(known[i]));
            } else {
                assert(known.contains(known[j]));
            }
        }
    }
}

proof fn lemma_filter_push<V>(values: Seq<V>, value: V, keep: spec_fn(V) -> bool)
    ensures
        values.push(value).filter(keep) == if keep(value) {
            values.filter(keep).push(value)
        } else {
            values.filter(keep)
        },
{
    reveal(Seq::filter);
    assert(values.push(value).drop_last() =~= values);
}

/// Whether the order does not tell an item apart from `one`.
pub open spec fn alike<T: View, O: Order<T>>(one: T::V) -> spec_fn(T::V) -> bool {
    |x: T::V| !O::later(x, one) && !O::later(one, x)
}

proof fn lemma_placed_keeps_order<T: View, O: Order<T>>(front: Seq<T::V>, item: T::V, one: T::V)
    requires
        is_ranking::<T, O>(),
    ensures
        placed::<T, O>(front, item).filter(alike::<T, O>(one)) == front.push(item).filter(
            alike::<T, O>(one),
        ),
    decreases front.len(),
{
    let keep = alike::<T, O>(one);
    if front.len() > 0 && O::later(front.last(), item) {
        let shorter = front.drop_last();
        let last = front.last();
        lemma_placed_keeps_order::<T, O>(shorter, item, one);
        let inner = placed::<T, O>(shorter, item);
        lemma_filter_push(inner, last, keep);
        lemma_filter_push(shorter, item, keep);
        lemma_filter_push(shorter, last, keep);
        lemma_filter_push(front, item, keep);
        assert(shorter.push(last) =~= front);
        if keep(last) && keep(item) {
            assert(!O::later(last, one));
            assert(!O::later(one, item));
            assert(!O::later(last, item));
        }
    }
}

/// Of the items that the order does not tell apart from a given one, the one that came
/// first stays first: sorting leaves the list of them as it was.
pub proof fn lemma_sorted_stable<T: View, O: Order<T>>(items: Seq<T::V>, one: T::V)
    requires
        is_ranking::<T, O>(),
    ensures
        sorted::<T, O>(items).filter(alike::<T, O>(one)) == items.filter(alike::<T, O>(one)),
    decreases items.len(),
{
    let keep = alike::<T, O>(one);
    if items.len() == 0 {
        assert(sorted::<T, O>(items) =~= items);
    } else {
        let front = items.drop_last();
        let done = sorted::<T, O>(front);
        lemma_sorted_stable::<T, O>(front, one);
        lemma_placed_keeps_order::<T, O>(done, items.last(), one);
        lemma_filter_push(done, items.last(), keep);
        lemma_filter_push(front, items.last(), keep);
        assert(front.push(items.last()) =~= items);
    }
}

} // verus!

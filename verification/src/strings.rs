//! Ordered collections keyed by strings.
use vstd::prelude::*;

use crate::order;

verus! {

/// Whether `keys` is strictly increasing, so that no key occurs twice.
pub open spec fn ascending(keys: Seq<Seq<char>>) -> bool {
    forall|i: int, j: int| 0 <= i < j < keys.len() ==> order::precedes(#[trigger] keys[i], #[trigger] keys[j])
}

/// The first index of `keys` whose key does not come before `key`.
fn lower_bound(keys: &Vec<String>, key: &str) -> (r: usize)
    requires
        ascending(keys.deep_view()),
    ensures
        r <= keys.len(),
        forall|i: int| 0 <= i < r ==> order::precedes(#[trigger] keys.deep_view()[i], key@),
        forall|i: int| r <= i < keys.len() ==> !order::precedes(#[trigger] keys.deep_view()[i], key@),
{
    let mut lo: usize = 0;
    let mut hi: usize = keys.len();
    while lo < hi
        invariant
            ascending(keys.deep_view()),
            lo <= hi <= keys.len(),
            forall|i: int| 0 <= i < lo ==> order::precedes(#[trigger] keys.deep_view()[i], key@),
            forall|i: int| hi <= i < keys.len() ==> !order::precedes(#[trigger] keys.deep_view()[i], key@),
        decreases hi - lo,
    {
        let mid: usize = lo + (hi - lo) / 2;
        let ghost all = keys.deep_view();
        proof {
            assert(all[mid as int] == keys[mid as int]@);
        }
        match order::rank_text(keys[mid].as_str(), key) {
            order::Rank::Less => {
                proof {
                    assert forall|i: int| 0 <= i < mid + 1 implies order::precedes(
                        #[trigger] all[i],
                        key@,
                    ) by {
                        if i < mid {
                            order::lemma_precedes_transitive(all[i], all[mid as int], key@);
                        }
                    }
                }
                lo = mid + 1;
            },
            _ => {
                proof {
                    assert forall|i: int| mid <= i < keys.len() implies !order::precedes(
                        #[trigger] all[i],
                        key@,
                    ) by {
                        if mid < i && order::precedes(all[i], key@) {
                            order::lemma_precedes_transitive(all[mid as int], all[i], key@);
                        }
                    }
                }
                hi = mid;
            },
        }
    }
    lo
}

/// A set of strings, kept in ascending order.
#[derive(Debug)]
pub struct StringSet {
    keys: Vec<String>,
}

impl StringSet {
    /// The members in ascending order.
    pub closed spec fn members(&self) -> Seq<Seq<char>> {
        self.keys.deep_view()
    }

    /// The members are strictly ascending.
    pub open spec fn well_formed(&self) -> bool {
        ascending(self.members())
    }
}

impl View for StringSet {
    type V = Set<Seq<char>>;

    open spec fn view(&self) -> Set<Seq<char>> {
        self.members().to_set()
    }
}

impl StringSet {
    /// The empty set.
    pub fn new() -> (r: StringSet)
        ensures
            r.well_formed(),
            r.members() == Seq::<Seq<char>>::empty(),
            r@ == Set::<Seq<char>>::empty(),
    {
        let r = StringSet { keys: Vec::new() };
        proof {
            assert(r.members() =~= Seq::<Seq<char>>::empty());
            assert(r@ =~= Set::<Seq<char>>::empty());
        }
        r
    }

    /// The number of members.
    pub fn len(&self) -> (n: usize)
        ensures
            n == self.members().len(),
    {
        self.keys.len()
    }

    /// The member at index `i` of the ascending order.
    pub fn get(&self, i: usize) -> (r: &String)
        requires
            i < self.members().len(),
        ensures
            r@ == self.members()[i as int],
    {
        &self.keys[i]
    }

    /// Whether `key` is a member.
    pub fn contains(&self, key: &str) -> (b: bool)
        requires
            self.well_formed(),
        ensures
            b == self@.contains(key@),
    {
        let i = lower_bound(&self.keys, key);
        let ghost all = self.members();
        if i < self.keys.len() {
            match order::rank_text(self.keys[i].as_str(), key) {
                order::Rank::Equal => {
                    proof {
                        assert(all[i as int] == key@);
                    }
                    return true;
                },
                _ => {},
            }
        }
        proof {
            if all.contains(key@) {
                let j = choose|j: int| 0 <= j < all.len() && all[j] == key@;
                order::lemma_precedes_irreflexive(key@);
                if j > i {
                    order::lemma_precedes_total(all[i as int], key@);
                    assert(order::precedes(all[i as int], all[j]));
                }
            }
        }
        false
    }

    /// Adds `key`; returns whether it was not yet a member.
    pub fn insert(&mut self, key: String) -> (added: bool)
        requires
            old(self).well_formed(),
        ensures
            final(self).well_formed(),
            final(self)@ == old(self)@.insert(key@),
            added == !old(self)@.contains(key@),
            added ==> final(self).members().len() == old(self).members().len() + 1,
            !added ==> *final(self) == *old(self),
    {
        let i = lower_bound(&self.keys, key.as_str());
        let ghost all = self.members();
        if i < self.keys.len() {
            match order::rank_text(self.keys[i].as_str(), key.as_str()) {
                order::Rank::Equal => {
                    proof {
                        assert(all[i as int] == key@);
                        assert(all.to_set() =~= all.to_set().insert(key@));
                    }
                    return false;
                },
                _ => {},
            }
        }
        let ghost k = key@;
        proof {
            if all.contains(k) {
                let j = choose|j: int| 0 <= j < all.len() && all[j] == k;
                order::lemma_precedes_irreflexive(k);
                if j > i {
                    order::lemma_precedes_total(all[i as int], k);
                    assert(order::precedes(all[i as int], all[j]));
                }
            }
        }
        self.keys.insert(i, key);
        proof {
            let now = self.members();
            assert(now =~= all.insert(i as int, k));
            lemma_ascending_insert(all, i as int, k);
            assert forall|x: Seq<char>| now.to_set().contains(x) <==> all.to_set().insert(
                k,
            ).contains(x) by {
                if all.contains(x) {
                    let j = choose|j: int| 0 <= j < all.len() && all[j] == x;
                    if j < i {
                        assert(now[j] == x);
                    } else {
                        assert(now[j + 1] == x);
                    }
                }
                if x == k {
                    assert(now[i as int] == x);
                }
                if now.contains(x) {
                    let j = choose|j: int| 0 <= j < now.len() && now[j] == x;
                    if j < i {
                        assert(all[j] == x);
                    } else if j > i {
                        assert(all[j - 1] == x);
                    }
                }
            }
            assert(now.to_set() =~= all.to_set().insert(k));
        }
        true
    }
}

proof fn lemma_ascending_insert(all: Seq<Seq<char>>, i: int, k: Seq<char>)
    requires
        ascending(all),
        0 <= i <= all.len(),
        forall|j: int| 0 <= j < i ==> order::precedes(#[trigger] all[j], k),
        forall|j: int| i <= j < all.len() ==> !order::precedes(#[trigger] all[j], k),
        !all.contains(k),
    ensures
        ascending(all.insert(i, k)),
{
    let now = all.insert(i, k);
    assert forall|a: int, b: int| 0 <= a < b < now.len() implies order::precedes(
        #[trigger] now[a],
        #[trigger] now[b],
    ) by {
        if a < i && b < i {
            assert(order::precedes(all[a], all[b]));
        } else if a < i && b == i {
        } else if a < i {
            assert(order::precedes(all[a], all[b - 1]));
        } else if a == i {
            order::lemma_precedes_total(all[b - 1], k);
            assert(all.contains(all[b - 1]));
        } else {
            assert(order::precedes(all[a - 1], all[b - 1]));
        }
    }
}

/// The keys of `entries`.
pub open spec fn keys_of<W>(entries: Seq<(Seq<char>, W)>) -> Seq<Seq<char>> {
    entries.map_values(|e: (Seq<char>, W)| e.0)
}

/// The values of `entries`.
pub open spec fn values_of<W>(entries: Seq<(Seq<char>, W)>) -> Seq<W> {
    entries.map_values(|e: (Seq<char>, W)| e.1)
}

/// `entries`, in ascending order of keys, with the value of `key` set to `value`.
pub open spec fn put<W>(entries: Seq<(Seq<char>, W)>, key: Seq<char>, value: W) -> Seq<
    (Seq<char>, W),
>
    decreases entries.len(),
{
    if entries.len() == 0 {
        seq![(key, value)]
    } else if entries[0].0 == key {
        seq![(key, value)] + entries.drop_first()
    } else if order::precedes(key, entries[0].0) {
        seq![(key, value)] + entries
    } else {
        seq![entries[0]] + put(entries.drop_first(), key, value)
    }
}

/// Setting the value of a key adds it and leaves the other keys alone.
pub proof fn lemma_put_keeps<W>(
    entries: Seq<(Seq<char>, W)>,
    key: Seq<char>,
    value: W,
    e: (Seq<char>, W),
)
    requires
        e == (key, value) || entries.contains(e) && e.0 != key,
    ensures
        put(entries, key, value).contains(e),
    decreases entries.len(),
{
    let now = put(entries, key, value);
    if entries.len() == 0 {
        assert(now[0] == e);
    } else if entries[0].0 == key || order::precedes(key, entries[0].0) {
        assert(now[0] == (key, value));
        if e != (key, value) {
            let k = choose|k: int| 0 <= k < entries.len() && entries[k] == e;
            if entries[0].0 == key {
                assert(now[k] == e);
            } else {
                assert(now[k + 1] == e);
            }
        }
    } else {
        let rest = entries.drop_first();
        if e == entries[0] {
            assert(now[0] == e);
        } else {
            if e != (key, value) {
                let k = choose|k: int| 0 <= k < entries.len() && entries[k] == e;
                assert(rest[k - 1] == e);
            }
            lemma_put_keeps(rest, key, value, e);
            let later = put(rest, key, value);
            let k = choose|k: int| 0 <= k < later.len() && later[k] == e;
            assert(now[k + 1] == e);
        }
    }
}

/// The order in which two different keys are set does not matter.
pub proof fn lemma_put_commutes<W>(
    entries: Seq<(Seq<char>, W)>,
    a: Seq<char>,
    v: W,
    b: Seq<char>,
    w: W,
)
    requires
        a != b,
    ensures
        put(put(entries, a, v), b, w) == put(put(entries, b, w), a, v),
    decreases entries.len(),
{
    order::lemma_precedes_total(a, b);
    order::lemma_precedes_asymmetric(a, b);
    let one = put(entries, a, v);
    let other = put(entries, b, w);
    if entries.len() == 0 {
        reveal_with_fuel(put, 2);
        assert(one.drop_first() =~= Seq::empty());
        assert(other.drop_first() =~= Seq::empty());
        assert(put(one, b, w) =~= put(other, a, v));
    } else {
        let head = entries[0].0;
        let rest = entries.drop_first();
        order::lemma_precedes_asymmetric(a, head);
        order::lemma_precedes_asymmetric(b, head);
        if order::precedes(a, b) && order::precedes(b, head) {
            order::lemma_precedes_transitive(a, b, head);
        }
        if order::precedes(b, a) && order::precedes(a, head) {
            order::lemma_precedes_transitive(b, a, head);
        }
        lemma_put_commutes(rest, a, v, b, w);
        if head == a {
            assert(one.drop_first() =~= rest);
        } else if order::precedes(a, head) {
            assert(one.drop_first() =~= entries);
        } else {
            assert(one.drop_first() =~= put(rest, a, v));
        }
        if head == b {
            assert(other.drop_first() =~= rest);
        } else if order::precedes(b, head) {
            assert(other.drop_first() =~= entries);
        } else {
            assert(other.drop_first() =~= put(rest, b, w));
        }
        assert(put(one, b, w) =~= put(other, a, v));
    }
}

/// The value of `key` in `entries`.
pub open spec fn lookup<W>(entries: Seq<(Seq<char>, W)>, key: Seq<char>) -> Option<W>
    decreases entries.len(),
{
    if entries.len() == 0 {
        None
    } else if entries[0].0 == key {
        Some(entries[0].1)
    } else {
        lookup(entries.drop_first(), key)
    }
}

proof fn lemma_put_new<W>(entries: Seq<(Seq<char>, W)>, key: Seq<char>, value: W, i: int)
    requires
        0 <= i <= entries.len(),
        forall|j: int| 0 <= j < i ==> order::precedes((#[trigger] entries[j]).0, key),
        i < entries.len() ==> order::precedes(key, entries[i].0),
    ensures
        put(entries, key, value) == entries.insert(i, (key, value)),
    decreases i,
{
    order::lemma_precedes_irreflexive(key);
    if i == 0 {
        if entries.len() > 0 {
            order::lemma_precedes_irreflexive(entries[0].0);
        }
        assert(put(entries, key, value) =~= entries.insert(0, (key, value)));
    } else {
        let rest = entries.drop_first();
        assert(order::precedes(entries[0].0, key));
        order::lemma_precedes_asymmetric(entries[0].0, key);
        assert forall|j: int| 0 <= j < i - 1 implies order::precedes((#[trigger] rest[j]).0, key) by {
            assert(rest[j] == entries[j + 1]);
        }
        lemma_put_new(rest, key, value, i - 1);
        assert(seq![entries[0]] + rest.insert(i - 1, (key, value)) =~= entries.insert(
            i,
            (key, value),
        ));
    }
}

proof fn lemma_put_known<W>(entries: Seq<(Seq<char>, W)>, key: Seq<char>, value: W, i: int)
    requires
        0 <= i < entries.len(),
        forall|j: int| 0 <= j < i ==> order::precedes((#[trigger] entries[j]).0, key),
        entries[i].0 == key,
    ensures
        put(entries, key, value) == entries.update(i, (key, value)),
    decreases i,
{
    order::lemma_precedes_irreflexive(key);
    if i == 0 {
        assert(put(entries, key, value) =~= entries.update(0, (key, value)));
    } else {
        let rest = entries.drop_first();
        assert(order::precedes(entries[0].0, key));
        order::lemma_precedes_asymmetric(entries[0].0, key);
        assert forall|j: int| 0 <= j < i - 1 implies order::precedes((#[trigger] rest[j]).0, key) by {
            assert(rest[j] == entries[j + 1]);
        }
        lemma_put_known(rest, key, value, i - 1);
        assert(seq![entries[0]] + rest.update(i - 1, (key, value)) =~= entries.update(
            i,
            (key, value),
        ));
    }
}

/// In ascending entries the value at index `i` is the value of the key there.
pub proof fn lemma_lookup_at<W>(entries: Seq<(Seq<char>, W)>, i: int)
    requires
        ascending(keys_of(entries)),
        0 <= i < entries.len(),
    ensures
        lookup(entries, entries[i].0) == Some(entries[i].1),
    decreases entries.len(),
{
    if i > 0 {
        let rest = entries.drop_first();
        assert(keys_of(entries)[0] == entries[0].0 && keys_of(entries)[i] == entries[i].0);
        order::lemma_precedes_irreflexive(entries[0].0);
        assert forall|a: int, b: int| 0 <= a < b < rest.len() implies order::precedes(
            #[trigger] keys_of(rest)[a],
            #[trigger] keys_of(rest)[b],
        ) by {
            assert(order::precedes(keys_of(entries)[a + 1], keys_of(entries)[b + 1]));
        }
        lemma_lookup_at(rest, i - 1);
    }
}

/// A key that does not occur has no value.
pub proof fn lemma_lookup_absent<W>(entries: Seq<(Seq<char>, W)>, key: Seq<char>)
    requires
        forall|i: int| 0 <= i < entries.len() ==> (#[trigger] entries[i]).0 != key,
    ensures
        lookup(entries, key) is None,
    decreases entries.len(),
{
    if entries.len() > 0 {
        assert(entries[0].0 != key);
        let rest = entries.drop_first();
        assert forall|i: int| 0 <= i < rest.len() implies (#[trigger] rest[i]).0 != key by {
            assert(rest[i] == entries[i + 1]);
        }
        lemma_lookup_absent(rest, key);
    }
}

/// After a key was put, its value is the one put; every other key keeps its value.
pub proof fn lemma_lookup_put<W>(
    entries: Seq<(Seq<char>, W)>,
    key: Seq<char>,
    value: W,
    other: Seq<char>,
)
    ensures
        lookup(put(entries, key, value), other) == if other == key {
            Some(value)
        } else {
            lookup(entries, other)
        },
    decreases entries.len(),
{
    let now = put(entries, key, value);
    if entries.len() == 0 {
        reveal_with_fuel(lookup, 2);
    } else if entries[0].0 == key {
        assert(now.drop_first() =~= entries.drop_first());
    } else if order::precedes(key, entries[0].0) {
        assert(now.drop_first() =~= entries);
    } else {
        assert(now.drop_first() =~= put(entries.drop_first(), key, value));
        lemma_lookup_put(entries.drop_first(), key, value, other);
    }
}

/// The first value for each key of `pairs`, in ascending order of keys.
pub open spec fn first_by_key<W>(pairs: Seq<(Seq<char>, W)>) -> Seq<(Seq<char>, W)>
    decreases pairs.len(),
{
    if pairs.len() == 0 {
        Seq::empty()
    } else {
        let known = first_by_key(pairs.drop_last());
        let last = pairs.last();
        if lookup(known, last.0) is Some {
            known
        } else {
            put(known, last.0, last.1)
        }
    }
}

/// The first values for the keys of `pairs` are in ascending order of keys, are
/// among `pairs`, and leave out no key.
pub proof fn lemma_first_by_key<W>(pairs: Seq<(Seq<char>, W)>)
    ensures
        ascending(keys_of(first_by_key(pairs))),
        forall|i: int|
            0 <= i < first_by_key(pairs).len() ==> pairs.contains(
                #[trigger] first_by_key(pairs)[i],
            ),
        forall|p: (Seq<char>, W)| #[trigger]
            pairs.contains(p) ==> lookup(first_by_key(pairs), p.0) is Some,
    decreases pairs.len(),
{
    let now = first_by_key(pairs);
    if pairs.len() > 0 {
        let shorter = pairs.drop_last();
        let known = first_by_key(shorter);
        let last = pairs.last();
        lemma_first_by_key(shorter);
        lemma_put_ascending(known, last.0, last.1);
        assert(pairs[pairs.len() - 1] == last);
        assert forall|i: int| 0 <= i < now.len() implies pairs.contains(#[trigger] now[i]) by {
            if lookup(known, last.0) is None {
                lemma_put_members(known, last.0, last.1, i);
            }
            if now[i] != last {
                let j = choose|j: int| 0 <= j < known.len() && known[j] == now[i];
                if lookup(known, last.0) is Some {
                    assert(known[i] == now[i]);
                }
                assert(shorter.contains(now[i]));
                let m = choose|m: int| 0 <= m < shorter.len() && shorter[m] == now[i];
                assert(pairs[m] == now[i]);
            }
        }
        assert forall|p: (Seq<char>, W)| #[trigger] pairs.contains(p) implies lookup(now, p.0)
            is Some by {
            lemma_lookup_put(known, last.0, last.1, p.0);
            let m = choose|m: int| 0 <= m < pairs.len() && pairs[m] == p;
            if m < shorter.len() {
                assert(shorter[m] == p);
                assert(shorter.contains(p));
            }
        }
    } else {
        assert(keys_of(now) =~= Seq::empty());
    }
}

/// A key with a value occurs.
pub proof fn lemma_lookup_found<W>(entries: Seq<(Seq<char>, W)>, key: Seq<char>) -> (i: int)
    requires
        lookup(entries, key) is Some,
    ensures
        0 <= i < entries.len(),
        entries[i].0 == key,
        lookup(entries, key) == Some(entries[i].1),
    decreases entries.len(),
{
    if entries[0].0 == key {
        0
    } else {
        let j = lemma_lookup_found(entries.drop_first(), key);
        j + 1
    }
}

/// The entries after a key was put are that of the key and earlier ones.
pub proof fn lemma_put_members<W>(
    entries: Seq<(Seq<char>, W)>,
    key: Seq<char>,
    value: W,
    i: int,
)
    requires
        0 <= i < put(entries, key, value).len(),
    ensures
        put(entries, key, value)[i] == (key, value) || entries.contains(
            put(entries, key, value)[i],
        ),
    decreases entries.len(),
{
    let now = put(entries, key, value);
    if entries.len() > 0 {
        if entries[0].0 == key {
            if i > 0 {
                assert(now[i] == entries[i]);
            }
        } else if order::precedes(key, entries[0].0) {
            if i > 0 {
                assert(now[i] == entries[i - 1]);
            }
        } else {
            let rest = entries.drop_first();
            if i == 0 {
                assert(now[0] == entries[0]);
            } else {
                lemma_put_members(rest, key, value, i - 1);
                let x = put(rest, key, value)[i - 1];
                assert(now[i] == x);
                if rest.contains(x) {
                    let j = choose|j: int| 0 <= j < rest.len() && rest[j] == x;
                    assert(entries[j + 1] == x);
                }
            }
        }
    }
}

/// Putting a key keeps the keys in ascending order.
pub proof fn lemma_put_ascending<W>(entries: Seq<(Seq<char>, W)>, key: Seq<char>, value: W)
    requires
        ascending(keys_of(entries)),
    ensures
        ascending(keys_of(put(entries, key, value))),
    decreases entries.len(),
{
    let now = put(entries, key, value);
    let names = keys_of(entries);
    if entries.len() > 0 {
        assert(names[0] == entries[0].0);
        let rest = entries.drop_first();
        if entries[0].0 == key {
            assert(keys_of(now) =~= names);
        } else if order::precedes(key, entries[0].0) {
            assert(keys_of(now) =~= seq![key] + names);
            assert forall|i: int, j: int| 0 <= i < j < now.len() implies order::precedes(
                #[trigger] keys_of(now)[i],
                #[trigger] keys_of(now)[j],
            ) by {
                assert(keys_of(now)[j] == names[j - 1]);
                if i > 0 {
                    assert(keys_of(now)[i] == names[i - 1]);
                } else if j > 1 {
                    order::lemma_precedes_transitive(key, names[0], names[j - 1]);
                }
            }
        } else {
            assert forall|i: int, j: int| 0 <= i < j < rest.len() implies order::precedes(
                #[trigger] keys_of(rest)[i],
                #[trigger] keys_of(rest)[j],
            ) by {
                assert(keys_of(rest)[i] == names[i + 1] && keys_of(rest)[j] == names[j + 1]);
            }
            lemma_put_ascending(rest, key, value);
            let inner = put(rest, key, value);
            order::lemma_precedes_total(key, entries[0].0);
            assert forall|i: int, j: int| 0 <= i < j < now.len() implies order::precedes(
                #[trigger] keys_of(now)[i],
                #[trigger] keys_of(now)[j],
            ) by {
                assert(keys_of(now)[j] == keys_of(inner)[j - 1]);
                if i > 0 {
                    assert(keys_of(now)[i] == keys_of(inner)[i - 1]);
                } else {
                    lemma_put_members(rest, key, value, j - 1);
                    let x = inner[j - 1];
                    if rest.contains(x) {
                        let m = choose|m: int| 0 <= m < rest.len() && rest[m] == x;
                        assert(names[m + 1] == x.0);
                    }
                }
            }
        }
    }
}

/// A map from strings, kept in ascending order of its keys.
#[derive(Debug)]
pub struct StringMap<T> {
    keys: Vec<String>,
    values: Vec<T>,
}

impl<T: View> StringMap<T> {
    /// The entries in ascending order of keys.
    pub closed spec fn entries(&self) -> Seq<(Seq<char>, T::V)> {
        Seq::new(self.keys@.len(), |i: int| (self.keys@[i]@, self.values@[i]@))
    }

    /// There is a value for each key, and the keys are strictly ascending.
    pub closed spec fn well_formed(&self) -> bool {
        &&& self.keys@.len() == self.values@.len()
        &&& ascending(self.keys.deep_view())
    }

    /// The keys of a map are strictly ascending.
    pub proof fn lemma_ascending(&self)
        requires
            self.well_formed(),
        ensures
            ascending(keys_of(self.entries())),
    {
        assert(keys_of(self.entries()) =~= self.keys.deep_view());
    }

    /// The empty map.
    pub fn new() -> (r: StringMap<T>)
        ensures
            r.well_formed(),
            r.entries() == Seq::<(Seq<char>, T::V)>::empty(),
    {
        let r = StringMap { keys: Vec::new(), values: Vec::new() };
        proof {
            assert(r.entries() =~= Seq::<(Seq<char>, T::V)>::empty());
        }
        r
    }

    /// The number of keys.
    pub fn len(&self) -> (n: usize)
        ensures
            n == self.entries().len(),
    {
        self.keys.len()
    }

    /// The key at index `i` of the ascending order.
    pub fn key_at(&self, i: usize) -> (r: &String)
        requires
            i < self.entries().len(),
        ensures
            r@ == self.entries()[i as int].0,
    {
        &self.keys[i]
    }

    /// The value at index `i` of the ascending order of keys.
    pub fn value_at(&self, i: usize) -> (r: &T)
        requires
            self.well_formed(),
            i < self.entries().len(),
        ensures
            r@ == self.entries()[i as int].1,
    {
        &self.values[i]
    }

    /// The value of `key`.
    pub fn get(&self, key: &str) -> (r: Option<&T>)
        requires
            self.well_formed(),
        ensures
            r is Some <==> lookup(self.entries(), key@) is Some,
            r matches Some(value) ==> lookup(self.entries(), key@) == Some(value@),
    {
        let i = lower_bound(&self.keys, key);
        let ghost all = self.entries();
        proof {
            self.lemma_ascending();
            assert(keys_of(all) =~= self.keys.deep_view());
        }
        if i < self.keys.len() {
            match order::rank_text(self.keys[i].as_str(), key) {
                order::Rank::Equal => {
                    proof {
                        lemma_lookup_at(all, i as int);
                    }
                    return Some(&self.values[i]);
                },
                _ => {},
            }
        }
        proof {
            assert forall|j: int| 0 <= j < all.len() implies (#[trigger] all[j]).0 != key@ by {
                order::lemma_precedes_irreflexive(key@);
                assert(self.keys.deep_view()[j] == all[j].0);
                if j > i {
                    assert(order::precedes(keys_of(all)[i as int], keys_of(all)[j]));
                    order::lemma_precedes_total(all[i as int].0, key@);
                }
            }
            lemma_lookup_absent(all, key@);
        }
        None
    }

    /// Sets the value of `key`.
    pub fn insert(&mut self, key: String, value: T)
        requires
            old(self).well_formed(),
        ensures
            final(self).well_formed(),
            final(self).entries() == put(old(self).entries(), key@, value@),
    {
        let i = lower_bound(&self.keys, key.as_str());
        let ghost all = self.entries();
        let ghost names = self.keys.deep_view();
        let ghost k = key@;
        let ghost v = value@;
        proof {
            assert forall|j: int| 0 <= j < i implies order::precedes((#[trigger] all[j]).0, k) by {
                assert(names[j] == all[j].0);
            }
        }
        if i < self.keys.len() {
            proof {
                assert(names[i as int] == self.keys@[i as int]@);
            }
            match order::rank_text(self.keys[i].as_str(), key.as_str()) {
                order::Rank::Equal => {
                    self.values.set(i, value);
                    proof {
                        lemma_put_known(all, k, v, i as int);
                        assert(self.entries() =~= all.update(i as int, (k, v)));
                        assert(self.keys.deep_view() =~= names);
                    }
                    return;
                },
                _ => {},
            }
        }
        proof {
            if i < all.len() {
                order::lemma_precedes_total(all[i as int].0, k);
            }
            if names.contains(k) {
                let j = choose|j: int| 0 <= j < names.len() && names[j] == k;
                order::lemma_precedes_irreflexive(k);
                if j > i {
                    assert(order::precedes(names[i as int], names[j]));
                    order::lemma_precedes_asymmetric(names[i as int], k);
                }
            }
        }
        self.keys.insert(i, key);
        self.values.insert(i, value);
        proof {
            assert(self.keys.deep_view() =~= names.insert(i as int, k));
            lemma_ascending_insert(names, i as int, k);
            lemma_put_new(all, k, v, i as int);
            assert(self.entries() =~= all.insert(i as int, (k, v)));
        }
    }
}

} // verus!

//! The lexicographic order of strings by their code points.
use vstd::prelude::*;

use crate::text;

verus! {

/// How one value stands to another in an order.
#[derive(Debug, Clone, Copy, PartialEq, Eq, Structural)]
pub enum Rank {
    /// The first value comes before the second.
    Less,
    /// The two values are the same.
    Equal,
    /// The first value comes after the second.
    Greater,
}

/// Whether `a` comes before `b` where both agree below index `i`.
pub open spec fn precedes_from(a: Seq<char>, b: Seq<char>, i: int) -> bool
    decreases b.len() - i,
{
    if i >= b.len() {
        false
    } else if i >= a.len() {
        true
    } else if a[i] != b[i] {
        (a[i] as u32) < (b[i] as u32)
    } else {
        precedes_from(a, b, i + 1)
    }
}

/// Whether `a` comes strictly before `b`: at the first index where they
/// differ `a` has the smaller code point, or `a` is a proper prefix of `b`.
pub open spec fn precedes(a: Seq<char>, b: Seq<char>) -> bool {
    precedes_from(a, b, 0)
}

proof fn lemma_precedes_from_irreflexive(a: Seq<char>, i: int)
    requires
        0 <= i,
    ensures
        !precedes_from(a, a, i),
    decreases a.len() - i,
{
    if i < a.len() {
        lemma_precedes_from_irreflexive(a, i + 1);
    }
}

/// No string comes before itself.
pub proof fn lemma_precedes_irreflexive(a: Seq<char>)
    ensures
        !precedes(a, a),
{
    lemma_precedes_from_irreflexive(a, 0);
}

proof fn lemma_precedes_from_transitive(a: Seq<char>, b: Seq<char>, c: Seq<char>, i: int)
    requires
        0 <= i,
        precedes_from(a, b, i),
        precedes_from(b, c, i),
    ensures
        precedes_from(a, c, i),
    decreases c.len() - i,
{
    if i < a.len() && i < b.len() && i < c.len() && a[i] == b[i] && b[i] == c[i] {
        lemma_precedes_from_transitive(a, b, c, i + 1);
    }
}

/// The order is transitive.
pub proof fn lemma_precedes_transitive(a: Seq<char>, b: Seq<char>, c: Seq<char>)
    requires
        precedes(a, b),
        precedes(b, c),
    ensures
        precedes(a, c),
{
    lemma_precedes_from_transitive(a, b, c, 0);
}

proof fn lemma_code_points_differ(a: char, b: char)
    requires
        a != b,
    ensures
        (a as u32) < (b as u32) || (b as u32) < (a as u32),
{
}

proof fn lemma_precedes_from_total(a: Seq<char>, b: Seq<char>, i: int)
    requires
        0 <= i,
        i <= a.len(),
        i <= b.len(),
        forall|j: int| 0 <= j < i ==> a[j] == b[j],
    ensures
        a == b || precedes_from(a, b, i) || precedes_from(b, a, i),
    decreases b.len() - i,
{
    if i < a.len() && i < b.len() && a[i] == b[i] {
        lemma_precedes_from_total(a, b, i + 1);
    } else if i == a.len() && i == b.len() {
        assert(a =~= b);
    } else if i < a.len() && i < b.len() {
        lemma_code_points_differ(a[i], b[i]);
    }
}

/// Of two different strings one comes before the other.
pub proof fn lemma_precedes_total(a: Seq<char>, b: Seq<char>)
    ensures
        a == b || precedes(a, b) || precedes(b, a),
{
    lemma_precedes_from_total(a, b, 0);
}

/// Of two strings at most one comes before the other.
pub proof fn lemma_precedes_asymmetric(a: Seq<char>, b: Seq<char>)
    ensures
        !(precedes(a, b) && precedes(b, a)),
{
    if precedes(a, b) && precedes(b, a) {
        lemma_precedes_transitive(a, b, a);
        lemma_precedes_irreflexive(a);
    }
}

/// The place of `a` relative to `b` in the order.
pub open spec fn text_rank(a: Seq<char>, b: Seq<char>) -> Rank {
    if a == b {
        Rank::Equal
    } else if precedes(a, b) {
        Rank::Less
    } else {
        Rank::Greater
    }
}

/// Compares two strings.
pub fn rank_text(a: &str, b: &str) -> (r: Rank)
    ensures
        r == text_rank(a@, b@),
        r is Less <==> precedes(a@, b@),
        r is Equal <==> a@ == b@,
        r is Greater <==> precedes(b@, a@),
{
    let av = text::chars_of(a);
    let bv = text::chars_of(b);
    let mut i: usize = 0;
    proof {
        lemma_precedes_total(a@, b@);
        lemma_precedes_asymmetric(a@, b@);
        lemma_precedes_irreflexive(a@);
    }
    while i < av.len() && i < bv.len() && av[i] == bv[i]
        invariant
            av@ == a@,
            bv@ == b@,
            i <= av.len(),
            i <= bv.len(),
            forall|j: int| 0 <= j < i ==> a@[j] == b@[j],
            precedes(a@, b@) == precedes_from(a@, b@, i as int),
            precedes(b@, a@) == precedes_from(b@, a@, i as int),
        decreases av.len() - i,
    {
        i = i + 1;
    }
    if i == bv.len() {
        if i == av.len() {
            proof {
                assert(a@ =~= b@);
            }
            Rank::Equal
        } else {
            Rank::Greater
        }
    } else if i == av.len() {
        Rank::Less
    } else if (av[i] as u32) < (bv[i] as u32) {
        Rank::Less
    } else {
        Rank::Greater
    }
}

/// The place of one number relative to another.
pub open spec fn number_rank(a: nat, b: nat) -> Rank {
    if a < b {
        Rank::Less
    } else if a == b {
        Rank::Equal
    } else {
        Rank::Greater
    }
}

/// `first`, or `second` where `first` leaves the two values equal.
pub open spec fn chained(first: Rank, second: Rank) -> Rank {
    if first is Equal {
        second
    } else {
        first
    }
}

/// Two steps that do not go back in the order make one that does not, and one
/// that stays only if both stay.
pub proof fn lemma_text_rank_chain(a: Seq<char>, b: Seq<char>, c: Seq<char>)
    ensures
        !(text_rank(a, b) is Greater) && !(text_rank(b, c) is Greater) ==> !(text_rank(a, c)
            is Greater),
        text_rank(a, b) is Less && !(text_rank(b, c) is Greater) ==> text_rank(a, c) is Less,
        !(text_rank(a, b) is Greater) && text_rank(b, c) is Less ==> text_rank(a, c) is Less,
{
    lemma_precedes_irreflexive(a);
    if precedes(a, b) && precedes(b, c) {
        lemma_precedes_transitive(a, b, c);
        if a == c {
            lemma_precedes_asymmetric(a, b);
        }
    }
}

/// A string comes before another exactly if it is a proper prefix of it, or has the
/// smaller code point at the first index at which the two differ.
pub proof fn lemma_first_difference(a: Seq<char>, b: Seq<char>, n: int)
    requires
        0 <= n <= a.len(),
        n <= b.len(),
        a.take(n) == b.take(n),
        n < a.len() && n < b.len() ==> a[n] != b[n],
    ensures
        precedes(a, b) <==> n < b.len() && (n == a.len() || (a[n] as u32) < (b[n] as u32)),
{
    lemma_same_start(a, b, n, 0);
}

proof fn lemma_same_start(a: Seq<char>, b: Seq<char>, n: int, i: int)
    requires
        0 <= i <= n <= a.len(),
        n <= b.len(),
        a.take(n) == b.take(n),
    ensures
        precedes_from(a, b, i) == precedes_from(a, b, n),
    decreases n - i,
{
    if i < n {
        assert(a[i] == a.take(n)[i] && b[i] == b.take(n)[i]);
        lemma_same_start(a, b, n, i + 1);
    }
}

} // verus!

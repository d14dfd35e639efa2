//! Splitting of source text into its parts.
use vstd::prelude::*;

use crate::text;

verus! {

/// The brackets that open a nested group.
pub open spec fn opens(c: char) -> bool {
    c == '{' || c == '(' || c == '['
}

/// The brackets that close a nested group.
pub open spec fn closes(c: char) -> bool {
    c == '}' || c == ')' || c == ']'
}

/// How many groups are open at the end of `s`. A bracket that closes no group
/// has no effect.
pub open spec fn depth(s: Seq<char>) -> nat
    decreases s.len(),
{
    if s.len() == 0 {
        0
    } else {
        let d = depth(s.drop_last());
        if opens(s.last()) {
            d + 1
        } else if closes(s.last()) && d > 0 {
            (d - 1) as nat
        } else {
            d
        }
    }
}

/// Whether the last character of `s` separates two parts: it is `sep`, is no
/// bracket, and no group is open before it.
pub open spec fn ends_in_cut(s: Seq<char>, sep: char) -> bool {
    &&& s.len() > 0
    &&& s.last() == sep
    &&& !opens(sep)
    &&& !closes(sep)
    &&& depth(s.drop_last()) == 0
}

/// The parts of `s` that a separator ends.
pub open spec fn ended_parts(s: Seq<char>, sep: char) -> Seq<Seq<char>>
    decreases s.len(),
{
    if s.len() == 0 {
        Seq::empty()
    } else if ends_in_cut(s, sep) {
        ended_parts(s.drop_last(), sep).push(open_part(s.drop_last(), sep))
    } else {
        ended_parts(s.drop_last(), sep)
    }
}

/// What follows the last separator of `s`.
pub open spec fn open_part(s: Seq<char>, sep: char) -> Seq<char>
    decreases s.len(),
{
    if s.len() == 0 || ends_in_cut(s, sep) {
        Seq::empty()
    } else {
        open_part(s.drop_last(), sep).push(s.last())
    }
}

/// The parts of `s` between the separators outside of all groups. A last part
/// without characters is left out.
pub open spec fn top_level_parts(s: Seq<char>, sep: char) -> Seq<Seq<char>> {
    if open_part(s, sep).len() == 0 {
        ended_parts(s, sep)
    } else {
        ended_parts(s, sep).push(open_part(s, sep))
    }
}

/// Splits `input` at the separators outside of all groups.
pub fn split_top_level<'a>(input: &'a str, separator: char) -> (r: Vec<&'a str>)
    ensures
        r.deep_view() == top_level_parts(input@, separator),
{
    let v = text::chars_of(input);
    let mut parts: Vec<&'a str> = Vec::new();
    let mut start: usize = 0;
    let mut nesting: usize = 0;
    let mut i: usize = 0;
    proof {
        assert(parts.deep_view() =~= ended_parts(input@.take(0), separator));
    }
    while i < v.len()
        invariant
            v@ == input@,
            start <= i <= v.len(),
            nesting <= i,
            nesting == depth(input@.take(i as int)),
            parts.deep_view() == ended_parts(input@.take(i as int), separator),
            input@.subrange(start as int, i as int) == open_part(input@.take(i as int), separator),
        decreases v.len() - i,
    {
        let c = v[i];
        let ghost known = parts.deep_view();
        proof {
            assert(input@.take(i + 1).drop_last() =~= input@.take(i as int));
            assert(input@.take(i + 1).last() == c);
        }
        if c == '{' || c == '(' || c == '[' {
            nesting = nesting + 1;
        } else if c == '}' || c == ')' || c == ']' {
            if nesting > 0 {
                nesting = nesting - 1;
            }
        } else if c == separator && nesting == 0 {
            parts.push(input.substring_char(start, i));
            proof {
                assert(parts.deep_view() =~= known.push(input@.subrange(start as int, i as int)));
                assert(input@.subrange(i + 1, i + 1) =~= Seq::empty());
            }
            start = i + 1;
        }
        proof {
            if start <= i {
                assert(input@.subrange(start as int, i + 1) =~= input@.subrange(
                    start as int,
                    i as int,
                ).push(c));
            }
        }
        i = i + 1;
    }
    proof {
        assert(input@.take(i as int) =~= input@);
    }
    if start < v.len() {
        let ghost known = parts.deep_view();
        parts.push(input.substring_char(start, v.len()));
        proof {
            assert(parts.deep_view() =~= known.push(input@.subrange(start as int, i as int)));
        }
    }
    parts
}

proof fn lemma_parts_give_back(s: Seq<char>, sep: char)
    ensures
        text::joined(ended_parts(s, sep).push(open_part(s, sep)), seq![sep]) == s,
    decreases s.len(),
{
    let parts = ended_parts(s, sep).push(open_part(s, sep));
    assert(parts.drop_last() =~= ended_parts(s, sep));
    if s.len() == 0 {
        assert(text::joined(parts, seq![sep]) =~= s);
    } else {
        let before = s.drop_last();
        lemma_parts_give_back(before, sep);
        let known = ended_parts(before, sep).push(open_part(before, sep));
        assert(known.drop_last() =~= ended_parts(before, sep));
        if ends_in_cut(s, sep) {
            assert(ended_parts(s, sep) == known);
            assert(text::joined(parts, seq![sep]) == text::joined(known, seq![sep]) + seq![sep]
                + Seq::<char>::empty());
            assert(before + seq![sep] + Seq::<char>::empty() =~= s);
        } else {
            assert(open_part(s, sep) == open_part(before, sep).push(s.last()));
            if ended_parts(s, sep).len() == 0 {
                assert(text::joined(parts, seq![sep]) =~= text::joined(known, seq![sep]).push(s.last()));
            } else {
                assert(text::joined(parts, seq![sep]) =~= text::joined(known, seq![sep]).push(s.last()));
            }
            assert(before.push(s.last()) =~= s);
        }
    }
}

/// Joining the parts of a text with the separator gives the text back, except
/// for a separator that ends it.
pub proof fn lemma_top_level_parts_join(s: Seq<char>, sep: char)
    ensures
        ({
            let whole = text::joined(top_level_parts(s, sep), seq![sep]);
            whole == s || whole.push(sep) == s
        }),
{
    lemma_parts_give_back(s, sep);
    if open_part(s, sep).len() == 0 {
        let parts = ended_parts(s, sep).push(open_part(s, sep));
        assert(parts.drop_last() =~= ended_parts(s, sep));
        if ended_parts(s, sep).len() == 0 {
            assert(text::joined(ended_parts(s, sep), seq![sep]) =~= s);
        } else {
            assert(text::joined(ended_parts(s, sep), seq![sep]).push(sep) =~= text::joined(parts, seq![sep]));
        }
    }
}

/// Whether a character has a say in where `sep` separates two parts.
pub open spec fn structural(c: char, sep: char) -> bool {
    opens(c) || closes(c) || c == sep
}

/// The characters of `s` that have a say in where `sep` separates two parts.
pub open spec fn skeleton(s: Seq<char>, sep: char) -> Seq<char> {
    s.filter(|c: char| structural(c, sep))
}

proof fn lemma_skeleton_step(s: Seq<char>, sep: char)
    requires
        s.len() > 0,
    ensures
        skeleton(s, sep) == if structural(s.last(), sep) {
            skeleton(s.drop_last(), sep).push(s.last())
        } else {
            skeleton(s.drop_last(), sep)
        },
{
    reveal(Seq::filter);
}

/// How many groups are open, and how many parts are ended, depends on the brackets
/// and separators alone.
pub proof fn lemma_skeleton(s: Seq<char>, sep: char)
    ensures
        depth(s) == depth(skeleton(s, sep)),
        ended_parts(s, sep).len() == ended_parts(skeleton(s, sep), sep).len(),
    decreases s.len(),
{
    reveal(Seq::filter);
    if s.len() > 0 {
        let front = s.drop_last();
        lemma_skeleton(front, sep);
        lemma_skeleton_step(s, sep);
        if structural(s.last(), sep) {
            let bones = skeleton(front, sep).push(s.last());
            assert(bones.drop_last() =~= skeleton(front, sep));
            assert(bones.last() == s.last());
        }
    }
}

/// The skeleton of two strings one after the other.
pub proof fn lemma_skeleton_of_two(a: Seq<char>, b: Seq<char>, sep: char)
    ensures
        skeleton(a + b, sep) == skeleton(a, sep) + skeleton(b, sep),
    decreases b.len(),
{
    reveal(Seq::filter);
    if b.len() == 0 {
        assert(a + b =~= a);
        assert(skeleton(a, sep) + skeleton(b, sep) =~= skeleton(a, sep));
    } else {
        lemma_skeleton_of_two(a, b.drop_last(), sep);
        assert((a + b).drop_last() =~= a + b.drop_last());
        assert((a + b).last() == b.last());
        lemma_skeleton_step(a + b, sep);
        lemma_skeleton_step(b, sep);
        assert(skeleton(a + b, sep) =~= skeleton(a, sep) + skeleton(b, sep));
    }
}

/// A string without brackets and separators has no skeleton.
pub proof fn lemma_no_skeleton(s: Seq<char>, sep: char)
    requires
        forall|i: int| 0 <= i < s.len() ==> !structural(#[trigger] s[i], sep),
    ensures
        skeleton(s, sep) == Seq::<char>::empty(),
    decreases s.len(),
{
    reveal(Seq::filter);
    if s.len() > 0 {
        let front = s.drop_last();
        assert forall|i: int| 0 <= i < front.len() implies !structural(
            #[trigger] front[i],
            sep,
        ) by {
            assert(front[i] == s[i]);
        }
        lemma_no_skeleton(front, sep);
        lemma_skeleton_step(s, sep);
    }
}

/// White space around a string does not change its skeleton.
pub proof fn lemma_skeleton_trimmed(s: Seq<char>, sep: char)
    requires
        !text::white(sep),
    ensures
        skeleton(text::trimmed(s), sep) == skeleton(s, sep),
{
    let from = text::lemma_trimmed(s);
    let t = text::trimmed(s);
    let to = from + t.len();
    let head = s.take(from);
    let tail = s.skip(to);
    assert(s =~= head + t + tail);
    assert forall|i: int| 0 <= i < head.len() implies !structural(#[trigger] head[i], sep) by {
        assert(head[i] == s[i]);
    }
    assert forall|i: int| 0 <= i < tail.len() implies !structural(#[trigger] tail[i], sep) by {
        assert(tail[i] == s[to + i]);
    }
    lemma_no_skeleton(head, sep);
    lemma_no_skeleton(tail, sep);
    lemma_skeleton_of_two(head + t, tail, sep);
    lemma_skeleton_of_two(head, t, sep);
    assert(Seq::<char>::empty() + skeleton(t, sep) + Seq::<char>::empty() =~= skeleton(t, sep));
}

/// What follows the last separator has no separator of its own, and leaves as many
/// groups open as the whole.
pub proof fn lemma_open_part(s: Seq<char>, sep: char)
    ensures
        ended_parts(open_part(s, sep), sep).len() == 0,
        depth(open_part(s, sep)) == depth(s),
    decreases s.len(),
{
    if s.len() > 0 {
        let front = s.drop_last();
        lemma_open_part(front, sep);
        if !ends_in_cut(s, sep) {
            let part = open_part(s, sep);
            assert(part.drop_last() =~= open_part(front, sep));
            assert(part.last() == s.last());
        }
    }
}

/// The parts of a string have no separators of their own.
pub proof fn lemma_parts_uncut(s: Seq<char>, sep: char)
    ensures
        forall|i: int|
            0 <= i < top_level_parts(s, sep).len() ==> ended_parts(
                #[trigger] top_level_parts(s, sep)[i],
                sep,
            ).len() == 0,
{
    lemma_ended_parts_uncut(s, sep);
    lemma_open_part(s, sep);
}

proof fn lemma_ended_parts_uncut(s: Seq<char>, sep: char)
    ensures
        forall|i: int|
            0 <= i < ended_parts(s, sep).len() ==> ended_parts(
                #[trigger] ended_parts(s, sep)[i],
                sep,
            ).len() == 0,
    decreases s.len(),
{
    if s.len() > 0 {
        let front = s.drop_last();
        lemma_ended_parts_uncut(front, sep);
        if ends_in_cut(s, sep) {
            lemma_open_part(front, sep);
            let parts = ended_parts(s, sep);
            assert forall|i: int| 0 <= i < parts.len() implies ended_parts(
                #[trigger] parts[i],
                sep,
            ).len() == 0 by {
                if i < ended_parts(front, sep).len() {
                    assert(parts[i] == ended_parts(front, sep)[i]);
                }
            }
        }
    }
}

/// A string without separators is its own last part.
pub proof fn lemma_uncut(s: Seq<char>, sep: char)
    requires
        ended_parts(s, sep).len() == 0,
    ensures
        open_part(s, sep) == s,
    decreases s.len(),
{
    if s.len() > 0 {
        lemma_uncut(s.drop_last(), sep);
        assert(s.drop_last().push(s.last()) =~= s);
    }
}

/// A separator outside of all groups parts what stands before it from what
/// follows.
pub proof fn lemma_after_cut(a: Seq<char>, b: Seq<char>, sep: char)
    requires
        depth(a) == 0,
        !opens(sep),
        !closes(sep),
    ensures
        ended_parts(a.push(sep) + b, sep) == ended_parts(a, sep).push(open_part(a, sep))
            + ended_parts(b, sep),
        open_part(a.push(sep) + b, sep) == open_part(b, sep),
        depth(a.push(sep) + b) == depth(b),
    decreases b.len(),
{
    let whole = a.push(sep) + b;
    let known = ended_parts(a, sep).push(open_part(a, sep));
    if b.len() == 0 {
        assert(whole =~= a.push(sep));
        assert(whole.drop_last() =~= a);
        assert(known + ended_parts(b, sep) =~= known);
    } else {
        lemma_after_cut(a, b.drop_last(), sep);
        assert(whole.drop_last() =~= a.push(sep) + b.drop_last());
        assert(whole.last() == b.last());
        assert(ended_parts(whole, sep) =~= known + ended_parts(b, sep));
    }
}

/// Each kind of bracket opens a group and closes the one that is open last, as far as one
/// is; no other character opens or closes one.
pub proof fn lemma_brackets(s: Seq<char>, c: char)
    ensures
        depth(Seq::empty()) == 0,
        c == '{' || c == '(' || c == '[' ==> depth(s.push(c)) == depth(s) + 1,
        c == '}' || c == ')' || c == ']' ==> depth(s.push(c)) == if depth(s) > 0 {
            depth(s) - 1
        } else {
            0
        },
        !(c == '{' || c == '(' || c == '[' || c == '}' || c == ')' || c == ']') ==> depth(s.push(c))
            == depth(s),
{
    assert(s.push(c).drop_last() =~= s);
    assert(s.push(c).last() == c);
}

/// A separator in a group does not part what stands around it; one outside of all groups
/// does, and what follows begins anew.
pub proof fn lemma_where_parted(s: Seq<char>, sep: char)
    requires
        sep != '{' && sep != '(' && sep != '[' && sep != '}' && sep != ')' && sep != ']',
    ensures
        depth(s) > 0 ==> ended_parts(s.push(sep), sep) == ended_parts(s, sep) && open_part(
            s.push(sep),
            sep,
        ) == open_part(s, sep).push(sep),
        depth(s) == 0 ==> ended_parts(s.push(sep), sep) == ended_parts(s, sep).push(
            open_part(s, sep),
        ) && open_part(s.push(sep), sep).len() == 0,
        forall|c: char|
            c != sep ==> ended_parts(#[trigger] s.push(c), sep) == ended_parts(s, sep) && open_part(
                s.push(c),
                sep,
            ) == open_part(s, sep).push(c),
        ended_parts(Seq::empty(), sep).len() == 0,
        open_part(Seq::empty(), sep).len() == 0,
{
    assert(s.push(sep).drop_last() =~= s);
    assert forall|c: char| c != sep implies ended_parts(#[trigger] s.push(c), sep) == ended_parts(
        s,
        sep,
    ) && open_part(s.push(c), sep) == open_part(s, sep).push(c) by {
        assert(s.push(c).drop_last() =~= s);
    }
}

/// The parts are those that a separator ends and, if it has characters, what follows the
/// last one.
pub proof fn lemma_parts(s: Seq<char>, sep: char)
    ensures
        ended_parts(s, sep).is_prefix_of(top_level_parts(s, sep)),
        open_part(s, sep).len() == 0 ==> top_level_parts(s, sep).len() == ended_parts(s, sep).len(),
        open_part(s, sep).len() > 0 ==> top_level_parts(s, sep).len() == ended_parts(s, sep).len()
            + 1 && top_level_parts(s, sep).last() == open_part(s, sep),
{
}

} // verus!

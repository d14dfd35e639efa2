//! Operations on strings, stated over the sequence of their characters.
//!
//! Indices into a string count characters unless a function says otherwise.
use vstd::prelude::*;

verus! {

/// The characters with the Unicode property `White_Space`.
pub open spec fn white(c: char) -> bool {
    let n = c as u32;
    ||| 0x09 <= n <= 0x0d
    ||| n == 0x20
    ||| n == 0x85
    ||| n == 0xa0
    ||| n == 0x1680
    ||| 0x2000 <= n <= 0x200a
    ||| n == 0x2028
    ||| n == 0x2029
    ||| n == 0x202f
    ||| n == 0x205f
    ||| n == 0x3000
}

/// `s` without the white space it begins with.
pub open spec fn trimmed_start(s: Seq<char>) -> Seq<char>
    decreases s.len(),
{
    if s.len() > 0 && white(s[0]) {
        trimmed_start(s.drop_first())
    } else {
        s
    }
}

/// `s` without the white space it ends with.
pub open spec fn trimmed_end(s: Seq<char>) -> Seq<char>
    decreases s.len(),
{
    if s.len() > 0 && white(s.last()) {
        trimmed_end(s.drop_last())
    } else {
        s
    }
}

/// `s` without the white space at both of its ends.
pub open spec fn trimmed(s: Seq<char>) -> Seq<char> {
    trimmed_end(trimmed_start(s))
}

/// Whether `p` occurs in `s` at index `i`.
pub open spec fn matches_at(s: Seq<char>, p: Seq<char>, i: int) -> bool {
    0 <= i && i + p.len() <= s.len() && s.subrange(i, i + p.len()) == p
}

/// The first index from `i` on at which `p` occurs in `s`.
pub open spec fn first_match_from(s: Seq<char>, p: Seq<char>, i: int) -> Option<int>
    decreases s.len() + 1 - i,
{
    if i + p.len() > s.len() {
        None
    } else if matches_at(s, p, i) {
        Some(i)
    } else {
        first_match_from(s, p, i + 1)
    }
}

/// The first index at which `p` occurs in `s`.
pub open spec fn first_match(s: Seq<char>, p: Seq<char>) -> Option<int> {
    first_match_from(s, p, 0)
}

/// The last index not after `i` at which `p` occurs in `s`.
pub open spec fn last_match_to(s: Seq<char>, p: Seq<char>, i: int) -> Option<int>
    decreases i + 1,
{
    if i < 0 {
        None
    } else if matches_at(s, p, i) {
        Some(i)
    } else {
        last_match_to(s, p, i - 1)
    }
}

/// The last index at which `p` occurs in `s`.
pub open spec fn last_match(s: Seq<char>, p: Seq<char>) -> Option<int> {
    last_match_to(s, p, s.len() - p.len())
}

/// Whether `p` occurs in `s`.
pub open spec fn has(s: Seq<char>, p: Seq<char>) -> bool {
    first_match(s, p) is Some
}

/// `s` up to the first occurrence of `p`, the whole of `s` if there is none.
pub open spec fn before(s: Seq<char>, p: Seq<char>) -> Seq<char> {
    match first_match(s, p) {
        Some(i) => s.take(i),
        None => s,
    }
}

/// What follows the last occurrence of `p` in `s`, the whole of `s` if there is none.
pub open spec fn after_last(s: Seq<char>, p: Seq<char>) -> Seq<char> {
    match last_match(s, p) {
        Some(i) => s.skip(i + p.len()),
        None => s,
    }
}

/// `s` without the prefix `p`, if it has that prefix.
pub open spec fn without_prefix(s: Seq<char>, p: Seq<char>) -> Option<Seq<char>> {
    if p.is_prefix_of(s) {
        Some(s.skip(p.len() as int))
    } else {
        None
    }
}

/// `s` without the suffix `p`, if it has that suffix.
pub open spec fn without_suffix(s: Seq<char>, p: Seq<char>) -> Option<Seq<char>> {
    if p.is_suffix_of(s) {
        Some(s.take(s.len() - p.len()))
    } else {
        None
    }
}

/// The pieces of `s` between the occurrences of `p`, found from the left.
pub open spec fn pieces(s: Seq<char>, p: Seq<char>) -> Seq<Seq<char>>
    decreases s.len(),
{
    match first_match(s, p) {
        Some(i) => if p.len() == 0 || i < 0 || i + p.len() > s.len() {
            seq![s]
        } else {
            seq![s.take(i)] + pieces(s.skip(i + p.len()), p)
        },
        None => seq![s],
    }
}

/// `parts` one after the other with `sep` between any two of them.
pub open spec fn joined(parts: Seq<Seq<char>>, sep: Seq<char>) -> Seq<char>
    decreases parts.len(),
{
    if parts.len() == 0 {
        Seq::empty()
    } else {
        let head = parts.drop_last();
        if head.len() == 0 {
            parts.last()
        } else {
            joined(head, sep) + sep + parts.last()
        }
    }
}

/// `parts` one after the other.
pub open spec fn concatenated(parts: Seq<Seq<char>>) -> Seq<char>
    decreases parts.len(),
{
    if parts.len() == 0 {
        Seq::empty()
    } else {
        parts[0] + concatenated(parts.drop_first())
    }
}

/// The line feed as a pattern.
pub open spec fn newline() -> Seq<char> {
    seq!['\n']
}

/// The lines of `s`, each with the line feed that ends it.
pub open spec fn whole_lines(s: Seq<char>) -> Seq<Seq<char>>
    decreases s.len(),
{
    if s.len() == 0 {
        Seq::empty()
    } else {
        match first_match(s, newline()) {
            Some(i) => if i < 0 || i >= s.len() {
                seq![s]
            } else {
                seq![s.take(i + 1)] + whole_lines(s.skip(i + 1))
            },
            None => seq![s],
        }
    }
}

/// A line without the line feed that ends it and without a carriage return
/// right before that line feed.
pub open spec fn bare_line(line: Seq<char>) -> Seq<char> {
    if line.len() > 0 && line.last() == '\n' {
        let body = line.drop_last();
        if body.len() > 0 && body.last() == '\r' {
            body.drop_last()
        } else {
            body
        }
    } else {
        line
    }
}

/// The lines of `s` without their line endings.
pub open spec fn bare_lines(s: Seq<char>) -> Seq<Seq<char>> {
    whole_lines(s).map_values(|line: Seq<char>| bare_line(line))
}

/// The character for a decimal digit.
pub open spec fn digit(d: nat) -> char {
    (48 + d) as char
}

/// The decimal notation of `n`.
pub open spec fn decimal(n: nat) -> Seq<char>
    decreases n,
{
    if n < 10 {
        seq![digit(n)]
    } else {
        decimal(n / 10).push(digit(n % 10))
    }
}

/// `s` with every `from` replaced by `to`.
pub open spec fn replaced(s: Seq<char>, from: char, to: char) -> Seq<char> {
    s.map_values(|c: char| if c == from { to } else { c })
}

/// The characters of `s`.
pub fn chars_of(s: &str) -> (v: Vec<char>)
    ensures
        v@ == s@,
{
    let mut v: Vec<char> = Vec::new();
    for c in it: s.chars()
        invariant
            v@ == it.seq().take(it.index() as int),
            it.seq() == s@,
    {
        v.push(c);
    }
    v
}

/// Whether `c` is white space.
pub fn is_white_space(c: char) -> (b: bool)
    ensures
        b == white(c),
{
    let n: u32 = c as u32;
    (0x09 <= n && n <= 0x0d) || n == 0x20 || n == 0x85 || n == 0xa0 || n == 0x1680 || (0x2000 <= n
        && n <= 0x200a) || n == 0x2028 || n == 0x2029 || n == 0x202f || n == 0x205f || n == 0x3000
}

/// Strips leading white space.
pub fn trim_start(s: &str) -> (r: &str)
    ensures
        r@ == trimmed_start(s@),
{
    let v = chars_of(s);
    let mut i: usize = 0;
    proof {
        assert(s@.skip(0) =~= s@);
    }
    while i < v.len() && is_white_space(v[i])
        invariant
            i <= v.len(),
            v@ == s@,
            trimmed_start(s@) == trimmed_start(s@.skip(i as int)),
        decreases v.len() - i,
    {
        proof {
            assert(s@.skip(i as int).drop_first() =~= s@.skip(i + 1));
        }
        i = i + 1;
    }
    proof {
        assert(s@.subrange(i as int, s@.len() as int) =~= s@.skip(i as int));
    }
    s.substring_char(i, v.len())
}

/// Strips trailing white space.
pub fn trim_end(s: &str) -> (r: &str)
    ensures
        r@ == trimmed_end(s@),
{
    let v = chars_of(s);
    let mut n: usize = v.len();
    proof {
        assert(s@.take(n as int) =~= s@);
    }
    while n > 0 && is_white_space(v[n - 1])
        invariant
            n <= v.len(),
            v@ == s@,
            trimmed_end(s@) == trimmed_end(s@.take(n as int)),
        decreases n,
    {
        proof {
            assert(s@.take(n as int).drop_last() =~= s@.take(n - 1));
        }
        n = n - 1;
    }
    proof {
        assert(s@.subrange(0, n as int) =~= s@.take(n as int));
    }
    s.substring_char(0, n)
}

/// Strips white space at both ends.
pub fn trim(s: &str) -> (r: &str)
    ensures
        r@ == trimmed(s@),
{
    trim_end(trim_start(s))
}

/// Whether `p` occurs in `s` at `i`.
fn occurs_at(s: &Vec<char>, p: &Vec<char>, i: usize) -> (b: bool)
    requires
        i <= s.len(),
    ensures
        b == matches_at(s@, p@, i as int),
{
    if p.len() > s.len() - i {
        return false;
    }
    let mut k: usize = 0;
    while k < p.len()
        invariant
            k <= p.len(),
            i + p.len() <= s.len(),
            forall|j: int| 0 <= j < k ==> s@[i + j] == p@[j],
        decreases p.len() - k,
    {
        if s[i + k] != p[k] {
            proof {
                assert(s@.subrange(i as int, i + p@.len())[k as int] == s@[i + k]);
            }
            return false;
        }
        k = k + 1;
    }
    proof {
        assert(s@.subrange(i as int, i + p@.len()) =~= p@);
    }
    true
}

/// The first index at which `p` occurs in `s`.
pub fn find(s: &str, p: &str) -> (r: Option<usize>)
    ensures
        r is Some <==> first_match(s@, p@) is Some,
        r matches Some(i) ==> first_match(s@, p@) == Some(i as int) && matches_at(s@, p@, i as int),
        s@.len() <= usize::MAX,
{
    let sv = chars_of(s);
    let pv = chars_of(p);
    let mut i: usize = 0;
    while i <= sv.len() && pv.len() <= sv.len() - i
        invariant
            sv@ == s@,
            pv@ == p@,
            i <= sv.len() + 1,
            first_match(s@, p@) == first_match_from(s@, p@, i as int),
        decreases sv.len() + 1 - i,
    {
        if occurs_at(&sv, &pv, i) {
            return Some(i);
        }
        if i == sv.len() {
            proof {
                reveal_with_fuel(first_match_from, 2);
            }
            return None;
        }
        i = i + 1;
    }
    None
}

/// The last index at which `p` occurs in `s`.
pub fn rfind(s: &str, p: &str) -> (r: Option<usize>)
    ensures
        r is Some <==> last_match(s@, p@) is Some,
        r matches Some(i) ==> last_match(s@, p@) == Some(i as int) && matches_at(s@, p@, i as int),
        s@.len() <= usize::MAX,
{
    let sv = chars_of(s);
    let pv = chars_of(p);
    if pv.len() > sv.len() {
        return None;
    }
    let mut i: usize = sv.len() - pv.len();
    loop
        invariant
            sv@ == s@,
            pv@ == p@,
            i + pv.len() <= sv.len(),
            last_match(s@, p@) == last_match_to(s@, p@, i as int),
        decreases i,
    {
        if occurs_at(&sv, &pv, i) {
            return Some(i);
        }
        if i == 0 {
            proof {
                reveal_with_fuel(last_match_to, 2);
            }
            return None;
        }
        i = i - 1;
    }
}

/// Whether `p` occurs in `s`.
pub fn contains(s: &str, p: &str) -> (b: bool)
    ensures
        b == has(s@, p@),
{
    find(s, p).is_some()
}

/// Whether `s` begins with `p`.
pub fn starts_with(s: &str, p: &str) -> (b: bool)
    ensures
        b == p@.is_prefix_of(s@),
{
    let sv = chars_of(s);
    let pv = chars_of(p);
    let b = occurs_at(&sv, &pv, 0);
    b
}

/// Whether two strings have the same characters.
pub fn equal(a: &str, b: &str) -> (r: bool)
    ensures
        r == (a@ == b@),
{
    let av = chars_of(a);
    let bv = chars_of(b);
    if av.len() != bv.len() {
        return false;
    }
    let mut i: usize = 0;
    while i < av.len()
        invariant
            i <= av.len(),
            av.len() == bv.len(),
            av@ == a@,
            bv@ == b@,
            forall|j: int| 0 <= j < i ==> av@[j] == bv@[j],
        decreases av.len() - i,
    {
        if av[i] != bv[i] {
            return false;
        }
        i = i + 1;
    }
    proof {
        assert(a@ =~= b@);
    }
    true
}

/// What follows the prefix `p` of `s`.
pub fn strip_prefix<'a>(s: &'a str, p: &str) -> (r: Option<&'a str>)
    ensures
        r is Some <==> without_prefix(s@, p@) is Some,
        r matches Some(rest) ==> without_prefix(s@, p@) == Some(rest@),
{
    if !starts_with(s, p) {
        return None;
    }
    let from = p.unicode_len();
    let to = s.unicode_len();
    proof {
        assert(s@.subrange(from as int, to as int) =~= s@.skip(from as int));
    }
    Some(s.substring_char(from, to))
}

/// What precedes the suffix `p` of `s`.
pub fn strip_suffix<'a>(s: &'a str, p: &str) -> (r: Option<&'a str>)
    ensures
        r is Some <==> without_suffix(s@, p@) is Some,
        r matches Some(rest) ==> without_suffix(s@, p@) == Some(rest@),
{
    let sv = chars_of(s);
    let pv = chars_of(p);
    if pv.len() > sv.len() {
        return None;
    }
    let to: usize = sv.len() - pv.len();
    proof {
        assert(s@.subrange(to as int, s@.len() as int) == s@.subrange(to as int, to + p@.len()));
        assert(s@.subrange(0, to as int) =~= s@.take(to as int));
    }
    if occurs_at(&sv, &pv, to) {
        Some(s.substring_char(0, to))
    } else {
        None
    }
}

/// The first `n` characters of `s`.
pub fn take(s: &str, n: usize) -> (r: &str)
    requires
        n <= s@.len(),
    ensures
        r@ == s@.take(n as int),
{
    proof {
        assert(s@.subrange(0, n as int) =~= s@.take(n as int));
    }
    s.substring_char(0, n)
}

/// What follows the first `n` characters of `s`.
pub fn skip(s: &str, n: usize) -> (r: &str)
    requires
        n <= s@.len(),
    ensures
        r@ == s@.skip(n as int),
{
    let to = s.unicode_len();
    proof {
        assert(s@.subrange(n as int, to as int) =~= s@.skip(n as int));
    }
    s.substring_char(n, to)
}

/// The pieces of `s` between the occurrences of `p`.
pub fn split<'a>(s: &'a str, p: &str) -> (r: Vec<&'a str>)
    requires
        p@.len() > 0,
    ensures
        r.deep_view() == pieces(s@, p@),
{
    let mut parts: Vec<&'a str> = Vec::new();
    let mut rest: &'a str = s;
    let step = p.unicode_len();
    proof {
        assert(parts.deep_view() + pieces(rest@, p@) =~= pieces(s@, p@));
    }
    loop
        invariant
            p@.len() > 0,
            step == p@.len(),
            parts.deep_view() + pieces(rest@, p@) == pieces(s@, p@),
        decreases rest@.len(),
    {
        let ghost before_parts = parts.deep_view();
        match find(rest, p) {
            None => {
                parts.push(rest);
                proof {
                    assert(parts.deep_view() =~= before_parts + pieces(rest@, p@));
                }
                return parts;
            },
            Some(i) => {
                parts.push(take(rest, i));
                proof {
                    assert(parts.deep_view() =~= before_parts.push(rest@.take(i as int)));
                    assert(parts.deep_view() + pieces(rest@.skip(i + step), p@) =~= before_parts
                        + pieces(rest@, p@));
                }
                rest = skip(rest, i + step);
            },
        }
    }
}

/// The strings of `parts` one after the other with `sep` between them.
pub fn join(parts: &Vec<&str>, sep: &str) -> (r: String)
    ensures
        r@ == joined(parts.deep_view(), sep@),
{
    let mut out = String::new();
    let mut i: usize = 0;
    proof {
        assert(out@ =~= joined(parts.deep_view().take(0), sep@));
    }
    while i < parts.len()
        invariant
            i <= parts.len(),
            out@ == joined(parts.deep_view().take(i as int), sep@),
        decreases parts.len() - i,
    {
        if i > 0 {
            out.append(sep);
        }
        out.append(parts[i]);
        proof {
            let all = parts.deep_view();
            assert(all.take(i + 1).drop_last() =~= all.take(i as int));
            assert(all.take(i + 1).last() == parts[i as int]@);
            if i == 0 {
                assert(all.take(0) =~= Seq::empty());
                assert(out@ =~= joined(all.take(i + 1), sep@));
            }
        }
        i = i + 1;
    }
    proof {
        assert(parts.deep_view().take(i as int) =~= parts.deep_view());
    }
    out
}

/// As `join`, for owned strings.
pub fn join_owned(parts: &Vec<String>, sep: &str) -> (r: String)
    ensures
        r@ == joined(parts.deep_view(), sep@),
{
    let mut refs: Vec<&str> = Vec::new();
    let mut i: usize = 0;
    while i < parts.len()
        invariant
            i <= parts.len(),
            refs.deep_view() == parts.deep_view().take(i as int),
        decreases parts.len() - i,
    {
        let ghost known = refs.deep_view();
        refs.push(parts[i].as_str());
        proof {
            assert(refs.deep_view() =~= known.push(parts[i as int]@));
            assert(parts.deep_view().take(i + 1) =~= parts.deep_view().take(i as int).push(
                parts[i as int]@,
            ));
        }
        i = i + 1;
    }
    proof {
        assert(parts.deep_view().take(i as int) =~= parts.deep_view());
    }
    join(&refs, sep)
}

/// The lines of `s` with their line feeds.
pub fn split_lines_inclusive(s: &str) -> (r: Vec<&str>)
    ensures
        r.deep_view() == whole_lines(s@),
{
    let mut lines: Vec<&str> = Vec::new();
    let mut rest: &str = s;
    proof {
        reveal_strlit("\n");
        assert("\n"@ =~= newline());
        assert(lines.deep_view() + whole_lines(rest@) =~= whole_lines(s@));
    }
    while !rest.is_empty()
        invariant
            "\n"@ == newline(),
            lines.deep_view() + whole_lines(rest@) == whole_lines(s@),
        decreases rest@.len(),
    {
        let ghost known = lines.deep_view();
        match find(rest, "\n") {
            None => {
                lines.push(rest);
                proof {
                    assert(lines.deep_view() =~= known + whole_lines(rest@));
                }
                return lines;
            },
            Some(i) => {
                lines.push(take(rest, i + 1));
                proof {
                    assert(lines.deep_view() =~= known.push(rest@.take(i + 1)));
                    assert(lines.deep_view() + whole_lines(rest@.skip(i + 1)) =~= known
                        + whole_lines(rest@));
                }
                rest = skip(rest, i + 1);
            },
        }
    }
    proof {
        assert(whole_lines(rest@) =~= Seq::empty());
        assert(lines.deep_view() =~= whole_lines(s@));
    }
    lines
}

/// A line without its line ending.
fn strip_line_ending(line: &str) -> (r: &str)
    ensures
        r@ == bare_line(line@),
{
    proof {
        reveal_strlit("\n");
        reveal_strlit("\r");
        assert("\n"@ =~= seq!['\n']);
        assert("\r"@ =~= seq!['\r']);
        if line@.len() > 0 {
            assert(line@.subrange(line@.len() - 1, line@.len() as int) =~= seq![line@.last()]);
            assert(line@.take(line@.len() - 1) =~= line@.drop_last());
            let body = line@.drop_last();
            if body.len() > 0 {
                assert(body.subrange(body.len() - 1, body.len() as int) =~= seq![body.last()]);
                assert(body.take(body.len() - 1) =~= body.drop_last());
            }
        }
        assert(seq!['\n'][0] == '\n');
        assert(seq!['\r'][0] == '\r');
    }
    let Some(body) = strip_suffix(line, "\n") else {
        return line;
    };
    let Some(bare) = strip_suffix(body, "\r") else {
        return body;
    };
    bare
}

/// The lines of `s` without their line endings.
pub fn split_lines(s: &str) -> (r: Vec<&str>)
    ensures
        r.deep_view() == bare_lines(s@),
{
    let whole = split_lines_inclusive(s);
    let mut lines: Vec<&str> = Vec::new();
    let mut i: usize = 0;
    while i < whole.len()
        invariant
            i <= whole.len(),
            whole.deep_view() == whole_lines(s@),
            lines.deep_view() == bare_lines(s@).take(i as int),
        decreases whole.len() - i,
    {
        let ghost known = lines.deep_view();
        lines.push(strip_line_ending(whole[i]));
        proof {
            assert(whole.deep_view()[i as int] == whole[i as int]@);
            assert(lines.deep_view() =~= known.push(bare_line(whole[i as int]@)));
            assert(bare_lines(s@).take(i + 1) =~= bare_lines(s@).take(i as int).push(
                bare_lines(s@)[i as int],
            ));
        }
        i = i + 1;
    }
    proof {
        assert(whole.deep_view().len() == whole.len());
        assert(bare_lines(s@).take(i as int) =~= bare_lines(s@));
    }
    lines
}

/// The decimal notation of `n`.
pub fn decimal_string(n: usize) -> (r: String)
    ensures
        r@ == decimal(n as nat),
    decreases n,
{
    let mut out = if n < 10 {
        String::new()
    } else {
        decimal_string(n / 10)
    };
    let ghost head = out@;
    let d: usize = n % 10;
    proof {
        reveal_strlit("0");
        reveal_strlit("1");
        reveal_strlit("2");
        reveal_strlit("3");
        reveal_strlit("4");
        reveal_strlit("5");
        reveal_strlit("6");
        reveal_strlit("7");
        reveal_strlit("8");
        reveal_strlit("9");
    }
    let symbol = match d {
        0 => "0",
        1 => "1",
        2 => "2",
        3 => "3",
        4 => "4",
        5 => "5",
        6 => "6",
        7 => "7",
        8 => "8",
        _ => "9",
    };
    out.append(symbol);
    proof {
        assert(symbol@ =~= seq![digit(d as nat)]);
        assert(head + symbol@ =~= head.push(digit(d as nat)));
        if n < 10 {
            assert(out@ =~= seq![digit(n as nat)]);
        }
    }
    out
}

/// The decimal notation of a number has digits alone.
pub proof fn lemma_decimal_digits(n: nat)
    ensures
        decimal(n).len() > 0,
        forall|i: int| 0 <= i < decimal(n).len() ==> '0' <= #[trigger] decimal(n)[i] <= '9',
    decreases n,
{
    if n >= 10 {
        lemma_decimal_digits(n / 10);
    }
}

/// Two numbers have different decimal notations.
pub proof fn lemma_decimal_distinct(a: nat, b: nat)
    requires
        a != b,
    ensures
        decimal(a) != decimal(b),
    decreases a,
{
    lemma_decimal_digits(a / 10);
    lemma_decimal_digits(b / 10);
    if a >= 10 && b >= 10 {
        if a / 10 != b / 10 {
            lemma_decimal_distinct(a / 10, b / 10);
            assert(decimal(a).drop_last() =~= decimal(a / 10));
            assert(decimal(b).drop_last() =~= decimal(b / 10));
        } else {
            assert(decimal(a).last() == digit(a % 10));
            assert(decimal(b).last() == digit(b % 10));
        }
    } else if a < 10 && b < 10 {
        assert(decimal(a)[0] == digit(a));
        assert(decimal(b)[0] == digit(b));
    } else {
        assert(decimal(a).len() != decimal(b).len());
    }
}

/// `s` with every dash replaced by an underscore.
pub fn dashes_to_underscores(s: &str) -> (r: String)
    ensures
        r@ == replaced(s@, '-', '_'),
{
    let v = chars_of(s);
    let mut out = String::new();
    let mut i: usize = 0;
    proof {
        reveal_strlit("_");
    }
    while i < v.len()
        invariant
            i <= v.len(),
            v@ == s@,
            "_"@ == seq!['_'],
            out@ == replaced(s@, '-', '_').take(i as int),
        decreases v.len() - i,
    {
        let ghost known = out@;
        if v[i] == '-' {
            out.append("_");
        } else {
            out.append(s.substring_char(i, i + 1));
        }
        proof {
            let whole = replaced(s@, '-', '_');
            assert(s@.subrange(i as int, i + 1) =~= seq![s@[i as int]]);
            assert(out@ =~= known.push(whole[i as int]));
            assert(whole.take(i + 1) =~= whole.take(i as int).push(whole[i as int]));
        }
        i = i + 1;
    }
    proof {
        assert(replaced(s@, '-', '_').take(i as int) =~= replaced(s@, '-', '_'));
    }
    out
}

/// The lines of a text, one after the other, are the text.
pub proof fn lemma_lines_concatenate(s: Seq<char>)
    ensures
        concatenated(whole_lines(s)) == s,
    decreases s.len(),
{
    if s.len() > 0 {
        reveal_with_fuel(concatenated, 2);
        match first_match(s, newline()) {
            Some(i) => if 0 <= i < s.len() {
                let rest = s.skip(i + 1);
                lemma_lines_concatenate(rest);
                assert(whole_lines(s).drop_first() =~= whole_lines(rest));
                assert(s.take(i + 1) + rest =~= s);
            } else {
                assert(whole_lines(s).drop_first() =~= Seq::empty());
                assert(concatenated(whole_lines(s)) =~= s);
            },
            None => {
                assert(whole_lines(s).drop_first() =~= Seq::empty());
                assert(concatenated(whole_lines(s)) =~= s);
            },
        }
    }
}

/// The number of bytes of a character in UTF-8.
pub open spec fn utf8_length(c: char) -> nat {
    let n = c as u32;
    if n < 0x80 {
        1
    } else if n < 0x800 {
        2
    } else if n < 0x10000 {
        3
    } else {
        4
    }
}

/// The number of characters in the first `bytes` bytes of `s` in UTF-8, if a
/// character ends there.
pub open spec fn chars_in_bytes(s: Seq<char>, bytes: nat) -> Option<int>
    decreases s.len(),
{
    if bytes == 0 {
        Some(0)
    } else if s.len() == 0 || utf8_length(s[0]) > bytes {
        None
    } else {
        match chars_in_bytes(s.drop_first(), (bytes - utf8_length(s[0])) as nat) {
            Some(n) => Some(n + 1),
            None => None,
        }
    }
}

/// There are no more characters in the first bytes of a string than in all of it.
pub proof fn lemma_chars_in_bytes(s: Seq<char>, bytes: nat)
    ensures
        chars_in_bytes(s, bytes) matches Some(n) ==> 0 <= n <= s.len(),
    decreases s.len(),
{
    if bytes > 0 && s.len() > 0 && utf8_length(s[0]) <= bytes {
        lemma_chars_in_bytes(s.drop_first(), (bytes - utf8_length(s[0])) as nat);
    }
}

/// How many characters the first bytes hold depends on these characters alone.
pub proof fn lemma_chars_in_bytes_prefix(s: Seq<char>, t: Seq<char>, bytes: nat, n: int)
    requires
        chars_in_bytes(s, bytes) == Some(n),
        n <= t.len(),
        t.take(n) == s.take(n),
    ensures
        chars_in_bytes(t, bytes) == Some(n),
    decreases s.len(),
{
    lemma_chars_in_bytes(s, bytes);
    if bytes > 0 {
        let left = (bytes - utf8_length(s[0])) as nat;
        lemma_chars_in_bytes(s.drop_first(), left);
        assert(s[0] == s.take(n)[0]);
        assert(t[0] == t.take(n)[0]);
        assert(t.drop_first().take(n - 1) =~= t.take(n).drop_first());
        assert(s.drop_first().take(n - 1) =~= s.take(n).drop_first());
        lemma_chars_in_bytes_prefix(s.drop_first(), t.drop_first(), left, n - 1);
    }
}

/// More bytes hold at least as many characters.
pub proof fn lemma_chars_in_bytes_monotone(s: Seq<char>, fewer: nat, more: nat)
    requires
        fewer <= more,
        chars_in_bytes(s, fewer) is Some,
        chars_in_bytes(s, more) is Some,
    ensures
        chars_in_bytes(s, fewer)->Some_0 <= chars_in_bytes(s, more)->Some_0,
    decreases s.len(),
{
    lemma_chars_in_bytes(s, more);
    if fewer > 0 {
        let step = utf8_length(s[0]);
        lemma_chars_in_bytes_monotone(
            s.drop_first(),
            (fewer - step) as nat,
            (more - step) as nat,
        );
    }
}

/// More bytes up to the end of a character hold more characters.
pub proof fn lemma_chars_in_bytes_strict(s: Seq<char>, fewer: nat, more: nat)
    requires
        fewer < more,
        chars_in_bytes(s, fewer) is Some,
        chars_in_bytes(s, more) is Some,
    ensures
        chars_in_bytes(s, fewer)->Some_0 < chars_in_bytes(s, more)->Some_0,
    decreases s.len(),
{
    let rest = s.drop_first();
    let width = utf8_length(s[0]);
    if fewer == 0 {
        lemma_chars_in_bytes(rest, (more - width) as nat);
    } else {
        lemma_chars_in_bytes_strict(rest, (fewer - width) as nat, (more - width) as nat);
    }
}

/// The number of characters in the first `bytes` bytes of `s`.
pub fn count_chars_in_bytes(s: &str, bytes: usize) -> (r: Option<usize>)
    ensures
        r is Some <==> chars_in_bytes(s@, bytes as nat) is Some,
        r matches Some(n) ==> chars_in_bytes(s@, bytes as nat) == Some(n as int) && n <= s@.len(),
{
    let v = chars_of(s);
    let mut left: usize = bytes;
    let mut i: usize = 0;
    proof {
        assert(s@.skip(0) =~= s@);
    }
    while left > 0
        invariant
            i <= v.len(),
            v@ == s@,
            chars_in_bytes(s@, bytes as nat) == match chars_in_bytes(
                s@.skip(i as int),
                left as nat,
            ) {
                Some(n) => Some(n + i),
                None => None,
            },
        decreases left,
    {
        if i == v.len() {
            return None;
        }
        let n: u32 = v[i] as u32;
        let length: usize = if n < 0x80 {
            1
        } else if n < 0x800 {
            2
        } else if n < 0x10000 {
            3
        } else {
            4
        };
        proof {
            assert(s@.skip(i as int)[0] == v@[i as int]);
            assert(s@.skip(i as int).drop_first() =~= s@.skip(i + 1));
        }
        if length > left {
            return None;
        }
        left = left - length;
        i = i + 1;
    }
    Some(i)
}

/// A list of strings is what stands before an index of it and what follows.
pub proof fn lemma_concatenated_split(parts: Seq<Seq<char>>, i: int)
    requires
        0 <= i <= parts.len(),
    ensures
        concatenated(parts) == concatenated(parts.take(i)) + concatenated(
            parts.skip(i),
        ),
    decreases i,
{
    if i == 0 {
        assert(parts.skip(0) =~= parts);
        assert(concatenated(parts.take(0)) =~= Seq::empty());
        assert(Seq::empty() + concatenated(parts) =~= concatenated(parts));
    } else {
        let rest = parts.drop_first();
        lemma_concatenated_split(rest, i - 1);
        assert(parts.take(i).drop_first() =~= rest.take(i - 1));
        assert(parts.skip(i) =~= rest.skip(i - 1));
        assert(parts[0] + (concatenated(rest.take(i - 1)) + concatenated(
            rest.skip(i - 1),
        )) =~= (parts[0] + concatenated(rest.take(i - 1))) + concatenated(
            rest.skip(i - 1),
        ));
    }
}

/// A line of a text has characters, and all but the last line end in a line feed.
/// The last one ends in a line feed if and only if the text does.
pub proof fn lemma_lines_end(s: Seq<char>, i: int)
    requires
        0 <= i < whole_lines(s).len(),
    ensures
        whole_lines(s)[i].len() > 0,
        i < whole_lines(s).len() - 1 ==> whole_lines(s)[i].last() == '\n',
        s.len() > 0,
        whole_lines(s).last().last() == s.last(),
    decreases s.len(),
{
    if s.len() > 0 {
        match first_match(s, newline()) {
            Some(k) => if 0 <= k < s.len() {
                let rest = s.skip(k + 1);
                lemma_first_match(s, newline());
                assert(s.subrange(k, k + 1)[0] == newline()[0]);
                assert(s[k] == '\n');
                assert(s.take(k + 1).last() == '\n');
                if rest.len() == 0 {
                    assert(whole_lines(rest) =~= Seq::empty());
                    assert(k + 1 == s.len());
                } else {
                    lemma_lines_nonempty(rest);
                    let lines = whole_lines(s);
                    let later = whole_lines(rest);
                    lemma_lines_end(rest, 0);
                    assert(lines.last() == later.last());
                    if i > 0 {
                        lemma_lines_end(rest, i - 1);
                        assert(lines[i] == later[i - 1]);
                    }
                }
            },
            None => {},
        }
    }
}

proof fn lemma_lines_nonempty(s: Seq<char>)
    requires
        s.len() > 0,
    ensures
        whole_lines(s).len() > 0,
{
}

/// A first match is a match.
pub proof fn lemma_first_match(s: Seq<char>, p: Seq<char>)
    ensures
        first_match(s, p) matches Some(i) ==> matches_at(s, p, i),
{
    lemma_first_match_from(s, p, 0);
}

proof fn lemma_first_match_from(s: Seq<char>, p: Seq<char>, i: int)
    ensures
        first_match_from(s, p, i) matches Some(k) ==> matches_at(s, p, k),
    decreases s.len() + 1 - i,
{
    if i + p.len() <= s.len() && !matches_at(s, p, i) {
        lemma_first_match_from(s, p, i + 1);
    }
}

/// The first index at which a pattern occurs is the least one.
pub proof fn lemma_first_match_least(s: Seq<char>, p: Seq<char>)
    ensures
        match first_match(s, p) {
            Some(i) => matches_at(s, p, i) && forall|j: int| 0 <= j < i ==> !matches_at(s, p, j),
            None => forall|j: int| 0 <= j ==> !matches_at(s, p, j),
        },
{
    lemma_least_from(s, p, 0);
}

proof fn lemma_least_from(s: Seq<char>, p: Seq<char>, i: int)
    requires
        0 <= i,
    ensures
        match first_match_from(s, p, i) {
            Some(k) => i <= k && matches_at(s, p, k) && forall|j: int|
                i <= j < k ==> !matches_at(s, p, j),
            None => forall|j: int| i <= j ==> !matches_at(s, p, j),
        },
    decreases s.len() + 1 - i,
{
    if i + p.len() <= s.len() && !matches_at(s, p, i) {
        lemma_least_from(s, p, i + 1);
    }
}

/// The last index at which a pattern occurs is the greatest one.
pub proof fn lemma_last_match_greatest(s: Seq<char>, p: Seq<char>)
    ensures
        match last_match(s, p) {
            Some(i) => matches_at(s, p, i) && forall|j: int| i < j ==> !matches_at(s, p, j),
            None => forall|j: int| !matches_at(s, p, j),
        },
{
    lemma_greatest_to(s, p, s.len() - p.len());
}

proof fn lemma_greatest_to(s: Seq<char>, p: Seq<char>, i: int)
    ensures
        match last_match_to(s, p, i) {
            Some(k) => k <= i && matches_at(s, p, k) && forall|j: int|
                k < j <= i ==> !matches_at(s, p, j),
            None => forall|j: int| j <= i ==> !matches_at(s, p, j),
        },
    decreases i + 1,
{
    if i >= 0 && !matches_at(s, p, i) {
        lemma_greatest_to(s, p, i - 1);
    }
}

/// A pattern of one character occurs where that character stands.
pub proof fn lemma_char_matches(s: Seq<char>, c: char)
    ensures
        forall|i: int| #[trigger]
            matches_at(s, seq![c], i) <==> 0 <= i < s.len() && s[i] == c,
{
    assert forall|i: int| #[trigger] matches_at(s, seq![c], i) <==> 0 <= i < s.len() && s[i]
        == c by {
        if 0 <= i < s.len() {
            assert(s.subrange(i, i + 1) =~= seq![s[i]]);
            assert(seq![s[i]][0] == s[i]);
            assert(seq![c][0] == c);
        }
    }
}

/// A string is the white space that it begins with and the rest of it.
pub proof fn lemma_trimmed_start(s: Seq<char>)
    ensures
        trimmed_start(s).len() <= s.len(),
        trimmed_start(s) == s.skip(s.len() - trimmed_start(s).len()),
        forall|i: int| 0 <= i < s.len() - trimmed_start(s).len() ==> white(#[trigger] s[i]),
        trimmed_start(s).len() > 0 ==> !white(trimmed_start(s)[0]),
    decreases s.len(),
{
    let t = trimmed_start(s);
    if s.len() > 0 && white(s[0]) {
        let rest = s.drop_first();
        lemma_trimmed_start(rest);
        assert(rest.skip(rest.len() - t.len()) =~= s.skip(s.len() - t.len()));
        assert forall|i: int| 0 <= i < s.len() - t.len() implies white(#[trigger] s[i]) by {
            if i > 0 {
                assert(rest[i - 1] == s[i]);
            }
        }
    } else {
        assert(s.skip(0) =~= s);
    }
}

/// White space in front of a string does not matter once it is stripped.
pub proof fn lemma_leading_white(w: Seq<char>, s: Seq<char>)
    requires
        forall|i: int| 0 <= i < w.len() ==> white(#[trigger] w[i]),
    ensures
        trimmed_start(w + s) == trimmed_start(s),
    decreases w.len(),
{
    if w.len() == 0 {
        assert(w + s =~= s);
    } else {
        let rest = w.drop_first();
        assert forall|i: int| 0 <= i < rest.len() implies white(#[trigger] rest[i]) by {
            assert(rest[i] == w[i + 1]);
        }
        lemma_leading_white(rest, s);
        assert((w + s).drop_first() =~= rest + s);
        assert((w + s)[0] == w[0]);
    }
}

/// A string is the white space that it ends with and what stands before.
pub proof fn lemma_trimmed_end(s: Seq<char>)
    ensures
        trimmed_end(s).len() <= s.len(),
        trimmed_end(s) == s.take(trimmed_end(s).len() as int),
        forall|i: int| trimmed_end(s).len() <= i < s.len() ==> white(#[trigger] s[i]),
        trimmed_end(s).len() > 0 ==> !white(trimmed_end(s).last()),
    decreases s.len(),
{
    let t = trimmed_end(s);
    if s.len() > 0 && white(s.last()) {
        let rest = s.drop_last();
        lemma_trimmed_end(rest);
        assert(rest.take(t.len() as int) =~= s.take(t.len() as int));
        assert forall|i: int| t.len() <= i < s.len() implies white(#[trigger] s[i]) by {
            if i < rest.len() {
                assert(rest[i] == s[i]);
            }
        }
    } else {
        assert(s.take(s.len() as int) =~= s);
    }
}

/// A stripped string is part of the string, with white space alone around it.
pub proof fn lemma_trimmed(s: Seq<char>) -> (from: int)
    ensures
        0 <= from <= from + trimmed(s).len() <= s.len(),
        trimmed(s) == s.subrange(from, from + trimmed(s).len()),
        forall|i: int| 0 <= i < from ==> white(#[trigger] s[i]),
        forall|i: int| from + trimmed(s).len() <= i < s.len() ==> white(#[trigger] s[i]),
        trimmed(s).len() > 0 ==> !white(trimmed(s)[0]) && !white(trimmed(s).last()),
{
    let inner = trimmed_start(s);
    lemma_trimmed_start(s);
    lemma_trimmed_end(inner);
    let from = s.len() - inner.len();
    let t = trimmed(s);
    assert(t =~= s.subrange(from, from + t.len()));
    assert forall|i: int| from + t.len() <= i < s.len() implies white(#[trigger] s[i]) by {
        assert(inner[i - from] == s[i]);
    }
    if t.len() > 0 {
        assert(t[0] == inner[0]);
    }
    from
}

/// Nothing is stripped from a string without white space at its ends.
pub proof fn lemma_trimmed_fixed(s: Seq<char>)
    requires
        s.len() > 0 ==> !white(s[0]) && !white(s.last()),
    ensures
        trimmed_start(s) == s,
        trimmed_end(s) == s,
        trimmed(s) == s,
{
}

/// Stripping once more changes nothing.
pub proof fn lemma_trimmed_twice(s: Seq<char>)
    ensures
        trimmed(trimmed(s)) == trimmed(s),
{
    let _ = lemma_trimmed(s);
    lemma_trimmed_fixed(trimmed(s));
}

/// The first occurrence of a character.
pub proof fn lemma_first_char(s: Seq<char>, c: char)
    ensures
        match first_match(s, seq![c]) {
            Some(i) => 0 <= i < s.len() && s[i] == c && !s.take(i).contains(c),
            None => !s.contains(c),
        },
{
    lemma_char_matches(s, c);
    lemma_first_match_least(s, seq![c]);
    match first_match(s, seq![c]) {
        Some(i) => {
            assert(matches_at(s, seq![c], i));
            if s.take(i).contains(c) {
                let j = choose|j: int| 0 <= j < i && s.take(i)[j] == c;
                assert(matches_at(s, seq![c], j));
            }
        },
        None => {
            if s.contains(c) {
                let j = choose|j: int| 0 <= j < s.len() && s[j] == c;
                assert(matches_at(s, seq![c], j));
            }
        },
    }
}

/// The last occurrence of a character.
pub proof fn lemma_last_char(s: Seq<char>, c: char)
    ensures
        match last_match(s, seq![c]) {
            Some(i) => 0 <= i < s.len() && s[i] == c && !s.skip(i + 1).contains(c),
            None => !s.contains(c),
        },
{
    lemma_char_matches(s, c);
    lemma_last_match_greatest(s, seq![c]);
    match last_match(s, seq![c]) {
        Some(i) => {
            assert(matches_at(s, seq![c], i));
            let rest = s.skip(i + 1);
            if rest.contains(c) {
                let j = choose|j: int| 0 <= j < rest.len() && rest[j] == c;
                assert(matches_at(s, seq![c], i + 1 + j));
            }
        },
        None => {
            if s.contains(c) {
                let j = choose|j: int| 0 <= j < s.len() && s[j] == c;
                assert(matches_at(s, seq![c], j));
            }
        },
    }
}

/// The first occurrence of a character behind a text without it.
pub proof fn lemma_char_behind(a: Seq<char>, c: char, b: Seq<char>)
    requires
        !a.contains(c),
    ensures
        first_match(a + seq![c] + b, seq![c]) == Some(a.len() as int),
{
    let s = a + seq![c] + b;
    lemma_first_char(s, c);
    assert(s[a.len() as int] == c);
    assert(s.contains(c));
    let i = first_match(s, seq![c])->Some_0;
    if i < a.len() {
        assert(a[i] == s[i]);
    } else if i > a.len() {
        assert(s.take(i)[a.len() as int] == c);
    }
}

/// The last occurrence of a character before a text without it.
pub proof fn lemma_char_before(a: Seq<char>, c: char, b: Seq<char>)
    requires
        !b.contains(c),
    ensures
        last_match(a + seq![c] + b, seq![c]) == Some(a.len() as int),
{
    let s = a + seq![c] + b;
    lemma_last_char(s, c);
    assert(s[a.len() as int] == c);
    assert(s.contains(c));
    let i = last_match(s, seq![c])->Some_0;
    if i > a.len() {
        assert(b[i - a.len() - 1] == s[i]);
    } else if i < a.len() {
        assert(s.skip(i + 1)[a.len() - i - 1] == c);
    }
}

/// Whether `lines` can be the lines of a text: each has characters and no line feed
/// but at its end, and all but the last end in one.
pub open spec fn proper_lines(lines: Seq<Seq<char>>) -> bool {
    &&& forall|i: int|
        0 <= i < lines.len() ==> (#[trigger] lines[i]).len() > 0 && !lines[i].drop_last().contains(
            '\n',
        )
    &&& forall|i: int| 0 <= i < lines.len() - 1 ==> (#[trigger] lines[i]).last() == '\n'
}

/// The lines of a text are proper lines.
pub proof fn lemma_proper_lines(s: Seq<char>)
    ensures
        proper_lines(whole_lines(s)),
    decreases s.len(),
{
    let lines = whole_lines(s);
    if s.len() > 0 {
        lemma_first_char(s, '\n');
        match first_match(s, newline()) {
            Some(k) => {
                let rest = s.skip(k + 1);
                let later = whole_lines(rest);
                lemma_proper_lines(rest);
                assert(s.take(k + 1).drop_last() =~= s.take(k));
                assert(s.take(k + 1).last() == '\n');
                assert forall|i: int| 0 <= i < lines.len() implies (#[trigger] lines[i]).len() > 0
                    && !lines[i].drop_last().contains('\n') by {
                    if i > 0 {
                        assert(lines[i] == later[i - 1]);
                    }
                }
                assert forall|i: int| 0 <= i < lines.len() - 1 implies (#[trigger] lines[i]).last()
                    == '\n' by {
                    if i > 0 {
                        assert(lines[i] == later[i - 1]);
                    }
                }
            },
            None => {
                assert forall|i: int| 0 <= i < lines.len() implies (#[trigger] lines[i]).len() > 0
                    && !lines[i].drop_last().contains('\n') by {
                    let front = s.drop_last();
                    if front.contains('\n') {
                        let j = choose|j: int| 0 <= j < front.len() && front[j] == '\n';
                        assert(s[j] == '\n');
                    }
                }
            },
        }
    }
}

/// A text that ends in a line feed ends in a whole line: what follows begins a new
/// one.
pub proof fn lemma_lines_of_two(a: Seq<char>, b: Seq<char>)
    requires
        a.len() == 0 || a.last() == '\n' || b.len() == 0,
    ensures
        whole_lines(a + b) == whole_lines(a) + whole_lines(b),
    decreases a.len(),
{
    let s = a + b;
    if b.len() == 0 {
        assert(s =~= a);
        assert(whole_lines(b) =~= Seq::empty());
        assert(whole_lines(a) + whole_lines(b) =~= whole_lines(a));
    } else if a.len() == 0 {
        assert(s =~= b);
        assert(whole_lines(a) =~= Seq::empty());
        assert(whole_lines(a) + whole_lines(b) =~= whole_lines(b));
    } else {
        lemma_first_char(a, '\n');
        assert(a.contains(a[a.len() - 1]));
        let k = first_match(a, newline())->Some_0;
        let front = a.take(k);
        let rest = a.skip(k + 1);
        assert(a =~= front + seq!['\n'] + rest);
        assert(s =~= front + seq!['\n'] + (rest + b));
        lemma_char_behind(front, '\n', rest + b);
        assert(first_match(s, newline()) == Some(k));
        assert(s.take(k + 1) =~= a.take(k + 1));
        assert(s.skip(k + 1) =~= rest + b);
        if rest.len() > 0 {
            assert(rest.last() == a.last());
        }
        lemma_lines_of_two(rest, b);
        assert(whole_lines(s) =~= seq![a.take(k + 1)] + (whole_lines(rest) + whole_lines(b)));
        assert(whole_lines(s) =~= whole_lines(a) + whole_lines(b));
    }
}

/// Proper lines are the lines of the text that they make.
pub proof fn lemma_lines_of_lines(lines: Seq<Seq<char>>)
    requires
        proper_lines(lines),
    ensures
        whole_lines(concatenated(lines)) == lines,
    decreases lines.len(),
{
    if lines.len() == 0 {
        assert(whole_lines(concatenated(lines)) =~= lines);
    } else {
        let first = lines[0];
        let rest = lines.drop_first();
        assert forall|i: int| 0 <= i < rest.len() implies (#[trigger] rest[i]).len() > 0
            && !rest[i].drop_last().contains('\n') by {
            assert(rest[i] == lines[i + 1]);
        }
        assert forall|i: int| 0 <= i < rest.len() - 1 implies (#[trigger] rest[i]).last()
            == '\n' by {
            assert(rest[i] == lines[i + 1]);
        }
        lemma_lines_of_lines(rest);
        assert(first.len() > 0 && !first.drop_last().contains('\n'));
        assert(whole_lines(first) =~= seq![first]) by {
            lemma_single_line(first);
        }
        if rest.len() > 0 {
            assert(first.last() == '\n');
        } else {
            assert(concatenated(rest).len() == 0);
        }
        lemma_lines_of_two(first, concatenated(rest));
        assert(seq![first] + rest =~= lines);
    }
}

/// A text without a line feed but at its end is one line.
pub proof fn lemma_single_line(line: Seq<char>)
    requires
        line.len() > 0,
        !line.drop_last().contains('\n'),
    ensures
        whole_lines(line) == seq![line],
{
    lemma_first_char(line, '\n');
    match first_match(line, newline()) {
        Some(k) => {
            if k < line.len() - 1 {
                assert(line.drop_last()[k] == '\n');
            }
            assert(line.take(k + 1) =~= line);
            assert(whole_lines(line.skip(k + 1)) =~= Seq::empty());
            assert(whole_lines(line) =~= seq![line]);
        },
        None => {},
    }
}

/// The pieces of a text, with the separator between them, give the text back.
pub proof fn lemma_pieces_join(s: Seq<char>, p: Seq<char>)
    requires
        p.len() > 0,
    ensures
        pieces(s, p).len() > 0,
        joined(pieces(s, p), p) == s,
        pieces(s, p).len() > 1 <==> has(s, p),
    decreases s.len(),
{
    lemma_first_match(s, p);
    match first_match(s, p) {
        Some(i) => {
            let rest = s.skip(i + p.len());
            let more = pieces(rest, p);
            lemma_pieces_join(rest, p);
            lemma_joined_first(s.take(i), more, p);
            assert(s.subrange(i, i + p.len()) == p);
            assert(s =~= s.take(i) + p + rest);
        },
        None => {
            let one = seq![s];
            assert(one.drop_last() =~= Seq::empty());
        },
    }
}

/// A list of parts joined is its first part, then the others joined.
pub proof fn lemma_joined_first(first: Seq<char>, rest: Seq<Seq<char>>, sep: Seq<char>)
    requires
        rest.len() > 0,
    ensures
        joined(seq![first] + rest, sep) == first + sep + joined(rest, sep),
    decreases rest.len(),
{
    let all = seq![first] + rest;
    let head = rest.drop_last();
    assert(all.drop_last() =~= seq![first] + head);
    assert(all.last() == rest.last());
    if head.len() == 0 {
        assert(all.drop_last() =~= seq![first]);
        assert(seq![first].drop_last() =~= Seq::empty());
        assert(joined(all.drop_last(), sep) == first);
        assert(joined(all, sep) =~= first + sep + joined(rest, sep));
    } else {
        lemma_joined_first(first, head, sep);
        assert(joined(all, sep) =~= first + sep + joined(rest, sep));
    }
}

/// No piece of a text holds the separator.
pub proof fn lemma_pieces_uncut(s: Seq<char>, p: Seq<char>, k: int)
    requires
        p.len() > 0,
        0 <= k < pieces(s, p).len(),
    ensures
        first_match(pieces(s, p)[k], p) is None,
    decreases s.len(),
{
    lemma_first_match(s, p);
    lemma_first_match_least(s, p);
    match first_match(s, p) {
        Some(i) => {
            let rest = s.skip(i + p.len());
            if k > 0 {
                lemma_pieces_uncut(rest, p, k - 1);
                assert(pieces(s, p)[k] == pieces(rest, p)[k - 1]);
            } else {
                let piece = s.take(i);
                assert(pieces(s, p)[0] == piece);
                lemma_first_match(piece, p);
                if let Some(j) = first_match(piece, p) {
                    assert(s.subrange(j, j + p.len()) =~= piece.subrange(j, j + p.len()));
                    assert(matches_at(s, p, j));
                }
            }
        },
        None => {},
    }
}

/// The number that decimal digits stand for.
pub open spec fn number_of(digits: Seq<char>) -> nat
    decreases digits.len(),
{
    if digits.len() == 0 {
        0
    } else {
        number_of(digits.drop_last()) * 10 + (digits.last() as u32 - 48) as nat
    }
}

/// The decimal notation of a number reads as that number, and begins with no zero but
/// for zero itself.
pub proof fn lemma_decimal_reads_back(n: nat)
    ensures
        number_of(decimal(n)) == n,
        decimal(n).len() > 0,
        n > 0 ==> decimal(n)[0] != '0',
    decreases n,
{
    let d = decimal(n);
    assert forall|k: nat| k < 10 implies (#[trigger] digit(k)) as u32 == 48 + k by {}
    if n < 10 {
        assert(d.drop_last() =~= Seq::empty());
        assert(number_of(d.drop_last()) == 0);
        assert(digit(n) as u32 == 48 + n);
    } else {
        lemma_decimal_reads_back(n / 10);
        assert(d.drop_last() =~= decimal(n / 10));
        assert(digit(n % 10) as u32 == 48 + n % 10);
        assert(d[0] == decimal(n / 10)[0]);
    }
}

/// The white space of ASCII is the tab, the line feed, the vertical tab, the form feed,
/// the carriage return and the space; no letter, digit or mark of ASCII is.
pub proof fn lemma_white_of_ascii(c: char)
    requires
        c as u32 <= 0x7f,
    ensures
        white(c) <==> c == '\t' || c == '\n' || c as u32 == 0x0b || c as u32 == 0x0c || c == '\r'
            || c == ' ',
{
}

/// What is left of a string without a prefix is what follows that prefix, and what is left
/// without a suffix is what stands before it; a string without them has no such rest.
pub proof fn lemma_without_ends(p: Seq<char>, s: Seq<char>)
    ensures
        without_prefix(p + s, p) == Some(s),
        without_suffix(s + p, p) == Some(s),
        forall|t: Seq<char>| #[trigger] without_prefix(t, p) matches Some(rest) ==> t == p + rest,
        forall|t: Seq<char>| #[trigger] without_suffix(t, p) matches Some(rest) ==> t == rest + p,
{
    assert((p + s).subrange(0, p.len() as int) =~= p);
    assert((p + s).skip(p.len() as int) =~= s);
    assert((s + p).subrange(s.len() as int, (s + p).len() as int) =~= p);
    assert((s + p).take(s.len() as int) =~= s);
    assert forall|t: Seq<char>| #[trigger] without_prefix(t, p) matches Some(rest) implies t == p
        + without_prefix(t, p)->Some_0 by {
        assert(t =~= t.subrange(0, p.len() as int) + t.skip(p.len() as int));
    }
    assert forall|t: Seq<char>| #[trigger] without_suffix(t, p) matches Some(rest) implies t
        == without_suffix(t, p)->Some_0 + p by {
        assert(t =~= t.take(t.len() - p.len()) + t.subrange(
            t.len() - p.len(),
            t.len() as int,
        ));
    }
}

/// What stands before the first occurrence of a pattern holds no occurrence that ends in
/// it, and the pattern follows it; without an occurrence it is the whole.
pub proof fn lemma_before(s: Seq<char>, p: Seq<char>)
    ensures
        before(s, p).is_prefix_of(s),
        before(s, p) != s ==> matches_at(s, p, before(s, p).len() as int),
        forall|j: int| 0 <= j < before(s, p).len() ==> !matches_at(s, p, j),
{
    lemma_first_match_least(s, p);
}

/// What follows the last occurrence of a pattern stands right behind it, and no occurrence
/// begins after that one; without an occurrence it is the whole.
pub proof fn lemma_after_last(s: Seq<char>, p: Seq<char>)
    ensures
        ({
            let rest = after_last(s, p);
            let at = s.len() - rest.len() - p.len();
            &&& rest.len() <= s.len()
            &&& s.skip(s.len() - rest.len()) == rest
            &&& (forall|j: int| !matches_at(s, p, j)) ==> rest == s
            &&& (exists|j: int| matches_at(s, p, j)) ==> matches_at(s, p, at) && forall|j: int|
                at < j ==> !matches_at(s, p, j)
        }),
{
    lemma_last_match_greatest(s, p);
    let rest = after_last(s, p);
    assert(s.skip(0) =~= s);
    assert(s.skip(s.len() - rest.len()) =~= rest);
}

/// A line keeps all but the line feed that ends it and a carriage return right before
/// that; a line without a line feed keeps all.
pub proof fn lemma_bare_line(s: Seq<char>)
    ensures
        s.len() == 0 || s.last() != '\n' ==> bare_line(s) == s,
        s.len() == 0 || s.last() != '\r' ==> bare_line(s.push('\n')) == s,
        bare_line(s.push('\r').push('\n')) == s,
{
    assert(s.push('\n').drop_last() =~= s);
    assert(s.push('\r').push('\n').drop_last() =~= s.push('\r'));
    assert(s.push('\r').drop_last() =~= s);
}

/// Every line of a text is there without its ending, and in its place.
pub proof fn lemma_each_line_bare(s: Seq<char>)
    ensures
        bare_lines(s).len() == whole_lines(s).len(),
        forall|i: int|
            0 <= i < whole_lines(s).len() ==> #[trigger] bare_lines(s)[i] == bare_line(
                whole_lines(s)[i],
            ),
{
}

/// Each character stays in its place, and just those that are to be replaced are.
pub proof fn lemma_replaced(s: Seq<char>, from: char, to: char)
    ensures
        replaced(s, from, to).len() == s.len(),
        forall|i: int|
            0 <= i < s.len() ==> #[trigger] replaced(s, from, to)[i] == if s[i] == from {
                to
            } else {
                s[i]
            },
{
}

/// The number of bytes of a string in UTF-8.
pub open spec fn byte_count(s: Seq<char>) -> nat
    decreases s.len(),
{
    if s.len() == 0 {
        0
    } else {
        byte_count(s.drop_last()) + if (s.last() as u32) < 0x80 {
            1nat
        } else if (s.last() as u32) < 0x800 {
            2
        } else if (s.last() as u32) < 0x10000 {
            3
        } else {
            4
        }
    }
}

proof fn lemma_byte_count_first(s: Seq<char>)
    requires
        s.len() > 0,
    ensures
        byte_count(s) == utf8_length(s[0]) + byte_count(s.drop_first()),
    decreases s.len(),
{
    if s.len() == 1 {
        assert(s.drop_last() =~= Seq::empty());
        assert(s.drop_first() =~= Seq::empty());
        assert(byte_count(s.drop_last()) == 0);
        assert(byte_count(s.drop_first()) == 0);
    } else {
        let front = s.drop_last();
        lemma_byte_count_first(front);
        assert(front.drop_first() =~= s.drop_first().drop_last());
        assert(s.drop_first().last() == s.last());
    }
}

/// The first bytes of a string hold so many characters exactly if these take up just
/// those bytes.
pub proof fn lemma_chars_take_up_bytes(s: Seq<char>, bytes: nat, n: int)
    requires
        0 <= n <= s.len(),
    ensures
        chars_in_bytes(s, bytes) == Some(n) <==> byte_count(s.take(n)) == bytes,
    decreases s.len(),
{
    if n == 0 {
        assert(byte_count(s.take(0)) == 0);
        if bytes > 0 && s.len() > 0 && utf8_length(s[0]) <= bytes {
            lemma_chars_in_bytes(s.drop_first(), (bytes - utf8_length(s[0])) as nat);
        }
    } else {
        let start = s.take(n);
        lemma_byte_count_first(start);
        assert(start.drop_first() =~= s.drop_first().take(n - 1));
        assert(start[0] == s[0]);
        if bytes >= utf8_length(s[0]) {
            lemma_chars_take_up_bytes(
                s.drop_first(),
                (bytes - utf8_length(s[0])) as nat,
                n - 1,
            );
        }
    }
}

proof fn lemma_no_match_in(s: Seq<char>, p: Seq<char>)
    requires
        p.len() > 0,
        !s.contains(p[0]),
    ensures
        first_match(s, p) is None,
{
    lemma_first_match_least(s, p);
    if let Some(k) = first_match(s, p) {
        assert(s.subrange(k, k + p.len())[0] == p[0]);
        assert(s[k] == p[0]);
    }
}

/// Cutting what was joined gives the parts back, where no part has the character that the
/// separator begins with.
pub proof fn lemma_joined_cut(parts: Seq<Seq<char>>, p: Seq<char>)
    requires
        p.len() > 0,
        parts.len() > 0,
        forall|i: int| 0 <= i < parts.len() ==> !(#[trigger] parts[i]).contains(p[0]),
    ensures
        pieces(joined(parts, p), p) == parts,
    decreases parts.len(),
{
    let first = parts[0];
    let rest = parts.drop_first();
    if rest.len() == 0 {
        assert(parts.drop_last() =~= Seq::empty());
        lemma_no_match_in(first, p);
        assert(joined(parts, p) == first);
        assert(pieces(first, p) =~= parts);
    } else {
        assert forall|i: int| 0 <= i < rest.len() implies !(#[trigger] rest[i]).contains(p[0]) by {
            assert(rest[i] == parts[i + 1]);
        }
        lemma_joined_cut(rest, p);
        lemma_joined_first(first, rest, p);
        assert(seq![first] + rest =~= parts);
        let tail = joined(rest, p);
        let s = first + p + tail;
        let n = first.len() as int;
        assert(joined(parts, p) == s);
        lemma_first_match_least(s, p);
        assert(s.subrange(n, n + p.len()) =~= p);
        assert(matches_at(s, p, n));
        let k = first_match(s, p)->Some_0;
        if k < n {
            assert(s.subrange(k, k + p.len())[0] == p[0]);
            assert(first[k] == p[0]);
        }
        assert(k == n);
        assert(s.take(n) =~= first);
        assert(s.skip(n + p.len()) =~= tail);
        assert(pieces(s, p) =~= parts);
    }
}

} // verus!

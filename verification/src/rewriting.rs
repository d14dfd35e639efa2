//! What the statements bring in that rewriting the reexports gives.
use vstd::prelude::*;

use crate::order;
use crate::reexports;
use crate::reexports::{BindingText, SourceFile};
use crate::sorting;
use crate::strings;
use crate::syntax;
use crate::text;

verus! {

/// The words that begin a `use` statement.
pub open spec fn keyword(is_public: bool) -> Seq<char> {
    if is_public {
        "pub use "@
    } else {
        "pub(crate) use "@
    }
}

proof fn lemma_keyword(is_public: bool, rest: Seq<char>)
    ensures
        ({
            let start = keyword(is_public) + rest;
            &&& text::trimmed_start(start) == start
            &&& text::without_prefix(start, keyword(is_public)) == Some(rest)
            &&& !is_public ==> text::without_prefix(start, "pub use "@) is None
        }),
{
    reveal_strlit("pub use ");
    reveal_strlit("pub(crate) use ");
    let words = keyword(is_public);
    let start = words + rest;
    assert(start[0] == 'p');
    assert(!text::white('p'));
    assert(start.take(words.len() as int) =~= words);
    assert(start.skip(words.len() as int) =~= rest);
    if !is_public {
        assert(start[3] == '(');
        if "pub use "@.is_prefix_of(start) {
            assert(start.take(8)[3] == "pub use "@[3]);
        }
    }
}

proof fn lemma_up_to_semicolon(body: Seq<char>, tail: Seq<char>)
    requires
        !body.contains(';'),
    ensures
        text::first_match(body + ";"@ + tail, ";"@) == Some(body.len() as int),
        (body + ";"@ + tail).take(body.len() as int) == body,
{
    reveal_strlit(";");
    assert(";"@ =~= seq![';']);
    text::lemma_char_behind(body, ';', tail);
    assert((body + ";"@ + tail).take(body.len() as int) =~= body);
}

proof fn lemma_use_parts(
    indent: Seq<char>,
    is_public: bool,
    body: Seq<char>,
    tail: Seq<char>,
    statement: Seq<char>,
)
    requires
        forall|i: int| 0 <= i < indent.len() ==> text::white(#[trigger] indent[i]),
        !body.contains(';'),
        statement == indent + keyword(is_public) + body + ";"@ + tail,
    ensures
        reexports::use_parts(statement) == Some((is_public, text::trimmed(body))),
        reexports::is_use_line(statement),
{
    let rest = body + ";"@ + tail;
    let start = keyword(is_public) + rest;
    assert(statement =~= indent + start);
    text::lemma_leading_white(indent, start);
    lemma_keyword(is_public, rest);
    lemma_up_to_semicolon(body, tail);
}

/// `names` as they stand between the commas of a group, with a space in front of
/// all but the first.
spec fn spaced(names: Seq<Seq<char>>) -> Seq<Seq<char>> {
    Seq::new(
        names.len(),
        |i: int|
            if i == 0 {
                names[0]
            } else {
                " "@ + names[i]
            },
    )
}

/// Whether no group is left open in a name that another one follows.
pub open spec fn closed_names(names: Seq<Seq<char>>) -> bool {
    forall|i: int| 0 <= i < names.len() - 1 ==> syntax::depth(#[trigger] names[i]) == 0
}

proof fn lemma_spaced_name(name: Seq<char>)
    ensures
        syntax::depth(" "@ + name) == syntax::depth(name),
        syntax::ended_parts(" "@ + name, ',').len() == syntax::ended_parts(name, ',').len(),
{
    reveal_strlit(" ");
    syntax::lemma_skeleton(" "@ + name, ',');
    syntax::lemma_skeleton(name, ',');
    syntax::lemma_skeleton_of_two(" "@, name, ',');
    syntax::lemma_no_skeleton(" "@, ',');
    assert(Seq::<char>::empty() + syntax::skeleton(name, ',') =~= syntax::skeleton(name, ','));
}

proof fn lemma_joined_names(names: Seq<Seq<char>>)
    requires
        names.len() > 0,
        closed_names(names),
        forall|i: int|
            0 <= i < names.len() ==> (#[trigger] names[i]).len() > 0 && syntax::ended_parts(
                names[i],
                ',',
            ).len() == 0,
    ensures
        syntax::top_level_parts(text::joined(names, ", "@), ',') == spaced(names),
        syntax::ended_parts(text::joined(names, ", "@), ',') == spaced(names).drop_last(),
        syntax::open_part(text::joined(names, ", "@), ',') == spaced(names).last(),
        syntax::depth(text::joined(names, ", "@)) == syntax::depth(names.last()),
    decreases names.len(),
{
    let whole = text::joined(names, ", "@);
    let head = names.drop_last();
    let last = names.last();
    assert(last == names[names.len() - 1]);
    if head.len() == 0 {
        assert(whole == last);
        syntax::lemma_uncut(last, ',');
        assert(spaced(names) =~= seq![last]);
        assert(syntax::ended_parts(whole, ',') =~= spaced(names).drop_last());
        assert(syntax::top_level_parts(whole, ',') =~= spaced(names));
    } else {
        assert forall|i: int| 0 <= i < head.len() implies (#[trigger] head[i]).len() > 0
            && syntax::ended_parts(head[i], ',').len() == 0 by {
            assert(head[i] == names[i]);
        }
        assert forall|i: int| 0 <= i < head.len() - 1 implies syntax::depth(#[trigger] head[i])
            == 0 by {
            assert(head[i] == names[i]);
        }
        lemma_joined_names(head);
        let front = text::joined(head, ", "@);
        assert(head.last() == names[names.len() - 2]);
        assert(syntax::depth(front) == 0);
        let rest = " "@ + last;
        reveal_strlit(", ");
        reveal_strlit(" ");
        assert(whole =~= front.push(',') + rest);
        syntax::lemma_after_cut(front, rest, ',');
        lemma_spaced_name(last);
        syntax::lemma_uncut(rest, ',');
        assert(spaced(names).drop_last() =~= spaced(head));
        assert(spaced(names).last() == rest);
        assert(spaced(head).drop_last().push(spaced(head).last()) =~= spaced(head));
        assert(syntax::ended_parts(whole, ',') =~= spaced(names).drop_last());
        assert(syntax::top_level_parts(whole, ',') =~= spaced(names));
    }
}

/// What a stripped name is made of: a path and an alias without white space at
/// their ends.
proof fn lemma_alias_parts(segment: Seq<char>)
    requires
        reexports::alias_split(segment).1 is Some,
    ensures
        ({
            let (path, alias) = reexports::alias_split(segment);
            &&& path.len() > 0
            &&& !text::white(path[0]) && !text::white(path.last())
            &&& alias->Some_0.len() > 0
            &&& !text::white(alias->Some_0[0]) && !text::white(alias->Some_0.last())
            &&& !text::has(alias->Some_0, " as "@)
        }),
{
    let s = text::trimmed(segment);
    let pattern = " as "@;
    reveal_strlit(" as ");
    let _ = text::lemma_trimmed(segment);
    text::lemma_last_match_greatest(s, pattern);
    let i = text::last_match(s, pattern)->Some_0;
    let front = s.take(i);
    let back = s.skip(i + 4);
    let alias = text::trimmed(back);
    assert(s.subrange(i, i + 4)[0] == s[i]);
    assert(s.subrange(i, i + 4)[3] == s[i + 3]);
    assert(text::white(' '));
    assert(0 < i);
    assert(i + 4 < s.len());
    let a = text::lemma_trimmed(front);
    let b = text::lemma_trimmed(back);
    assert(front[0] == s[0]);
    assert(back.last() == s.last());
    if text::trimmed(front).len() == 0 {
        assert(text::white(front[0]));
    }
    if alias.len() == 0 {
        assert(text::white(back[back.len() - 1]));
    }
    text::lemma_first_match_least(alias, pattern);
    if text::has(alias, pattern) {
        let k = text::first_match(alias, pattern)->Some_0;
        let l = i + 4 + b + k;
        assert(s.subrange(l, l + 4) =~= alias.subrange(k, k + 4));
        assert(text::matches_at(s, pattern, l));
    }
}

proof fn lemma_last_as(path: Seq<char>, alias: Seq<char>)
    requires
        !text::has(alias, " as "@),
        !"as "@.is_prefix_of(alias),
    ensures
        text::last_match(path + " as "@ + alias, " as "@) == Some(path.len() as int),
{
    let pattern = " as "@;
    let name = path + pattern + alias;
    let at = path.len() as int;
    reveal_strlit(" as ");
    reveal_strlit("as ");
    assert(name.subrange(at, at + 4) =~= pattern);
    assert(text::matches_at(name, pattern, at));
    text::lemma_last_match_greatest(name, pattern);
    let j = text::last_match(name, pattern)->Some_0;
    if j > at {
        let found = name.subrange(j, j + 4);
        assert(found[0] == name[j] && found[1] == name[j + 1] && found[2] == name[j + 2] && found[3]
            == name[j + 3]);
        assert(name[at + 1] == 'a' && name[at + 2] == 's');
        if j == at + 3 {
            assert(alias.take(3) =~= "as "@);
        } else {
            let k = j - at - 4;
            assert(alias.subrange(k, k + 4) =~= found);
            text::lemma_first_match_least(alias, pattern);
            assert(text::matches_at(alias, pattern, k));
        }
    }
}

/// The text of a name reads as the same name again, unless its alias begins with
/// the word `as`.
pub proof fn lemma_name_reads_back(
    module_name: Seq<char>,
    prefix: Seq<char>,
    segment: Seq<char>,
    binding: BindingText,
)
    requires
        reexports::name_binding(module_name, prefix, segment) == Some(binding),
        reexports::alias_split(segment).1 matches Some(alias) ==> !"as "@.is_prefix_of(alias),
    ensures
        reexports::name_binding(module_name, prefix, binding.rendered) == Some(binding),
{
    let (path, alias) = reexports::alias_split(segment);
    let name = reexports::rendered_name(path, alias);
    text::lemma_trimmed_twice(segment);
    if let Some(other) = alias {
        lemma_alias_parts(segment);
        lemma_last_as(path, other);
        text::lemma_trimmed_fixed(path);
        text::lemma_trimmed_fixed(other);
        assert(name[0] == path[0]);
        assert(name.last() == other.last());
        text::lemma_trimmed_fixed(name);
        assert(name.take(path.len() as int) =~= path);
        assert(name.skip((path.len() + " as "@.len()) as int) =~= other);
    }
    assert(reexports::alias_split(name) == (path, alias));
}

/// The texts of the names of `entries`.
spec fn texts(entries: Seq<(Seq<char>, BindingText)>) -> Seq<Seq<char>> {
    entries.map_values(|e: (Seq<char>, BindingText)| e.1.rendered)
}

/// Whether the name of `entry` reads as the same name of the group `prefix` again.
pub open spec fn reads_back(
    module_name: Seq<char>,
    prefix: Seq<char>,
    entry: (Seq<char>, BindingText),
) -> bool {
    reexports::name_binding(module_name, prefix, entry.1.rendered) == Some(entry.1)
}

/// What holds of each name that was read in the group `prefix`.
spec fn plain_entry(
    module_name: Seq<char>,
    entry: (Seq<char>, BindingText),
) -> bool {
    let name = entry.1.rendered;
    &&& entry.0 == reexports::bound_path(module_name, name)
    &&& name.len() > 0
    &&& text::trimmed(name) == name
    &&& syntax::ended_parts(name, ',').len() == 0
    &&& !name.contains('{') && !name.contains('}') && !name.contains(';')
}

proof fn lemma_put_at_end(
    entries: Seq<(Seq<char>, BindingText)>,
    key: Seq<char>,
    value: BindingText,
)
    requires
        forall|i: int| 0 <= i < entries.len() ==> order::precedes((#[trigger] entries[i]).0, key),
    ensures
        strings::put(entries, key, value) == entries.push((key, value)),
    decreases entries.len(),
{
    if entries.len() > 0 {
        let rest = entries.drop_first();
        assert forall|i: int| 0 <= i < rest.len() implies order::precedes(
            (#[trigger] rest[i]).0,
            key,
        ) by {
            assert(rest[i] == entries[i + 1]);
        }
        lemma_put_at_end(rest, key, value);
        assert(order::precedes(entries[0].0, key));
        order::lemma_precedes_irreflexive(key);
        if order::precedes(key, entries[0].0) {
            order::lemma_precedes_transitive(key, entries[0].0, key);
        }
        assert(seq![entries[0]] + rest.push((key, value)) =~= entries.push((key, value)));
    } else {
        assert(strings::put(entries, key, value) =~= entries.push((key, value)));
    }
}

/// The bindings of `list` by their keys, in ascending order.
spec fn collected(list: Seq<(Seq<char>, BindingText)>) -> Seq<(Seq<char>, BindingText)>
    decreases list.len(),
{
    if list.len() == 0 {
        Seq::empty()
    } else {
        strings::put(collected(list.drop_last()), list.last().0, list.last().1)
    }
}

proof fn lemma_collected_ascending(list: Seq<(Seq<char>, BindingText)>)
    requires
        strings::ascending(strings::keys_of(list)),
    ensures
        collected(list) == list,
    decreases list.len(),
{
    if list.len() == 0 {
        assert(list =~= Seq::empty());
    } else {
        let front = list.drop_last();
        let last = list.last();
        let keys = strings::keys_of(list);
        assert forall|i: int, j: int| 0 <= i < j < front.len() implies order::precedes(
            #[trigger] strings::keys_of(front)[i],
            #[trigger] strings::keys_of(front)[j],
        ) by {
            assert(strings::keys_of(front)[i] == keys[i] && strings::keys_of(front)[j] == keys[j]);
        }
        lemma_collected_ascending(front);
        assert forall|i: int| 0 <= i < front.len() implies order::precedes(
            (#[trigger] front[i]).0,
            last.0,
        ) by {
            assert(keys[i] == front[i].0 && keys[list.len() - 1] == last.0);
        }
        lemma_put_at_end(front, last.0, last.1);
        assert(front.push((last.0, last.1)) =~= list);
    }
}

proof fn lemma_spaced_bindings(
    module_name: Seq<char>,
    prefix: Seq<char>,
    list: Seq<(Seq<char>, BindingText)>,
)
    requires
        forall|i: int|
            0 <= i < list.len() ==> plain_entry(module_name, #[trigger] list[i]) && reads_back(
                module_name,
                prefix,
                list[i],
            ),
    ensures
        reexports::segment_bindings(module_name, prefix, spaced(texts(list))) == Some(
            collected(list),
        ),
    decreases list.len(),
{
    let segments = spaced(texts(list));
    if list.len() == 0 {
        assert(segments =~= Seq::empty());
    } else {
        let front = list.drop_last();
        let last = list.last();
        assert(last == list[list.len() - 1]);
        assert forall|i: int| 0 <= i < front.len() implies plain_entry(
            module_name,
            #[trigger] front[i],
        ) && reads_back(module_name, prefix, front[i]) by {
            assert(front[i] == list[i]);
        }
        lemma_spaced_bindings(module_name, prefix, front);
        assert(segments.drop_last() =~= spaced(texts(front)));
        let name = last.1.rendered;
        reveal_strlit(" ");
        let w = " "@;
        assert(text::white(' '));
        assert(text::trimmed(segments.last()) == name) by {
            if list.len() > 1 {
                assert(segments.last() == w + name);
                text::lemma_leading_white(w, name);
            } else {
                assert(segments.last() == name);
            }
        }
    }
}

proof fn lemma_joined_without(names: Seq<Seq<char>>, c: char)
    requires
        c != ',',
        c != ' ',
        forall|i: int| 0 <= i < names.len() ==> !(#[trigger] names[i]).contains(c),
    ensures
        !text::joined(names, ", "@).contains(c),
    decreases names.len(),
{
    let whole = text::joined(names, ", "@);
    if names.len() > 0 {
        let head = names.drop_last();
        assert forall|i: int| 0 <= i < head.len() implies !(#[trigger] head[i]).contains(c) by {
            assert(head[i] == names[i]);
        }
        lemma_joined_without(head, c);
        assert(!names[names.len() - 1].contains(c));
        reveal_strlit(", ");
        if whole.contains(c) {
            let k = choose|k: int| 0 <= k < whole.len() && whole[k] == c;
            if head.len() == 0 {
                assert(names.last().contains(whole[k]));
            } else {
                let front = text::joined(head, ", "@);
                if k < front.len() {
                    assert(front.contains(front[k]));
                } else if k >= front.len() + 2 {
                    assert(names.last().contains(names.last()[k - front.len() - 2]));
                }
            }
        }
    }
}

/// Whether `prefix` can stand in front of a group.
spec fn plain_prefix(prefix: Seq<char>) -> bool {
    &&& !prefix.contains('{')
    &&& !prefix.contains(';')
    &&& text::trimmed(prefix) == prefix
    &&& text::trimmed_end(prefix) == prefix
}

proof fn lemma_contains_of_two(a: Seq<char>, b: Seq<char>, c: char)
    ensures
        (a + b).contains(c) <==> a.contains(c) || b.contains(c),
{
    let s = a + b;
    if s.contains(c) {
        let i = choose|i: int| 0 <= i < s.len() && s[i] == c;
        if i < a.len() {
            assert(a[i] == c);
        } else {
            assert(b[i - a.len()] == c);
        }
    }
    if a.contains(c) {
        let i = choose|i: int| 0 <= i < a.len() && a[i] == c;
        assert(s[i] == c);
    }
    if b.contains(c) {
        let i = choose|i: int| 0 <= i < b.len() && b[i] == c;
        assert(s[a.len() + i] == c);
    }
}

proof fn lemma_group_braces(prefix: Seq<char>, list: Seq<char>, body: Seq<char>)
    requires
        !prefix.contains('{'),
        body == prefix + "::{"@ + list + "}"@,
    ensures
        text::first_match(body, "{"@) == Some(prefix.len() as int + 2),
        text::last_match(body, "}"@) == Some(body.len() - 1),
        body.subrange(prefix.len() as int + 3, body.len() - 1) == list,
        body.take(prefix.len() as int + 2) == prefix + "::"@,
{
    reveal_strlit("::{");
    reveal_strlit("}");
    reveal_strlit("{");
    reveal_strlit("::");
    let head = prefix + "::"@;
    assert("{"@ =~= seq!['{']);
    assert("}"@ =~= seq!['}']);
    assert(body =~= head + seq!['{'] + (list + "}"@));
    assert(body =~= (head + seq!['{'] + list) + seq!['}'] + Seq::<char>::empty());
    lemma_contains_of_two(prefix, "::"@, '{');
    assert(!"::"@.contains('{'));
    text::lemma_char_behind(head, '{', list + "}"@);
    text::lemma_char_before(head + seq!['{'] + list, '}', Seq::empty());
    assert(body.subrange(prefix.len() as int + 3, body.len() - 1) =~= list);
    assert(body.take(prefix.len() as int + 2) =~= head);
}

proof fn lemma_group_edges(prefix: Seq<char>, list: Seq<char>, body: Seq<char>)
    requires
        plain_prefix(prefix),
        !list.contains(';'),
        body == prefix + "::{"@ + list + "}"@,
    ensures
        !body.contains(';'),
        text::trimmed(body) == body,
{
    reveal_strlit("::{");
    reveal_strlit("}");
    lemma_contains_of_two(prefix, "::{"@, ';');
    lemma_contains_of_two(prefix + "::{"@, list, ';');
    lemma_contains_of_two(prefix + "::{"@ + list, "}"@, ';');
    assert(!"::{"@.contains(';'));
    assert(!"}"@.contains(';'));
    assert(body.last() == '}');
    assert(!text::white('}') && !text::white(':'));
    let _ = text::lemma_trimmed(prefix);
    if prefix.len() > 0 {
        assert(body[0] == prefix[0]);
    } else {
        assert(body[0] == ':');
    }
    text::lemma_trimmed_fixed(body);
}

proof fn lemma_group_head(prefix: Seq<char>)
    requires
        plain_prefix(prefix),
    ensures
        ({
            let head = text::trimmed_end(prefix + "::"@);
            &&& text::without_suffix(head, "::"@) == Some(prefix)
            &&& text::trimmed_end(prefix) == prefix
        }),
{
    reveal_strlit("::");
    let head = prefix + "::"@;
    assert(head.last() == ':');
    assert(!text::white(':'));
    assert(text::trimmed_end(head) == head);
    assert(head.subrange(head.len() - 2, head.len() as int) =~= "::"@);
    assert(head.take(head.len() - 2) =~= prefix);
}

proof fn lemma_group_text(prefix: Seq<char>, list: Seq<char>)
    requires
        plain_prefix(prefix),
        !list.contains(';'),
    ensures
        ({
            let body = prefix + "::{"@ + list + "}"@;
            &&& !body.contains(';')
            &&& text::trimmed(body) == body
            &&& text::has(body, "{"@)
            &&& reexports::group_content(body) == Some(list)
            &&& reexports::group_prefix(body) == prefix
            &&& reexports::braces_in_order(body)
        }),
{
    let body = prefix + "::{"@ + list + "}"@;
    reveal_strlit("::{");
    reveal_strlit("}");
    lemma_group_braces(prefix, list, body);
    lemma_group_edges(prefix, list, body);
    lemma_group_head(prefix);
}

proof fn lemma_no_brace(segment: Seq<char>)
    requires
        !segment.contains('{'),
        !segment.contains('}'),
    ensures
        !reexports::has_brace(segment),
{
    reveal_strlit("{");
    reveal_strlit("}");
    assert("{"@ =~= seq!['{']);
    assert("}"@ =~= seq!['}']);
    text::lemma_first_char(segment, '{');
    text::lemma_first_char(segment, '}');
}

/// What a statement with a group brings in, given the names of the group.
proof fn lemma_group_statement(
    module_name: Seq<char>,
    prefix: Seq<char>,
    entries: Seq<(Seq<char>, BindingText)>,
    indent: Seq<char>,
    is_public: bool,
    tail: Seq<char>,
    statement: Seq<char>,
)
    requires
        forall|i: int| 0 <= i < indent.len() ==> text::white(#[trigger] indent[i]),
        plain_prefix(prefix),
        entries.len() > 0,
        forall|i: int|
            0 <= i < entries.len() ==> plain_entry(module_name, #[trigger] entries[i])
                && reads_back(module_name, prefix, entries[i]),
        closed_names(texts(entries)),
        statement == indent + keyword(is_public) + prefix + "::{"@ + text::joined(
            texts(entries),
            ", "@,
        ) + "};"@ + tail,
    ensures
        reexports::parsed_statement(statement, module_name) == Some(
            (is_public, collected(entries)),
        ),
        reexports::statement_in_order(statement),
        reexports::is_use_line(statement),
{
    let names = texts(entries);
    let list = text::joined(names, ", "@);
    let body = prefix + "::{"@ + list + "}"@;
    assert forall|i: int| 0 <= i < names.len() implies (#[trigger] names[i]).len() > 0
        && syntax::ended_parts(names[i], ',').len() == 0 && !names[i].contains('{')
        && !names[i].contains('}') && !names[i].contains(';') by {
        assert(plain_entry(module_name, entries[i]));
    }
    lemma_joined_without(names, '{');
    lemma_joined_without(names, '}');
    lemma_joined_without(names, ';');
    lemma_group_text(prefix, list);
    reveal_strlit("};");
    reveal_strlit("}");
    reveal_strlit(";");
    assert("};"@ =~= "}"@ + ";"@);
    assert(statement =~= indent + keyword(is_public) + body + ";"@ + tail);
    lemma_use_parts(indent, is_public, body, tail, statement);
    lemma_joined_names(names);
    let segments = spaced(names);
    assert forall|i: int| 0 <= i < segments.len() implies !reexports::has_brace(
        #[trigger] segments[i],
    ) by {
        reveal_strlit(" ");
        assert(!names[i].contains('{') && !names[i].contains('}'));
        if i > 0 {
            lemma_contains_of_two(" "@, names[i], '{');
            lemma_contains_of_two(" "@, names[i], '}');
            assert(!" "@.contains('{') && !" "@.contains('}'));
        } else {
            assert(segments[0] == names[0]);
        }
        lemma_no_brace(segments[i]);
    }
    lemma_spaced_bindings(module_name, prefix, entries);
}

/// What holds of the name of a statement without a group.
spec fn single_entry(module_name: Seq<char>, entry: (Seq<char>, BindingText)) -> bool {
    let name = entry.1.rendered;
    &&& entry.0 == reexports::bound_path(module_name, name)
    &&& text::trimmed(name) == name
    &&& !name.contains('{') && !name.contains(';')
}

/// What a statement with one name brings in.
proof fn lemma_single_statement(
    module_name: Seq<char>,
    entry: (Seq<char>, BindingText),
    indent: Seq<char>,
    is_public: bool,
    tail: Seq<char>,
    statement: Seq<char>,
)
    requires
        forall|i: int| 0 <= i < indent.len() ==> text::white(#[trigger] indent[i]),
        single_entry(module_name, entry),
        reads_back(module_name, Seq::empty(), entry),
        statement == indent + keyword(is_public) + entry.1.rendered + ";"@ + tail,
    ensures
        reexports::parsed_statement(statement, module_name) == Some((is_public, seq![entry])),
        reexports::statement_in_order(statement),
        reexports::is_use_line(statement),
{
    let name = entry.1.rendered;
    lemma_use_parts(indent, is_public, name, tail, statement);
    reveal_strlit("{");
    assert("{"@ =~= seq!['{']);
    text::lemma_first_char(name, '{');
    assert(seq![(reexports::bound_path(module_name, name), entry.1)] =~= seq![entry]);
}

proof fn lemma_part_of(s: Seq<char>, from: int, to: int, c: char)
    requires
        0 <= from <= to <= s.len(),
        !s.contains(c),
    ensures
        !s.subrange(from, to).contains(c),
{
    let t = s.subrange(from, to);
    if t.contains(c) {
        let i = choose|i: int| 0 <= i < t.len() && t[i] == c;
        assert(s[from + i] == c);
    }
}

proof fn lemma_trimmed_without(s: Seq<char>, c: char)
    requires
        !s.contains(c),
    ensures
        !text::trimmed(s).contains(c),
{
    let from = text::lemma_trimmed(s);
    lemma_part_of(s, from, from + text::trimmed(s).len(), c);
}

proof fn lemma_as_split(segment: Seq<char>)
    requires
        reexports::alias_split(segment).1 is Some,
    ensures
        ({
            let s = text::trimmed(segment);
            let i = text::last_match(s, " as "@)->Some_0;
            &&& 0 <= i <= i + " as "@.len() <= s.len()
            &&& s == s.take(i) + " as "@ + s.skip(i + " as "@.len())
        }),
{
    let s = text::trimmed(segment);
    text::lemma_last_match_greatest(s, " as "@);
    let i = text::last_match(s, " as "@)->Some_0;
    assert(s =~= s.take(i) + s.subrange(i, i + " as "@.len()) + s.skip(i + " as "@.len()));
}

/// A name has the brackets and commas of the text that it was read from.
proof fn lemma_name_skeleton(segment: Seq<char>)
    ensures
        ({
            let (path, alias) = reexports::alias_split(segment);
            syntax::skeleton(reexports::rendered_name(path, alias), ',') == syntax::skeleton(
                segment,
                ',',
            )
        }),
{
    let (path, alias) = reexports::alias_split(segment);
    let s = text::trimmed(segment);
    syntax::lemma_skeleton_trimmed(segment, ',');
    if let Some(other) = alias {
        let pattern = " as "@;
        lemma_as_split(segment);
        let i = text::last_match(s, pattern)->Some_0;
        let front = s.take(i);
        let back = s.skip(i + pattern.len());
        syntax::lemma_skeleton_trimmed(front, ',');
        syntax::lemma_skeleton_trimmed(back, ',');
        syntax::lemma_skeleton_of_two(front + pattern, back, ',');
        syntax::lemma_skeleton_of_two(front, pattern, ',');
        syntax::lemma_skeleton_of_two(path + pattern, other, ',');
        syntax::lemma_skeleton_of_two(path, pattern, ',');
    }
}

/// A name has no characters but those of the text that it was read from.
proof fn lemma_name_without(segment: Seq<char>, c: char)
    requires
        !segment.contains(c),
        c != ' ',
        c != 'a',
        c != 's',
    ensures
        ({
            let (path, alias) = reexports::alias_split(segment);
            !reexports::rendered_name(path, alias).contains(c)
        }),
{
    let (path, alias) = reexports::alias_split(segment);
    let s = text::trimmed(segment);
    lemma_trimmed_without(segment, c);
    if let Some(other) = alias {
        let pattern = " as "@;
        reveal_strlit(" as ");
        lemma_as_split(segment);
        let i = text::last_match(s, pattern)->Some_0;
        lemma_part_of(s, 0, i, c);
        assert(s.take(i) =~= s.subrange(0, i));
        lemma_part_of(s, i + 4, s.len() as int, c);
        assert(s.skip(i + 4) =~= s.subrange(i + 4, s.len() as int));
        lemma_trimmed_without(s.take(i), c);
        lemma_trimmed_without(s.skip(i + 4), c);
        assert(!pattern.contains(c));
        lemma_contains_of_two(path, pattern, c);
        lemma_contains_of_two(path + pattern, other, c);
    }
}

proof fn lemma_name_trimmed(segment: Seq<char>)
    ensures
        ({
            let (path, alias) = reexports::alias_split(segment);
            let name = reexports::rendered_name(path, alias);
            &&& text::trimmed(name) == name
            &&& text::trimmed(segment).len() > 0 ==> name.len() > 0
        }),
{
    let (path, alias) = reexports::alias_split(segment);
    let name = reexports::rendered_name(path, alias);
    text::lemma_trimmed_twice(segment);
    if let Some(other) = alias {
        lemma_alias_parts(segment);
        assert(name[0] == path[0]);
        assert(name.last() == other.last());
        text::lemma_trimmed_fixed(name);
    }
}

/// What holds of a text from which a name can be read.
spec fn plain_segment(segment: Seq<char>) -> bool {
    &&& syntax::ended_parts(segment, ',').len() == 0
    &&& !segment.contains('{') && !segment.contains('}') && !segment.contains(';')
}

proof fn lemma_plain_entry(
    module_name: Seq<char>,
    prefix: Seq<char>,
    segment: Seq<char>,
    binding: BindingText,
)
    requires
        plain_segment(segment),
        text::trimmed(segment).len() > 0,
        reexports::name_binding(module_name, prefix, segment) == Some(binding),
    ensures
        plain_entry(
            module_name,
            (reexports::bound_path(module_name, binding.rendered), binding),
        ),
{
    let name = binding.rendered;
    lemma_name_trimmed(segment);
    lemma_name_skeleton(segment);
    syntax::lemma_skeleton(segment, ',');
    syntax::lemma_skeleton(name, ',');
    lemma_name_without(segment, '{');
    lemma_name_without(segment, '}');
    lemma_name_without(segment, ';');
}

proof fn lemma_trimmed_segment(segment: Seq<char>)
    requires
        plain_segment(segment),
    ensures
        plain_segment(text::trimmed(segment)),
        text::trimmed(text::trimmed(segment)) == text::trimmed(segment),
{
    syntax::lemma_skeleton_trimmed(segment, ',');
    syntax::lemma_skeleton(segment, ',');
    syntax::lemma_skeleton(text::trimmed(segment), ',');
    lemma_trimmed_without(segment, '{');
    lemma_trimmed_without(segment, '}');
    lemma_trimmed_without(segment, ';');
    text::lemma_trimmed_twice(segment);
}

/// What holds of all names that were read in a group.
proof fn lemma_plain_entries(module_name: Seq<char>, prefix: Seq<char>, segments: Seq<Seq<char>>)
    requires
        forall|i: int| 0 <= i < segments.len() ==> plain_segment(#[trigger] segments[i]),
        reexports::segment_bindings(module_name, prefix, segments) is Some,
    ensures
        ({
            let entries = reexports::segment_bindings(module_name, prefix, segments)->Some_0;
            &&& strings::ascending(strings::keys_of(entries))
            &&& forall|i: int|
                0 <= i < entries.len() ==> plain_entry(module_name, #[trigger] entries[i])
        }),
    decreases segments.len(),
{
    let entries = reexports::segment_bindings(module_name, prefix, segments)->Some_0;
    if segments.len() > 0 {
        let front = segments.drop_last();
        assert forall|i: int| 0 <= i < front.len() implies plain_segment(#[trigger] front[i]) by {
            assert(front[i] == segments[i]);
        }
        lemma_plain_entries(module_name, prefix, front);
        let known = reexports::segment_bindings(module_name, prefix, front)->Some_0;
        let last = segments.last();
        assert(plain_segment(segments[segments.len() - 1]));
        let segment = text::trimmed(last);
        if segment.len() > 0 {
            let binding = reexports::name_binding(module_name, prefix, segment)->Some_0;
            let key = reexports::bound_path(module_name, binding.rendered);
            lemma_trimmed_segment(last);
            lemma_plain_entry(module_name, prefix, segment, binding);
            strings::lemma_put_ascending(known, key, binding);
            assert forall|i: int| 0 <= i < entries.len() implies plain_entry(
                module_name,
                #[trigger] entries[i],
            ) by {
                strings::lemma_put_members(known, key, binding, i);
                if known.contains(entries[i]) {
                    let j = choose|j: int| 0 <= j < known.len() && known[j] == entries[i];
                    assert(plain_entry(module_name, known[j]));
                }
            }
        }
    }
}

proof fn lemma_parts_without(s: Seq<char>, c: char)
    requires
        !s.contains(c),
    ensures
        !syntax::open_part(s, ',').contains(c),
        forall|i: int|
            0 <= i < syntax::ended_parts(s, ',').len() ==> !(#[trigger] syntax::ended_parts(
                s,
                ',',
            )[i]).contains(c),
    decreases s.len(),
{
    if s.len() > 0 {
        let front = s.drop_last();
        assert(front =~= s.subrange(0, s.len() - 1));
        lemma_part_of(s, 0, s.len() - 1, c);
        lemma_parts_without(front, c);
        assert(s.contains(s[s.len() - 1]));
        let part = syntax::open_part(s, ',');
        if part.contains(c) {
            let i = choose|i: int| 0 <= i < part.len() && part[i] == c;
            if i < part.len() - 1 {
                assert(syntax::open_part(front, ',').contains(syntax::open_part(front, ',')[i]));
            }
        }
        let parts = syntax::ended_parts(s, ',');
        let known = syntax::ended_parts(front, ',');
        assert forall|i: int| 0 <= i < parts.len() implies !(#[trigger] parts[i]).contains(c) by {
            if i < known.len() {
                assert(parts[i] == known[i]);
            }
        }
    }
}

/// The parts of a group from which names can be read.
proof fn lemma_plain_segments(group: Seq<char>)
    requires
        !group.contains(';'),
        forall|i: int|
            0 <= i < syntax::top_level_parts(group, ',').len() ==> !reexports::has_brace(
                #[trigger] syntax::top_level_parts(group, ',')[i],
            ),
    ensures
        forall|i: int|
            0 <= i < syntax::top_level_parts(group, ',').len() ==> plain_segment(
                #[trigger] syntax::top_level_parts(group, ',')[i],
            ),
{
    let segments = syntax::top_level_parts(group, ',');
    syntax::lemma_parts_uncut(group, ',');
    lemma_parts_without(group, ';');
    reveal_strlit("{");
    reveal_strlit("}");
    assert("{"@ =~= seq!['{']);
    assert("}"@ =~= seq!['}']);
    assert forall|i: int| 0 <= i < segments.len() implies plain_segment(#[trigger] segments[i]) by {
        assert(!reexports::has_brace(segments[i]));
        text::lemma_first_char(segments[i], '{');
        text::lemma_first_char(segments[i], '}');
        let ended = syntax::ended_parts(group, ',');
        if i < ended.len() {
            assert(segments[i] == ended[i]);
        }
    }
}

/// The hidden ones of `bindings`, or those that are not hidden.
pub open spec fn kept(
    bindings: Seq<(Seq<char>, BindingText)>,
    hints: Seq<Seq<char>>,
    aliases: Seq<(Seq<char>, Seq<char>)>,
    are_hidden: bool,
) -> Seq<(Seq<char>, BindingText)>
    decreases bindings.len(),
{
    if bindings.len() == 0 {
        Seq::empty()
    } else {
        let front = kept(bindings.drop_last(), hints, aliases, are_hidden);
        if reexports::hidden(bindings.last().1, hints, aliases) == are_hidden {
            front.push(bindings.last())
        } else {
            front
        }
    }
}

proof fn lemma_kept(
    bindings: Seq<(Seq<char>, BindingText)>,
    hints: Seq<Seq<char>>,
    aliases: Seq<(Seq<char>, Seq<char>)>,
    are_hidden: bool,
)
    ensures
        texts(kept(bindings, hints, aliases, are_hidden)) == reexports::names_of(
            strings::values_of(bindings),
            hints,
            aliases,
            are_hidden,
        ),
        forall|i: int|
            0 <= i < kept(bindings, hints, aliases, are_hidden).len() ==> bindings.contains(
                #[trigger] kept(bindings, hints, aliases, are_hidden)[i],
            ) && reexports::hidden(
                kept(bindings, hints, aliases, are_hidden)[i].1,
                hints,
                aliases,
            ) == are_hidden,
    decreases bindings.len(),
{
    reveal(Seq::filter);
    let now = kept(bindings, hints, aliases, are_hidden);
    let names = reexports::names_of(strings::values_of(bindings), hints, aliases, are_hidden);
    if bindings.len() == 0 {
        assert(texts(now) =~= names);
    } else {
        let front = bindings.drop_last();
        let known = kept(front, hints, aliases, are_hidden);
        lemma_kept(front, hints, aliases, are_hidden);
        let values = strings::values_of(bindings);
        let n = values.len() - 1;
        assert(values.take(n) =~= strings::values_of(front));
        assert(values.take(n + 1) =~= values);
        assert(values[n] == bindings.last().1);
        reexports::lemma_names_step(values, n, hints, aliases, are_hidden);
        assert(texts(now) =~= names);
        assert forall|i: int| 0 <= i < now.len() implies bindings.contains(#[trigger] now[i])
            && reexports::hidden(now[i].1, hints, aliases) == are_hidden by {
            if i < known.len() {
                assert(now[i] == known[i]);
                let j = choose|j: int| 0 <= j < front.len() && front[j] == known[i];
                assert(bindings[j] == now[i]);
            } else {
                assert(bindings[bindings.len() - 1] == now[i]);
            }
        }
    }
}

proof fn lemma_kept_ascending(
    bindings: Seq<(Seq<char>, BindingText)>,
    hints: Seq<Seq<char>>,
    aliases: Seq<(Seq<char>, Seq<char>)>,
    are_hidden: bool,
)
    requires
        strings::ascending(strings::keys_of(bindings)),
    ensures
        strings::ascending(strings::keys_of(kept(bindings, hints, aliases, are_hidden))),
    decreases bindings.len(),
{
    let now = kept(bindings, hints, aliases, are_hidden);
    if bindings.len() > 0 {
        let front = bindings.drop_last();
        let known = kept(front, hints, aliases, are_hidden);
        let keys = strings::keys_of(bindings);
        assert forall|i: int, j: int| 0 <= i < j < front.len() implies order::precedes(
            #[trigger] strings::keys_of(front)[i],
            #[trigger] strings::keys_of(front)[j],
        ) by {
            assert(keys[i] == strings::keys_of(front)[i] && keys[j] == strings::keys_of(front)[j]);
        }
        lemma_kept_ascending(front, hints, aliases, are_hidden);
        lemma_kept(front, hints, aliases, are_hidden);
        let names = strings::keys_of(now);
        assert forall|i: int, j: int| 0 <= i < j < names.len() implies order::precedes(
            #[trigger] names[i],
            #[trigger] names[j],
        ) by {
            assert(names[i] == strings::keys_of(known)[i]);
            if j < known.len() {
                assert(names[j] == strings::keys_of(known)[j]);
            } else {
                let k = choose|k: int| 0 <= k < front.len() && front[k] == known[i];
                assert(keys[k] == names[i]);
                assert(keys[bindings.len() - 1] == names[j]);
            }
        }
    }
}

proof fn lemma_statement_body(statement: Seq<char>, body: Seq<char>)
    requires
        reexports::use_parts(statement) == Some((true, body)),
    ensures
        reexports::rendered_body(statement) == body,
        text::trimmed(body) == body,
        !body.contains(';'),
{
    reveal_strlit(";");
    assert(";"@ =~= seq![';']);
    let start = text::trimmed_start(statement);
    let rest = text::without_prefix(start, "pub use "@)->Some_0;
    text::lemma_first_char(rest, ';');
    let end = text::first_match(rest, ";"@)->Some_0;
    lemma_trimmed_without(rest.take(end), ';');
    text::lemma_trimmed_twice(rest.take(end));
}

proof fn lemma_body_head(body: Seq<char>, prefix: Seq<char>)
    requires
        text::trimmed(body) == body,
        !body.contains(';'),
        prefix.len() <= body.len(),
        prefix == body.take(prefix.len() as int),
        !prefix.contains('{'),
        text::trimmed_end(prefix) == prefix,
    ensures
        plain_prefix(prefix),
{
    let _ = text::lemma_trimmed(body);
    text::lemma_trimmed_end(prefix);
    lemma_part_of(body, 0, prefix.len() as int, ';');
    assert(prefix =~= body.subrange(0, prefix.len() as int));
    if prefix.len() > 0 {
        assert(prefix[0] == body[0]);
    }
    text::lemma_trimmed_fixed(prefix);
}

proof fn lemma_plain_group_prefix(body: Seq<char>)
    requires
        text::trimmed(body) == body,
        !body.contains(';'),
        text::has(body, "{"@),
    ensures
        plain_prefix(reexports::group_prefix(body)),
{
    reveal_strlit("{");
    assert("{"@ =~= seq!['{']);
    text::lemma_first_char(body, '{');
    let open = text::first_match(body, "{"@)->Some_0;
    let head = body.take(open);
    let trimmed = text::trimmed_end(head);
    text::lemma_trimmed_end(head);
    let stripped = match text::without_suffix(trimmed, "::"@) {
        Some(rest) => rest,
        None => trimmed,
    };
    assert(stripped =~= body.take(stripped.len() as int));
    text::lemma_trimmed_end(stripped);
    let prefix = reexports::group_prefix(body);
    assert(prefix =~= body.take(prefix.len() as int));
    assert(prefix =~= head.subrange(0, prefix.len() as int));
    lemma_part_of(head, 0, prefix.len() as int, '{');
    assert(text::trimmed_end(prefix) == prefix);
    lemma_body_head(body, prefix);
}

proof fn lemma_plain_bindings(
    statement: Seq<char>,
    module_name: Seq<char>,
    bindings: Seq<(Seq<char>, BindingText)>,
)
    requires
        reexports::statement_in_order(statement),
        reexports::parsed_statement(statement, module_name) == Some((true, bindings)),
    ensures
        strings::ascending(strings::keys_of(bindings)),
        !text::has(reexports::rendered_body(statement), "{"@) ==> bindings.len() == 1
            && single_entry(module_name, bindings[0]),
        text::has(reexports::rendered_body(statement), "{"@) ==> forall|i: int|
            0 <= i < bindings.len() ==> plain_entry(module_name, #[trigger] bindings[i]),
{
    let body = reexports::use_parts(statement)->Some_0.1;
    lemma_statement_body(statement, body);
    if text::has(body, "{"@) {
        let group = reexports::group_content(body)->Some_0;
        let segments = syntax::top_level_parts(group, ',');
        reveal_strlit("{");
        reveal_strlit("}");
        assert("{"@ =~= seq!['{']);
        assert("}"@ =~= seq!['}']);
        text::lemma_first_char(body, '{');
        text::lemma_last_char(body, '}');
        let open = text::first_match(body, "{"@)->Some_0;
        let close = text::last_match(body, "}"@)->Some_0;
        lemma_part_of(body, open + 1, close, ';');
        lemma_plain_segments(group);
        lemma_plain_entries(module_name, reexports::group_prefix(body), segments);
    } else {
        assert(strings::keys_of(bindings).len() == 1);
        let segment = text::trimmed(body);
        reveal_strlit("{");
        assert("{"@ =~= seq!['{']);
        text::lemma_first_char(body, '{');
        lemma_name_trimmed(segment);
        lemma_name_without(segment, '{');
        lemma_name_without(segment, ';');
    }
}

/// The path in front of the group of a statement, empty for a statement without
/// one.
pub open spec fn prefix_in(statement: Seq<char>) -> Seq<char> {
    let body = reexports::rendered_body(statement);
    if text::has(body, "{"@) {
        reexports::group_prefix(body)
    } else {
        Seq::empty()
    }
}

/// Whether the hidden names of a statement, or those that are not hidden, can be read
/// again: each reads as the same name, and leaves no group open for those behind it.
pub open spec fn names_readable(
    statement: Seq<char>,
    module_name: Seq<char>,
    hints: Seq<Seq<char>>,
    aliases: Seq<(Seq<char>, Seq<char>)>,
    are_hidden: bool,
) -> bool {
    let bindings = reexports::parsed_statement(statement, module_name)->Some_0.1;
    let values = strings::values_of(bindings);
    &&& forall|i: int|
        0 <= i < bindings.len() && reexports::hidden(bindings[i].1, hints, aliases) == are_hidden
            ==> reads_back(module_name, prefix_in(statement), #[trigger] bindings[i])
    &&& closed_names(reexports::names_of(values, hints, aliases, are_hidden))
}

/// Whether a statement is not rewritten, or rewriting it gives names that can all be
/// read again.
pub open spec fn readable(
    statement: Seq<char>,
    module_name: Seq<char>,
    hints: Seq<Seq<char>>,
    aliases: Seq<(Seq<char>, Seq<char>)>,
) -> bool {
    reexports::new_statement(statement, module_name, hints, aliases) is Some ==> {
        &&& names_readable(statement, module_name, hints, aliases, true)
        &&& names_readable(statement, module_name, hints, aliases, false)
    }
}

/// Whether a statement is not rewritten, or the names that stay public in it can be
/// read again.
pub open spec fn public_readable(
    statement: Seq<char>,
    module_name: Seq<char>,
    hints: Seq<Seq<char>>,
    aliases: Seq<(Seq<char>, Seq<char>)>,
) -> bool {
    reexports::new_statement(statement, module_name, hints, aliases) is Some ==> names_readable(
        statement,
        module_name,
        hints,
        aliases,
        false,
    )
}

/// Whether a statement is not rewritten, or the line for the names that stay public in
/// it is not rewritten in its turn.
pub open spec fn stays_public(
    statement: Seq<char>,
    module_name: Seq<char>,
    hints: Seq<Seq<char>>,
    aliases: Seq<(Seq<char>, Seq<char>)>,
) -> bool {
    reexports::new_statement(statement, module_name, hints, aliases) is Some ==> {
        let bindings = reexports::parsed_statement(statement, module_name)->Some_0.1;
        let values = strings::values_of(bindings);
        let public = reexports::names_of(values, hints, aliases, false);
        let private = reexports::names_of(values, hints, aliases, true);
        let line = reexports::rendered_lines(statement, public, private)[0];
        public.len() > 0 ==> reexports::new_statement(
            line + text::newline(),
            module_name,
            hints,
            aliases,
        ) is None
    }
}

/// The white space that a statement begins with.
spec fn indent_of(statement: Seq<char>) -> Seq<char> {
    statement.take(statement.len() - text::trimmed_start(statement).len())
}

/// What a line brings in that stands for `statement` with the names `names`.
spec fn body_of(statement: Seq<char>, names: Seq<Seq<char>>) -> Seq<char> {
    if text::has(reexports::rendered_body(statement), "{"@) {
        prefix_in(statement) + "::{"@ + text::joined(names, ", "@) + "}"@
    } else {
        names[0]
    }
}

/// The line that stands for `statement` with the names `names`.
spec fn line_of(statement: Seq<char>, names: Seq<Seq<char>>, is_public: bool) -> Seq<char> {
    indent_of(statement) + keyword(is_public) + body_of(statement, names) + ";"@
}

proof fn lemma_rendered_lines(
    statement: Seq<char>,
    public: Seq<Seq<char>>,
    private: Seq<Seq<char>>,
)
    ensures
        reexports::rendered_lines(statement, public, private) == if public.len() > 0 {
            seq![line_of(statement, public, true), line_of(statement, private, false)]
        } else {
            seq![line_of(statement, private, false)]
        },
{
    reveal_strlit("};");
    reveal_strlit("}");
    reveal_strlit(";");
    let lines = reexports::rendered_lines(statement, public, private);
    let hidden = line_of(statement, private, false);
    let shown = line_of(statement, public, true);
    if text::has(reexports::rendered_body(statement), "{"@) {
        assert(lines.last() =~= hidden);
        if public.len() > 0 {
            assert(lines[0] =~= shown);
        }
    }
    if public.len() > 0 {
        assert(lines =~= seq![shown, hidden]);
    } else {
        assert(lines =~= seq![hidden]);
    }
}

/// The line for the hidden bindings of a statement, or for the others, with `tail`
/// behind it.
proof fn lemma_line_reads_back(
    statement: Seq<char>,
    module_name: Seq<char>,
    hints: Seq<Seq<char>>,
    aliases: Seq<(Seq<char>, Seq<char>)>,
    are_hidden: bool,
    tail: Seq<char>,
)
    requires
        reexports::statement_in_order(statement),
        reexports::new_statement(statement, module_name, hints, aliases) is Some,
        names_readable(statement, module_name, hints, aliases, are_hidden),
        kept(
            reexports::parsed_statement(statement, module_name)->Some_0.1,
            hints,
            aliases,
            are_hidden,
        ).len() > 0,
    ensures
        ({
            let bindings = reexports::parsed_statement(statement, module_name)->Some_0.1;
            let names = reexports::names_of(
                strings::values_of(bindings),
                hints,
                aliases,
                are_hidden,
            );
            let line = line_of(statement, names, !are_hidden);
            &&& reexports::parsed_statement(line + tail, module_name) == Some(
                (!are_hidden, kept(bindings, hints, aliases, are_hidden)),
            )
            &&& reexports::statement_in_order(line + tail)
            &&& !body_of(statement, names).contains(';')
        }),
{
    let bindings = reexports::parsed_statement(statement, module_name)->Some_0.1;
    let entries = kept(bindings, hints, aliases, are_hidden);
    let names = reexports::names_of(strings::values_of(bindings), hints, aliases, are_hidden);
    let indent = indent_of(statement);
    let line = line_of(statement, names, !are_hidden);
    let body = reexports::use_parts(statement)->Some_0.1;
    lemma_statement_body(statement, body);
    lemma_plain_bindings(statement, module_name, bindings);
    lemma_kept(bindings, hints, aliases, are_hidden);
    lemma_kept_ascending(bindings, hints, aliases, are_hidden);
    text::lemma_trimmed_start(statement);
    assert forall|i: int| 0 <= i < indent.len() implies text::white(#[trigger] indent[i]) by {
        assert(indent[i] == statement[i]);
    }
    if text::has(body, "{"@) {
        let prefix = prefix_in(statement);
        lemma_plain_group_prefix(body);
        assert forall|i: int| 0 <= i < entries.len() implies plain_entry(
            module_name,
            #[trigger] entries[i],
        ) && reads_back(module_name, prefix, entries[i]) by {
            assert(reexports::hidden(entries[i].1, hints, aliases) == are_hidden);
            let j = choose|j: int| 0 <= j < bindings.len() && bindings[j] == entries[i];
            assert(plain_entry(module_name, bindings[j]));
            assert(reads_back(module_name, prefix, bindings[j]));
        }
        reveal_strlit("};");
        reveal_strlit("}");
        reveal_strlit(";");
        assert(line + tail =~= indent + keyword(!are_hidden) + prefix + "::{"@ + text::joined(
            names,
            ", "@,
        ) + "};"@ + tail);
        lemma_group_statement(
            module_name,
            prefix,
            entries,
            indent,
            !are_hidden,
            tail,
            line + tail,
        );
        lemma_collected_ascending(entries);
        assert forall|i: int| 0 <= i < names.len() implies !(#[trigger] names[i]).contains(';') by {
            assert(names[i] == texts(entries)[i]);
            assert(plain_entry(module_name, entries[i]));
        }
        lemma_joined_without(names, ';');
        lemma_group_text(prefix, text::joined(names, ", "@));
    } else {
        let entry = entries[0];
        let j = choose|j: int| 0 <= j < bindings.len() && bindings[j] == entry;
        assert(bindings[0] == entry);
        assert(entries.len() == 1) by {
            assert(bindings.drop_last() =~= Seq::empty());
            reveal_with_fuel(kept, 2);
        }
        assert(entries =~= seq![entry]);
        assert(names[0] == texts(entries)[0]);
        lemma_single_statement(module_name, entry, indent, !are_hidden, tail, line + tail);
    }
}

/// The line for the hidden names of a statement, or for the others, is a statement,
/// whatever its names read as.
proof fn lemma_line_text(
    statement: Seq<char>,
    module_name: Seq<char>,
    hints: Seq<Seq<char>>,
    aliases: Seq<(Seq<char>, Seq<char>)>,
    are_hidden: bool,
    tail: Seq<char>,
)
    requires
        reexports::statement_in_order(statement),
        reexports::new_statement(statement, module_name, hints, aliases) is Some,
        kept(
            reexports::parsed_statement(statement, module_name)->Some_0.1,
            hints,
            aliases,
            are_hidden,
        ).len() > 0,
    ensures
        ({
            let bindings = reexports::parsed_statement(statement, module_name)->Some_0.1;
            let names = reexports::names_of(
                strings::values_of(bindings),
                hints,
                aliases,
                are_hidden,
            );
            let body = body_of(statement, names);
            let line = line_of(statement, names, !are_hidden);
            &&& !body.contains(';')
            &&& reexports::use_parts(line + tail) == Some((!are_hidden, body))
            &&& reexports::statement_in_order(line + tail)
        }),
{
    let bindings = reexports::parsed_statement(statement, module_name)->Some_0.1;
    let entries = kept(bindings, hints, aliases, are_hidden);
    let names = reexports::names_of(strings::values_of(bindings), hints, aliases, are_hidden);
    let indent = indent_of(statement);
    let line = line_of(statement, names, !are_hidden);
    let body = reexports::use_parts(statement)->Some_0.1;
    lemma_statement_body(statement, body);
    lemma_plain_bindings(statement, module_name, bindings);
    lemma_kept(bindings, hints, aliases, are_hidden);
    text::lemma_trimmed_start(statement);
    assert forall|i: int| 0 <= i < indent.len() implies text::white(#[trigger] indent[i]) by {
        assert(indent[i] == statement[i]);
    }
    if text::has(body, "{"@) {
        lemma_plain_group_prefix(body);
        assert forall|i: int| 0 <= i < names.len() implies !(#[trigger] names[i]).contains(';') by {
            assert(names[i] == texts(entries)[i]);
            assert(bindings.contains(entries[i]));
            let j = choose|j: int| 0 <= j < bindings.len() && bindings[j] == entries[i];
            assert(plain_entry(module_name, bindings[j]));
        }
        lemma_joined_without(names, ';');
        lemma_group_text(prefix_in(statement), text::joined(names, ", "@));
    } else {
        assert(bindings.contains(entries[0]));
        assert(names[0] == texts(entries)[0]);
        reveal_strlit("{");
        assert("{"@ =~= seq!['{']);
        text::lemma_first_char(names[0], '{');
    }
    lemma_use_parts(indent, !are_hidden, body_of(statement, names), tail, line + tail);
}

/// A rewritten statement brings in what the statement did: its last line the hidden
/// names, private to the crate, and a line before it the other names, still public.
/// What follows a line does not matter.
///
/// This leaves out names that do not read as themselves, such as one with an alias
/// that begins with the word `as`.
pub proof fn lemma_rewritten_statement(
    statement: Seq<char>,
    module_name: Seq<char>,
    hints: Seq<Seq<char>>,
    aliases: Seq<(Seq<char>, Seq<char>)>,
    tail: Seq<char>,
)
    requires
        reexports::statement_in_order(statement),
        reexports::new_statement(statement, module_name, hints, aliases) is Some,
        readable(statement, module_name, hints, aliases),
    ensures
        ({
            let bindings = reexports::parsed_statement(statement, module_name)->Some_0.1;
            let values = strings::values_of(bindings);
            let lines = reexports::rendered_lines(
                statement,
                reexports::names_of(values, hints, aliases, false),
                reexports::names_of(values, hints, aliases, true),
            );
            let public = kept(bindings, hints, aliases, false);
            &&& lines.len() == if public.len() > 0 {
                2int
            } else {
                1int
            }
            &&& reexports::parsed_statement(lines.last() + tail, module_name) == Some(
                (false, kept(bindings, hints, aliases, true)),
            )
            &&& public.len() > 0 ==> reexports::parsed_statement(lines[0] + tail, module_name)
                == Some((true, public))
        }),
{
    let bindings = reexports::parsed_statement(statement, module_name)->Some_0.1;
    let values = strings::values_of(bindings);
    let public = reexports::names_of(values, hints, aliases, false);
    let private = reexports::names_of(values, hints, aliases, true);
    let body = reexports::use_parts(statement)->Some_0.1;
    lemma_kept(bindings, hints, aliases, false);
    lemma_kept(bindings, hints, aliases, true);
    lemma_statement_body(statement, body);
    lemma_rendered_lines(statement, public, private);
    lemma_line_reads_back(statement, module_name, hints, aliases, true, tail);
    if public.len() > 0 {
        lemma_line_reads_back(statement, module_name, hints, aliases, false, tail);
    }
}

proof fn lemma_statement_end_at(lines: Seq<Seq<char>>, i: int, n: int)
    requires
        0 <= i < n <= lines.len(),
        forall|j: int| i <= j < n - 1 ==> !text::has(#[trigger] lines[j], ";"@),
        text::has(lines[n - 1], ";"@) || n == lines.len(),
    ensures
        reexports::statement_end(lines, i) == n,
    decreases n - i,
{
    if i < n - 1 {
        assert(!text::has(lines[i], ";"@));
        lemma_statement_end_at(lines, i + 1, n);
    } else {
        reveal_with_fuel(reexports::statement_end, 2);
    }
}

proof fn lemma_statement_lines(lines: Seq<Seq<char>>, i: int)
    requires
        0 <= i < lines.len(),
    ensures
        ({
            let end = reexports::statement_end(lines, i);
            &&& i < end <= lines.len()
            &&& forall|j: int| i <= j < end - 1 ==> !text::has(#[trigger] lines[j], ";"@)
            &&& text::has(lines[end - 1], ";"@) || end == lines.len()
        }),
    decreases lines.len() - i,
{
    reexports::lemma_statement_end(lines, i);
    if !text::has(lines[i], ";"@) {
        if i + 1 < lines.len() {
            lemma_statement_lines(lines, i + 1);
        } else {
            reveal_with_fuel(reexports::statement_end, 2);
        }
    }
}

proof fn lemma_end_behind(front: Seq<Seq<char>>, lines: Seq<Seq<char>>, i: int)
    requires
        0 <= i <= lines.len(),
    ensures
        reexports::statement_end(front + lines, front.len() + i) == front.len()
            + reexports::statement_end(lines, i),
    decreases lines.len() - i,
{
    if i < lines.len() {
        assert((front + lines)[front.len() + i] == lines[i]);
        lemma_end_behind(front, lines, i + 1);
    }
}

/// Lines in front do not change how those behind them are rewritten.
proof fn lemma_rewritten_behind(
    front: Seq<Seq<char>>,
    lines: Seq<Seq<char>>,
    i: int,
    module_name: Seq<char>,
    hints: Seq<Seq<char>>,
    aliases: Seq<(Seq<char>, Seq<char>)>,
)
    requires
        0 <= i <= lines.len(),
    ensures
        ({
            let here = reexports::rewritten_from(lines, i, module_name, hints, aliases);
            let there = reexports::rewritten_from(
                front + lines,
                front.len() + i,
                module_name,
                hints,
                aliases,
            );
            here.0 == there.0 && here.1.len() == there.1.len()
        }),
    decreases lines.len() - i,
{
    let all = front + lines;
    let n = front.len() as int;
    if i < lines.len() {
        assert(all[n + i] == lines[i]);
        if reexports::is_use_line(lines[i]) {
            reexports::lemma_statement_end(lines, i);
            reexports::lemma_statement_end(all, n + i);
            lemma_end_behind(front, lines, i);
            let end = reexports::statement_end(lines, i);
            assert(all.subrange(n + i, n + end) =~= lines.subrange(i, end));
            lemma_rewritten_behind(front, lines, end, module_name, hints, aliases);
        } else {
            lemma_rewritten_behind(front, lines, i + 1, module_name, hints, aliases);
        }
    }
}

/// Whether `chunk` is the text of one statement.
spec fn one_statement(chunk: Seq<char>) -> bool {
    let lines = text::whole_lines(chunk);
    &&& lines.len() > 0
    &&& reexports::is_use_line(lines[0])
    &&& forall|i: int| 0 <= i < lines.len() - 1 ==> !text::has(#[trigger] lines[i], ";"@)
}

/// A statement in front is rewritten for itself.
proof fn lemma_rewritten_in_front(
    chunk: Seq<char>,
    rest: Seq<char>,
    module_name: Seq<char>,
    hints: Seq<Seq<char>>,
    aliases: Seq<(Seq<char>, Seq<char>)>,
)
    requires
        one_statement(chunk),
        chunk.last() == '\n' && text::has(text::whole_lines(chunk).last(), ";"@) || rest.len() == 0,
    ensures
        ({
            let later = reexports::rewritten(rest, module_name, hints, aliases);
            let all = reexports::rewritten(chunk + rest, module_name, hints, aliases);
            match reexports::new_statement(chunk, module_name, hints, aliases) {
                Some(new_text) => all.0 == new_text + later.0 && all.1.len() == later.1.len() + 1,
                None => all.0 == chunk + later.0 && all.1.len() == later.1.len(),
            }
        }),
{
    let front = text::whole_lines(chunk);
    let back = text::whole_lines(rest);
    let lines = front + back;
    let n = front.len() as int;
    text::lemma_lines_of_two(chunk, rest);
    assert(lines[0] == front[0]);
    assert(lines[n - 1] == front[n - 1]);
    assert forall|j: int| 0 <= j < n - 1 implies !text::has(#[trigger] lines[j], ";"@) by {
        assert(lines[j] == front[j]);
    }
    if rest.len() == 0 {
        assert(back =~= Seq::empty());
    }
    lemma_statement_end_at(lines, 0, n);
    assert(lines.subrange(0, n) =~= front);
    text::lemma_lines_concatenate(chunk);
    assert(reexports::statement_at(lines, 0) == chunk);
    lemma_rewritten_behind(front, back, 0, module_name, hints, aliases);
    reexports::lemma_statement_end(lines, 0);
}

proof fn lemma_line_in_front(
    line: Seq<char>,
    rest: Seq<char>,
    module_name: Seq<char>,
    hints: Seq<Seq<char>>,
    aliases: Seq<(Seq<char>, Seq<char>)>,
)
    requires
        text::whole_lines(line) == seq![line],
        !reexports::is_use_line(line),
        line.last() == '\n' || rest.len() == 0,
    ensures
        ({
            let later = reexports::rewritten(rest, module_name, hints, aliases);
            let all = reexports::rewritten(line + rest, module_name, hints, aliases);
            all.0 == line + later.0 && all.1.len() == later.1.len()
        }),
{
    let back = text::whole_lines(rest);
    text::lemma_lines_of_two(line, rest);
    lemma_rewritten_behind(seq![line], back, 0, module_name, hints, aliases);
    let lines = seq![line] + back;
    assert(lines[0] == line);
}

proof fn lemma_lines_without(s: Seq<char>, c: char)
    requires
        !s.contains(c),
    ensures
        forall|i: int|
            0 <= i < text::whole_lines(s).len() ==> !(#[trigger] text::whole_lines(s)[i]).contains(
                c,
            ),
    decreases s.len(),
{
    let lines = text::whole_lines(s);
    if s.len() > 0 {
        text::lemma_first_char(s, '\n');
        match text::first_match(s, text::newline()) {
            Some(k) => {
                let rest = s.skip(k + 1);
                assert(rest =~= s.subrange(k + 1, s.len() as int));
                lemma_part_of(s, k + 1, s.len() as int, c);
                assert(s.take(k + 1) =~= s.subrange(0, k + 1));
                lemma_part_of(s, 0, k + 1, c);
                lemma_lines_without(rest, c);
                let later = text::whole_lines(rest);
                assert forall|i: int| 0 <= i < lines.len() implies !(#[trigger] lines[i]).contains(
                    c,
                ) by {
                    if i > 0 {
                        assert(lines[i] == later[i - 1]);
                    }
                }
            },
            None => {},
        }
    }
}

/// The first line of a text begins with what the text begins with before any line
/// feed.
proof fn lemma_first_line(words: Seq<char>, rest: Seq<char>) -> (more: Seq<char>)
    requires
        words.len() > 0,
        !words.contains('\n'),
    ensures
        text::whole_lines(words + rest).len() > 0,
        text::whole_lines(words + rest)[0] == words + more,
{
    let s = words + rest;
    text::lemma_first_char(s, '\n');
    match text::first_match(s, text::newline()) {
        Some(k) => {
            if k < words.len() {
                assert(words[k] == '\n');
            }
            let more = s.subrange(words.len() as int, k + 1);
            assert(s.take(k + 1) =~= words + more);
            more
        },
        None => rest,
    }
}

proof fn lemma_keyword_line(indent: Seq<char>, is_public: bool, rest: Seq<char>)
    requires
        forall|i: int| 0 <= i < indent.len() ==> text::white(#[trigger] indent[i]),
    ensures
        reexports::is_use_line(indent + keyword(is_public) + rest),
{
    let start = keyword(is_public) + rest;
    assert(indent + keyword(is_public) + rest =~= indent + start);
    text::lemma_leading_white(indent, start);
    lemma_keyword(is_public, rest);
}

/// The part of a text behind its last line feed, and what stands before.
proof fn lemma_last_line(s: Seq<char>) -> (n: int)
    ensures
        0 <= n <= s.len(),
        n == 0 || s[n - 1] == '\n',
        !s.skip(n).contains('\n'),
{
    text::lemma_last_char(s, '\n');
    match text::last_match(s, text::newline()) {
        Some(k) => k + 1,
        None => {
            assert(s.skip(0) =~= s);
            0
        },
    }
}

/// The text of one statement has its semicolon in its last line.
proof fn lemma_statement_text(
    indent: Seq<char>,
    is_public: bool,
    body: Seq<char>,
    tail: Seq<char>,
    chunk: Seq<char>,
)
    requires
        forall|i: int| 0 <= i < indent.len() ==> text::white(#[trigger] indent[i]),
        !indent.contains('\n'),
        !indent.contains(';'),
        !body.contains(';'),
        tail == Seq::<char>::empty() || tail == text::newline(),
        chunk == indent + keyword(is_public) + body + ";"@ + tail,
    ensures
        ({
            let lines = text::whole_lines(chunk);
            &&& lines.len() > 0
            &&& reexports::is_use_line(lines[0])
            &&& forall|i: int| 0 <= i < lines.len() - 1 ==> !text::has(#[trigger] lines[i], ";"@)
            &&& text::has(lines.last(), ";"@)
        }),
{
    reveal_strlit("pub use ");
    reveal_strlit("pub(crate) use ");
    reveal_strlit(";");
    assert(";"@ =~= seq![';']);
    let words = indent + keyword(is_public);
    let lines = text::whole_lines(chunk);
    assert(!keyword(is_public).contains('\n'));
    assert(!keyword(is_public).contains(';'));
    lemma_contains_of_two(indent, keyword(is_public), '\n');
    lemma_contains_of_two(indent, keyword(is_public), ';');
    assert(words.len() > 0);
    let rest = body + ";"@ + tail;
    assert(chunk =~= words + rest);
    let more = lemma_first_line(words, rest);
    lemma_keyword_line(indent, is_public, more);
    let front = words + body;
    lemma_contains_of_two(words, body, ';');
    let n = lemma_last_line(front);
    let before = front.take(n);
    let last = front.skip(n) + ";"@ + tail;
    assert(before =~= front.subrange(0, n));
    lemma_part_of(front, 0, n, ';');
    assert(chunk =~= before + last);
    if n > 0 {
        assert(before.last() == '\n');
    }
    text::lemma_lines_of_two(before, last);
    lemma_contains_of_two(front.skip(n), ";"@, '\n');
    assert(!";"@.contains('\n'));
    if tail.len() == 0 {
        assert(last.drop_last() =~= front.skip(n));
    } else {
        assert(last.drop_last() =~= front.skip(n) + ";"@);
    }
    text::lemma_single_line(last);
    lemma_lines_without(before, ';');
    let early = text::whole_lines(before);
    assert(lines =~= early.push(last));
    assert forall|i: int| 0 <= i < lines.len() - 1 implies !text::has(
        #[trigger] lines[i],
        ";"@,
    ) by {
        assert(lines[i] == early[i]);
        text::lemma_first_char(lines[i], ';');
    }
    text::lemma_first_char(last, ';');
    assert(last[front.len() - n] == ';');
    assert(last.contains(';'));
}

proof fn lemma_none_hidden(
    bindings: Seq<(Seq<char>, BindingText)>,
    hints: Seq<Seq<char>>,
    aliases: Seq<(Seq<char>, Seq<char>)>,
)
    ensures
        reexports::names_of(
            strings::values_of(kept(bindings, hints, aliases, false)),
            hints,
            aliases,
            true,
        ).len() == 0,
{
    let shown = kept(bindings, hints, aliases, false);
    lemma_kept(bindings, hints, aliases, false);
    lemma_kept(shown, hints, aliases, true);
    let both = kept(shown, hints, aliases, true);
    if both.len() > 0 {
        let j = choose|j: int| 0 <= j < shown.len() && shown[j] == both[0];
        assert(shown.contains(both[0]));
        assert(reexports::hidden(shown[j].1, hints, aliases) == false);
        assert(reexports::hidden(both[0].1, hints, aliases) == true);
    }
    assert(texts(both).len() == both.len());
}

/// The white space in front of a statement stands in its first line.
proof fn lemma_indent(line: Seq<char>, more: Seq<char>)
    requires
        reexports::is_use_line(line),
        line.len() > 0,
        !line.drop_last().contains('\n'),
    ensures
        ({
            let indent = indent_of(line + more);
            &&& forall|i: int| 0 <= i < indent.len() ==> text::white(#[trigger] indent[i])
            &&& !indent.contains('\n')
            &&& !indent.contains(';')
        }),
{
    reveal_strlit("pub use ");
    reveal_strlit("pub(crate) use ");
    let start = text::trimmed_start(line);
    let width = line.len() - start.len();
    let white = line.take(width);
    text::lemma_trimmed_start(line);
    assert(line =~= white + start);
    assert(line + more =~= white + (start + more));
    assert forall|i: int| 0 <= i < white.len() implies text::white(#[trigger] white[i]) by {
        assert(white[i] == line[i]);
    }
    text::lemma_leading_white(white, start + more);
    assert(start.len() > 0);
    assert((start + more)[0] == start[0]);
    assert(text::trimmed_start(start + more) == start + more);
    let indent = indent_of(line + more);
    assert(indent =~= white);
    assert(!text::white(';'));
    if indent.contains(';') {
        let i = choose|i: int| 0 <= i < indent.len() && indent[i] == ';';
        assert(text::white(indent[i]));
    }
    if indent.contains('\n') {
        let i = choose|i: int| 0 <= i < indent.len() && indent[i] == '\n';
        assert(line.drop_last()[i] == '\n');
    }
}

/// A line of a rewritten statement is a statement.
proof fn lemma_line_is_statement(
    line: Seq<char>,
    more: Seq<char>,
    module_name: Seq<char>,
    hints: Seq<Seq<char>>,
    aliases: Seq<(Seq<char>, Seq<char>)>,
    are_hidden: bool,
    tail: Seq<char>,
)
    requires
        reexports::is_use_line(line),
        line.len() > 0,
        !line.drop_last().contains('\n'),
        reexports::statement_in_order(line + more),
        reexports::new_statement(line + more, module_name, hints, aliases) is Some,
        kept(
            reexports::parsed_statement(line + more, module_name)->Some_0.1,
            hints,
            aliases,
            are_hidden,
        ).len() > 0,
        tail == Seq::<char>::empty() || tail == text::newline(),
    ensures
        ({
            let bindings = reexports::parsed_statement(line + more, module_name)->Some_0.1;
            let names = reexports::names_of(
                strings::values_of(bindings),
                hints,
                aliases,
                are_hidden,
            );
            let chunk = line_of(line + more, names, !are_hidden) + tail;
            &&& one_statement(chunk)
            &&& reexports::statement_in_order(chunk)
            &&& text::has(text::whole_lines(chunk).last(), ";"@)
            &&& tail == text::newline() ==> chunk.last() == '\n'
            &&& are_hidden ==> reexports::new_statement(
                chunk,
                module_name,
                hints,
                aliases,
            ) is None
        }),
{
    let statement = line + more;
    let bindings = reexports::parsed_statement(statement, module_name)->Some_0.1;
    let names = reexports::names_of(strings::values_of(bindings), hints, aliases, are_hidden);
    let chunk = line_of(statement, names, !are_hidden) + tail;
    lemma_line_text(statement, module_name, hints, aliases, are_hidden, tail);
    lemma_indent(line, more);
    lemma_statement_text(
        indent_of(statement),
        !are_hidden,
        body_of(statement, names),
        tail,
        chunk,
    );
}

/// Names that can be read again stay public.
proof fn lemma_readable_stays_public(
    statement: Seq<char>,
    module_name: Seq<char>,
    hints: Seq<Seq<char>>,
    aliases: Seq<(Seq<char>, Seq<char>)>,
)
    requires
        reexports::statement_in_order(statement),
        public_readable(statement, module_name, hints, aliases),
    ensures
        stays_public(statement, module_name, hints, aliases),
{
    if reexports::new_statement(statement, module_name, hints, aliases) is Some {
        let bindings = reexports::parsed_statement(statement, module_name)->Some_0.1;
        let values = strings::values_of(bindings);
        let public = reexports::names_of(values, hints, aliases, false);
        let private = reexports::names_of(values, hints, aliases, true);
        lemma_kept(bindings, hints, aliases, false);
        lemma_rendered_lines(statement, public, private);
        if public.len() > 0 {
            lemma_line_reads_back(
                statement,
                module_name,
                hints,
                aliases,
                false,
                text::newline(),
            );
            lemma_none_hidden(bindings, hints, aliases);
        }
    }
}

/// What stands for a rewritten statement, in the order of its lines.
proof fn lemma_new_text(
    statement: Seq<char>,
    public: Seq<Seq<char>>,
    private: Seq<Seq<char>>,
    tail: Seq<char>,
)
    requires
        tail == if text::newline().is_suffix_of(statement) {
            text::newline()
        } else {
            Seq::<char>::empty()
        },
    ensures
        reexports::rendered_statement(statement, public, private) == if public.len() > 0 {
            (line_of(statement, public, true) + text::newline()) + (line_of(
                statement,
                private,
                false,
            ) + tail)
        } else {
            line_of(statement, private, false) + tail
        },
{
    reveal_strlit("\n");
    assert("\n"@ =~= text::newline());
    lemma_rendered_lines(statement, public, private);
    let hidden = line_of(statement, private, false);
    let shown = line_of(statement, public, true);
    let lines = reexports::rendered_lines(statement, public, private);
    reveal_with_fuel(text::joined, 3);
    if public.len() > 0 {
        assert(lines.drop_last() =~= seq![shown]);
        assert(seq![shown].drop_last() =~= Seq::empty());
        assert(text::joined(lines, "\n"@) =~= shown + text::newline() + hidden);
        assert(reexports::rendered_statement(statement, public, private) =~= (shown
            + text::newline()) + (hidden + tail));
    } else {
        assert(lines.drop_last() =~= Seq::empty());
        assert(text::joined(lines, "\n"@) =~= hidden);
        assert(reexports::rendered_statement(statement, public, private) =~= hidden + tail);
    }
}

/// Whether all of `statements` give names that can be read again.
pub open spec fn all_readable(
    statements: Seq<Seq<char>>,
    module_name: Seq<char>,
    hints: Seq<Seq<char>>,
    aliases: Seq<(Seq<char>, Seq<char>)>,
) -> bool {
    forall|i: int|
        0 <= i < statements.len() ==> readable(
            #[trigger] statements[i],
            module_name,
            hints,
            aliases,
        )
}

/// Whether in all of `statements` the names that stay public can be read again.
pub open spec fn all_public_readable(
    statements: Seq<Seq<char>>,
    module_name: Seq<char>,
    hints: Seq<Seq<char>>,
    aliases: Seq<(Seq<char>, Seq<char>)>,
) -> bool {
    forall|i: int|
        0 <= i < statements.len() ==> public_readable(
            #[trigger] statements[i],
            module_name,
            hints,
            aliases,
        )
}

/// Whether in all of `statements` the line for the names that stay public is not
/// rewritten in its turn.
pub open spec fn all_stay_public(
    statements: Seq<Seq<char>>,
    module_name: Seq<char>,
    hints: Seq<Seq<char>>,
    aliases: Seq<(Seq<char>, Seq<char>)>,
) -> bool {
    forall|i: int|
        0 <= i < statements.len() ==> stays_public(
            #[trigger] statements[i],
            module_name,
            hints,
            aliases,
        )
}

/// Whether rewriting `source` changes nothing.
spec fn is_final(
    source: Seq<char>,
    module_name: Seq<char>,
    hints: Seq<Seq<char>>,
    aliases: Seq<(Seq<char>, Seq<char>)>,
) -> bool {
    let now = reexports::rewritten(source, module_name, hints, aliases);
    now.0 == source && now.1.len() == 0
}

/// A statement and what follows it are final if both are.
proof fn lemma_final_in_front(
    chunk: Seq<char>,
    rest: Seq<char>,
    module_name: Seq<char>,
    hints: Seq<Seq<char>>,
    aliases: Seq<(Seq<char>, Seq<char>)>,
)
    requires
        one_statement(chunk),
        chunk.last() == '\n' && text::has(text::whole_lines(chunk).last(), ";"@) || rest.len() == 0,
    ensures
        is_final(chunk + rest, module_name, hints, aliases) <==> reexports::new_statement(
            chunk,
            module_name,
            hints,
            aliases,
        ) is None && is_final(rest, module_name, hints, aliases),
{
    lemma_rewritten_in_front(chunk, rest, module_name, hints, aliases);
    let later = reexports::rewritten(rest, module_name, hints, aliases).0;
    if chunk + later == chunk + rest {
        assert(later =~= (chunk + later).skip(chunk.len() as int));
        assert(rest =~= (chunk + rest).skip(chunk.len() as int));
    }
}

proof fn lemma_statement_settles(
    line: Seq<char>,
    more: Seq<char>,
    rest: Seq<char>,
    module_name: Seq<char>,
    hints: Seq<Seq<char>>,
    aliases: Seq<(Seq<char>, Seq<char>)>,
)
    requires
        reexports::is_use_line(line),
        line.len() > 0,
        !line.drop_last().contains('\n'),
        reexports::statement_in_order(line + more),
        reexports::new_statement(line + more, module_name, hints, aliases) is Some,
        (line + more).last() == '\n' || rest.len() == 0,
    ensures
        is_final(
            reexports::new_statement(line + more, module_name, hints, aliases)->Some_0 + rest,
            module_name,
            hints,
            aliases,
        ) <==> stays_public(line + more, module_name, hints, aliases) && is_final(
            rest,
            module_name,
            hints,
            aliases,
        ),
{
    let statement = line + more;
    let bindings = reexports::parsed_statement(statement, module_name)->Some_0.1;
    let values = strings::values_of(bindings);
    let public = reexports::names_of(values, hints, aliases, false);
    let private = reexports::names_of(values, hints, aliases, true);
    let tail = if text::newline().is_suffix_of(statement) {
        text::newline()
    } else {
        Seq::<char>::empty()
    };
    assert(statement.subrange(statement.len() - 1, statement.len() as int) =~= seq![
        statement.last(),
    ]);
    if statement.last() == '\n' {
        assert(text::newline().is_suffix_of(statement));
    }
    lemma_new_text(statement, public, private, tail);
    lemma_rendered_lines(statement, public, private);
    lemma_kept(bindings, hints, aliases, true);
    lemma_kept(bindings, hints, aliases, false);
    lemma_line_is_statement(line, more, module_name, hints, aliases, true, tail);
    let hidden = line_of(statement, private, false) + tail;
    lemma_final_in_front(hidden, rest, module_name, hints, aliases);
    if public.len() > 0 {
        lemma_line_is_statement(line, more, module_name, hints, aliases, false, text::newline());
        let shown = line_of(statement, public, true) + text::newline();
        lemma_final_in_front(shown, hidden + rest, module_name, hints, aliases);
        assert((shown + hidden) + rest =~= shown + (hidden + rest));
    }
}

proof fn lemma_lines_between(lines: Seq<Seq<char>>, from: int, to: int)
    requires
        text::proper_lines(lines),
        0 <= from < to <= lines.len(),
    ensures
        text::whole_lines(text::concatenated(lines.subrange(from, to))) == lines.subrange(from, to),
        to < lines.len() ==> text::concatenated(lines.subrange(from, to)).last() == '\n',
        text::concatenated(lines.subrange(from, to)).len() > 0,
{
    let part = lines.subrange(from, to);
    assert forall|i: int| 0 <= i < part.len() implies (#[trigger] part[i]).len() > 0
        && !part[i].drop_last().contains('\n') by {
        assert(part[i] == lines[from + i]);
    }
    assert forall|i: int| 0 <= i < part.len() - 1 implies (#[trigger] part[i]).last() == '\n' by {
        assert(part[i] == lines[from + i]);
    }
    text::lemma_lines_of_lines(part);
    let s = text::concatenated(part);
    if s.len() == 0 {
        assert(text::whole_lines(s) =~= Seq::empty());
    }
    text::lemma_lines_end(s, 0);
    assert(part.last() == lines[to - 1]);
    if to < lines.len() {
        assert(lines[to - 1].last() == '\n');
    }
}

proof fn lemma_all_stay_public(
    statement: Seq<char>,
    later: Seq<Seq<char>>,
    module_name: Seq<char>,
    hints: Seq<Seq<char>>,
    aliases: Seq<(Seq<char>, Seq<char>)>,
)
    ensures
        all_stay_public(seq![statement] + later, module_name, hints, aliases) <==> stays_public(
            statement,
            module_name,
            hints,
            aliases,
        ) && all_stay_public(later, module_name, hints, aliases),
{
    let all = seq![statement] + later;
    assert(all[0] == statement);
    if all_stay_public(all, module_name, hints, aliases) {
        assert forall|k: int| 0 <= k < later.len() implies stays_public(
            #[trigger] later[k],
            module_name,
            hints,
            aliases,
        ) by {
            assert(all[k + 1] == later[k]);
        }
    }
}

/// The statements that stand for a rewritten one have their braces in order.
proof fn lemma_new_statements_in_order(
    statement: Seq<char>,
    module_name: Seq<char>,
    hints: Seq<Seq<char>>,
    aliases: Seq<(Seq<char>, Seq<char>)>,
)
    requires
        reexports::statement_in_order(statement),
        reexports::new_statement(statement, module_name, hints, aliases) is Some,
    ensures
        reexports::all_in_order(
            new_statements(
                statement,
                reexports::parsed_statement(statement, module_name)->Some_0.1,
                hints,
                aliases,
            ),
        ),
{
    let bindings = reexports::parsed_statement(statement, module_name)->Some_0.1;
    let first = new_statements(statement, bindings, hints, aliases);
    let tail = if text::newline().is_suffix_of(statement) {
        text::newline()
    } else {
        Seq::<char>::empty()
    };
    lemma_kept(bindings, hints, aliases, true);
    lemma_kept(bindings, hints, aliases, false);
    lemma_line_text(statement, module_name, hints, aliases, true, tail);
    if first.len() > 1 {
        lemma_line_text(statement, module_name, hints, aliases, false, text::newline());
    }
}

proof fn lemma_final_from(
    lines: Seq<Seq<char>>,
    i: int,
    module_name: Seq<char>,
    hints: Seq<Seq<char>>,
    aliases: Seq<(Seq<char>, Seq<char>)>,
)
    requires
        0 <= i <= lines.len(),
        text::proper_lines(lines),
        reexports::all_in_order(reexports::statements_from(lines, i)),
    ensures
        ({
            let now = reexports::rewritten_from(lines, i, module_name, hints, aliases).0;
            &&& reexports::all_in_order(reexports::use_statements(now))
            &&& is_final(now, module_name, hints, aliases) <==> all_stay_public(
                reexports::statements_from(lines, i),
                module_name,
                hints,
                aliases,
            )
        }),
    decreases lines.len() - i,
{
    let now = reexports::rewritten_from(lines, i, module_name, hints, aliases).0;
    if i >= lines.len() {
        assert(text::whole_lines(now) =~= Seq::empty());
        assert(reexports::rewritten(now, module_name, hints, aliases).0 =~= now);
    } else if reexports::is_use_line(lines[i]) {
        lemma_statement_lines(lines, i);
        let end = reexports::statement_end(lines, i);
        let statement = reexports::statement_at(lines, i);
        let part = lines.subrange(i, end);
        let here = reexports::statements_from(lines, i);
        let later = reexports::statements_from(lines, end);
        assert(here =~= seq![statement] + later);
        assert(here[0] == statement);
        assert forall|k: int| 0 <= k < later.len() implies reexports::statement_in_order(
            #[trigger] later[k],
        ) by {
            assert(here[k + 1] == later[k]);
        }
        lemma_final_from(lines, end, module_name, hints, aliases);
        lemma_all_stay_public(statement, later, module_name, hints, aliases);
        let rest = reexports::rewritten_from(lines, end, module_name, hints, aliases).0;
        lemma_lines_between(lines, i, end);
        if end == lines.len() {
            assert(rest =~= Seq::empty());
        }
        assert(part[0] == lines[i]);
        if reexports::new_statement(statement, module_name, hints, aliases) is Some {
            let more = text::concatenated(part.drop_first());
            let bindings = reexports::parsed_statement(statement, module_name)->Some_0.1;
            assert(statement =~= lines[i] + more);
            lemma_statement_settles(lines[i], more, rest, module_name, hints, aliases);
            lemma_new_statements(lines[i], more, rest, module_name, hints, aliases);
            lemma_new_statements_in_order(statement, module_name, hints, aliases);
            lemma_all_in_order(
                new_statements(statement, bindings, hints, aliases),
                reexports::use_statements(rest),
            );
        } else {
            assert forall|k: int| 0 <= k < part.len() - 1 implies !text::has(
                #[trigger] part[k],
                ";"@,
            ) by {
                assert(part[k] == lines[i + k]);
            }
            assert(part.last() == lines[end - 1]);
            lemma_final_in_front(statement, rest, module_name, hints, aliases);
            lemma_statement_in_front(statement, rest);
            lemma_all_in_order(seq![statement], reexports::use_statements(rest));
        }
    } else {
        assert(reexports::statements_from(lines, i) == reexports::statements_from(lines, i + 1));
        lemma_final_from(lines, i + 1, module_name, hints, aliases);
        let rest = reexports::rewritten_from(lines, i + 1, module_name, hints, aliases).0;
        assert(lines[i].len() > 0);
        text::lemma_single_line(lines[i]);
        if i + 1 == lines.len() {
            assert(rest =~= Seq::empty());
        } else {
            assert(lines[i].last() == '\n');
        }
        lemma_line_in_front(lines[i], rest, module_name, hints, aliases);
        lemma_no_statement_in_front(lines[i], rest);
        let again = reexports::rewritten(rest, module_name, hints, aliases).0;
        if lines[i] + again == lines[i] + rest {
            assert(again =~= (lines[i] + again).skip(lines[i].len() as int));
            assert(rest =~= (lines[i] + rest).skip(lines[i].len() as int));
        }
    }
}

/// A rewritten source file can be rewritten again, and that changes nothing exactly if
/// no line for names that stayed public is rewritten in its turn. What the hidden names
/// read as does not matter.
pub proof fn lemma_when_rewritten_once(
    source: Seq<char>,
    module_name: Seq<char>,
    hints: Seq<Seq<char>>,
    aliases: Seq<(Seq<char>, Seq<char>)>,
)
    requires
        reexports::all_in_order(reexports::use_statements(source)),
    ensures
        ({
            let now = reexports::rewritten(source, module_name, hints, aliases).0;
            &&& reexports::all_in_order(reexports::use_statements(now))
            &&& reexports::rewritten(now, module_name, hints, aliases) == (
                now,
                Seq::<int>::empty(),
            ) <==> all_stay_public(
                reexports::use_statements(source),
                module_name,
                hints,
                aliases,
            )
        }),
{
    let lines = text::whole_lines(source);
    text::lemma_proper_lines(source);
    lemma_final_from(lines, 0, module_name, hints, aliases);
    let now = reexports::rewritten(source, module_name, hints, aliases).0;
    let again = reexports::rewritten(now, module_name, hints, aliases);
    if again.1.len() == 0 {
        assert(again.1 =~= Seq::<int>::empty());
    }
}

/// Rewriting is done once and for all: a rewritten source file can be rewritten again,
/// has no statement left that would be, and stays the same text.
///
/// This leaves out names that stay public and do not read as themselves, such as one
/// with an alias that begins with the word `as`: read again, they can be names to hide.
pub proof fn lemma_rewritten_once(
    source: Seq<char>,
    module_name: Seq<char>,
    hints: Seq<Seq<char>>,
    aliases: Seq<(Seq<char>, Seq<char>)>,
)
    requires
        reexports::all_in_order(reexports::use_statements(source)),
        all_public_readable(reexports::use_statements(source), module_name, hints, aliases),
    ensures
        ({
            let now = reexports::rewritten(source, module_name, hints, aliases).0;
            &&& reexports::all_in_order(reexports::use_statements(now))
            &&& reexports::rewritten(now, module_name, hints, aliases) == (
                now,
                Seq::<int>::empty(),
            )
        }),
{
    let statements = reexports::use_statements(source);
    assert forall|i: int| 0 <= i < statements.len() implies stays_public(
        #[trigger] statements[i],
        module_name,
        hints,
        aliases,
    ) by {
        assert(reexports::statement_in_order(statements[i]));
        assert(public_readable(statements[i], module_name, hints, aliases));
        lemma_readable_stays_public(statements[i], module_name, hints, aliases);
    }
    lemma_when_rewritten_once(source, module_name, hints, aliases);
}

/// Lines in front do not change which statements begin behind them.
proof fn lemma_statements_behind(front: Seq<Seq<char>>, lines: Seq<Seq<char>>, i: int)
    requires
        0 <= i <= lines.len(),
    ensures
        reexports::statements_from(front + lines, front.len() + i) == reexports::statements_from(
            lines,
            i,
        ),
    decreases lines.len() - i,
{
    let all = front + lines;
    let n = front.len() as int;
    if i < lines.len() {
        assert(all[n + i] == lines[i]);
        if reexports::is_use_line(lines[i]) {
            reexports::lemma_statement_end(lines, i);
            reexports::lemma_statement_end(all, n + i);
            lemma_end_behind(front, lines, i);
            let end = reexports::statement_end(lines, i);
            assert(all.subrange(n + i, n + end) =~= lines.subrange(i, end));
            lemma_statements_behind(front, lines, end);
        } else {
            lemma_statements_behind(front, lines, i + 1);
        }
    }
}

proof fn lemma_statement_in_front(chunk: Seq<char>, rest: Seq<char>)
    requires
        one_statement(chunk),
        chunk.last() == '\n' && text::has(text::whole_lines(chunk).last(), ";"@) || rest.len() == 0,
    ensures
        reexports::use_statements(chunk + rest) == seq![chunk] + reexports::use_statements(rest),
{
    let front = text::whole_lines(chunk);
    let back = text::whole_lines(rest);
    let lines = front + back;
    let n = front.len() as int;
    text::lemma_lines_of_two(chunk, rest);
    assert(lines[0] == front[0]);
    assert(lines[n - 1] == front[n - 1]);
    assert forall|j: int| 0 <= j < n - 1 implies !text::has(#[trigger] lines[j], ";"@) by {
        assert(lines[j] == front[j]);
    }
    if rest.len() == 0 {
        assert(back =~= Seq::empty());
    }
    lemma_statement_end_at(lines, 0, n);
    assert(lines.subrange(0, n) =~= front);
    text::lemma_lines_concatenate(chunk);
    assert(reexports::statement_at(lines, 0) == chunk);
    lemma_statements_behind(front, back, 0);
    reexports::lemma_statement_end(lines, 0);
}

proof fn lemma_no_statement_in_front(line: Seq<char>, rest: Seq<char>)
    requires
        text::whole_lines(line) == seq![line],
        !reexports::is_use_line(line),
        line.last() == '\n' || rest.len() == 0,
    ensures
        reexports::use_statements(line + rest) == reexports::use_statements(rest),
{
    let back = text::whole_lines(rest);
    text::lemma_lines_of_two(line, rest);
    lemma_statements_behind(seq![line], back, 0);
    let lines = seq![line] + back;
    assert(lines[0] == line);
}

proof fn lemma_statements_one_by_one(
    known: Seq<(Seq<char>, Seq<char>)>,
    first: Seq<Seq<char>>,
    later: Seq<Seq<char>>,
    module_name: Seq<char>,
)
    ensures
        reexports::with_statements(known, first + later, module_name)
            == reexports::with_statements(
            reexports::with_statements(known, first, module_name),
            later,
            module_name,
        ),
    decreases later.len(),
{
    if later.len() == 0 {
        assert(first + later =~= first);
    } else {
        lemma_statements_one_by_one(known, first, later.drop_last(), module_name);
        assert((first + later).drop_last() =~= first + later.drop_last());
        assert((first + later).last() == later.last());
    }
}

proof fn lemma_binding_put_first(
    known: Seq<(Seq<char>, Seq<char>)>,
    bindings: Seq<(Seq<char>, BindingText)>,
    key: Seq<char>,
    path: Seq<char>,
)
    requires
        forall|i: int| 0 <= i < bindings.len() ==> (#[trigger] bindings[i]).0 != key,
    ensures
        reexports::with_bindings(strings::put(known, key, path), bindings) == strings::put(
            reexports::with_bindings(known, bindings),
            key,
            path,
        ),
    decreases bindings.len(),
{
    if bindings.len() > 0 {
        let front = bindings.drop_last();
        let last = bindings.last();
        assert forall|i: int| 0 <= i < front.len() implies (#[trigger] front[i]).0 != key by {
            assert(front[i] == bindings[i]);
        }
        assert(bindings[bindings.len() - 1].0 != key);
        lemma_binding_put_first(known, front, key, path);
        strings::lemma_put_commutes(
            reexports::with_bindings(known, front),
            key,
            path,
            last.0,
            last.1.source_path,
        );
    }
}

/// The bindings that are not hidden and those that are bring, one after the other,
/// what all of them bring together.
proof fn lemma_bindings_in_two(
    known: Seq<(Seq<char>, Seq<char>)>,
    bindings: Seq<(Seq<char>, BindingText)>,
    hints: Seq<Seq<char>>,
    aliases: Seq<(Seq<char>, Seq<char>)>,
)
    requires
        strings::ascending(strings::keys_of(bindings)),
    ensures
        reexports::with_bindings(
            reexports::with_bindings(known, kept(bindings, hints, aliases, false)),
            kept(bindings, hints, aliases, true),
        ) == reexports::with_bindings(known, bindings),
    decreases bindings.len(),
{
    if bindings.len() > 0 {
        let front = bindings.drop_last();
        let last = bindings.last();
        let keys = strings::keys_of(bindings);
        let shown = kept(front, hints, aliases, false);
        let hidden = kept(front, hints, aliases, true);
        assert forall|i: int, j: int| 0 <= i < j < front.len() implies order::precedes(
            #[trigger] strings::keys_of(front)[i],
            #[trigger] strings::keys_of(front)[j],
        ) by {
            assert(keys[i] == strings::keys_of(front)[i] && keys[j] == strings::keys_of(front)[j]);
        }
        lemma_bindings_in_two(known, front, hints, aliases);
        if reexports::hidden(last.1, hints, aliases) {
            assert(kept(bindings, hints, aliases, true).drop_last() =~= hidden);
        } else {
            assert(kept(bindings, hints, aliases, false).drop_last() =~= shown);
            lemma_kept(front, hints, aliases, true);
            assert forall|i: int| 0 <= i < hidden.len() implies (
            #[trigger] hidden[i]).0 != last.0 by {
                let j = choose|j: int| 0 <= j < front.len() && front[j] == hidden[i];
                assert(order::precedes(keys[j], keys[bindings.len() - 1]));
                order::lemma_precedes_irreflexive(last.0);
            }
            lemma_binding_put_first(
                reexports::with_bindings(known, shown),
                hidden,
                last.0,
                last.1.source_path,
            );
        }
    }
}

proof fn lemma_aliases_of_one(
    known: Seq<(Seq<char>, Seq<char>)>,
    statement: Seq<char>,
    module_name: Seq<char>,
)
    ensures
        reexports::with_statements(known, seq![statement], module_name) == match
        reexports::parsed_statement(statement, module_name) {
            Some((_, bindings)) => reexports::with_bindings(known, bindings),
            None => known,
        },
{
    assert(seq![statement].drop_last() =~= Seq::empty());
    assert(reexports::with_statements(known, Seq::empty(), module_name) == known);
}

/// The statements that stand for `statement` with the names of `bindings`.
spec fn new_statements(
    statement: Seq<char>,
    bindings: Seq<(Seq<char>, BindingText)>,
    hints: Seq<Seq<char>>,
    aliases: Seq<(Seq<char>, Seq<char>)>,
) -> Seq<Seq<char>> {
    let values = strings::values_of(bindings);
    let public = reexports::names_of(values, hints, aliases, false);
    let private = reexports::names_of(values, hints, aliases, true);
    let tail = if text::newline().is_suffix_of(statement) {
        text::newline()
    } else {
        Seq::<char>::empty()
    };
    let hidden = line_of(statement, private, false) + tail;
    if public.len() > 0 {
        seq![line_of(statement, public, true) + text::newline(), hidden]
    } else {
        seq![hidden]
    }
}

/// The statements that stand for a rewritten one bring what it brings.
proof fn lemma_new_statements_bring(
    statement: Seq<char>,
    module_name: Seq<char>,
    hints: Seq<Seq<char>>,
    aliases: Seq<(Seq<char>, Seq<char>)>,
    known: Seq<(Seq<char>, Seq<char>)>,
)
    requires
        reexports::statement_in_order(statement),
        readable(statement, module_name, hints, aliases),
        reexports::new_statement(statement, module_name, hints, aliases) is Some,
    ensures
        ({
            let bindings = reexports::parsed_statement(statement, module_name)->Some_0.1;
            let first = new_statements(statement, bindings, hints, aliases);
            &&& reexports::all_in_order(first)
            &&& reexports::with_statements(known, first, module_name)
                == reexports::with_statements(known, seq![statement], module_name)
        }),
{
    let bindings = reexports::parsed_statement(statement, module_name)->Some_0.1;
    let first = new_statements(statement, bindings, hints, aliases);
    let tail = if text::newline().is_suffix_of(statement) {
        text::newline()
    } else {
        Seq::<char>::empty()
    };
    let shown_bindings = kept(bindings, hints, aliases, false);
    let body = reexports::use_parts(statement)->Some_0.1;
    lemma_kept(bindings, hints, aliases, true);
    lemma_kept(bindings, hints, aliases, false);
    lemma_line_reads_back(statement, module_name, hints, aliases, true, tail);
    lemma_statement_body(statement, body);
    lemma_plain_bindings(statement, module_name, bindings);
    lemma_bindings_in_two(known, bindings, hints, aliases);
    lemma_aliases_of_one(known, statement, module_name);
    let hidden = first.last();
    if first.len() > 1 {
        let shown = first[0];
        let then = reexports::with_statements(known, seq![shown], module_name);
        lemma_line_reads_back(statement, module_name, hints, aliases, false, text::newline());
        lemma_aliases_of_one(known, shown, module_name);
        lemma_aliases_of_one(then, hidden, module_name);
        assert(first =~= seq![shown] + seq![hidden]);
        lemma_statements_one_by_one(known, seq![shown], seq![hidden], module_name);
    } else {
        assert(shown_bindings =~= Seq::empty());
        lemma_aliases_of_one(known, hidden, module_name);
        assert(first =~= seq![hidden]);
    }
}

proof fn lemma_two_in_front(shown: Seq<char>, hidden: Seq<char>, rest: Seq<char>)
    requires
        one_statement(shown),
        shown.last() == '\n',
        text::has(text::whole_lines(shown).last(), ";"@),
        one_statement(hidden),
        hidden.last() == '\n' && text::has(text::whole_lines(hidden).last(), ";"@) || rest.len()
            == 0,
    ensures
        reexports::use_statements((shown + hidden) + rest) == seq![shown, hidden]
            + reexports::use_statements(rest),
{
    let later = reexports::use_statements(rest);
    lemma_statement_in_front(hidden, rest);
    lemma_statement_in_front(shown, hidden + rest);
    assert((shown + hidden) + rest =~= shown + (hidden + rest));
    assert(seq![shown] + (seq![hidden] + later) =~= seq![shown, hidden] + later);
}

/// The statements of a rewritten statement, with `rest` behind it.
#[verifier::rlimit(40)]
proof fn lemma_new_statements(
    line: Seq<char>,
    more: Seq<char>,
    rest: Seq<char>,
    module_name: Seq<char>,
    hints: Seq<Seq<char>>,
    aliases: Seq<(Seq<char>, Seq<char>)>,
)
    requires
        reexports::is_use_line(line),
        line.len() > 0,
        !line.drop_last().contains('\n'),
        reexports::statement_in_order(line + more),
        reexports::new_statement(line + more, module_name, hints, aliases) is Some,
        (line + more).last() == '\n' || rest.len() == 0,
    ensures
        ({
            let bindings = reexports::parsed_statement(line + more, module_name)->Some_0.1;
            let now = reexports::new_statement(line + more, module_name, hints, aliases)->Some_0;
            reexports::use_statements(now + rest) == new_statements(
                line + more,
                bindings,
                hints,
                aliases,
            ) + reexports::use_statements(rest)
        }),
{
    let statement = line + more;
    let bindings = reexports::parsed_statement(statement, module_name)->Some_0.1;
    let values = strings::values_of(bindings);
    let public = reexports::names_of(values, hints, aliases, false);
    let private = reexports::names_of(values, hints, aliases, true);
    let tail = if text::newline().is_suffix_of(statement) {
        text::newline()
    } else {
        Seq::<char>::empty()
    };
    assert(statement.last() == '\n' ==> tail == text::newline()) by {
        assert(statement.subrange(statement.len() - 1, statement.len() as int) =~= seq![
            statement.last(),
        ]);
    }
    lemma_new_text(statement, public, private, tail);
    lemma_kept(bindings, hints, aliases, true);
    lemma_line_is_statement(line, more, module_name, hints, aliases, true, tail);
    let hidden = line_of(statement, private, false) + tail;
    if public.len() > 0 {
        lemma_kept(bindings, hints, aliases, false);
        lemma_line_is_statement(line, more, module_name, hints, aliases, false, text::newline());
        lemma_two_in_front(line_of(statement, public, true) + text::newline(), hidden, rest);
    } else {
        lemma_statement_in_front(hidden, rest);
    }
}

proof fn lemma_aliases_kept_from(
    lines: Seq<Seq<char>>,
    i: int,
    module_name: Seq<char>,
    hints: Seq<Seq<char>>,
    aliases: Seq<(Seq<char>, Seq<char>)>,
    known: Seq<(Seq<char>, Seq<char>)>,
)
    requires
        0 <= i <= lines.len(),
        text::proper_lines(lines),
        reexports::all_in_order(reexports::statements_from(lines, i)),
        all_readable(reexports::statements_from(lines, i), module_name, hints, aliases),
    ensures
        ({
            let now = reexports::rewritten_from(lines, i, module_name, hints, aliases).0;
            &&& reexports::all_in_order(reexports::use_statements(now))
            &&& reexports::with_statements(known, reexports::use_statements(now), module_name)
                == reexports::with_statements(
                known,
                reexports::statements_from(lines, i),
                module_name,
            )
        }),
    decreases lines.len() - i,
{
    let now = reexports::rewritten_from(lines, i, module_name, hints, aliases).0;
    if i >= lines.len() {
        assert(text::whole_lines(now) =~= Seq::empty());
    } else if reexports::is_use_line(lines[i]) {
        lemma_statement_lines(lines, i);
        let end = reexports::statement_end(lines, i);
        let statement = reexports::statement_at(lines, i);
        let part = lines.subrange(i, end);
        let here = reexports::statements_from(lines, i);
        let later = reexports::statements_from(lines, end);
        assert(here =~= seq![statement] + later);
        assert(here[0] == statement);
        assert forall|k: int| 0 <= k < later.len() implies reexports::statement_in_order(
            #[trigger] later[k],
        ) && readable(later[k], module_name, hints, aliases) by {
            assert(here[k + 1] == later[k]);
        }
        let then = reexports::with_statements(known, seq![statement], module_name);
        lemma_aliases_kept_from(lines, end, module_name, hints, aliases, then);
        lemma_statements_one_by_one(known, seq![statement], later, module_name);
        let rest = reexports::rewritten_from(lines, end, module_name, hints, aliases).0;
        let new_later = reexports::use_statements(rest);
        lemma_lines_between(lines, i, end);
        if end == lines.len() {
            assert(rest =~= Seq::empty());
        }
        if reexports::new_statement(statement, module_name, hints, aliases) is Some {
            let more = text::concatenated(part.drop_first());
            assert(part[0] == lines[i]);
            assert(statement =~= lines[i] + more);
            lemma_new_statements(lines[i], more, rest, module_name, hints, aliases);
            lemma_new_statements_bring(statement, module_name, hints, aliases, known);
            let bindings = reexports::parsed_statement(statement, module_name)->Some_0.1;
            let first = new_statements(statement, bindings, hints, aliases);
            lemma_statements_one_by_one(known, first, new_later, module_name);
            lemma_all_in_order(first, new_later);
        } else {
            assert(part[0] == lines[i]);
            assert forall|k: int| 0 <= k < part.len() - 1 implies !text::has(
                #[trigger] part[k],
                ";"@,
            ) by {
                assert(part[k] == lines[i + k]);
            }
            assert(part.last() == lines[end - 1]);
            lemma_statement_in_front(statement, rest);
            lemma_statements_one_by_one(known, seq![statement], new_later, module_name);
            lemma_all_in_order(seq![statement], new_later);
        }
    } else {
        assert(reexports::statements_from(lines, i) == reexports::statements_from(lines, i + 1));
        lemma_aliases_kept_from(lines, i + 1, module_name, hints, aliases, known);
        let rest = reexports::rewritten_from(lines, i + 1, module_name, hints, aliases).0;
        assert(lines[i].len() > 0);
        text::lemma_single_line(lines[i]);
        if i + 1 == lines.len() {
            assert(rest =~= Seq::empty());
        } else {
            assert(lines[i].last() == '\n');
        }
        lemma_no_statement_in_front(lines[i], rest);
    }
}

proof fn lemma_all_in_order(first: Seq<Seq<char>>, later: Seq<Seq<char>>)
    requires
        reexports::all_in_order(first),
        reexports::all_in_order(later),
    ensures
        reexports::all_in_order(first + later),
{
    let all = first + later;
    assert forall|i: int| 0 <= i < all.len() implies reexports::statement_in_order(
        #[trigger] all[i],
    ) by {
        if i < first.len() {
            assert(all[i] == first[i]);
        } else {
            assert(all[i] == later[i - first.len()]);
        }
    }
}

/// A rewritten source file can be read again, and the paths that it reexports stand
/// for the same items as before.
///
/// This leaves out names that do not read as themselves, such as one with an alias
/// that begins with the word `as`.
pub proof fn lemma_rewriting_keeps_aliases(
    source: Seq<char>,
    module_name: Seq<char>,
    hints: Seq<Seq<char>>,
    aliases: Seq<(Seq<char>, Seq<char>)>,
    known: Seq<(Seq<char>, Seq<char>)>,
)
    requires
        reexports::all_in_order(reexports::use_statements(source)),
        all_readable(reexports::use_statements(source), module_name, hints, aliases),
    ensures
        ({
            let now = reexports::rewritten(source, module_name, hints, aliases).0;
            &&& reexports::all_in_order(reexports::use_statements(now))
            &&& reexports::with_statements(known, reexports::use_statements(now), module_name)
                == reexports::with_statements(
                known,
                reexports::use_statements(source),
                module_name,
            )
        }),
{
    text::lemma_proper_lines(source);
    lemma_aliases_kept_from(text::whole_lines(source), 0, module_name, hints, aliases, known);
}

/// Whether `after` are the files `before`, each rewritten for `hints` with `aliases`,
/// and the names of all rewritten statements can be read again.
pub open spec fn rewritten_files(
    before: Seq<SourceFile>,
    after: Seq<SourceFile>,
    hints: Seq<Seq<char>>,
    aliases: Seq<(Seq<char>, Seq<char>)>,
) -> bool {
    &&& before.len() == after.len()
    &&& forall|i: int|
        0 <= i < before.len() ==> {
            let statements = reexports::use_statements((#[trigger] before[i]).source@);
            &&& reexports::all_in_order(statements)
            &&& all_readable(statements, before[i].module@, hints, aliases)
            &&& after[i].module@ == before[i].module@
            &&& after[i].source@ == reexports::rewritten(
                before[i].source@,
                before[i].module@,
                hints,
                aliases,
            ).0
        }
}

proof fn lemma_files_keep_aliases(
    before: Seq<SourceFile>,
    after: Seq<SourceFile>,
    hints: Seq<Seq<char>>,
    aliases: Seq<(Seq<char>, Seq<char>)>,
)
    requires
        rewritten_files(before, after, hints, aliases),
    ensures
        reexports::aliases_of(after) == reexports::aliases_of(before),
    decreases before.len(),
{
    if before.len() > 0 {
        let front = before.drop_last();
        let new_front = after.drop_last();
        assert forall|i: int| 0 <= i < front.len() implies {
            let statements = reexports::use_statements((#[trigger] front[i]).source@);
            &&& reexports::all_in_order(statements)
            &&& all_readable(statements, front[i].module@, hints, aliases)
            &&& new_front[i].module@ == front[i].module@
            &&& new_front[i].source@ == reexports::rewritten(
                front[i].source@,
                front[i].module@,
                hints,
                aliases,
            ).0
        } by {
            assert(front[i] == before[i]);
            assert(new_front[i] == after[i]);
        }
        lemma_files_keep_aliases(front, new_front, hints, aliases);
        let last = before[before.len() - 1];
        assert(before.last() == last);
        assert(after.last() == after[after.len() - 1]);
        lemma_rewriting_keeps_aliases(
            last.source@,
            last.module@,
            hints,
            aliases,
            reexports::aliases_of(front),
        );
    }
}

/// Rewriting the files of a crate is done once and for all: reading the rewritten
/// files gives the same aliases, and rewriting them with these changes nothing.
///
/// This leaves out names that do not read as themselves, such as one with an alias
/// that begins with the word `as`.
pub proof fn lemma_crate_rewritten_once(
    before: Seq<SourceFile>,
    after: Seq<SourceFile>,
    hints: Seq<Seq<char>>,
    i: int,
)
    requires
        rewritten_files(before, after, hints, reexports::aliases_of(before)),
        0 <= i < before.len(),
    ensures
        reexports::aliases_of(after) == reexports::aliases_of(before),
        reexports::all_in_order(reexports::use_statements(after[i].source@)),
        reexports::rewritten(
            after[i].source@,
            after[i].module@,
            hints,
            reexports::aliases_of(after),
        ) == (after[i].source@, Seq::<int>::empty()),
{
    let aliases = reexports::aliases_of(before);
    lemma_files_keep_aliases(before, after, hints, aliases);
    assert(before[i].module@ == after[i].module@);
    let statements = reexports::use_statements(before[i].source@);
    assert forall|k: int| 0 <= k < statements.len() implies public_readable(
        #[trigger] statements[k],
        before[i].module@,
        hints,
        aliases,
    ) by {
        assert(readable(statements[k], before[i].module@, hints, aliases));
    }
    lemma_rewritten_once(before[i].source@, before[i].module@, hints, aliases);
    lemma_rewriting_keeps_aliases(
        before[i].source@,
        before[i].module@,
        hints,
        aliases,
        Seq::empty(),
    );
}

/// Those of `bindings` whose text is among `names`.
pub open spec fn named(
    bindings: Seq<(Seq<char>, BindingText)>,
    names: Seq<Seq<char>>,
) -> Seq<(Seq<char>, BindingText)> {
    bindings.filter(|e: (Seq<char>, BindingText)| names.contains(e.1.rendered))
}

/// Whether `public` and `private` together hold the text of each of `bindings` once.
pub open spec fn splits(
    bindings: Seq<(Seq<char>, BindingText)>,
    public: Seq<Seq<char>>,
    private: Seq<Seq<char>>,
) -> bool {
    &&& (public + private).no_duplicates()
    &&& forall|name: Seq<char>| #[trigger]
        (public + private).contains(name) <==> strings::values_of(bindings).map_values(
            |b: BindingText| b.rendered,
        ).contains(name)
}

proof fn lemma_filtered_ascending(
    entries: Seq<(Seq<char>, BindingText)>,
    keep: spec_fn((Seq<char>, BindingText)) -> bool,
)
    requires
        strings::ascending(strings::keys_of(entries)),
    ensures
        strings::ascending(strings::keys_of(entries.filter(keep))),
    decreases entries.len(),
{
    reveal(Seq::filter);
    if entries.len() > 0 {
        let front = entries.drop_last();
        let known = front.filter(keep);
        let now = entries.filter(keep);
        let keys = strings::keys_of(entries);
        assert forall|i: int, j: int| 0 <= i < j < front.len() implies order::precedes(
            #[trigger] strings::keys_of(front)[i],
            #[trigger] strings::keys_of(front)[j],
        ) by {
            assert(keys[i] == strings::keys_of(front)[i] && keys[j] == strings::keys_of(front)[j]);
        }
        lemma_filtered_ascending(front, keep);
        sorting::lemma_filtered_members(front, keep);
        let names = strings::keys_of(now);
        assert forall|i: int, j: int| 0 <= i < j < names.len() implies order::precedes(
            #[trigger] names[i],
            #[trigger] names[j],
        ) by {
            assert(names[i] == strings::keys_of(known)[i]);
            if j < known.len() {
                assert(names[j] == strings::keys_of(known)[j]);
            } else {
                assert(known.contains(known[i]));
                let k = choose|k: int| 0 <= k < front.len() && front[k] == known[i];
                assert(keys[k] == names[i]);
                assert(keys[entries.len() - 1] == names[j]);
            }
        }
    }
}

proof fn lemma_collected(list: Seq<(Seq<char>, BindingText)>)
    requires
        forall|i: int, j: int|
            0 <= i < j < list.len() ==> (#[trigger] list[i]).0 != (#[trigger] list[j]).0,
    ensures
        strings::ascending(strings::keys_of(collected(list))),
        forall|e: (Seq<char>, BindingText)| #[trigger]
            collected(list).contains(e) <==> list.contains(e),
    decreases list.len(),
{
    if list.len() > 0 {
        let front = list.drop_last();
        let last = list.last();
        let known = collected(front);
        let now = collected(list);
        assert forall|i: int, j: int| 0 <= i < j < front.len() implies (#[trigger] front[i]).0 != (
        #[trigger] front[j]).0 by {
            assert(front[i] == list[i] && front[j] == list[j]);
        }
        lemma_collected(front);
        strings::lemma_put_ascending(known, last.0, last.1);
        assert forall|e: (Seq<char>, BindingText)| #[trigger]
            now.contains(e) <==> list.contains(e) by {
            if now.contains(e) {
                let i = choose|i: int| 0 <= i < now.len() && now[i] == e;
                strings::lemma_put_members(known, last.0, last.1, i);
                if e == (last.0, last.1) {
                    assert(list[list.len() - 1] == e);
                } else {
                    let k = choose|k: int| 0 <= k < front.len() && front[k] == e;
                    assert(list[k] == e);
                }
            }
            if list.contains(e) {
                let k = choose|k: int| 0 <= k < list.len() && list[k] == e;
                if k < front.len() {
                    assert(front[k] == e);
                    assert(front.contains(e));
                    assert(list[k].0 != list[list.len() - 1].0);
                }
                strings::lemma_put_keeps(known, last.0, last.1, e);
            }
        }
    }
}

/// Two lists in ascending order with the same members are the same.
proof fn lemma_same_members(
    a: Seq<(Seq<char>, BindingText)>,
    b: Seq<(Seq<char>, BindingText)>,
)
    requires
        strings::ascending(strings::keys_of(a)),
        strings::ascending(strings::keys_of(b)),
        forall|e: (Seq<char>, BindingText)| #[trigger] a.contains(e) <==> b.contains(e),
    ensures
        a == b,
    decreases a.len(),
{
    if a.len() == 0 {
        if b.len() > 0 {
            assert(b.contains(b[0]));
            assert(a.contains(b[0]));
        }
        assert(a =~= b);
    } else {
        lemma_same_last(a, b);
        let x = a.drop_last();
        let y = b.drop_last();
        lemma_front_ascending(a);
        lemma_front_ascending(b);
        assert forall|e: (Seq<char>, BindingText)| #[trigger] x.contains(e) <==> y.contains(e) by {
            lemma_front_members(a, e);
            lemma_front_members(b, e);
        }
        lemma_same_members(x, y);
        assert(a =~= x.push(a.last()));
        assert(b =~= y.push(b.last()));
    }
}

proof fn lemma_front_ascending(a: Seq<(Seq<char>, BindingText)>)
    requires
        strings::ascending(strings::keys_of(a)),
        a.len() > 0,
    ensures
        strings::ascending(strings::keys_of(a.drop_last())),
{
    let keys = strings::keys_of(a);
    let front = strings::keys_of(a.drop_last());
    assert forall|i: int, j: int| 0 <= i < j < front.len() implies order::precedes(
        #[trigger] front[i],
        #[trigger] front[j],
    ) by {
        assert(keys[i] == front[i] && keys[j] == front[j]);
    }
}

proof fn lemma_front_members(a: Seq<(Seq<char>, BindingText)>, e: (Seq<char>, BindingText))
    requires
        strings::ascending(strings::keys_of(a)),
        a.len() > 0,
    ensures
        a.drop_last().contains(e) <==> a.contains(e) && e != a.last(),
{
    let front = a.drop_last();
    let keys = strings::keys_of(a);
    if front.contains(e) {
        let k = choose|k: int| 0 <= k < front.len() && front[k] == e;
        assert(a[k] == e);
        assert(order::precedes(keys[k], keys[a.len() - 1]));
        order::lemma_precedes_irreflexive(e.0);
    }
    if a.contains(e) && e != a.last() {
        let k = choose|k: int| 0 <= k < a.len() && a[k] == e;
        assert(front[k] == e);
    }
}

proof fn lemma_same_last(a: Seq<(Seq<char>, BindingText)>, b: Seq<(Seq<char>, BindingText)>)
    requires
        a.len() > 0,
        strings::ascending(strings::keys_of(a)),
        strings::ascending(strings::keys_of(b)),
        forall|e: (Seq<char>, BindingText)| #[trigger] a.contains(e) <==> b.contains(e),
    ensures
        b.len() > 0,
        a.last() == b.last(),
{
    assert(a[a.len() - 1] == a.last());
    assert(a.contains(a.last()));
    let j = choose|j: int| 0 <= j < b.len() && b[j] == a.last();
    assert(b[b.len() - 1] == b.last());
    assert(b.contains(b.last()));
    assert(a.contains(b.last()));
    let i = choose|i: int| 0 <= i < a.len() && a[i] == b.last();
    if j < b.len() - 1 {
        assert(order::precedes(strings::keys_of(b)[j], strings::keys_of(b)[b.len() - 1]));
        if i < a.len() - 1 {
            assert(order::precedes(strings::keys_of(a)[i], strings::keys_of(a)[a.len() - 1]));
        }
        order::lemma_precedes_asymmetric(a.last().0, b.last().0);
        order::lemma_precedes_irreflexive(a.last().0);
    }
}

/// Whether the key of each binding is the path under which its text makes it
/// available.
spec fn keyed(module_name: Seq<char>, bindings: Seq<(Seq<char>, BindingText)>) -> bool {
    forall|i: int|
        0 <= i < bindings.len() ==> (#[trigger] bindings[i]).0 == reexports::bound_path(
            module_name,
            bindings[i].1.rendered,
        )
}

/// Whether one of `bindings` has the text `name`.
spec fn has_text(bindings: Seq<(Seq<char>, BindingText)>, name: Seq<char>) -> bool {
    exists|k: int| 0 <= k < bindings.len() && (#[trigger] bindings[k]).1.rendered == name
}

/// The bindings with the texts `names`, in the order of these.
spec fn listed(
    bindings: Seq<(Seq<char>, BindingText)>,
    names: Seq<Seq<char>>,
) -> Seq<(Seq<char>, BindingText)> {
    Seq::new(
        names.len(),
        |i: int|
            bindings[choose|k: int|
                0 <= k < bindings.len() && (#[trigger] bindings[k]).1.rendered == names[i]],
    )
}

proof fn lemma_listed(
    module_name: Seq<char>,
    bindings: Seq<(Seq<char>, BindingText)>,
    names: Seq<Seq<char>>,
)
    requires
        strings::ascending(strings::keys_of(bindings)),
        keyed(module_name, bindings),
        names.no_duplicates(),
        forall|i: int|
            0 <= i < names.len() ==> has_text(bindings, #[trigger] names[i]),
    ensures
        texts(listed(bindings, names)) == names,
        forall|i: int|
            0 <= i < names.len() ==> bindings.contains(#[trigger] listed(bindings, names)[i]),
        collected(listed(bindings, names)) == named(bindings, names),
{
    let list = listed(bindings, names);
    let keys = strings::keys_of(bindings);
    let keep = |e: (Seq<char>, BindingText)| names.contains(e.1.rendered);
    assert forall|i: int| 0 <= i < names.len() implies list[i].1.rendered == #[trigger] names[i]
        && bindings.contains(list[i]) by {
        assert(has_text(bindings, names[i]));
        let k = choose|k: int|
            0 <= k < bindings.len() && (#[trigger] bindings[k]).1.rendered == names[i];
        assert(list[i] == bindings[k]);
    }
    assert(texts(list) =~= names);
    assert forall|i: int, j: int| 0 <= i < j < list.len() implies (#[trigger] list[i]).0 != (
    #[trigger] list[j]).0 by {
        assert(names[i] != names[j]);
        let a = choose|k: int| 0 <= k < bindings.len() && bindings[k] == list[i];
        let b = choose|k: int| 0 <= k < bindings.len() && bindings[k] == list[j];
        assert(a != b);
        lemma_keys_differ(bindings, a, b);
    }
    lemma_collected(list);
    lemma_filtered_ascending(bindings, keep);
    sorting::lemma_filtered_members(bindings, keep);
    assert forall|e: (Seq<char>, BindingText)| #[trigger]
        collected(list).contains(e) <==> named(bindings, names).contains(e) by {
        assert(named(bindings, names) == bindings.filter(keep));
        if list.contains(e) {
            let i = choose|i: int| 0 <= i < list.len() && list[i] == e;
            assert(names[i] == e.1.rendered);
        }
        if bindings.contains(e) && names.contains(e.1.rendered) {
            let k = choose|k: int| 0 <= k < bindings.len() && bindings[k] == e;
            let i = choose|i: int| 0 <= i < names.len() && names[i] == e.1.rendered;
            assert(list[i].1.rendered == names[i]);
            let other = choose|o: int| 0 <= o < bindings.len() && bindings[o] == list[i];
            assert(bindings[other].0 == bindings[k].0);
            if other != k {
                lemma_keys_differ(bindings, other, k);
            }
            assert(list[i] == e);
        }
    }
    lemma_same_members(collected(list), named(bindings, names));
}

proof fn lemma_keys_differ(bindings: Seq<(Seq<char>, BindingText)>, a: int, b: int)
    requires
        strings::ascending(strings::keys_of(bindings)),
        0 <= a < bindings.len(),
        0 <= b < bindings.len(),
        a != b,
    ensures
        bindings[a].0 != bindings[b].0,
{
    let keys = strings::keys_of(bindings);
    order::lemma_precedes_irreflexive(keys[a]);
    if a < b {
        assert(order::precedes(keys[a], keys[b]));
    } else {
        assert(order::precedes(keys[b], keys[a]));
    }
}

/// The line for those of the bindings of a statement whose texts are `names`.
proof fn lemma_names_line(
    statement: Seq<char>,
    module_name: Seq<char>,
    bindings: Seq<(Seq<char>, BindingText)>,
    names: Seq<Seq<char>>,
    indent: Seq<char>,
    is_public: bool,
    tail: Seq<char>,
)
    requires
        reexports::statement_in_order(statement),
        reexports::parsed_statement(statement, module_name) == Some((true, bindings)),
        forall|i: int|
            0 <= i < bindings.len() ==> reads_back(
                module_name,
                prefix_in(statement),
                #[trigger] bindings[i],
            ),
        names.len() > 0,
        names.no_duplicates(),
        closed_names(names),
        forall|i: int|
            0 <= i < names.len() ==> has_text(bindings, #[trigger] names[i]),
        forall|i: int| 0 <= i < indent.len() ==> text::white(#[trigger] indent[i]),
    ensures
        ({
            let body = body_of(statement, names);
            let line = indent + keyword(is_public) + body + ";"@ + tail;
            &&& reexports::parsed_statement(line, module_name) == Some(
                (is_public, named(bindings, names)),
            )
            &&& reexports::statement_in_order(line)
            &&& !body.contains(';')
        }),
{
    let list = listed(bindings, names);
    let line = indent + keyword(is_public) + body_of(statement, names) + ";"@ + tail;
    let body = reexports::use_parts(statement)->Some_0.1;
    lemma_statement_body(statement, body);
    lemma_plain_bindings(statement, module_name, bindings);
    if text::has(body, "{"@) {
        let prefix = prefix_in(statement);
        lemma_plain_group_prefix(body);
        assert(keyed(module_name, bindings)) by {
            assert forall|i: int| 0 <= i < bindings.len() implies (#[trigger] bindings[i]).0
                == reexports::bound_path(module_name, bindings[i].1.rendered) by {
                assert(plain_entry(module_name, bindings[i]));
            }
        }
        lemma_listed(module_name, bindings, names);
        assert forall|i: int| 0 <= i < list.len() implies plain_entry(
            module_name,
            #[trigger] list[i],
        ) && reads_back(module_name, prefix, list[i]) by {
            assert(bindings.contains(list[i]));
            let k = choose|k: int| 0 <= k < bindings.len() && bindings[k] == list[i];
            assert(plain_entry(module_name, bindings[k]));
            assert(reads_back(module_name, prefix, bindings[k]));
        }
        reveal_strlit("};");
        reveal_strlit("}");
        reveal_strlit(";");
        assert(line =~= indent + keyword(is_public) + prefix + "::{"@ + text::joined(
            names,
            ", "@,
        ) + "};"@ + tail);
        lemma_group_statement(module_name, prefix, list, indent, is_public, tail, line);
        assert forall|i: int| 0 <= i < names.len() implies !(#[trigger] names[i]).contains(';') by {
            assert(names[i] == texts(list)[i]);
            assert(plain_entry(module_name, list[i]));
        }
        lemma_joined_without(names, ';');
        lemma_group_text(prefix, text::joined(names, ", "@));
    } else {
        let entry = bindings[0];
        assert(bindings =~= seq![entry]);
        assert(has_text(bindings, names[0]));
        assert(names[0] == entry.1.rendered);
        assert(names.contains(entry.1.rendered));
        assert(named(bindings, names) =~= seq![entry]) by {
            reveal(Seq::filter);
            assert(bindings.drop_last() =~= Seq::empty());
            reveal_with_fuel(Seq::filter, 2);
        }
        assert(reads_back(module_name, prefix_in(statement), bindings[0]));
        lemma_single_statement(module_name, entry, indent, is_public, tail, line);
    }
}

/// Lines with no statement in them can be passed over.
proof fn lemma_pass_over(lines: Seq<Seq<char>>, i: int, n: int)
    requires
        0 <= i <= n <= lines.len(),
        forall|k: int| i <= k < n ==> !reexports::is_use_line(#[trigger] lines[k]),
    ensures
        reexports::statements_from(lines, i) == reexports::statements_from(lines, n),
    decreases n - i,
{
    if i < n {
        lemma_pass_over(lines, i + 1, n);
    }
}

proof fn lemma_use_line_has_letters(line: Seq<char>)
    requires
        reexports::is_use_line(line),
    ensures
        line.contains('p'),
{
    reveal_strlit("pub use ");
    reveal_strlit("pub(crate) use ");
    let start = text::trimmed_start(line);
    text::lemma_trimmed_start(line);
    if "pub use "@.is_prefix_of(start) {
        assert(start.subrange(0, 8)[0] == "pub use "@[0]);
    } else {
        assert(start.subrange(0, 15)[0] == "pub(crate) use "@[0]);
    }
    assert(start[0] == 'p');
    assert(line[line.len() - start.len()] == 'p');
}

/// White space that ends in a line feed has no statement.
proof fn lemma_blank_in_front(blank: Seq<char>, rest: Seq<char>)
    requires
        forall|i: int| 0 <= i < blank.len() ==> text::white(#[trigger] blank[i]),
        blank.len() == 0 || blank.last() == '\n',
    ensures
        reexports::use_statements(blank + rest) == reexports::use_statements(rest),
{
    let front = text::whole_lines(blank);
    let back = text::whole_lines(rest);
    text::lemma_lines_of_two(blank, rest);
    if blank.contains('p') {
        let i = choose|i: int| 0 <= i < blank.len() && blank[i] == 'p';
        assert(text::white(blank[i]));
    }
    lemma_lines_without(blank, 'p');
    let lines = front + back;
    assert forall|k: int| 0 <= k < front.len() implies !reexports::is_use_line(
        #[trigger] lines[k],
    ) by {
        assert(lines[k] == front[k]);
        if reexports::is_use_line(lines[k]) {
            lemma_use_line_has_letters(lines[k]);
        }
    }
    lemma_pass_over(lines, 0, front.len() as int);
    lemma_statements_behind(front, back, 0);
}

/// The first statement of a text that begins with the line for `names`.
#[verifier::rlimit(40)]
proof fn lemma_line_in_text(
    statement: Seq<char>,
    module_name: Seq<char>,
    bindings: Seq<(Seq<char>, BindingText)>,
    names: Seq<Seq<char>>,
    is_public: bool,
    tail: Seq<char>,
    rest: Seq<char>,
) -> (first: Seq<char>)
    requires
        reexports::statement_in_order(statement),
        reexports::parsed_statement(statement, module_name) == Some((true, bindings)),
        forall|i: int|
            0 <= i < bindings.len() ==> reads_back(
                module_name,
                prefix_in(statement),
                #[trigger] bindings[i],
            ),
        names.len() > 0,
        names.no_duplicates(),
        closed_names(names),
        forall|i: int|
            0 <= i < names.len() ==> has_text(bindings, #[trigger] names[i]),
        tail == text::newline() || tail == Seq::<char>::empty() && rest.len() == 0,
    ensures
        reexports::use_statements((line_of(statement, names, is_public) + tail) + rest) == seq![
            first,
        ] + reexports::use_statements(rest),
        reexports::parsed_statement(first, module_name) == Some(
            (is_public, named(bindings, names)),
        ),
        reexports::statement_in_order(first),
{
    let all = indent_of(statement);
    text::lemma_trimmed_start(statement);
    assert forall|i: int| 0 <= i < all.len() implies text::white(#[trigger] all[i]) by {
        assert(all[i] == statement[i]);
    }
    let n = lemma_last_line(all);
    let blank = all.take(n);
    let indent = all.skip(n);
    assert forall|i: int| 0 <= i < indent.len() implies text::white(#[trigger] indent[i]) by {
        assert(indent[i] == all[n + i]);
    }
    assert forall|i: int| 0 <= i < blank.len() implies text::white(#[trigger] blank[i]) by {
        assert(blank[i] == all[i]);
    }
    if indent.contains(';') {
        let i = choose|i: int| 0 <= i < indent.len() && indent[i] == ';';
        assert(text::white(indent[i]));
    }
    let body = body_of(statement, names);
    let first = indent + keyword(is_public) + body + ";"@ + tail;
    lemma_names_line(statement, module_name, bindings, names, indent, is_public, tail);
    lemma_statement_text(indent, is_public, body, tail, first);
    assert(tail == text::newline() ==> first.last() == '\n');
    lemma_statement_in_front(first, rest);
    lemma_blank_in_front(blank, first + rest);
    assert(all =~= blank + indent);
    assert((line_of(statement, names, is_public) + tail) + rest =~= blank + (first + rest));
    first
}

proof fn lemma_split_names(
    bindings: Seq<(Seq<char>, BindingText)>,
    public: Seq<Seq<char>>,
    private: Seq<Seq<char>>,
)
    requires
        splits(bindings, public, private),
    ensures
        public.no_duplicates(),
        private.no_duplicates(),
        forall|i: int|
            0 <= i < public.len() ==> has_text(bindings, #[trigger] public[i]),
        forall|i: int|
            0 <= i < private.len() ==> has_text(bindings, #[trigger] private[i]),
        forall|e: (Seq<char>, BindingText)| #[trigger]
            bindings.contains(e) ==> (public.contains(e.1.rendered) <==> !private.contains(
                e.1.rendered,
            )),
{
    let both = public + private;
    let rendered = strings::values_of(bindings).map_values(|b: BindingText| b.rendered);
    assert forall|i: int, j: int|
        0 <= i < public.len() && 0 <= j < public.len() && i != j implies public[i] != public[j] by {
        assert(both[i] == public[i] && both[j] == public[j]);
    }
    assert forall|i: int, j: int|
        0 <= i < private.len() && 0 <= j < private.len() && i != j implies private[i]
        != private[j] by {
        assert(both[public.len() + i] == private[i] && both[public.len() + j] == private[j]);
    }
    assert forall|i: int| 0 <= i < both.len() implies has_text(bindings, #[trigger] both[i]) by {
        assert(both.contains(both[i]));
        let k = choose|k: int| 0 <= k < rendered.len() && rendered[k] == both[i];
        assert(bindings[k].1.rendered == both[i]);
    }
    assert forall|i: int| 0 <= i < public.len() implies has_text(
        bindings,
        #[trigger] public[i],
    ) by {
        assert(both[i] == public[i]);
    }
    assert forall|i: int| 0 <= i < private.len() implies has_text(
        bindings,
        #[trigger] private[i],
    ) by {
        assert(both[public.len() + i] == private[i]);
    }
    assert forall|e: (Seq<char>, BindingText)| #[trigger] bindings.contains(e) implies (
    public.contains(e.1.rendered) <==> !private.contains(e.1.rendered)) by {
        let name = e.1.rendered;
        let k = choose|k: int| 0 <= k < bindings.len() && bindings[k] == e;
        assert(rendered[k] == name);
        assert(rendered.contains(name));
        assert(both.contains(name));
        let m = choose|m: int| 0 <= m < both.len() && both[m] == name;
        if m < public.len() {
            assert(public[m] == name);
        } else {
            assert(private[m - public.len()] == name);
        }
        if public.contains(name) && private.contains(name) {
            let a = choose|a: int| 0 <= a < public.len() && public[a] == name;
            let b = choose|b: int| 0 <= b < private.len() && private[b] == name;
            assert(both[a] == both[public.len() + b]);
        }
    }
}

/// However the names of a public statement are split, the text for the two parts
/// brings in the same bindings: its last statement those of the private names,
/// private to the crate, and a statement before it, if there are public names, those
/// of these. No binding is lost and none is brought in twice.
///
/// This leaves out names that do not read as themselves, such as one with an alias
/// that begins with the word `as`, and names that leave a group open for those behind
/// them.
pub proof fn lemma_split_statement(
    statement: Seq<char>,
    module_name: Seq<char>,
    bindings: Seq<(Seq<char>, BindingText)>,
    public: Seq<Seq<char>>,
    private: Seq<Seq<char>>,
)
    requires
        reexports::statement_in_order(statement),
        reexports::parsed_statement(statement, module_name) == Some((true, bindings)),
        splits(bindings, public, private),
        private.len() > 0,
        forall|i: int|
            0 <= i < bindings.len() ==> reads_back(
                module_name,
                prefix_in(statement),
                #[trigger] bindings[i],
            ),
        closed_names(public),
        closed_names(private),
    ensures
        ({
            let now = reexports::use_statements(
                reexports::rendered_statement(statement, public, private),
            );
            &&& now.len() == if public.len() > 0 {
                2int
            } else {
                1int
            }
            &&& reexports::all_in_order(now)
            &&& reexports::parsed_statement(now.last(), module_name) == Some(
                (false, named(bindings, private)),
            )
            &&& public.len() > 0 ==> reexports::parsed_statement(now[0], module_name) == Some(
                (true, named(bindings, public)),
            )
        }),
        forall|e: (Seq<char>, BindingText)| #[trigger]
            bindings.contains(e) ==> (named(bindings, public).contains(e) <==> !named(
                bindings,
                private,
            ).contains(e)),
{
    let tail = if text::newline().is_suffix_of(statement) {
        text::newline()
    } else {
        Seq::<char>::empty()
    };
    let empty = Seq::<char>::empty();
    let hidden = line_of(statement, private, false) + tail;
    lemma_split_names(bindings, public, private);
    lemma_new_text(statement, public, private, tail);
    assert(text::whole_lines(empty) =~= Seq::empty());
    assert(reexports::use_statements(empty) =~= Seq::empty());
    let last = lemma_line_in_text(
        statement,
        module_name,
        bindings,
        private,
        false,
        tail,
        empty,
    );
    assert(hidden + empty =~= hidden);
    assert(reexports::use_statements(hidden) =~= seq![last]);
    if public.len() > 0 {
        let first = lemma_line_in_text(
            statement,
            module_name,
            bindings,
            public,
            true,
            text::newline(),
            hidden,
        );
        assert(reexports::use_statements(
            reexports::rendered_statement(statement, public, private),
        ) =~= seq![first, last]);
    }
    sorting::lemma_filtered_members(
        bindings,
        |e: (Seq<char>, BindingText)| public.contains(e.1.rendered),
    );
    sorting::lemma_filtered_members(
        bindings,
        |e: (Seq<char>, BindingText)| private.contains(e.1.rendered),
    );
}

} // verus!

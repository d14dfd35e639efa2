//! Reducing the visibility of unused items in their source files.
use vstd::prelude::*;

use crate::sorting;
use crate::syntax;
use crate::text;
use crate::unused::UnusedDef;
use crate::unused::UnusedText;

verus! {

/// The attributes in the lines `above` an item, in their order. `partial` holds the
/// lower lines of an attribute whose upper lines are still to be read. The
/// attributes end at the first line that is none, is no documentation and is not
/// empty.
pub open spec fn attributes_above(above: Seq<Seq<char>>, partial: Seq<char>) -> Seq<Seq<char>>
    decreases above.len(),
{
    if above.len() == 0 {
        Seq::empty()
    } else {
        let line = text::trimmed(above.last());
        let rest = above.drop_last();
        if line.len() == 0 {
            if partial.len() > 0 {
                Seq::empty()
            } else {
                attributes_above(rest, partial)
            }
        } else if "#["@.is_prefix_of(line) || partial.len() > 0 {
            let attribute = if partial.len() == 0 {
                line
            } else {
                line + "\n"@ + partial
            };
            if text::has(line, "]"@) {
                attributes_above(rest, Seq::empty()).push(attribute)
            } else {
                attributes_above(rest, attribute)
            }
        } else if "///"@.is_prefix_of(line) || "//!"@.is_prefix_of(line) {
            attributes_above(rest, partial)
        } else {
            Seq::empty()
        }
    }
}

/// The attributes attached to the item in line `line_idx`.
pub fn attached_attributes(lines: &Vec<String>, line_idx: usize) -> (r: Vec<String>)
    requires
        line_idx <= lines.len(),
    ensures
        r.deep_view() == attributes_above(lines.deep_view().take(line_idx as int), Seq::empty()),
{
    let ghost all = lines.deep_view();
    let ghost whole = attributes_above(all.take(line_idx as int), Seq::empty());
    let mut found: Vec<String> = Vec::new();
    let ghost mut below: Seq<Seq<char>> = Seq::empty();
    let mut partial = String::new();
    let mut i: usize = line_idx;
    proof {
        assert(partial@ =~= Seq::empty());
        assert(attributes_above(all.take(i as int), partial@) + below =~= whole);
        assert(found.deep_view().reverse() =~= below);
    }
    while i > 0
        invariant_except_break
            i <= line_idx <= lines.len(),
            all == lines.deep_view(),
            attributes_above(all.take(i as int), partial@) + below == whole,
            found.deep_view().reverse() == below,
        ensures
            below == whole,
            found.deep_view().reverse() == below,
        decreases i,
    {
        let line = text::trim(lines[i - 1].as_str());
        let ghost had = found.deep_view();
        proof {
            assert(all.take(i as int).last() == lines[i - 1]@);
            assert(all.take(i as int).drop_last() =~= all.take(i - 1));
            reveal_strlit("\n");
        }
        i = i - 1;
        if line.is_empty() {
            if !partial.as_str().is_empty() {
                proof {
                    assert(Seq::<Seq<char>>::empty() + below =~= below);
                }
                break;
            }
        } else if text::starts_with(line, "#[") || !partial.as_str().is_empty() {
            let mut attribute = line.to_owned();
            if !partial.as_str().is_empty() {
                attribute.append("\n");
                attribute.append(partial.as_str());
            }
            if text::contains(line, "]") {
                let ghost words = attribute@;
                found.push(attribute);
                partial = String::new();
                proof {
                    assert(partial@ =~= Seq::empty());
                    assert(found.deep_view() =~= had.push(words));
                    let now = seq![words] + below;
                    assert(found.deep_view().reverse() =~= now);
                    assert(attributes_above(all.take(i as int), partial@) + now
                        =~= attributes_above(all.take(i as int), partial@).push(words) + below);
                    below = now;
                }
            } else {
                partial = attribute;
            }
        } else if text::starts_with(line, "///") || text::starts_with(line, "//!") {
        } else {
            proof {
                assert(Seq::<Seq<char>>::empty() + below =~= below);
            }
            break;
        }
        proof {
            if i == 0 {
                assert(attributes_above(all.take(0), partial@) + below =~= below);
            }
        }
    }
    let mut attributes: Vec<String> = Vec::new();
    let ghost top_down = found.deep_view().reverse();
    while found.len() > 0
        invariant
            attributes.deep_view() + found.deep_view().reverse() == top_down,
        decreases found.len(),
    {
        let ghost done = attributes.deep_view();
        let ghost left = found.deep_view();
        match found.pop() {
            Some(attribute) => {
                let ghost words = attribute@;
                attributes.push(attribute);
                proof {
                    assert(attributes.deep_view() =~= done.push(words));
                    assert(left.last() == words);
                    assert(found.deep_view() =~= left.drop_last());
                    assert(attributes.deep_view() + found.deep_view().reverse() =~= done
                        + left.reverse());
                }
            },
            None => {},
        }
    }
    proof {
        assert(attributes.deep_view() =~= top_down);
    }
    attributes
}

/// The name at the start of an attribute: the characters up to a parenthesis, a
/// space or a tab.
pub open spec fn attribute_name(inner: Seq<char>) -> Seq<char>
    decreases inner.len(),
{
    if inner.len() == 0 || inner[0] == '(' || inner[0] == ' ' || inner[0] == '\t' {
        Seq::empty()
    } else {
        seq![inner[0]] + attribute_name(inner.drop_first())
    }
}

/// The name at the start of `inner`.
fn find_attribute_name(inner: &str) -> (r: &str)
    ensures
        r@ == attribute_name(inner@),
{
    let v = text::chars_of(inner);
    let mut i: usize = 0;
    proof {
        assert(inner@.skip(0) =~= inner@);
        assert(inner@.take(0) + attribute_name(inner@) =~= attribute_name(inner@));
    }
    while i < v.len() && !(v[i] == '(' || v[i] == ' ' || v[i] == '\t')
        invariant
            i <= v.len(),
            v@ == inner@,
            inner@.take(i as int) + attribute_name(inner@.skip(i as int)) == attribute_name(
                inner@,
            ),
        decreases v.len() - i,
    {
        proof {
            let left = inner@.skip(i as int);
            assert(left[0] == v@[i as int]);
            assert(left.drop_first() =~= inner@.skip(i + 1));
            assert(inner@.take(i + 1) + attribute_name(inner@.skip(i + 1)) =~= inner@.take(i as int)
                + attribute_name(left));
        }
        i = i + 1;
    }
    proof {
        let left = inner@.skip(i as int);
        if i < v.len() {
            assert(left[0] == v@[i as int]);
        }
        assert(inner@.take(i as int) + attribute_name(left) =~= inner@.take(i as int));
    }
    text::take(inner, i)
}

/// The attributes that work at any visibility.
pub open spec fn is_harmless(name: Seq<char>) -> bool {
    ||| name == "allow"@
    ||| name == "warn"@
    ||| name == "deny"@
    ||| name == "forbid"@
    ||| name == "cfg"@
    ||| name == "cfg_attr"@
    ||| name == "doc"@
    ||| name == "must_use"@
    ||| name == "inline"@
    ||| name == "cold"@
    ||| name == "deprecated"@
    ||| name == "expect"@
    ||| name == "non_exhaustive"@
    ||| name == "repr"@
}

/// The derives that work at any visibility.
pub open spec fn is_safe_derive(name: Seq<char>) -> bool {
    ||| name == "Clone"@
    ||| name == "Copy"@
    ||| name == "Debug"@
    ||| name == "Default"@
    ||| name == "Eq"@
    ||| name == "Hash"@
    ||| name == "Ord"@
    ||| name == "PartialEq"@
    ||| name == "PartialOrd"@
}

/// Whether a list of derives holds one that may need a public item.
pub open spec fn has_unsafe_derive(entries: Seq<Seq<char>>) -> bool {
    exists|i: int|
        0 <= i < entries.len() && text::trimmed(#[trigger] entries[i]).len() > 0
            && !is_safe_derive(text::trimmed(entries[i]))
}

/// Whether, of an opening and a closing parenthesis, the first opening one comes
/// before the last closing one.
pub open spec fn parentheses_in_order(attribute: Seq<char>) -> bool {
    match (text::first_match(attribute, "("@), text::last_match(attribute, ")"@)) {
        (Some(open), Some(close)) => open < close,
        _ => true,
    }
}

/// Whether a `derive` may need a public item: its list cannot be read, or it holds
/// a derive that is not known to work at any visibility.
pub open spec fn derive_needs_public(attribute: Seq<char>) -> bool {
    match (text::first_match(attribute, "("@), text::last_match(attribute, ")"@)) {
        (Some(open), Some(close)) => has_unsafe_derive(
            syntax::top_level_parts(attribute.subrange(open + 1, close), ','),
        ),
        _ => true,
    }
}

/// Whether the `derive` attribute `attr` may need a public item.
pub fn derive_requires_public_visibility(attr: &str) -> (b: bool)
    requires
        parentheses_in_order(attr@),
    ensures
        b == derive_needs_public(attr@),
{
    proof {
        reveal_strlit("(");
        reveal_strlit(")");
    }
    let Some(open) = text::find(attr, "(") else {
        return true;
    };
    let Some(close) = text::rfind(attr, ")") else {
        return true;
    };
    let list = attr.substring_char(open + 1, close);
    let entries = syntax::split_top_level(list, ',');
    let ghost all = entries.deep_view();
    let mut i: usize = 0;
    while i < entries.len()
        invariant
            i <= entries.len(),
            all == entries.deep_view(),
            derive_needs_public(attr@) == has_unsafe_derive(all),
            forall|j: int|
                0 <= j < i && text::trimmed(#[trigger] all[j]).len() > 0 ==> is_safe_derive(
                    text::trimmed(all[j]),
                ),
        decreases entries.len() - i,
    {
        let entry = text::trim(entries[i]);
        proof {
            assert(all[i as int] == entries[i as int]@);
        }
        if !entry.is_empty() && !(text::equal(entry, "Clone") || text::equal(entry, "Copy")
            || text::equal(entry, "Debug") || text::equal(entry, "Default") || text::equal(
            entry,
            "Eq",
        ) || text::equal(entry, "Hash") || text::equal(entry, "Ord") || text::equal(
            entry,
            "PartialEq",
        ) || text::equal(entry, "PartialOrd")) {
            return true;
        }
        i = i + 1;
    }
    false
}

/// What stands between `#[` and `]`.
pub open spec fn attribute_inner(attribute: Seq<char>) -> Option<Seq<char>> {
    match text::without_prefix(text::trimmed(attribute), "#["@) {
        None => None,
        Some(rest) => match text::without_suffix(rest, "]"@) {
            None => None,
            Some(inner) => Some(text::trimmed(inner)),
        },
    }
}

/// What stands between `#[` and `]`.
fn strip_attribute(attr: &str) -> (r: Option<&str>)
    ensures
        r is Some <==> attribute_inner(attr@) is Some,
        r matches Some(inner) ==> attribute_inner(attr@) == Some(inner@),
{
    match text::strip_prefix(text::trim(attr), "#[") {
        None => None,
        Some(rest) => match text::strip_suffix(rest, "]") {
            None => None,
            Some(inner) => Some(text::trim(inner)),
        },
    }
}

/// Whether an attribute may need a public item.
pub open spec fn needs_public(attribute: Seq<char>) -> bool {
    match attribute_inner(attribute) {
        None => false,
        Some(inner) => if attribute_name(inner) == "derive"@ {
            derive_needs_public(inner)
        } else {
            !is_harmless(attribute_name(inner))
        },
    }
}

/// Whether the parentheses of an attribute are in order, if it is a `derive`.
pub open spec fn attribute_in_order(attribute: Seq<char>) -> bool {
    match attribute_inner(attribute) {
        None => true,
        Some(inner) => attribute_name(inner) == "derive"@ ==> parentheses_in_order(inner),
    }
}

/// Whether the parentheses of `attr` are in order.
pub fn has_ordered_parentheses(attr: &str) -> (b: bool)
    ensures
        b == attribute_in_order(attr@),
{
    let Some(inner) = strip_attribute(attr) else {
        return true;
    };
    if !text::equal(find_attribute_name(inner), "derive") {
        return true;
    }
    match (text::find(inner, "("), text::rfind(inner, ")")) {
        (Some(open), Some(close)) => open < close,
        _ => true,
    }
}

/// Whether the attribute `attr` may need a public item.
pub fn attribute_requires_public_visibility(attr: &str) -> (b: bool)
    requires
        attribute_in_order(attr@),
    ensures
        b == needs_public(attr@),
{
    let Some(inner) = strip_attribute(attr) else {
        return false;
    };
    let name = find_attribute_name(inner);
    if text::equal(name, "derive") {
        return derive_requires_public_visibility(inner);
    }
    !(text::equal(name, "allow") || text::equal(name, "warn") || text::equal(name, "deny")
        || text::equal(name, "forbid") || text::equal(name, "cfg") || text::equal(name, "cfg_attr")
        || text::equal(name, "doc") || text::equal(name, "must_use") || text::equal(name, "inline")
        || text::equal(name, "cold") || text::equal(name, "deprecated") || text::equal(
        name,
        "expect",
    ) || text::equal(name, "non_exhaustive") || text::equal(name, "repr"))
}

/// Whether one of `attributes` may need a public item.
pub open spec fn any_needs_public(attributes: Seq<Seq<char>>) -> bool {
    exists|i: int| 0 <= i < attributes.len() && needs_public(#[trigger] attributes[i])
}

/// Whether the parentheses of the attributes are in order, up to the first that may
/// need a public item.
pub open spec fn attributes_in_order(attributes: Seq<Seq<char>>) -> bool {
    forall|i: int|
        0 <= i < attributes.len() && !any_needs_public(attributes.take(i)) ==> attribute_in_order(
            #[trigger] attributes[i],
        )
}

/// The reason to leave alone an item with attributes that may need it public.
pub open spec fn attribute_reason() -> Seq<char> {
    "attached attributes may require public visibility"@
}

/// Why the item in line `line_idx` has to stay public, if it has to.
pub fn visibility_fix_skip_reason(lines: &Vec<String>, line_idx: usize) -> (r: Option<&'static str>)
    requires
        line_idx <= lines.len(),
        attributes_in_order(
            attributes_above(lines.deep_view().take(line_idx as int), Seq::empty()),
        ),
    ensures
        r is Some <==> any_needs_public(
            attributes_above(lines.deep_view().take(line_idx as int), Seq::empty()),
        ),
        r matches Some(reason) ==> reason@ == attribute_reason(),
{
    let attributes = attached_attributes(lines, line_idx);
    let ghost all = attributes.deep_view();
    let mut i: usize = 0;
    while i < attributes.len()
        invariant
            i <= attributes.len(),
            all == attributes.deep_view(),
            attributes_in_order(all),
            forall|j: int| 0 <= j < i ==> !needs_public(#[trigger] all[j]),
            all == attributes_above(lines.deep_view().take(line_idx as int), Seq::empty()),
        decreases attributes.len() - i,
    {
        proof {
            assert(all[i as int] == attributes[i as int]@);
            assert forall|j: int| 0 <= j < i implies !needs_public(
                #[trigger] all.take(i as int)[j],
            ) by {
                assert(all.take(i as int)[j] == all[j]);
            }
            assert(!any_needs_public(all.take(i as int)));
        }
        if attribute_requires_public_visibility(attributes[i].as_str()) {
            return Some("attached attributes may require public visibility");
        }
        i = i + 1;
    }
    None
}

/// Derives that all work at any visibility leave an item free to be made private.
pub proof fn lemma_safe_derives(list: Seq<char>)
    requires
        parentheses_in_order(list),
        text::first_match(list, "("@) is Some,
        text::last_match(list, ")"@) is Some,
        ({
            let entries = syntax::top_level_parts(
                list.subrange(
                    text::first_match(list, "("@)->Some_0 + 1,
                    text::last_match(list, ")"@)->Some_0,
                ),
                ',',
            );
            forall|i: int|
                0 <= i < entries.len() ==> is_safe_derive(text::trimmed(#[trigger] entries[i]))
        }),
    ensures
        !derive_needs_public(list),
{
}

/// What becomes of one item.
pub ghost enum Outcome {
    /// The item is not where it was reported, or is restricted already.
    Untouched,
    /// The item stays as it is, for the given reason.
    Skipped(Seq<char>),
    /// The `pub` at the given line and character becomes `pub(crate)`.
    Fixed(int, int),
}

/// Whether the reported place of an item lies in one of `lines`.
pub open spec fn placed_in(lines: Seq<Seq<char>>, def: UnusedText) -> bool {
    1 <= def.line <= lines.len() && def.column >= 1
}

/// The character of its line at which an item begins, if one begins there.
pub open spec fn item_start(lines: Seq<Seq<char>>, def: UnusedText) -> Option<int> {
    text::chars_in_bytes(lines[def.line - 1], (def.column - 1) as nat)
}

/// Whether the fix of an item can be tried on `lines`: where its place lies in a
/// line, a character begins there, and where `pub` stands there the parentheses of
/// the attributes above are in order.
pub open spec fn can_try(lines: Seq<Seq<char>>, def: UnusedText) -> bool {
    placed_in(lines, def) ==> match item_start(lines, def) {
        None => false,
        Some(start) => "pub "@.is_prefix_of(lines[def.line - 1].skip(start))
            ==> attributes_in_order(attributes_above(lines.take(def.line - 1), Seq::empty())),
    }
}

/// What becomes of an item in `lines`.
pub open spec fn outcome(lines: Seq<Seq<char>>, def: UnusedText) -> Outcome {
    if !placed_in(lines, def) {
        Outcome::Untouched
    } else {
        match item_start(lines, def) {
            None => Outcome::Untouched,
            Some(start) => {
                let rest = lines[def.line - 1].skip(start);
                if "pub "@.is_prefix_of(rest) {
                    if any_needs_public(
                        attributes_above(lines.take(def.line - 1), Seq::empty()),
                    ) {
                        Outcome::Skipped(attribute_reason())
                    } else {
                        Outcome::Fixed(def.line - 1, start)
                    }
                } else if "pub("@.is_prefix_of(rest) {
                    Outcome::Untouched
                } else {
                    Outcome::Skipped("unexpected token at pub position"@)
                }
            },
        }
    }
}

/// `line` with the `pub` at `start` made `pub(crate)`.
pub open spec fn restricted(line: Seq<char>, start: int) -> Seq<char> {
    line.take(start) + "pub(crate)"@ + line.skip(start + 3)
}

/// The place of an item as it is printed.
pub open spec fn printed_place(def: UnusedText) -> Seq<char> {
    def.display_path + " ("@ + def.file + ":"@ + text::decimal(def.line as nat) + ")"@
}

/// What was done to the lines of a file so far.
pub ghost struct Progress {
    pub lines: Seq<Seq<char>>,
    pub messages: Seq<Seq<char>>,
    pub fixed: nat,
}

/// What is done once the next item was dealt with.
pub open spec fn step(progress: Progress, def: UnusedText) -> Progress {
    match outcome(progress.lines, def) {
        Outcome::Untouched => progress,
        Outcome::Skipped(reason) => Progress {
            messages: progress.messages.push(
                "  skipped: "@ + printed_place(def) + " - "@ + reason,
            ),
            ..progress
        },
        Outcome::Fixed(line, start) => Progress {
            lines: progress.lines.update(line, restricted(progress.lines[line], start)),
            messages: progress.messages.push("  fixed: "@ + printed_place(def)),
            fixed: progress.fixed + 1,
        },
    }
}

/// What is done once all of `defs` were dealt with.
pub open spec fn steps(lines: Seq<Seq<char>>, defs: Seq<UnusedText>) -> Progress
    decreases defs.len(),
{
    if defs.len() == 0 {
        Progress { lines, messages: Seq::empty(), fixed: 0 }
    } else {
        step(steps(lines, defs.drop_last()), defs.last())
    }
}

/// The order in which items are dealt with: from the last line to the first, and
/// in a line from the last column to the first.
pub struct FixOrder;

impl<'a> sorting::Order<&'a UnusedDef> for FixOrder {
    open spec fn later(a: UnusedText, b: UnusedText) -> bool {
        a.line < b.line || (a.line == b.line && a.column < b.column)
    }

    fn is_later(a: &&'a UnusedDef, b: &&'a UnusedDef) -> (r: bool) {
        a.line < b.line || (a.line == b.line && a.column < b.column)
    }
}

/// The text of a file from its lines, with a line feed at the end where `source`
/// has one.
pub open spec fn assembled(lines: Seq<Seq<char>>, source: Seq<char>) -> Seq<char> {
    let whole = text::joined(lines, "\n"@);
    if text::newline().is_suffix_of(source) {
        whole + text::newline()
    } else {
        whole
    }
}

/// What is done to a file.
pub open spec fn file_progress<'a>(source: Seq<char>, defs: Seq<UnusedText>) -> Progress {
    steps(text::bare_lines(source), sorting::sorted::<&'a UnusedDef, FixOrder>(defs))
}

/// A file whose items were made private where they can be.
#[derive(Debug)]
pub struct FixedFile {
    /// The new text.
    pub text: String,
    /// The number of items made private.
    pub fixed: usize,
    /// What to print, a line each.
    pub messages: Vec<String>,
}

/// The place of an item as it is printed.
fn print_place(def: &UnusedDef) -> (r: String)
    ensures
        r@ == printed_place(def@),
{
    let mut out = def.display_path.clone();
    out.append(" (");
    out.append(def.file.as_str());
    out.append(":");
    out.append(text::decimal_string(def.line as usize).as_str());
    out.append(")");
    out
}

/// Deals with one item. Returns whether it was made private.
fn fix_item(lines: &mut Vec<String>, messages: &mut Vec<String>, def: &UnusedDef) -> (fixed: bool)
    requires
        can_try(old(lines).deep_view(), def@),
    ensures
        ({
            let before = Progress {
                lines: old(lines).deep_view(),
                messages: old(messages).deep_view(),
                fixed: 0,
            };
            let after = Progress {
                lines: final(lines).deep_view(),
                messages: final(messages).deep_view(),
                fixed: if fixed {
                    1
                } else {
                    0
                },
            };
            after == step(before, def@)
        }),
{
    let ghost before = lines.deep_view();
    let ghost printed = messages.deep_view();
    if def.line == 0 || def.column == 0 {
        return false;
    }
    let line_idx: usize = def.line as usize - 1;
    let col_idx: usize = def.column as usize - 1;
    if line_idx >= lines.len() {
        return false;
    }
    proof {
        assert(before[line_idx as int] == lines[line_idx as int]@);
        reveal_strlit("pub ");
    }
    let Some(start) = text::count_chars_in_bytes(lines[line_idx].as_str(), col_idx) else {
        return false;
    };
    let rest = text::skip(lines[line_idx].as_str(), start);
    if !text::starts_with(rest, "pub ") {
        if !text::starts_with(rest, "pub(") {
            let mut message = "  skipped: ".to_owned();
            message.append(print_place(def).as_str());
            message.append(" - ");
            message.append("unexpected token at pub position");
            let ghost words = message@;
            messages.push(message);
            proof {
                assert(messages.deep_view() =~= printed.push(words));
            }
        }
        return false;
    }
    if let Some(reason) = visibility_fix_skip_reason(lines, line_idx) {
        let mut message = "  skipped: ".to_owned();
        message.append(print_place(def).as_str());
        message.append(" - ");
        message.append(reason);
        let ghost words = message@;
        messages.push(message);
        proof {
            assert(messages.deep_view() =~= printed.push(words));
        }
        return false;
    }
    let mut line = text::take(lines[line_idx].as_str(), start).to_owned();
    line.append("pub(crate)");
    proof {
        assert(rest@.skip(3) =~= before[line_idx as int].skip(start + 3));
    }
    line.append(text::skip(rest, 3));
    let ghost new_line = line@;
    lines.set(line_idx, line);
    let mut message = "  fixed: ".to_owned();
    message.append(print_place(def).as_str());
    let ghost words = message@;
    messages.push(message);
    proof {
        assert(messages.deep_view() =~= printed.push(words));
        assert(lines.deep_view() =~= before.update(line_idx as int, new_line));
    }
    true
}

proof fn lemma_can_still_try(lines: Seq<Seq<char>>, done: UnusedText, def: UnusedText)
    requires
        can_try(lines, done),
        can_try(lines, def),
        def.line < done.line || (def.line == done.line && def.column <= done.column),
    ensures
        can_try(step(Progress { lines, messages: Seq::empty(), fixed: 0 }, done).lines, def),
{
    match outcome(lines, done) {
        Outcome::Fixed(line, start) => {
            let now = lines.update(line, restricted(lines[line], start));
            if placed_in(now, def) {
                assert(now.take(def.line - 1) =~= lines.take(def.line - 1));
                if def.line == done.line {
                    let bytes = (def.column - 1) as nat;
                    let n = item_start(lines, def)->Some_0;
                    text::lemma_chars_in_bytes(lines[line], bytes);
                    text::lemma_chars_in_bytes(lines[line], (done.column - 1) as nat);
                    text::lemma_chars_in_bytes_monotone(
                        lines[line],
                        bytes,
                        (done.column - 1) as nat,
                    );
                    assert(now[line].take(n) =~= lines[line].take(n));
                    text::lemma_chars_in_bytes_prefix(lines[line], now[line], bytes, n);
                }
            }
        },
        _ => {},
    }
}

proof fn lemma_step_lines(progress: Progress, def: UnusedText)
    ensures
        step(progress, def).lines == step(
            Progress { lines: progress.lines, messages: Seq::empty(), fixed: 0 },
            def,
        ).lines,
{
}

/// Makes the unused items `defs` of the file `source` private to their crate, where
/// they can be.
pub fn fix_file<'a>(source: &str, defs: Vec<&'a UnusedDef>) -> (r: FixedFile)
    requires
        forall|i: int|
            0 <= i < defs.len() ==> can_try(text::bare_lines(source@), (#[trigger] defs@[i])@),
    ensures
        r.text@ == assembled(file_progress(source@, sorting::views(defs@)).lines, source@),
        r.fixed == file_progress(source@, sorting::views(defs@)).fixed,
        r.messages.deep_view() == file_progress(source@, sorting::views(defs@)).messages,
{
    let found = text::split_lines(source);
    let ghost at_start = text::bare_lines(source@);
    let mut lines: Vec<String> = Vec::new();
    let mut i: usize = 0;
    while i < found.len()
        invariant
            i <= found.len(),
            found.deep_view() == at_start,
            lines.deep_view() == at_start.take(i as int),
        decreases found.len() - i,
    {
        let ghost known = lines.deep_view();
        lines.push(found[i].to_owned());
        proof {
            assert(at_start[i as int] == found[i as int]@);
            assert(lines.deep_view() =~= known.push(found[i as int]@));
            assert(at_start.take(i + 1) =~= at_start.take(i as int).push(at_start[i as int]));
        }
        i = i + 1;
    }
    let ghost items = sorting::views(defs@);
    let ghost in_turn = sorting::sorted::<&'a UnusedDef, FixOrder>(items);
    proof {
        assert(at_start.take(i as int) =~= at_start);
        sorting::lemma_sorted_items::<&'a UnusedDef, FixOrder>(items);
        sorting::lemma_sorted_in_order::<&'a UnusedDef, FixOrder>(items);
        assert forall|m: int| 0 <= m < in_turn.len() implies can_try(
            at_start,
            #[trigger] in_turn[m],
        ) by {
            assert(in_turn.contains(in_turn[m]));
            let j = choose|j: int| 0 <= j < items.len() && items[j] == in_turn[m];
            assert(defs@[j]@ == items[j]);
        }
    }
    let sorted_defs = sorting::sort_stable::<&'a UnusedDef, FixOrder>(defs);
    let mut messages: Vec<String> = Vec::new();
    let mut fixed: usize = 0;
    let mut k: usize = 0;
    proof {
        assert(in_turn.take(0) =~= Seq::empty());
        assert(messages.deep_view() =~= Seq::empty());
    }
    while k < sorted_defs.len()
        invariant
            k <= sorted_defs.len(),
            in_turn == sorting::views(sorted_defs@),
            sorting::in_order::<&'a UnusedDef, FixOrder>(in_turn),
            fixed <= k,
            lines.deep_view() == steps(at_start, in_turn.take(k as int)).lines,
            messages.deep_view() == steps(at_start, in_turn.take(k as int)).messages,
            fixed == steps(at_start, in_turn.take(k as int)).fixed,
            forall|m: int|
                k <= m < in_turn.len() ==> can_try(lines.deep_view(), #[trigger] in_turn[m]),
        decreases sorted_defs.len() - k,
    {
        let ghost before = Progress {
            lines: lines.deep_view(),
            messages: messages.deep_view(),
            fixed: fixed as nat,
        };
        let ghost def = in_turn[k as int];
        proof {
            assert(sorted_defs@[k as int]@ == def);
            assert(in_turn.take(k + 1).drop_last() =~= in_turn.take(k as int));
            assert(in_turn.take(k + 1).last() == def);
        }
        let was_fixed = fix_item(&mut lines, &mut messages, sorted_defs[k]);
        if was_fixed {
            fixed = fixed + 1;
        }
        proof {
            lemma_step_lines(before, def);
            assert forall|m: int| k + 1 <= m < in_turn.len() implies can_try(
                lines.deep_view(),
                #[trigger] in_turn[m],
            ) by {
                assert(!<FixOrder as sorting::Order<&'a UnusedDef>>::later(
                    in_turn[k as int],
                    in_turn[m],
                ));
                lemma_can_still_try(before.lines, def, in_turn[m]);
            }
        }
        k = k + 1;
    }
    proof {
        assert(in_turn.take(k as int) =~= in_turn);
        reveal_strlit("\n");
        assert("\n"@ =~= text::newline());
    }
    let mut output = text::join_owned(&lines, "\n");
    if text::strip_suffix(source, "\n").is_some() {
        output.append("\n");
    }
    FixedFile { text: output, fixed, messages }
}

/// Whether the fix of `def` can be tried on the file `source`.
pub fn can_fix(source: &str, def: &UnusedDef) -> (b: bool)
    ensures
        b == can_try(text::bare_lines(source@), def@),
{
    let found = text::split_lines(source);
    let ghost at_start = text::bare_lines(source@);
    if def.line == 0 || def.column == 0 || def.line as usize > found.len() {
        return true;
    }
    let line_idx: usize = def.line as usize - 1;
    proof {
        assert(at_start[line_idx as int] == found[line_idx as int]@);
    }
    let Some(start) = text::count_chars_in_bytes(found[line_idx], def.column as usize - 1) else {
        return false;
    };
    if !text::starts_with(text::skip(found[line_idx], start), "pub ") {
        return true;
    }
    let mut above: Vec<String> = Vec::new();
    let mut i: usize = 0;
    while i < line_idx
        invariant
            i <= line_idx < found.len(),
            found.deep_view() == at_start,
            above.deep_view() == at_start.take(i as int),
        decreases line_idx - i,
    {
        let ghost known = above.deep_view();
        above.push(found[i].to_owned());
        proof {
            assert(at_start[i as int] == found[i as int]@);
            assert(above.deep_view() =~= known.push(found[i as int]@));
            assert(at_start.take(i + 1) =~= at_start.take(i as int).push(at_start[i as int]));
        }
        i = i + 1;
    }
    let attributes = attached_attributes(&above, line_idx);
    let ghost all = attributes.deep_view();
    proof {
        assert(above.deep_view().take(line_idx as int) =~= at_start.take(line_idx as int));
    }
    let mut k: usize = 0;
    while k < attributes.len()
        invariant
            k <= attributes.len(),
            all == attributes.deep_view(),
            can_try(text::bare_lines(source@), def@) == attributes_in_order(all),
            forall|j: int| 0 <= j < k ==> !needs_public(#[trigger] all[j]),
            forall|j: int| 0 <= j < k ==> attribute_in_order(#[trigger] all[j]),
        decreases attributes.len() - k,
    {
        proof {
            assert(all[k as int] == attributes[k as int]@);
            assert forall|j: int| 0 <= j < k implies !needs_public(
                #[trigger] all.take(k as int)[j],
            ) by {
                assert(all.take(k as int)[j] == all[j]);
            }
            assert(!any_needs_public(all.take(k as int)));
        }
        if !has_ordered_parentheses(attributes[k].as_str()) {
            return false;
        }
        if attribute_requires_public_visibility(attributes[k].as_str()) {
            proof {
                assert forall|j: int|
                    0 <= j < all.len() && !any_needs_public(
                        all.take(j),
                    ) implies attribute_in_order(#[trigger] all[j]) by {
                    if j > k {
                        assert(all.take(j)[k as int] == all[k as int]);
                    }
                }
            }
            return true;
        }
        k = k + 1;
    }
    true
}

/// Making items private keeps the number of lines.
pub proof fn lemma_line_count_kept(lines: Seq<Seq<char>>, defs: Seq<UnusedText>)
    ensures
        steps(lines, defs).lines.len() == lines.len(),
        steps(lines, defs).fixed <= defs.len(),
    decreases defs.len(),
{
    if defs.len() > 0 {
        lemma_line_count_kept(lines, defs.drop_last());
    }
}

/// A line in which no unused item begins stays as it is.
pub proof fn lemma_other_line_kept(lines: Seq<Seq<char>>, defs: Seq<UnusedText>, line: int)
    requires
        0 <= line < lines.len(),
        forall|i: int| 0 <= i < defs.len() ==> (#[trigger] defs[i]).line != line + 1,
    ensures
        steps(lines, defs).lines[line] == lines[line],
    decreases defs.len(),
{
    if defs.len() > 0 {
        let shorter = defs.drop_last();
        lemma_line_count_kept(lines, shorter);
        assert forall|i: int| 0 <= i < shorter.len() implies (#[trigger] shorter[i]).line != line
            + 1 by {
            assert(shorter[i] == defs[i]);
        }
        lemma_other_line_kept(lines, shorter, line);
        assert(defs.last().line != line + 1);
    }
}

/// An item that was made private is left alone from then on.
pub proof fn lemma_fixed_once(lines: Seq<Seq<char>>, def: UnusedText)
    requires
        outcome(lines, def) is Fixed,
    ensures
        outcome(
            step(Progress { lines, messages: Seq::empty(), fixed: 0 }, def).lines,
            def,
        ) is Untouched,
{
    let line = def.line - 1;
    let start = item_start(lines, def)->Some_0;
    let now = lines.update(line, restricted(lines[line], start));
    text::lemma_chars_in_bytes(lines[line], (def.column - 1) as nat);
    assert(now[line].take(start) =~= lines[line].take(start));
    text::lemma_chars_in_bytes_prefix(
        lines[line],
        now[line],
        (def.column - 1) as nat,
        start,
    );
    reveal_strlit("pub ");
    reveal_strlit("pub(");
    reveal_strlit("pub(crate)");
    let rest = now[line].skip(start);
    assert(rest =~= "pub(crate)"@ + lines[line].skip(start + 3));
    assert(rest.subrange(0, 4)[3] == '(');
    assert("pub "@[3] == ' ');
    assert("pub("@.is_prefix_of(rest)) by {
        assert(rest.subrange(0, 4) =~= "pub("@);
    }
}

/// Whether no line of a text ends in a carriage return and a line feed.
pub open spec fn plain_line_ends(source: Seq<char>) -> bool {
    let lines = text::whole_lines(source);
    forall|i: int|
        0 <= i < lines.len() ==> !(#[trigger] lines[i].len() >= 2 && lines[i].last() == '\n'
            && lines[i][lines[i].len() - 2] == '\r')
}

proof fn lemma_bare_lines_join(lines: Seq<Seq<char>>)
    requires
        forall|i: int| 0 <= i < lines.len() ==> (#[trigger] lines[i]).len() > 0,
        forall|i: int| 0 <= i < lines.len() - 1 ==> (#[trigger] lines[i]).last() == '\n',
        forall|i: int|
            0 <= i < lines.len() ==> !(#[trigger] lines[i].len() >= 2 && lines[i].last() == '\n'
                && lines[i][lines[i].len() - 2] == '\r'),
    ensures
        ({
            let bare = lines.map_values(|line: Seq<char>| text::bare_line(line));
            text::concatenated(lines) == if lines.len() > 0 && lines.last().last() == '\n' {
                text::joined(bare, text::newline()) + text::newline()
            } else {
                text::joined(bare, text::newline())
            }
        }),
    decreases lines.len(),
{
    let bare = lines.map_values(|line: Seq<char>| text::bare_line(line));
    if lines.len() == 0 {
        assert(text::concatenated(lines) =~= text::joined(bare, text::newline()));
    } else {
        let front = lines.drop_last();
        let last = lines.last();
        assert(lines[lines.len() - 1] == last);
        assert forall|i: int| 0 <= i < front.len() implies (#[trigger] front[i]).len() > 0
            && front[i].last() == '\n' by {
            assert(front[i] == lines[i]);
        }
        lemma_bare_lines_join(front);
        let bare_front = front.map_values(|line: Seq<char>| text::bare_line(line));
        assert(bare.drop_last() =~= bare_front);
        text::lemma_concatenated_split(lines, lines.len() - 1);
        assert(lines.take(lines.len() - 1) =~= front);
        let tail = lines.skip(lines.len() - 1);
        assert(tail =~= seq![last]);
        assert(text::concatenated(tail) =~= last) by {
            reveal_with_fuel(text::concatenated, 2);
            assert(tail.drop_first() =~= Seq::empty());
        }
        let ending = if last.last() == '\n' {
            text::newline()
        } else {
            Seq::empty()
        };
        assert(text::bare_line(last) + ending =~= last);
        if front.len() == 0 {
            assert(text::concatenated(front) =~= Seq::empty());
            assert(text::joined(bare, text::newline()) == text::bare_line(last));
            assert(text::concatenated(lines) =~= text::joined(bare, text::newline()) + ending);
        } else {
            assert(front.last() == lines[lines.len() - 2]);
            assert(text::joined(bare, text::newline()) == text::joined(
                bare_front,
                text::newline(),
            ) + text::newline() + text::bare_line(last));
            assert(text::concatenated(lines) =~= text::joined(bare, text::newline()) + ending);
        }
        if last.last() != '\n' {
            assert(text::joined(bare, text::newline()) + ending =~= text::joined(
                bare,
                text::newline(),
            ));
        }
    }
}

proof fn lemma_no_fix_no_change(lines: Seq<Seq<char>>, defs: Seq<UnusedText>)
    requires
        steps(lines, defs).fixed == 0,
    ensures
        steps(lines, defs).lines == lines,
    decreases defs.len(),
{
    if defs.len() > 0 {
        lemma_no_fix_no_change(lines, defs.drop_last());
    }
}

/// A file in which nothing is made private keeps its text, unless it has lines that
/// end in a carriage return and a line feed.
pub proof fn lemma_unfixed_file_unchanged(source: Seq<char>, defs: Seq<UnusedText>)
    requires
        plain_line_ends(source),
        file_progress(source, defs).fixed == 0,
    ensures
        assembled(file_progress(source, defs).lines, source) == source,
{
    lemma_no_fix_no_change(text::bare_lines(source), sorting::sorted::<&UnusedDef, FixOrder>(defs));
    let lines = text::whole_lines(source);
    assert forall|i: int| 0 <= i < lines.len() implies (#[trigger] lines[i]).len() > 0 by {
        text::lemma_lines_end(source, i);
    }
    assert forall|i: int| 0 <= i < lines.len() - 1 implies (#[trigger] lines[i]).last()
        == '\n' by {
        text::lemma_lines_end(source, i);
    }
    lemma_bare_lines_join(lines);
    text::lemma_lines_concatenate(source);
    reveal_strlit("\n");
    assert("\n"@ =~= text::newline());
    if lines.len() > 0 {
        text::lemma_lines_end(source, 0);
        assert(source.subrange(source.len() - 1, source.len() as int) =~= seq![source.last()]);
        assert(text::newline()[0] == '\n');
        if source.last() == '\n' {
            assert(text::newline().is_suffix_of(source));
        } else {
            assert(seq![source.last()][0] != text::newline()[0]);
        }
    } else {
        assert(source =~= Seq::empty());
    }
}

/// Making an item private shifts no item before it: what becomes of that one stays
/// the same.
pub proof fn lemma_earlier_item_not_shifted(
    lines: Seq<Seq<char>>,
    done: UnusedText,
    def: UnusedText,
)
    requires
        can_try(lines, done),
        can_try(lines, def),
        def.line < done.line || (def.line == done.line && def.column < done.column),
    ensures
        outcome(step(Progress { lines, messages: Seq::empty(), fixed: 0 }, done).lines, def)
            == outcome(lines, def),
{
    if let Outcome::Fixed(line, start) = outcome(lines, done) {
        let now = lines.update(line, restricted(lines[line], start));
        if placed_in(lines, def) {
            assert(now.take(def.line - 1) =~= lines.take(def.line - 1));
            if def.line == done.line {
                lemma_same_words(lines[line], done, def, start);
            }
        }
    }
}

proof fn lemma_same_words(line: Seq<char>, done: UnusedText, def: UnusedText, start: int)
    requires
        1 <= def.column < done.column,
        text::chars_in_bytes(line, (done.column - 1) as nat) == Some(start),
        text::chars_in_bytes(line, (def.column - 1) as nat) is Some,
        "pub "@.is_prefix_of(line.skip(start)),
    ensures
        ({
            let n = text::chars_in_bytes(line, (def.column - 1) as nat)->Some_0;
            let now = restricted(line, start);
            &&& text::chars_in_bytes(now, (def.column - 1) as nat) == Some(n)
            &&& "pub "@.is_prefix_of(now.skip(n)) == "pub "@.is_prefix_of(line.skip(n))
            &&& "pub("@.is_prefix_of(now.skip(n)) == "pub("@.is_prefix_of(line.skip(n))
        }),
{
    let bytes = (def.column - 1) as nat;
    let n = text::chars_in_bytes(line, bytes)->Some_0;
    let now = restricted(line, start);
    text::lemma_chars_in_bytes(line, bytes);
    text::lemma_chars_in_bytes(line, (done.column - 1) as nat);
    text::lemma_chars_in_bytes_monotone(line, bytes, (done.column - 1) as nat);
    assert(now.take(n) =~= line.take(n));
    text::lemma_chars_in_bytes_prefix(line, now, bytes, n);
    text::lemma_chars_in_bytes_strict(line, bytes, (done.column - 1) as nat);
    reveal_strlit("pub ");
    reveal_strlit("pub(");
    reveal_strlit("pub(crate)");
    assert(line.skip(start).subrange(0, 4) == "pub "@);
    assert(line.skip(start)[0] == "pub "@[0]);
    assert(line.skip(start)[1] == "pub "@[1]);
    assert(line.skip(start)[2] == "pub "@[2]);
    assert forall|i: int| 0 <= i < start + 3 implies now[i] == line[i] by {
        if i >= start {
            assert(line[i] == line.skip(start)[i - start]);
        }
    }
    assert(now.skip(n).subrange(0, 4) =~= line.skip(n).subrange(0, 4));
}

proof fn lemma_outcome_in_turn(
    lines: Seq<Seq<char>>,
    in_turn: Seq<UnusedText>,
    i: int,
    k: int,
)
    requires
        0 <= i <= k < in_turn.len(),
        forall|m: int| 0 <= m < in_turn.len() ==> can_try(lines, #[trigger] in_turn[m]),
        forall|a: int, b: int|
            0 <= a < b < in_turn.len() ==> {
                let upper = #[trigger] in_turn[b];
                let lower = #[trigger] in_turn[a];
                upper.line < lower.line || (upper.line == lower.line && upper.column
                    <= lower.column)
            },
        forall|j: int|
            0 <= j < k ==> ((#[trigger] in_turn[j]).line, in_turn[j].column) != (
                in_turn[k].line,
                in_turn[k].column,
            ),
    ensures
        forall|m: int|
            i <= m < in_turn.len() ==> can_try(
                steps(lines, in_turn.take(i)).lines,
                #[trigger] in_turn[m],
            ),
        outcome(steps(lines, in_turn.take(i)).lines, in_turn[k]) == outcome(lines, in_turn[k]),
    decreases i,
{
    if i == 0 {
        assert(in_turn.take(0) =~= Seq::empty());
    } else {
        lemma_outcome_in_turn(lines, in_turn, i - 1, k);
        let so_far = steps(lines, in_turn.take(i - 1));
        let done = in_turn[i - 1];
        assert(in_turn.take(i).drop_last() =~= in_turn.take(i - 1));
        assert(in_turn.take(i).last() == done);
        lemma_step_lines(so_far, done);
        assert forall|m: int| i <= m < in_turn.len() implies can_try(
            steps(lines, in_turn.take(i)).lines,
            #[trigger] in_turn[m],
        ) by {
            lemma_can_still_try(so_far.lines, done, in_turn[m]);
        }
        lemma_earlier_item_not_shifted(so_far.lines, done, in_turn[k]);
    }
}

/// What becomes of an item in its turn is what would become of it in the file as it
/// was, where no other item has the same place.
pub proof fn lemma_each_item_for_itself(source: Seq<char>, defs: Seq<UnusedText>, k: int)
    requires
        forall|i: int|
            0 <= i < defs.len() ==> can_try(text::bare_lines(source), #[trigger] defs[i]),
        ({
            let in_turn = sorting::sorted::<&UnusedDef, FixOrder>(defs);
            &&& 0 <= k < in_turn.len()
            &&& forall|j: int|
                0 <= j < k ==> ((#[trigger] in_turn[j]).line, in_turn[j].column) != (
                    in_turn[k].line,
                    in_turn[k].column,
                )
        }),
    ensures
        ({
            let lines = text::bare_lines(source);
            let in_turn = sorting::sorted::<&UnusedDef, FixOrder>(defs);
            outcome(steps(lines, in_turn.take(k)).lines, in_turn[k]) == outcome(
                lines,
                in_turn[k],
            )
        }),
{
    let lines = text::bare_lines(source);
    let in_turn = sorting::sorted::<&UnusedDef, FixOrder>(defs);
    sorting::lemma_sorted_items::<&UnusedDef, FixOrder>(defs);
    sorting::lemma_sorted_in_order::<&UnusedDef, FixOrder>(defs);
    assert forall|m: int| 0 <= m < in_turn.len() implies can_try(
        lines,
        #[trigger] in_turn[m],
    ) by {
        assert(in_turn.contains(in_turn[m]));
        let j = choose|j: int| 0 <= j < defs.len() && defs[j] == in_turn[m];
    }
    assert forall|a: int, b: int| 0 <= a < b < in_turn.len() implies {
        let upper = #[trigger] in_turn[b];
        let lower = #[trigger] in_turn[a];
        upper.line < lower.line || (upper.line == lower.line && upper.column <= lower.column)
    } by {
        assert(!<FixOrder as sorting::Order<&UnusedDef>>::later(in_turn[a], in_turn[b]));
    }
    lemma_outcome_in_turn(lines, in_turn, k, k);
}

/// Right above an item, an empty line and a line of documentation make no difference, an
/// attribute on one line is the last of the attributes, and any other line ends them.
pub proof fn lemma_line_above(above: Seq<Seq<char>>, line: Seq<char>)
    ensures
        ({
            let known = attributes_above(above, Seq::empty());
            let now = attributes_above(above.push(line), Seq::empty());
            let words = text::trimmed(line);
            &&& words.len() == 0 ==> now == known
            &&& "///"@.is_prefix_of(words) || "//!"@.is_prefix_of(words) ==> now == known
            &&& "#["@.is_prefix_of(words) && (exists|j: int| text::matches_at(words, "]"@, j))
                ==> now == known.push(words)
            &&& words.len() > 0 && !("#["@.is_prefix_of(words)) && !("///"@.is_prefix_of(words))
                && !("//!"@.is_prefix_of(words)) ==> now.len() == 0
        }),
{
    reveal_strlit("#[");
    reveal_strlit("///");
    reveal_strlit("//!");
    let words = text::trimmed(line);
    assert(above.push(line).drop_last() =~= above);
    assert(above.push(line).last() == line);
    text::lemma_first_match_least(words, "]"@);
    if "#["@.is_prefix_of(words) {
        assert(words.subrange(0, 2)[0] == '#');
        assert(words[0] == '#');
    }
    if "///"@.is_prefix_of(words) {
        assert(words.subrange(0, 3)[0] == '/');
        assert(words[0] == '/');
    }
    if "//!"@.is_prefix_of(words) {
        assert(words.subrange(0, 3)[0] == '/');
        assert(words[0] == '/');
    }
}

/// The lower lines of an attribute wait for the line that has its bracket: that one ends
/// it, all of them being one attribute with line feeds between them; an empty line in it
/// ends the attributes.
pub proof fn lemma_attribute_of_lines(
    above: Seq<Seq<char>>,
    line: Seq<char>,
    partial: Seq<char>,
)
    requires
        partial.len() > 0,
    ensures
        ({
            let now = attributes_above(above.push(line), partial);
            let words = text::trimmed(line);
            let closed = exists|j: int| text::matches_at(words, "]"@, j);
            &&& words.len() == 0 ==> now.len() == 0
            &&& words.len() > 0 && closed ==> now == attributes_above(above, Seq::empty()).push(
                words + "\n"@ + partial,
            )
            &&& words.len() > 0 && !closed ==> now == attributes_above(
                above,
                words + "\n"@ + partial,
            )
        }),
{
    let words = text::trimmed(line);
    assert(above.push(line).drop_last() =~= above);
    assert(above.push(line).last() == line);
    text::lemma_first_match_least(words, "]"@);
}

/// The name of an attribute is what stands before the first parenthesis, space or tab.
pub proof fn lemma_attribute_name(inner: Seq<char>)
    ensures
        ({
            let n = attribute_name(inner).len() as int;
            &&& n <= inner.len()
            &&& inner.take(n) == attribute_name(inner)
            &&& n < inner.len() ==> inner[n] == '(' || inner[n] == ' ' || inner[n] == '\t'
            &&& forall|i: int|
                0 <= i < n ==> (#[trigger] inner[i]) != '(' && inner[i] != ' ' && inner[i] != '\t'
        }),
    decreases inner.len(),
{
    if inner.len() == 0 || inner[0] == '(' || inner[0] == ' ' || inner[0] == '\t' {
        assert(inner.take(0) =~= Seq::empty());
    } else {
        let rest = inner.drop_first();
        lemma_attribute_name(rest);
        let n = attribute_name(inner).len() as int;
        assert(inner.take(n) =~= seq![inner[0]] + rest.take(n - 1));
        assert forall|i: int| 0 <= i < n implies (#[trigger] inner[i]) != '(' && inner[i] != ' '
            && inner[i] != '\t' by {
            if i > 0 {
                assert(inner[i] == rest[i - 1]);
            }
        }
        if n < inner.len() {
            assert(inner[n] == rest[n - 1]);
        }
    }
}

/// What an attribute says stands between `#[` and the last `]`, without white space around
/// it.
pub proof fn lemma_attribute_inner(words: Seq<char>, attribute: Seq<char>)
    requires
        text::trimmed(attribute) == "#["@ + words + "]"@,
    ensures
        attribute_inner(attribute) == Some(text::trimmed(words)),
{
    text::lemma_without_ends("#["@, words + "]"@);
    text::lemma_without_ends("]"@, words);
    assert("#["@ + words + "]"@ =~= "#["@ + (words + "]"@));
}

/// What does not begin with `#[` or does not end in `]` is no attribute.
pub proof fn lemma_no_attribute(attribute: Seq<char>)
    requires
        attribute_inner(attribute) is Some,
    ensures
        exists|words: Seq<char>| text::trimmed(attribute) == "#["@ + #[trigger] (words + "]"@)
            && attribute_inner(attribute) == Some(text::trimmed(words)),
{
    let all = text::trimmed(attribute);
    text::lemma_without_ends("#["@, Seq::empty());
    text::lemma_without_ends("]"@, Seq::empty());
    let rest = text::without_prefix(all, "#["@)->Some_0;
    let words = text::without_suffix(rest, "]"@)->Some_0;
    assert(all == "#["@ + rest);
    assert(rest == words + "]"@);
    assert(text::trimmed(attribute) == "#["@ + (words + "]"@));
}

/// The attributes that leave an item free to be made private.
pub open spec fn harmless_names() -> Seq<Seq<char>> {
    seq![
        "allow"@,
        "warn"@,
        "deny"@,
        "forbid"@,
        "cfg"@,
        "cfg_attr"@,
        "doc"@,
        "must_use"@,
        "inline"@,
        "cold"@,
        "deprecated"@,
        "expect"@,
        "non_exhaustive"@,
        "repr"@,
    ]
}

/// The derives that leave an item free to be made private.
pub open spec fn safe_derives() -> Seq<Seq<char>> {
    seq![
        "Clone"@,
        "Copy"@,
        "Debug"@,
        "Default"@,
        "Eq"@,
        "Hash"@,
        "Ord"@,
        "PartialEq"@,
        "PartialOrd"@,
    ]
}

/// An attribute may need a public item exactly if it is neither harmless nor a `derive`,
/// or is a `derive` whose list may need one; what is no attribute never does.
pub proof fn lemma_what_needs_public(attribute: Seq<char>)
    ensures
        attribute_inner(attribute) is None ==> !needs_public(attribute),
        attribute_inner(attribute) matches Some(inner) ==> {
            let name = attribute_name(inner);
            needs_public(attribute) <==> if name == "derive"@ {
                derive_needs_public(inner)
            } else {
                !harmless_names().contains(name)
            }
        },
{
    let names = harmless_names();
    assert(names[0] == "allow"@ && names[1] == "warn"@ && names[2] == "deny"@ && names[3]
        == "forbid"@ && names[4] == "cfg"@ && names[5] == "cfg_attr"@ && names[6] == "doc"@
        && names[7] == "must_use"@ && names[8] == "inline"@ && names[9] == "cold"@ && names[10]
        == "deprecated"@ && names[11] == "expect"@ && names[12] == "non_exhaustive"@ && names[13]
        == "repr"@);
}

/// A list of derives may need a public item exactly if one of its entries, white space
/// aside, is there and is not one of those that need none.
pub proof fn lemma_which_derives(entries: Seq<Seq<char>>)
    ensures
        has_unsafe_derive(entries) <==> exists|i: int|
            0 <= i < entries.len() && text::trimmed(#[trigger] entries[i]).len() > 0
                && !safe_derives().contains(text::trimmed(entries[i])),
{
    assert forall|name: Seq<char>| #[trigger] safe_derives().contains(name) <==> is_safe_derive(
        name,
    ) by {
        let names = safe_derives();
        assert(names[0] == "Clone"@ && names[1] == "Copy"@ && names[2] == "Debug"@ && names[3]
            == "Default"@ && names[4] == "Eq"@ && names[5] == "Hash"@ && names[6] == "Ord"@
            && names[7] == "PartialEq"@ && names[8] == "PartialOrd"@);
    }
    if has_unsafe_derive(entries) {
        let i = choose|i: int|
            0 <= i < entries.len() && text::trimmed(#[trigger] entries[i]).len() > 0
                && !is_safe_derive(text::trimmed(entries[i]));
        assert(!safe_derives().contains(text::trimmed(entries[i])));
    }
    if exists|i: int|
        0 <= i < entries.len() && text::trimmed(#[trigger] entries[i]).len() > 0
            && !safe_derives().contains(text::trimmed(entries[i])) {
        let i = choose|i: int|
            0 <= i < entries.len() && text::trimmed(#[trigger] entries[i]).len() > 0
                && !safe_derives().contains(text::trimmed(entries[i]));
        assert(!is_safe_derive(text::trimmed(entries[i])));
    }
}

/// The list of a `derive` stands between its parentheses; one without parentheses may
/// need a public item.
pub proof fn lemma_derive_list(name: Seq<char>, list: Seq<char>, rest: Seq<char>)
    requires
        !name.contains('('),
        !rest.contains(')'),
    ensures
        derive_needs_public(name + seq!['('] + list + seq![')'] + rest) == has_unsafe_derive(
            syntax::top_level_parts(list, ','),
        ),
        derive_needs_public(name),
{
    reveal_strlit("(");
    reveal_strlit(")");
    assert("("@ =~= seq!['(']);
    assert(")"@ =~= seq![')']);
    let all = name + seq!['('] + list + seq![')'] + rest;
    let tail = list + seq![')'] + rest;
    assert(all =~= name + seq!['('] + tail);
    text::lemma_char_behind(name, '(', tail);
    let head = name + seq!['('] + list;
    assert(all =~= head + seq![')'] + rest);
    text::lemma_char_before(head, ')', rest);
    assert(all.subrange(name.len() as int + 1, head.len() as int) =~= list);
    text::lemma_first_char(name, '(');
}

/// An item is made private exactly if its place lies in the file, `pub` and a space stand
/// there, and no attribute above it may need it public. It is told why it is not where
/// `pub` stands there with such an attribute or something else than `pub` stands there.
pub proof fn lemma_what_becomes_of_item(lines: Seq<Seq<char>>, def: UnusedText, start: int)
    requires
        1 <= def.line <= lines.len(),
        1 <= def.column,
        0 <= start <= lines[def.line - 1].len(),
        text::byte_count(lines[def.line - 1].take(start)) == def.column - 1,
    ensures
        ({
            let rest = lines[def.line - 1].skip(start);
            let attributes = attributes_above(lines.take(def.line - 1), Seq::empty());
            let needed = exists|i: int|
                0 <= i < attributes.len() && needs_public(#[trigger] attributes[i]);
            &&& outcome(lines, def) is Fixed <==> "pub "@.is_prefix_of(rest) && !needed
            &&& outcome(lines, def) is Skipped <==> ("pub "@.is_prefix_of(rest) && needed) || (
            !("pub "@.is_prefix_of(rest)) && !("pub("@.is_prefix_of(rest)))
            &&& outcome(lines, def) matches Outcome::Fixed(line, at) ==> line == def.line - 1 && at
                == start
        }),
{
    text::lemma_chars_take_up_bytes(lines[def.line - 1], (def.column - 1) as nat, start);
}

/// An item that is reported at no place in the file is left alone.
pub proof fn lemma_no_such_place(lines: Seq<Seq<char>>, def: UnusedText)
    requires
        def.line == 0 || def.line > lines.len() || def.column == 0,
    ensures
        outcome(lines, def) is Untouched,
{
}

/// Making an item private puts `(crate)` behind its `pub` and changes nothing else in the
/// line.
pub proof fn lemma_restricted(line: Seq<char>, start: int)
    requires
        0 <= start,
        start + 4 <= line.len(),
        "pub "@.is_prefix_of(line.skip(start)),
    ensures
        restricted(line, start).take(start + 3) == line.take(start + 3),
        restricted(line, start).subrange(start + 3, start + 10) == "(crate)"@,
        restricted(line, start).skip(start + 10) == line.skip(start + 3),
{
    reveal_strlit("pub ");
    reveal_strlit("pub(crate)");
    reveal_strlit("(crate)");
    let now = restricted(line, start);
    let rest = line.skip(start);
    assert forall|i: int| 0 <= i < 3 implies line[start + i] == "pub "@[i] by {
        assert(rest.subrange(0, 4)[i] == rest[i]);
        assert(rest[i] == line[start + i]);
    }
    assert(now.take(start + 3) =~= line.take(start + 3)) by {
        assert forall|i: int| 0 <= i < start + 3 implies now[i] == line[i] by {
            if i >= start {
                assert(line[start + (i - start)] == "pub "@[i - start]);
            }
        }
    }
    assert(now.subrange(start + 3, start + 10) =~= "(crate)"@);
    assert(now.skip(start + 10) =~= line.skip(start + 3));
}

/// Each item that is made private counts once, changes its own line alone and is printed;
/// one that is told to stay is printed, and changes nothing; any other is not even
/// printed. What was printed before stays.
pub proof fn lemma_one_item(progress: Progress, def: UnusedText)
    ensures
        ({
            let next = step(progress, def);
            &&& progress.messages.is_prefix_of(next.messages)
            &&& match outcome(progress.lines, def) {
                Outcome::Untouched => next == progress,
                Outcome::Skipped(_) => {
                    &&& next.lines == progress.lines
                    &&& next.fixed == progress.fixed
                    &&& next.messages.len() == progress.messages.len() + 1
                },
                Outcome::Fixed(line, start) => {
                    &&& next.fixed == progress.fixed + 1
                    &&& next.messages.len() == progress.messages.len() + 1
                    &&& next.lines.len() == progress.lines.len()
                    &&& next.lines[line] == restricted(progress.lines[line], start)
                    &&& forall|i: int|
                        0 <= i < progress.lines.len() && i != line ==> #[trigger] next.lines[i]
                            == progress.lines[i]
                },
            }
        }),
{
}

/// Nothing is done without items, and each item is dealt with after those before it.
pub proof fn lemma_items_in_turn(lines: Seq<Seq<char>>, defs: Seq<UnusedText>, def: UnusedText)
    ensures
        steps(lines, Seq::empty()).lines == lines,
        steps(lines, Seq::empty()).messages.len() == 0,
        steps(lines, Seq::empty()).fixed == 0,
        steps(lines, defs.push(def)) == step(steps(lines, defs), def),
{
    assert(defs.push(def).drop_last() =~= defs);
    assert(defs.push(def).last() == def);
}

/// What is printed of an item begins with its path, names its file and ends in its line.
pub proof fn lemma_printed_place(def: UnusedText)
    ensures
        ({
            let printed = printed_place(def);
            let n = def.display_path.len() as int;
            let m = def.file.len() as int;
            let digits = text::decimal(def.line as nat);
            &&& printed.take(n) == def.display_path
            &&& printed.subrange(n + 2, n + 2 + m) == def.file
            &&& printed.subrange(n + m + 3, n + m + 3 + digits.len() as int) == digits
        }),
{
    reveal_strlit(" (");
    reveal_strlit(":");
    reveal_strlit(")");
    let printed = printed_place(def);
    let n = def.display_path.len() as int;
    let m = def.file.len() as int;
    let digits = text::decimal(def.line as nat);
    assert(printed.take(n) =~= def.display_path);
    assert(printed.subrange(n + 2, n + 2 + m) =~= def.file);
    assert(printed.subrange(n + m + 3, n + m + 3 + digits.len() as int) =~= digits);
}

} // verus!

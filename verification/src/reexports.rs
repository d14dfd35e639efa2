//! Reading and rewriting of `pub use` statements.
use vstd::prelude::*;

use crate::strings;
use crate::syntax;
use crate::text;
use crate::utils;

verus! {

/// An item that should no longer be reexported, by its path in its crate.
#[derive(Debug)]
pub struct ReexportHint {
    pub path: String,
}

/// One name that a `use` statement brings in.
#[derive(Debug)]
pub struct ReexportBinding {
    /// The path of the item in its crate.
    pub source_path: String,
    /// The text of the name in the statement.
    pub rendered: String,
}

/// The characters of a binding.
pub ghost struct BindingText {
    pub source_path: Seq<char>,
    pub rendered: Seq<char>,
}

impl View for ReexportBinding {
    type V = BindingText;

    open spec fn view(&self) -> BindingText {
        BindingText { source_path: self.source_path@, rendered: self.rendered@ }
    }
}

/// The path in its crate of an item displayed as `display`: what follows the
/// crate's name, for an item below the root module.
pub open spec fn hint_path(display: Seq<char>) -> Option<Seq<char>> {
    let parts = text::pieces(display, "::"@);
    if parts.len() < 3 {
        None
    } else {
        Some(text::joined(parts.drop_first(), "::"@))
    }
}

impl ReexportHint {
    /// The hint for an item with the given display path.
    pub fn from_display_path(display_path: &str) -> (r: Option<ReexportHint>)
        ensures
            r is Some <==> hint_path(display_path@) is Some,
            r matches Some(hint) ==> hint_path(display_path@) == Some(hint.path@),
    {
        proof {
            reveal_strlit("::");
        }
        let mut parts = text::split(display_path, "::");
        let ghost all = parts.deep_view();
        if parts.len() < 3 {
            return None;
        }
        let _crate_name = parts.remove(0);
        proof {
            assert(parts.deep_view() =~= all.drop_first());
        }
        let path = text::join(&parts, "::");
        Some(ReexportHint { path })
    }
}

/// A `use` segment without white space around it, and its alias.
pub open spec fn alias_split(segment: Seq<char>) -> (Seq<char>, Option<Seq<char>>) {
    let s = text::trimmed(segment);
    match text::last_match(s, " as "@) {
        Some(i) => (text::trimmed(s.take(i)), Some(text::trimmed(s.skip(i + " as "@.len())))),
        None => (s, None),
    }
}

/// Splits `segment` into the path and the alias after its last ` as `.
pub fn split_alias<'a>(segment: &'a str) -> (r: (&'a str, Option<&'a str>))
    ensures
        r.0@ == alias_split(segment@).0,
        r.1 is Some <==> alias_split(segment@).1 is Some,
        r.1 matches Some(alias) ==> alias_split(segment@).1 == Some(alias@),
{
    let segment = text::trim(segment);
    match text::rfind(segment, " as ") {
        None => (segment, None),
        Some(i) => {
            proof {
                reveal_strlit(" as ");
            }
            (text::trim(text::take(segment, i)), Some(text::trim(text::skip(segment, i + 4))))
        },
    }
}

/// The text of a name with an optional alias.
pub open spec fn rendered_name(path: Seq<char>, alias: Option<Seq<char>>) -> Seq<char> {
    match alias {
        Some(alias) => path + " as "@ + alias,
        None => path,
    }
}

/// The text of `path`, with its alias if it has one.
fn render_name(path: &str, alias: Option<&str>) -> (r: String)
    ensures
        alias is None ==> r@ == rendered_name(path@, None),
        alias matches Some(a) ==> r@ == rendered_name(path@, Some(a@)),
{
    let mut out = path.to_owned();
    match alias {
        Some(a) => {
            out.append(" as ");
            out.append(a);
        },
        None => {},
    }
    out
}

/// The path under which a module makes the name `rendered` available.
pub open spec fn bound_path(module_name: Seq<char>, rendered: Seq<char>) -> Seq<char> {
    let leaf = match alias_split(rendered).1 {
        Some(alias) => alias,
        None => text::after_last(rendered, "::"@),
    };
    if module_name.len() == 0 {
        leaf
    } else {
        module_name + "::"@ + leaf
    }
}

/// The path under which `current_module_path` makes `rendered` available.
pub fn alias_path(current_module_path: &str, rendered: &str) -> (r: String)
    ensures
        r@ == bound_path(current_module_path@, rendered@),
{
    let leaf = match split_alias(rendered).1 {
        Some(alias) => alias,
        None => match text::rfind(rendered, "::") {
            Some(i) => {
                proof {
                    reveal_strlit("::");
                }
                text::skip(rendered, i + 2)
            },
            None => rendered,
        },
    };
    if current_module_path.is_empty() {
        leaf.to_owned()
    } else {
        let mut out = current_module_path.to_owned();
        out.append("::");
        out.append(leaf);
        out
    }
}

/// The members of `parts` with at least one character.
pub open spec fn nonempty(parts: Seq<Seq<char>>) -> Seq<Seq<char>> {
    parts.filter(|p: Seq<char>| p.len() > 0)
}

/// The segments of a `use` path, up to an alias.
pub open spec fn path_segments(path: Seq<char>) -> Seq<Seq<char>> {
    nonempty(text::pieces(text::trimmed(text::before(path, " as "@)), "::"@).map_values(|p: Seq<char>| text::trimmed(p)))
}

/// The segments of a module path.
pub open spec fn module_segments(module_name: Seq<char>) -> Seq<Seq<char>> {
    nonempty(text::pieces(module_name, "::"@))
}

/// The path of `segments` seen from the module `base`, where each leading
/// `super` goes up one module.
pub open spec fn climbed(base: Seq<Seq<char>>, segments: Seq<Seq<char>>) -> Option<Seq<char>>
    decreases segments.len(),
{
    if segments.len() == 0 {
        None
    } else if segments[0] == "super"@ {
        if base.len() == 0 {
            None
        } else {
            climbed(base.drop_last(), segments.drop_first())
        }
    } else {
        Some(text::joined(base + segments, "::"@))
    }
}

/// The path in its crate that `path` names in the module `module_name`.
pub open spec fn resolved(module_name: Seq<char>, path: Seq<char>) -> Option<Seq<char>> {
    let segments = path_segments(path);
    if segments.len() == 0 {
        None
    } else if segments[0] == "crate"@ {
        if segments.len() == 1 {
            None
        } else {
            Some(text::joined(segments.drop_first(), "::"@))
        }
    } else if segments[0] == "self"@ {
        climbed(module_segments(module_name), segments.drop_first())
    } else {
        climbed(module_segments(module_name), segments)
    }
}

/// The members of `parts` with at least one character, white space around them
/// removed first where `trimming` is set.
fn keep_nonempty<'a>(parts: &Vec<&'a str>, trimming: bool) -> (r: Vec<&'a str>)
    ensures
        r.deep_view() == nonempty(
            if trimming {
                parts.deep_view().map_values(|p: Seq<char>| text::trimmed(p))
            } else {
                parts.deep_view()
            },
        ),
{
    let mut kept: Vec<&'a str> = Vec::new();
    let ghost all = if trimming {
        parts.deep_view().map_values(|p: Seq<char>| text::trimmed(p))
    } else {
        parts.deep_view()
    };
    let mut i: usize = 0;
    proof {
        reveal(Seq::filter);
        assert(kept.deep_view() =~= nonempty(all.take(0)));
    }
    while i < parts.len()
        invariant
            i <= parts.len(),
            parts.len() == all.len(),
            all == if trimming {
                parts.deep_view().map_values(|p: Seq<char>| text::trimmed(p))
            } else {
                parts.deep_view()
            },
            kept.deep_view() == nonempty(all.take(i as int)),
        decreases parts.len() - i,
    {
        let part = if trimming {
            text::trim(parts[i])
        } else {
            parts[i]
        };
        let ghost known = kept.deep_view();
        proof {
            reveal(Seq::filter);
            assert(parts.deep_view()[i as int] == parts[i as int]@);
            assert(all.take(i + 1).drop_last() =~= all.take(i as int));
            assert(all.take(i + 1).last() == part@);
        }
        if !part.is_empty() {
            kept.push(part);
            proof {
                assert(kept.deep_view() =~= known.push(part@));
            }
        }
        i = i + 1;
    }
    proof {
        assert(all.take(i as int) =~= all);
    }
    kept
}

/// The path in its crate that `path` names in the module `current_module_path`.
pub fn resolve_use_path(current_module_path: &str, path: &str) -> (r: Option<String>)
    ensures
        r is Some <==> resolved(current_module_path@, path@) is Some,
        r matches Some(p) ==> resolved(current_module_path@, path@) == Some(p@),
{
    proof {
        reveal_strlit("::");
    }
    let head = match text::find(path, " as ") {
        Some(i) => text::take(path, i),
        None => path,
    };
    let mut segments = keep_nonempty(&text::split(text::trim(head), "::"), true);
    let ghost named = segments.deep_view();
    proof {
        assert(named == path_segments(path@));
    }
    if segments.len() == 0 {
        return None;
    }
    let mut base = keep_nonempty(&text::split(current_module_path, "::"), false);
    proof {
        assert(base.deep_view() == module_segments(current_module_path@));
        assert(named[0] == segments[0]@);
    }
    if text::equal(segments[0], "crate") {
        segments.remove(0);
        proof {
            assert(segments.deep_view() =~= named.drop_first());
        }
        if segments.len() == 0 {
            return None;
        }
        return Some(text::join(&segments, "::"));
    }
    let is_self = text::equal(segments[0], "self");
    if is_self {
        segments.remove(0);
        proof {
            assert(segments.deep_view() =~= named.drop_first());
        }
    }
    while segments.len() > 0 && text::equal(segments[0], "super")
        invariant
            resolved(current_module_path@, path@) == climbed(
                base.deep_view(),
                segments.deep_view(),
            ),
        decreases segments.len(),
    {
        let ghost left = segments.deep_view();
        let ghost above = base.deep_view();
        proof {
            assert(left[0] == segments[0]@);
        }
        segments.remove(0);
        proof {
            assert(segments.deep_view() =~= left.drop_first());
        }
        match base.pop() {
            None => {
                return None;
            },
            Some(_) => {
                proof {
                    assert(base.deep_view() =~= above.drop_last());
                }
            },
        }
    }
    if segments.len() == 0 {
        return None;
    }
    let ghost above = base.deep_view();
    let ghost left = segments.deep_view();
    proof {
        assert(left[0] == segments[0]@);
    }
    base.append(&mut segments);
    proof {
        assert(base.deep_view() =~= above + left);
    }
    Some(text::join(&base, "::"))
}

/// The binding of a name in the group `prefix`, with no group where `prefix`
/// has no characters.
pub open spec fn name_binding(
    module_name: Seq<char>,
    prefix: Seq<char>,
    segment: Seq<char>,
) -> Option<BindingText> {
    let (path, alias) = alias_split(segment);
    let full = if prefix.len() == 0 {
        path
    } else {
        prefix + "::"@ + path
    };
    match resolved(module_name, full) {
        Some(source_path) => Some(
            BindingText { source_path, rendered: rendered_name(path, alias) },
        ),
        None => None,
    }
}

/// The binding of the name `segment` in the group `prefix`.
fn bind_name(current_module_path: &str, prefix: &str, segment: &str) -> (r: Option<ReexportBinding>)
    ensures
        r is Some <==> name_binding(current_module_path@, prefix@, segment@) is Some,
        r matches Some(b) ==> name_binding(current_module_path@, prefix@, segment@) == Some(b@),
{
    let (path, alias) = split_alias(segment);
    let full_path = if prefix.is_empty() {
        path.to_owned()
    } else {
        let mut full = prefix.to_owned();
        full.append("::");
        full.append(path);
        full
    };
    match resolve_use_path(current_module_path, full_path.as_str()) {
        None => None,
        Some(source_path) => {
            let rendered = render_name(path, alias);
            Some(ReexportBinding { source_path, rendered })
        },
    }
}

/// The binding of a `use` without a group.
pub fn parse_simple_reexport_binding(use_body: &str, current_module_path: &str) -> (r: Option<
    ReexportBinding,
>)
    ensures
        r is Some <==> name_binding(
            current_module_path@,
            Seq::empty(),
            text::trimmed(use_body@),
        ) is Some,
        r matches Some(b) ==> name_binding(
            current_module_path@,
            Seq::empty(),
            text::trimmed(use_body@),
        ) == Some(b@),
{
    proof {
        reveal_strlit("");
        assert(""@ =~= Seq::<char>::empty());
    }
    bind_name(current_module_path, "", text::trim(use_body))
}

/// The path in front of the group of a `use`.
pub open spec fn group_prefix(use_body: Seq<char>) -> Seq<char> {
    let prefix = text::trimmed_end(text::before(use_body, "{"@));
    text::trimmed_end(
        match text::without_suffix(prefix, "::"@) {
            Some(rest) => rest,
            None => prefix,
        },
    )
}

/// The path in front of the group of `use_body`.
fn find_group_prefix(use_body: &str) -> (r: &str)
    ensures
        r@ == group_prefix(use_body@),
{
    let head = match text::find(use_body, "{") {
        Some(i) => text::take(use_body, i),
        None => use_body,
    };
    let prefix = text::trim_end(head);
    match text::strip_suffix(prefix, "::") {
        Some(rest) => text::trim_end(rest),
        None => text::trim_end(prefix),
    }
}

/// Whether no closing brace stands alone before the first opening one: where
/// `use_body` has both, the last closing brace comes after the first opening one.
pub open spec fn braces_in_order(use_body: Seq<char>) -> bool {
    match (text::first_match(use_body, "{"@), text::last_match(use_body, "}"@)) {
        (Some(open), Some(close)) => open < close,
        _ => true,
    }
}

/// What stands in the group of a `use`.
pub open spec fn group_content(use_body: Seq<char>) -> Option<Seq<char>> {
    match (text::first_match(use_body, "{"@), text::last_match(use_body, "}"@)) {
        (Some(open), Some(close)) => Some(use_body.subrange(open + 1, close)),
        _ => None,
    }
}

/// Whether `segment` has a brace.
pub open spec fn has_brace(segment: Seq<char>) -> bool {
    text::has(segment, "{"@) || text::has(segment, "}"@)
}

/// The bindings of the names `segments` of the group `prefix`, by the path under
/// which each is available. A segment without a name has no binding.
pub open spec fn segment_bindings(
    module_name: Seq<char>,
    prefix: Seq<char>,
    segments: Seq<Seq<char>>,
) -> Option<Seq<(Seq<char>, BindingText)>>
    decreases segments.len(),
{
    if segments.len() == 0 {
        Some(Seq::empty())
    } else {
        let segment = text::trimmed(segments.last());
        match segment_bindings(module_name, prefix, segments.drop_last()) {
            None => None,
            Some(known) => if segment.len() == 0 {
                Some(known)
            } else {
                match name_binding(module_name, prefix, segment) {
                    None => None,
                    Some(binding) => Some(
                        strings::put(known, bound_path(module_name, binding.rendered), binding),
                    ),
                }
            },
        }
    }
}

/// The bindings of a `use` with one group. There are none where the group holds
/// another group or a path that cannot be resolved.
pub open spec fn group_bindings(module_name: Seq<char>, use_body: Seq<char>) -> Option<
    Seq<(Seq<char>, BindingText)>,
> {
    match group_content(use_body) {
        None => None,
        Some(group) => {
            let segments = syntax::top_level_parts(group, ',');
            if exists|i: int| 0 <= i < segments.len() && has_brace(#[trigger] segments[i]) {
                None
            } else {
                segment_bindings(module_name, group_prefix(use_body), segments)
            }
        },
    }
}

proof fn lemma_unresolved_segment(
    module_name: Seq<char>,
    prefix: Seq<char>,
    segments: Seq<Seq<char>>,
    i: int,
)
    requires
        0 <= i < segments.len(),
        segment_bindings(module_name, prefix, segments.take(i + 1)) is None,
    ensures
        segment_bindings(module_name, prefix, segments) is None,
    decreases segments.len() - i,
{
    if i + 1 < segments.len() {
        assert(segments.take(i + 2).drop_last() =~= segments.take(i + 1));
        lemma_unresolved_segment(module_name, prefix, segments, i + 1);
    } else {
        assert(segments.take(i + 1) =~= segments);
    }
}

/// The bindings of the group of `use_body`.
pub fn parse_grouped_reexport_bindings(use_body: &str, current_module_path: &str) -> (r: Option<
    strings::StringMap<ReexportBinding>,
>)
    requires
        braces_in_order(use_body@),
    ensures
        r is Some <==> group_bindings(current_module_path@, use_body@) is Some,
        r matches Some(bindings) ==> bindings.well_formed() && group_bindings(
            current_module_path@,
            use_body@,
        ) == Some(bindings.entries()),
{
    proof {
        reveal_strlit("{");
        reveal_strlit("}");
    }
    let Some(open_brace) = text::find(use_body, "{") else {
        return None;
    };
    let Some(close_brace) = text::rfind(use_body, "}") else {
        return None;
    };
    let prefix = find_group_prefix(use_body);
    let group = use_body.substring_char(open_brace + 1, close_brace);
    let segments = syntax::split_top_level(group, ',');
    let ghost parts = segments.deep_view();
    let mut i: usize = 0;
    while i < segments.len()
        invariant
            i <= segments.len(),
            parts == segments.deep_view(),
            group_content(use_body@) == Some(group@),
            parts == syntax::top_level_parts(group@, ','),
            forall|j: int| 0 <= j < i ==> !has_brace(#[trigger] parts[j]),
        decreases segments.len() - i,
    {
        proof {
            assert(parts[i as int] == segments[i as int]@);
        }
        if text::contains(segments[i], "{") || text::contains(segments[i], "}") {
            return None;
        }
        i = i + 1;
    }
    let mut bindings = strings::StringMap::<ReexportBinding>::new();
    let mut k: usize = 0;
    proof {
        assert(parts.take(0) =~= Seq::empty());
    }
    while k < segments.len()
        invariant
            k <= segments.len(),
            parts == segments.deep_view(),
            bindings.well_formed(),
            group_bindings(current_module_path@, use_body@) == segment_bindings(
                current_module_path@,
                prefix@,
                parts,
            ),
            segment_bindings(current_module_path@, prefix@, parts.take(k as int)) == Some(
                bindings.entries(),
            ),
        decreases segments.len() - k,
    {
        let segment = text::trim(segments[k]);
        proof {
            assert(parts[k as int] == segments[k as int]@);
            assert(parts.take(k + 1).drop_last() =~= parts.take(k as int));
            assert(parts.take(k + 1).last() == segments[k as int]@);
        }
        if !segment.is_empty() {
            match bind_name(current_module_path, prefix, segment) {
                None => {
                    proof {
                        lemma_unresolved_segment(
                            current_module_path@,
                            prefix@,
                            parts,
                            k as int,
                        );
                    }
                    return None;
                },
                Some(binding) => {
                    let path = alias_path(current_module_path, binding.rendered.as_str());
                    bindings.insert(path, binding);
                },
            }
        }
        k = k + 1;
    }
    proof {
        assert(parts.take(k as int) =~= parts);
    }
    Some(bindings)
}

/// Whether a statement is public, and what follows its `use`.
pub open spec fn use_tail(statement: Seq<char>) -> Option<(bool, Seq<char>)> {
    let start = text::trimmed_start(statement);
    match text::without_prefix(start, "pub use "@) {
        Some(rest) => Some((true, rest)),
        None => match text::without_prefix(start, "pub(crate) use "@) {
            Some(rest) => Some((false, rest)),
            None => None,
        },
    }
}

/// Whether a statement is public, and what it brings in: the text up to the
/// semicolon.
pub open spec fn use_parts(statement: Seq<char>) -> Option<(bool, Seq<char>)> {
    match use_tail(statement) {
        None => None,
        Some((is_public, rest)) => match text::first_match(rest, ";"@) {
            Some(end) => Some((is_public, text::trimmed(rest.take(end)))),
            None => None,
        },
    }
}

/// Whether the braces of a statement are in order.
pub open spec fn statement_in_order(statement: Seq<char>) -> bool {
    match use_parts(statement) {
        Some((_, use_body)) => braces_in_order(use_body),
        None => true,
    }
}

/// The bindings of what a statement brings in.
pub open spec fn body_bindings(module_name: Seq<char>, use_body: Seq<char>) -> Option<
    Seq<(Seq<char>, BindingText)>,
> {
    if text::has(use_body, "{"@) {
        group_bindings(module_name, use_body)
    } else {
        match name_binding(module_name, Seq::empty(), text::trimmed(use_body)) {
            Some(binding) => Some(seq![(bound_path(module_name, binding.rendered), binding)]),
            None => None,
        }
    }
}

/// Whether a statement is public, and its bindings by the path under which each
/// is available in the module.
pub open spec fn parsed_statement(statement: Seq<char>, module_name: Seq<char>) -> Option<
    (bool, Seq<(Seq<char>, BindingText)>),
> {
    match use_parts(statement) {
        None => None,
        Some((is_public, use_body)) => match body_bindings(module_name, use_body) {
            Some(bindings) => Some((is_public, bindings)),
            None => None,
        },
    }
}

/// The text of the statement after its `use`, and whether it is public.
fn strip_use(statement: &str) -> (r: Option<(bool, &str)>)
    ensures
        r is Some <==> use_parts(statement@) is Some,
        r matches Some((is_public, use_body)) ==> use_parts(statement@) == Some(
            (is_public, use_body@),
        ),
{
    let start = text::trim_start(statement);
    let (is_public, rest) = match text::strip_prefix(start, "pub use ") {
        Some(rest) => (true, rest),
        None => match text::strip_prefix(start, "pub(crate) use ") {
            Some(rest) => (false, rest),
            None => {
                return None;
            },
        },
    };
    match text::find(rest, ";") {
        None => None,
        Some(end) => Some((is_public, text::trim(text::take(rest, end)))),
    }
}

/// Whether the braces of `statement` are in order.
pub fn has_ordered_braces(statement: &str) -> (b: bool)
    ensures
        b == statement_in_order(statement@),
{
    let Some((_, use_body)) = strip_use(statement) else {
        return true;
    };
    match (text::find(use_body, "{"), text::rfind(use_body, "}")) {
        (Some(open_brace), Some(close_brace)) => open_brace < close_brace,
        _ => true,
    }
}

/// Reads the `use` statement `statement` of the module `current_module_path`.
pub fn parse_reexport_statement(statement: &str, current_module_path: &str) -> (r: Option<
    (bool, strings::StringMap<ReexportBinding>),
>)
    requires
        statement_in_order(statement@),
    ensures
        r is Some <==> parsed_statement(statement@, current_module_path@) is Some,
        r matches Some((is_public, bindings)) ==> bindings.well_formed() && parsed_statement(
            statement@,
            current_module_path@,
        ) == Some((is_public, bindings.entries())),
{
    let Some((is_public, use_body)) = strip_use(statement) else {
        return None;
    };
    if text::contains(use_body, "{") {
        match parse_grouped_reexport_bindings(use_body, current_module_path) {
            Some(bindings) => Some((is_public, bindings)),
            None => None,
        }
    } else {
        match parse_simple_reexport_binding(use_body, current_module_path) {
            None => None,
            Some(binding) => {
                let mut bindings = strings::StringMap::<ReexportBinding>::new();
                let path = alias_path(current_module_path, binding.rendered.as_str());
                bindings.insert(path, binding);
                Some((is_public, bindings))
            },
        }
    }
}

/// Where the aliases lead from `current`, with the paths `seen` passed before:
/// the first path that has no alias or was passed already.
pub open spec fn followed(
    current: Seq<char>,
    aliases: Seq<(Seq<char>, Seq<char>)>,
    seen: Set<Seq<char>>,
) -> Seq<char>
    decreases strings::keys_of(aliases).to_set().difference(seen).len(),
{
    if seen.contains(current) {
        current
    } else {
        match strings::lookup(aliases, current) {
            None => current,
            Some(next) => {
                proof {
                    lemma_fewer_unseen(aliases, seen, current);
                }
                followed(next, aliases, seen.insert(current))
            },
        }
    }
}

/// The path that `path` stands for.
pub open spec fn canonical(path: Seq<char>, aliases: Seq<(Seq<char>, Seq<char>)>) -> Seq<char> {
    followed(path, aliases, Set::empty())
}

proof fn lemma_lookup_has_key(aliases: Seq<(Seq<char>, Seq<char>)>, path: Seq<char>)
    requires
        strings::lookup(aliases, path) is Some,
    ensures
        strings::keys_of(aliases).contains(path),
    decreases aliases.len(),
{
    if aliases[0].0 == path {
        assert(strings::keys_of(aliases)[0] == path);
    } else {
        let rest = aliases.drop_first();
        lemma_lookup_has_key(rest, path);
        let i = choose|i: int|
            0 <= i < strings::keys_of(rest).len() && strings::keys_of(rest)[i] == path;
        assert(strings::keys_of(aliases)[i + 1] == path);
    }
}

/// Passing an aliased path leaves fewer aliases to follow.
pub proof fn lemma_fewer_unseen(
    aliases: Seq<(Seq<char>, Seq<char>)>,
    seen: Set<Seq<char>>,
    path: Seq<char>,
)
    requires
        strings::lookup(aliases, path) is Some,
        !seen.contains(path),
    ensures
        strings::keys_of(aliases).to_set().difference(seen.insert(path)).len() < strings::keys_of(
            aliases,
        ).to_set().difference(seen).len(),
{
    lemma_lookup_has_key(aliases, path);
    let keys = strings::keys_of(aliases);
    keys.lemma_cardinality_of_set();
    let unseen = keys.to_set().difference(seen);
    assert(unseen.contains(path));
    assert(keys.to_set().difference(seen.insert(path)) =~= unseen.remove(path));
    assert(keys.to_set().finite());
    assert(unseen.finite());
}

/// Follows the aliases from `path`.
pub fn canonicalize_reexport_path(path: &str, aliases: &strings::StringMap<String>) -> (r: String)
    requires
        aliases.well_formed(),
    ensures
        r@ == canonical(path@, aliases.entries()),
{
    let mut current = path.to_owned();
    let mut seen = strings::StringSet::new();
    loop
        invariant
            aliases.well_formed(),
            seen.well_formed(),
            canonical(path@, aliases.entries()) == followed(current@, aliases.entries(), seen@),
        decreases strings::keys_of(aliases.entries()).to_set().difference(seen@).len(),
    {
        let ghost passed = seen@;
        if !seen.insert(current.clone()) {
            return current;
        }
        match aliases.get(current.as_str()) {
            None => {
                return current;
            },
            Some(next) => {
                proof {
                    lemma_fewer_unseen(aliases.entries(), passed, current@);
                }
                current = next.clone();
            },
        }
    }
}

/// Whether a `use` statement that can reexport begins with `line`.
pub open spec fn is_use_line(line: Seq<char>) -> bool {
    let start = text::trimmed_start(line);
    "pub use "@.is_prefix_of(start) || "pub(crate) use "@.is_prefix_of(start)
}

/// Whether a `use` statement that can reexport begins with `line`.
fn begins_use(line: &str) -> (b: bool)
    ensures
        b == is_use_line(line@),
{
    let start = text::trim_start(line);
    text::starts_with(start, "pub use ") || text::starts_with(start, "pub(crate) use ")
}

/// The index behind the statement that begins in line `i`: behind the first line
/// from there on with a semicolon.
pub open spec fn statement_end(lines: Seq<Seq<char>>, i: int) -> int
    decreases lines.len() - i,
{
    if i >= lines.len() {
        lines.len() as int
    } else if text::has(lines[i], ";"@) {
        i + 1
    } else {
        statement_end(lines, i + 1)
    }
}

/// A statement ends behind its first line.
pub proof fn lemma_statement_end(lines: Seq<Seq<char>>, i: int)
    requires
        0 <= i < lines.len(),
    ensures
        i < statement_end(lines, i) <= lines.len(),
    decreases lines.len() - i,
{
    if i + 1 < lines.len() {
        lemma_statement_end(lines, i + 1);
    } else {
        reveal_with_fuel(statement_end, 2);
    }
}

/// The statement that begins in line `i`.
pub open spec fn statement_at(lines: Seq<Seq<char>>, i: int) -> Seq<char> {
    text::concatenated(lines.subrange(i, statement_end(lines, i)))
}

/// The statement that begins in line `start`, and the index behind it.
fn read_statement(lines: &Vec<&str>, start: usize) -> (r: (String, usize))
    requires
        start < lines.len(),
    ensures
        r.0@ == statement_at(lines.deep_view(), start as int),
        r.1 == statement_end(lines.deep_view(), start as int),
        start < r.1 <= lines.len(),
{
    let ghost all = lines.deep_view();
    let ghost end = statement_end(all, start as int);
    let mut statement = String::new();
    let mut index: usize = start;
    proof {
        lemma_statement_end(all, start as int);
        assert(statement@ + text::concatenated(all.subrange(start as int, end)) =~= statement_at(
            all,
            start as int,
        ));
    }
    while index < lines.len()
        invariant
            all == lines.deep_view(),
            start <= index <= lines.len(),
            end == statement_end(all, start as int),
            end == statement_end(all, index as int),
            start < end <= lines.len(),
            statement@ + text::concatenated(all.subrange(index as int, end)) == statement_at(
                all,
                start as int,
            ),
        decreases lines.len() - index,
    {
        let ghost known = statement@;
        statement.append(lines[index]);
        proof {
            lemma_statement_end(all, index as int);
            let left = all.subrange(index as int, end);
            assert(left[0] == lines[index as int]@);
            assert(left.drop_first() =~= all.subrange(index + 1, end));
            assert(statement@ + text::concatenated(all.subrange(index + 1, end)) =~= known
                + text::concatenated(left));
        }
        if text::contains(lines[index], ";") {
            proof {
                assert(all[index as int] == lines[index as int]@);
                assert(all.subrange(index + 1, end) =~= Seq::empty());
                assert(statement@ =~= statement_at(all, start as int));
            }
            return (statement, index + 1);
        }
        proof {
            assert(all[index as int] == lines[index as int]@);
        }
        index = index + 1;
    }
    proof {
        assert(all.subrange(index as int, end) =~= Seq::empty());
        assert(statement@ =~= statement_at(all, start as int));
    }
    (statement, index)
}

/// The statements that begin in the lines from `i` on.
pub open spec fn statements_from(lines: Seq<Seq<char>>, i: int) -> Seq<Seq<char>>
    decreases lines.len() - i,
    when 0 <= i
{
    if i >= lines.len() {
        Seq::empty()
    } else if is_use_line(lines[i]) {
        proof {
            lemma_statement_end(lines, i);
        }
        seq![statement_at(lines, i)] + statements_from(lines, statement_end(lines, i))
    } else {
        statements_from(lines, i + 1)
    }
}

/// The `use` statements of `source` that can reexport.
pub open spec fn use_statements(source: Seq<char>) -> Seq<Seq<char>> {
    statements_from(text::whole_lines(source), 0)
}

/// Whether the braces of all statements are in order.
pub open spec fn all_in_order(statements: Seq<Seq<char>>) -> bool {
    forall|i: int| 0 <= i < statements.len() ==> statement_in_order(#[trigger] statements[i])
}

/// The `use` statements of `source` that can reexport, in their order.
pub fn collect_use_statements(source: &str) -> (r: Vec<String>)
    ensures
        r.deep_view() == use_statements(source@),
{
    let lines = text::split_lines_inclusive(source);
    let ghost all = lines.deep_view();
    let mut statements: Vec<String> = Vec::new();
    let mut index: usize = 0;
    proof {
        assert(statements.deep_view() + statements_from(all, 0) =~= use_statements(source@));
    }
    while index < lines.len()
        invariant
            all == lines.deep_view(),
            index <= lines.len(),
            statements.deep_view() + statements_from(all, index as int) == use_statements(
                source@,
            ),
        decreases lines.len() - index,
    {
        let ghost known = statements.deep_view();
        proof {
            assert(all[index as int] == lines[index as int]@);
        }
        if !begins_use(lines[index]) {
            index = index + 1;
        } else {
            let (statement, end) = read_statement(&lines, index);
            let ghost words = statement@;
            statements.push(statement);
            proof {
                assert(statements.deep_view() =~= known.push(words));
                assert(statements.deep_view() + statements_from(all, end as int) =~= known
                    + statements_from(all, index as int));
            }
            index = end;
        }
    }
    proof {
        assert(statements_from(all, index as int) =~= Seq::empty());
        assert(statements.deep_view() =~= use_statements(source@));
    }
    statements
}

/// The lines that stand for a statement once the names `private` are no longer
/// reexported.
pub open spec fn rendered_lines(
    statement: Seq<char>,
    public: Seq<Seq<char>>,
    private: Seq<Seq<char>>,
) -> Seq<Seq<char>> {
    let start = text::trimmed_start(statement);
    let indent = statement.take(statement.len() - start.len());
    let body = rendered_body(statement);
    if text::has(body, "{"@) {
        let prefix = group_prefix(body);
        let hidden = indent + "pub(crate) use "@ + prefix + "::{"@ + text::joined(private, ", "@)
            + "};"@;
        if public.len() > 0 {
            seq![
                indent + "pub use "@ + prefix + "::{"@ + text::joined(public, ", "@) + "};"@,
                hidden,
            ]
        } else {
            seq![hidden]
        }
    } else {
        let hidden = indent + "pub(crate) use "@ + private[0] + ";"@;
        if public.len() > 0 {
            seq![indent + "pub use "@ + public[0] + ";"@, hidden]
        } else {
            seq![hidden]
        }
    }
}

/// What a statement brings in: the text between `pub use` and the semicolon.
pub open spec fn rendered_body(statement: Seq<char>) -> Seq<char> {
    let start = text::trimmed_start(statement);
    let rest = match text::without_prefix(start, "pub use "@) {
        Some(rest) => rest,
        None => start,
    };
    text::trimmed(text::before(rest, ";"@))
}

/// The text that stands for a statement once the names `private` are no longer
/// reexported. A line feed at its end is kept.
pub open spec fn rendered_statement(
    statement: Seq<char>,
    public: Seq<Seq<char>>,
    private: Seq<Seq<char>>,
) -> Seq<char> {
    let lines = text::joined(rendered_lines(statement, public, private), "\n"@);
    if text::newline().is_suffix_of(statement) {
        lines + text::newline()
    } else {
        lines
    }
}

/// The line of a group: the names `names` of the group `prefix`.
fn render_group(indent: &str, keyword: &str, prefix: &str, names: &Vec<String>) -> (r: String)
    ensures
        r@ == indent@ + keyword@ + prefix@ + "::{"@ + text::joined(names.deep_view(), ", "@)
            + "};"@,
{
    let mut line = indent.to_owned();
    line.append(keyword);
    line.append(prefix);
    line.append("::{");
    line.append(text::join_owned(names, ", ").as_str());
    line.append("};");
    line
}

/// The line of a single name.
fn render_single(indent: &str, keyword: &str, name: &str) -> (r: String)
    ensures
        r@ == indent@ + keyword@ + name@ + ";"@,
{
    let mut line = indent.to_owned();
    line.append(keyword);
    line.append(name);
    line.append(";");
    line
}

/// The text of `statement` with the names `private_bindings` made private to the
/// crate. A statement without a group has to have such a name.
pub fn render_reexport_statement(
    statement: &str,
    public_bindings: &Vec<String>,
    private_bindings: &Vec<String>,
) -> (r: String)
    requires
        text::has(rendered_body(statement@), "{"@) || private_bindings.len() > 0,
    ensures
        r@ == rendered_statement(
            statement@,
            public_bindings.deep_view(),
            private_bindings.deep_view(),
        ),
{
    let start = text::trim_start(statement);
    proof {
        text::lemma_trimmed_start(statement@);
    }
    let width = statement.unicode_len() - start.unicode_len();
    let indent = text::take(statement, width);
    let rest = match text::strip_prefix(start, "pub use ") {
        Some(rest) => rest,
        None => start,
    };
    let body = text::trim(
        match text::find(rest, ";") {
            Some(end) => text::take(rest, end),
            None => rest,
        },
    );
    let ghost public = public_bindings.deep_view();
    let ghost private = private_bindings.deep_view();
    let mut rendered: Vec<String> = Vec::new();
    if text::contains(body, "{") {
        let prefix = find_group_prefix(body);
        if public_bindings.len() > 0 {
            rendered.push(render_group(indent, "pub use ", prefix, public_bindings));
        }
        rendered.push(render_group(indent, "pub(crate) use ", prefix, private_bindings));
    } else {
        proof {
            assert(private[0] == private_bindings[0]@);
        }
        if public_bindings.len() > 0 {
            proof {
                assert(public[0] == public_bindings[0]@);
            }
            rendered.push(render_single(indent, "pub use ", public_bindings[0].as_str()));
        }
        rendered.push(render_single(indent, "pub(crate) use ", private_bindings[0].as_str()));
    }
    proof {
        assert(rendered.deep_view() =~= rendered_lines(statement@, public, private));
        reveal_strlit("\n");
        assert("\n"@ =~= text::newline());
    }
    let mut output = text::join_owned(&rendered, "\n");
    if text::strip_suffix(statement, "\n").is_some() {
        output.append("\n");
    }
    output
}

impl View for ReexportHint {
    type V = Seq<char>;

    open spec fn view(&self) -> Seq<char> {
        self.path@
    }
}

/// The paths of `hints`.
pub open spec fn hint_paths(hints: Seq<ReexportHint>) -> Seq<Seq<char>> {
    hints.map_values(|hint: ReexportHint| hint@)
}

/// Whether the item behind a binding should no longer be reexported.
pub open spec fn hidden(
    binding: BindingText,
    hints: Seq<Seq<char>>,
    aliases: Seq<(Seq<char>, Seq<char>)>,
) -> bool {
    hints.contains(canonical(binding.source_path, aliases))
}

/// The texts of those of `bindings` that are hidden, or of those that are not.
pub open spec fn names_of(
    bindings: Seq<BindingText>,
    hints: Seq<Seq<char>>,
    aliases: Seq<(Seq<char>, Seq<char>)>,
    are_hidden: bool,
) -> Seq<Seq<char>> {
    bindings.filter(|b: BindingText| hidden(b, hints, aliases) == are_hidden).map_values(
        |b: BindingText| b.rendered,
    )
}

/// The new text of a statement, if it has to change: if it is public and one of
/// its bindings is hidden.
pub open spec fn new_statement(
    statement: Seq<char>,
    module_name: Seq<char>,
    hints: Seq<Seq<char>>,
    aliases: Seq<(Seq<char>, Seq<char>)>,
) -> Option<Seq<char>> {
    match parsed_statement(statement, module_name) {
        Some((true, bindings)) => {
            let values = strings::values_of(bindings);
            let private = names_of(values, hints, aliases, true);
            if private.len() == 0 {
                None
            } else {
                Some(
                    rendered_statement(
                        statement,
                        names_of(values, hints, aliases, false),
                        private,
                    ),
                )
            }
        },
        _ => None,
    }
}

/// The new text of the lines from `i` on, and the numbers of the lines, counted
/// from one, in which a statement begins that has a new text.
pub open spec fn rewritten_from(
    lines: Seq<Seq<char>>,
    i: int,
    module_name: Seq<char>,
    hints: Seq<Seq<char>>,
    aliases: Seq<(Seq<char>, Seq<char>)>,
) -> (Seq<char>, Seq<int>)
    decreases lines.len() - i,
    when 0 <= i
{
    if i >= lines.len() {
        (Seq::empty(), Seq::empty())
    } else if is_use_line(lines[i]) {
        proof {
            lemma_statement_end(lines, i);
        }
        let statement = statement_at(lines, i);
        let rest = rewritten_from(lines, statement_end(lines, i), module_name, hints, aliases);
        match new_statement(statement, module_name, hints, aliases) {
            Some(new_text) => (new_text + rest.0, seq![i + 1] + rest.1),
            None => (statement + rest.0, rest.1),
        }
    } else {
        let rest = rewritten_from(lines, i + 1, module_name, hints, aliases);
        (lines[i] + rest.0, rest.1)
    }
}

/// The new text of a source file, and the numbers of the lines in which a
/// statement begins that has a new text.
pub open spec fn rewritten(
    source: Seq<char>,
    module_name: Seq<char>,
    hints: Seq<Seq<char>>,
    aliases: Seq<(Seq<char>, Seq<char>)>,
) -> (Seq<char>, Seq<int>) {
    rewritten_from(text::whole_lines(source), 0, module_name, hints, aliases)
}

/// Whether one of `hints` is `path`.
fn is_hinted(path: &str, hints: &Vec<ReexportHint>) -> (b: bool)
    ensures
        b == hint_paths(hints@).contains(path@),
{
    let mut i: usize = 0;
    while i < hints.len()
        invariant
            i <= hints.len(),
            forall|j: int| 0 <= j < i ==> #[trigger] hint_paths(hints@)[j] != path@,
        decreases hints.len() - i,
    {
        if text::equal(hints[i].path.as_str(), path) {
            proof {
                assert(hint_paths(hints@)[i as int] == path@);
            }
            return true;
        }
        i = i + 1;
    }
    false
}

/// One more binding adds its text to one of the two lists of names.
pub proof fn lemma_names_step(
    values: Seq<BindingText>,
    i: int,
    hints: Seq<Seq<char>>,
    aliases: Seq<(Seq<char>, Seq<char>)>,
    are_hidden: bool,
)
    requires
        0 <= i < values.len(),
    ensures
        names_of(values.take(i + 1), hints, aliases, are_hidden) == if hidden(
            values[i],
            hints,
            aliases,
        ) == are_hidden {
            names_of(values.take(i), hints, aliases, are_hidden).push(values[i].rendered)
        } else {
            names_of(values.take(i), hints, aliases, are_hidden)
        },
{
    reveal(Seq::filter);
    assert(values.take(i + 1).drop_last() =~= values.take(i));
    let keep = |b: BindingText| hidden(b, hints, aliases) == are_hidden;
    assert(names_of(values.take(i + 1), hints, aliases, are_hidden) =~= if keep(values[i]) {
        names_of(values.take(i), hints, aliases, are_hidden).push(values[i].rendered)
    } else {
        names_of(values.take(i), hints, aliases, are_hidden)
    });
}

/// The new text of `statement`, if it has to change.
fn rewrite_statement(
    statement: &str,
    current_module_path: &str,
    hints: &Vec<ReexportHint>,
    aliases: &strings::StringMap<String>,
) -> (r: Option<String>)
    requires
        statement_in_order(statement@),
        aliases.well_formed(),
    ensures
        r is Some <==> new_statement(
            statement@,
            current_module_path@,
            hint_paths(hints@),
            aliases.entries(),
        ) is Some,
        r matches Some(new_text) ==> new_statement(
            statement@,
            current_module_path@,
            hint_paths(hints@),
            aliases.entries(),
        ) == Some(new_text@),
{
    let Some((is_public, bindings)) = parse_reexport_statement(
        statement,
        current_module_path,
    ) else {
        return None;
    };
    if !is_public {
        return None;
    }
    let ghost values = strings::values_of(bindings.entries());
    let ghost paths = hint_paths(hints@);
    let mut public_bindings: Vec<String> = Vec::new();
    let mut private_bindings: Vec<String> = Vec::new();
    let mut i: usize = 0;
    proof {
        reveal(Seq::filter);
        assert(values.take(0) =~= Seq::empty());
        assert(names_of(values.take(0), paths, aliases.entries(), false) =~= Seq::empty());
        assert(names_of(values.take(0), paths, aliases.entries(), true) =~= Seq::empty());
        assert(public_bindings.deep_view() =~= Seq::empty());
        assert(private_bindings.deep_view() =~= Seq::empty());
    }
    while i < bindings.len()
        invariant
            i <= values.len(),
            bindings.well_formed(),
            aliases.well_formed(),
            values == strings::values_of(bindings.entries()),
            values.len() == bindings.entries().len(),
            paths == hint_paths(hints@),
            public_bindings.deep_view() == names_of(
                values.take(i as int),
                paths,
                aliases.entries(),
                false,
            ),
            private_bindings.deep_view() == names_of(
                values.take(i as int),
                paths,
                aliases.entries(),
                true,
            ),
        decreases bindings.entries().len() - i,
    {
        let binding = bindings.value_at(i);
        let ghost shown = public_bindings.deep_view();
        let ghost unshown = private_bindings.deep_view();
        proof {
            assert(values[i as int] == binding@);
            lemma_names_step(values, i as int, paths, aliases.entries(), false);
            lemma_names_step(values, i as int, paths, aliases.entries(), true);
        }
        let path = canonicalize_reexport_path(binding.source_path.as_str(), aliases);
        if is_hinted(path.as_str(), hints) {
            private_bindings.push(binding.rendered.clone());
            proof {
                assert(private_bindings.deep_view() =~= unshown.push(binding.rendered@));
            }
        } else {
            public_bindings.push(binding.rendered.clone());
            proof {
                assert(public_bindings.deep_view() =~= shown.push(binding.rendered@));
            }
        }
        i = i + 1;
    }
    proof {
        assert(values.take(i as int) =~= values);
    }
    if private_bindings.len() == 0 {
        return None;
    }
    Some(render_reexport_statement(statement, &public_bindings, &private_bindings))
}

/// Makes the reexports in `source` private to the crate whose items are among
/// `hints`. Returns the new text and the numbers of the lines in which a changed
/// statement begins.
pub fn rewrite_reexport_statements(
    source: &str,
    current_module_path: &str,
    hints: &Vec<ReexportHint>,
    aliases: &strings::StringMap<String>,
) -> (r: (String, Vec<usize>))
    requires
        all_in_order(use_statements(source@)),
        aliases.well_formed(),
    ensures
        r.0@ == rewritten(
            source@,
            current_module_path@,
            hint_paths(hints@),
            aliases.entries(),
        ).0,
        r.1@.map_values(|n: usize| n as int) == rewritten(
            source@,
            current_module_path@,
            hint_paths(hints@),
            aliases.entries(),
        ).1,
{
    let lines = text::split_lines_inclusive(source);
    let ghost all = lines.deep_view();
    let ghost paths = hint_paths(hints@);
    let ghost known_aliases = aliases.entries();
    let ghost whole = rewritten(source@, current_module_path@, paths, known_aliases);
    let mut output = String::new();
    let mut fixed_lines: Vec<usize> = Vec::new();
    let mut index: usize = 0;
    let ghost mut numbers: Seq<int> = Seq::empty();
    proof {
        assert(output@ + rewritten_from(all, 0, current_module_path@, paths, known_aliases).0
            =~= whole.0);
        assert(numbers + rewritten_from(all, 0, current_module_path@, paths, known_aliases).1
            =~= whole.1);
        assert(fixed_lines@.map_values(|n: usize| n as int) =~= numbers);
    }
    while index < lines.len()
        invariant
            all == lines.deep_view(),
            index <= lines.len(),
            aliases.well_formed(),
            paths == hint_paths(hints@),
            known_aliases == aliases.entries(),
            all_in_order(statements_from(all, index as int)),
            output@ + rewritten_from(
                all,
                index as int,
                current_module_path@,
                paths,
                known_aliases,
            ).0 == whole.0,
            numbers + rewritten_from(
                all,
                index as int,
                current_module_path@,
                paths,
                known_aliases,
            ).1 == whole.1,
            fixed_lines@.map_values(|n: usize| n as int) == numbers,
        decreases lines.len() - index,
    {
        let ghost before = output@;
        let ghost known = numbers;
        let ghost here = rewritten_from(
            all,
            index as int,
            current_module_path@,
            paths,
            known_aliases,
        );
        proof {
            assert(all[index as int] == lines[index as int]@);
        }
        if !begins_use(lines[index]) {
            output.append(lines[index]);
            proof {
                let rest = rewritten_from(
                    all,
                    index + 1,
                    current_module_path@,
                    paths,
                    known_aliases,
                );
                assert(output@ + rest.0 =~= before + here.0);
            }
            index = index + 1;
        } else {
            let (statement, end) = read_statement(&lines, index);
            let ghost rest = rewritten_from(
                all,
                end as int,
                current_module_path@,
                paths,
                known_aliases,
            );
            proof {
                let later = statements_from(all, end as int);
                let now = statements_from(all, index as int);
                assert(now =~= seq![statement@] + later);
                assert(now[0] == statement@);
                assert forall|i: int| 0 <= i < later.len() implies statement_in_order(
                    #[trigger] later[i],
                ) by {
                    assert(now[i + 1] == later[i]);
                }
            }
            match rewrite_statement(statement.as_str(), current_module_path, hints, aliases) {
                None => {
                    output.append(statement.as_str());
                    proof {
                        assert(output@ + rest.0 =~= before + here.0);
                    }
                },
                Some(new_text) => {
                    output.append(new_text.as_str());
                    fixed_lines.push(index + 1);
                    proof {
                        assert(output@ + rest.0 =~= before + here.0);
                        numbers = known.push(index + 1);
                        assert(numbers + rest.1 =~= known + here.1);
                        assert(fixed_lines@.map_values(|n: usize| n as int) =~= numbers);
                    }
                },
            }
            index = end;
        }
    }
    proof {
        assert(output@ =~= whole.0);
        assert(numbers =~= whole.1);
    }
    (output, fixed_lines)
}

/// Whether the braces of all statements of `source` are in order.
pub fn all_braces_ordered(source: &str) -> (b: bool)
    ensures
        b == all_in_order(use_statements(source@)),
{
    let statements = collect_use_statements(source);
    let ghost all = statements.deep_view();
    let mut i: usize = 0;
    while i < statements.len()
        invariant
            i <= statements.len(),
            all == statements.deep_view(),
            all == use_statements(source@),
            forall|j: int| 0 <= j < i ==> statement_in_order(#[trigger] all[j]),
        decreases statements.len() - i,
    {
        proof {
            assert(all[i as int] == statements[i as int]@);
        }
        if !has_ordered_braces(statements[i].as_str()) {
            return false;
        }
        i = i + 1;
    }
    true
}

/// Whether a file holds Rust source, by its extension.
pub open spec fn is_source_name(file_name: Seq<char>) -> bool {
    utils::extension_of(file_name) == Some("rs"@)
}

/// Whether the file `file_name` holds Rust source.
pub fn is_rust_file(file_name: &str) -> (b: bool)
    ensures
        b == is_source_name(file_name@),
{
    match utils::file_extension(file_name) {
        Some(extension) => text::equal(extension, "rs"),
        None => false,
    }
}

/// A source file by the module it holds.
#[derive(Debug)]
pub struct SourceFile {
    /// The path of the module in its crate, empty for the root module.
    pub module: String,
    /// The text of the file.
    pub source: String,
}

/// `aliases` with those that `bindings` bring.
pub open spec fn with_bindings(
    aliases: Seq<(Seq<char>, Seq<char>)>,
    bindings: Seq<(Seq<char>, BindingText)>,
) -> Seq<(Seq<char>, Seq<char>)>
    decreases bindings.len(),
{
    if bindings.len() == 0 {
        aliases
    } else {
        let last = bindings.last();
        strings::put(with_bindings(aliases, bindings.drop_last()), last.0, last.1.source_path)
    }
}

/// `aliases` with those that the statements of a module bring.
pub open spec fn with_statements(
    aliases: Seq<(Seq<char>, Seq<char>)>,
    statements: Seq<Seq<char>>,
    module_name: Seq<char>,
) -> Seq<(Seq<char>, Seq<char>)>
    decreases statements.len(),
{
    if statements.len() == 0 {
        aliases
    } else {
        let known = with_statements(aliases, statements.drop_last(), module_name);
        match parsed_statement(statements.last(), module_name) {
            Some((_, bindings)) => with_bindings(known, bindings),
            None => known,
        }
    }
}

/// The path of an item by each path under which one of `files` reexports it. Of
/// two reexports under one path the later counts.
pub open spec fn aliases_of(files: Seq<SourceFile>) -> Seq<(Seq<char>, Seq<char>)>
    decreases files.len(),
{
    if files.len() == 0 {
        Seq::empty()
    } else {
        with_statements(
            aliases_of(files.drop_last()),
            use_statements(files.last().source@),
            files.last().module@,
        )
    }
}

/// Adds the aliases that `bindings` bring.
fn add_bindings(
    aliases: &mut strings::StringMap<String>,
    bindings: &strings::StringMap<ReexportBinding>,
)
    requires
        old(aliases).well_formed(),
        bindings.well_formed(),
    ensures
        final(aliases).well_formed(),
        final(aliases).entries() == with_bindings(old(aliases).entries(), bindings.entries()),
{
    let ghost all = bindings.entries();
    let ghost known = aliases.entries();
    let mut i: usize = 0;
    proof {
        assert(all.take(0) =~= Seq::empty());
    }
    while i < bindings.len()
        invariant
            i <= all.len(),
            all == bindings.entries(),
            bindings.well_formed(),
            aliases.well_formed(),
            aliases.entries() == with_bindings(known, all.take(i as int)),
        decreases all.len() - i,
    {
        proof {
            assert(all.take(i + 1).drop_last() =~= all.take(i as int));
            assert(all.take(i + 1).last() == all[i as int]);
        }
        let key = bindings.key_at(i).clone();
        let source_path = bindings.value_at(i).source_path.clone();
        aliases.insert(key, source_path);
        i = i + 1;
    }
    proof {
        assert(all.take(i as int) =~= all);
    }
}

/// The aliases that the reexports of `files` bring.
pub fn collect_reexport_aliases(files: &Vec<SourceFile>) -> (r: strings::StringMap<String>)
    requires
        forall|i: int|
            0 <= i < files.len() ==> all_in_order(
                use_statements((#[trigger] files@[i]).source@),
            ),
    ensures
        r.well_formed(),
        r.entries() == aliases_of(files@),
{
    let mut aliases = strings::StringMap::<String>::new();
    let mut i: usize = 0;
    proof {
        assert(files@.take(0) =~= Seq::empty());
    }
    while i < files.len()
        invariant
            i <= files.len(),
            forall|i: int|
                0 <= i < files.len() ==> all_in_order(
                    use_statements((#[trigger] files@[i]).source@),
                ),
            aliases.well_formed(),
            aliases.entries() == aliases_of(files@.take(i as int)),
        decreases files.len() - i,
    {
        let statements = collect_use_statements(files[i].source.as_str());
        let ghost all = statements.deep_view();
        let ghost name = files@[i as int].module@;
        let ghost known = aliases.entries();
        let mut k: usize = 0;
        proof {
            assert(all_in_order(use_statements(files@[i as int].source@)));
            assert(all.take(0) =~= Seq::empty());
        }
        while k < statements.len()
            invariant
                k <= statements.len(),
                i < files.len(),
                all == statements.deep_view(),
                all_in_order(all),
                name == files@[i as int].module@,
                aliases.well_formed(),
                aliases.entries() == with_statements(known, all.take(k as int), name),
            decreases statements.len() - k,
        {
            proof {
                assert(all[k as int] == statements[k as int]@);
                assert(all.take(k + 1).drop_last() =~= all.take(k as int));
                assert(all.take(k + 1).last() == all[k as int]);
            }
            match parse_reexport_statement(statements[k].as_str(), files[i].module.as_str()) {
                None => {},
                Some((_, bindings)) => {
                    add_bindings(&mut aliases, &bindings);
                },
            }
            k = k + 1;
        }
        proof {
            assert(all.take(k as int) =~= all);
            assert(files@.take(i + 1).drop_last() =~= files@.take(i as int));
            assert(files@.take(i + 1).last() == files@[i as int]);
        }
        i = i + 1;
    }
    proof {
        assert(files@.take(i as int) =~= files@);
    }
    aliases
}

/// The path of the module in the file with the path `components` below the
/// sources of its crate.
pub open spec fn module_of_file(components: Seq<Seq<char>>) -> Seq<char> {
    if components.len() == 0 {
        Seq::empty()
    } else {
        let file = components.last();
        let folders = components.drop_last();
        if file == "lib.rs"@ || file == "main.rs"@ || file == "mod.rs"@ {
            text::joined(folders, "::"@)
        } else {
            let stem = match text::without_suffix(file, ".rs"@) {
                Some(stem) => stem,
                None => file,
            };
            text::joined(folders.push(stem), "::"@)
        }
    }
}

/// The path of the module in the file `components`.
pub fn module_path_for_file(components: &Vec<String>) -> (r: String)
    ensures
        r@ == module_of_file(components.deep_view()),
{
    let ghost all = components.deep_view();
    if components.len() == 0 {
        return String::new();
    }
    let count: usize = components.len() - 1;
    let mut names: Vec<&str> = Vec::new();
    let mut i: usize = 0;
    while i < count
        invariant
            i <= count,
            count < components.len(),
            all == components.deep_view(),
            names.deep_view() == all.take(i as int),
        decreases count - i,
    {
        let ghost known = names.deep_view();
        names.push(components[i].as_str());
        proof {
            assert(names.deep_view() =~= known.push(components[i as int]@));
            assert(all.take(i + 1) =~= all.take(i as int).push(components[i as int]@));
        }
        i = i + 1;
    }
    let last = components[count].as_str();
    proof {
        assert(all.last() == last@);
        assert(all.take(count as int) =~= all.drop_last());
    }
    if !(text::equal(last, "lib.rs") || text::equal(last, "main.rs") || text::equal(
        last,
        "mod.rs",
    )) {
        let stem = match text::strip_suffix(last, ".rs") {
            Some(stem) => stem,
            None => last,
        };
        names.push(stem);
        proof {
            assert(names.deep_view() =~= all.drop_last().push(stem@));
        }
    }
    text::join(&names, "::")
}

proof fn lemma_unfixed_from(
    lines: Seq<Seq<char>>,
    i: int,
    module_name: Seq<char>,
    hints: Seq<Seq<char>>,
    aliases: Seq<(Seq<char>, Seq<char>)>,
)
    requires
        0 <= i <= lines.len(),
        rewritten_from(lines, i, module_name, hints, aliases).1.len() == 0,
    ensures
        rewritten_from(lines, i, module_name, hints, aliases).0 == text::concatenated(
            lines.skip(i),
        ),
    decreases lines.len() - i,
{
    let left = lines.skip(i);
    if i < lines.len() {
        if is_use_line(lines[i]) {
            lemma_statement_end(lines, i);
            let end = statement_end(lines, i);
            lemma_unfixed_from(lines, end, module_name, hints, aliases);
            text::lemma_concatenated_split(left, end - i);
            assert(left.take(end - i) =~= lines.subrange(i, end));
            assert(left.skip(end - i) =~= lines.skip(end));
        } else {
            lemma_unfixed_from(lines, i + 1, module_name, hints, aliases);
            assert(left.drop_first() =~= lines.skip(i + 1));
            assert(left[0] == lines[i]);
        }
    } else {
        assert(left =~= Seq::empty());
    }
}

/// A source file in which no statement is changed keeps its text.
pub proof fn lemma_unfixed_source_unchanged(
    source: Seq<char>,
    module_name: Seq<char>,
    hints: Seq<Seq<char>>,
    aliases: Seq<(Seq<char>, Seq<char>)>,
)
    requires
        rewritten(source, module_name, hints, aliases).1.len() == 0,
    ensures
        rewritten(source, module_name, hints, aliases).0 == source,
{
    let lines = text::whole_lines(source);
    lemma_unfixed_from(lines, 0, module_name, hints, aliases);
    assert(lines.skip(0) =~= lines);
    text::lemma_lines_concatenate(source);
}

proof fn lemma_unhinted_from(
    lines: Seq<Seq<char>>,
    i: int,
    module_name: Seq<char>,
    aliases: Seq<(Seq<char>, Seq<char>)>,
)
    requires
        0 <= i <= lines.len(),
    ensures
        rewritten_from(lines, i, module_name, Seq::empty(), aliases).1.len() == 0,
    decreases lines.len() - i,
{
    if i < lines.len() {
        if is_use_line(lines[i]) {
            lemma_statement_end(lines, i);
            lemma_unhinted_from(lines, statement_end(lines, i), module_name, aliases);
            match parsed_statement(statement_at(lines, i), module_name) {
                Some((true, bindings)) => {
                    lemma_nothing_hidden(strings::values_of(bindings), aliases);
                },
                _ => {},
            }
        } else {
            lemma_unhinted_from(lines, i + 1, module_name, aliases);
        }
    }
}

proof fn lemma_nothing_hidden(
    values: Seq<BindingText>,
    aliases: Seq<(Seq<char>, Seq<char>)>,
)
    ensures
        names_of(values, Seq::empty(), aliases, true).len() == 0,
    decreases values.len(),
{
    reveal(Seq::filter);
    if values.len() > 0 {
        lemma_nothing_hidden(values.drop_last(), aliases);
    }
}

/// With no item to hide every source file keeps its text, and no statement is
/// reported as changed.
pub proof fn lemma_no_hints_no_change(
    source: Seq<char>,
    module_name: Seq<char>,
    aliases: Seq<(Seq<char>, Seq<char>)>,
)
    ensures
        rewritten(source, module_name, Seq::empty(), aliases) == (source, Seq::<int>::empty()),
{
    lemma_unhinted_from(text::whole_lines(source), 0, module_name, aliases);
    lemma_unfixed_source_unchanged(source, module_name, Seq::empty(), aliases);
    assert(rewritten(source, module_name, Seq::empty(), aliases).1 =~= Seq::<int>::empty());
}

/// Whether `numbers`, counted from one, are strictly ascending numbers of lines
/// behind the first `i`, in each of which a `use` statement that can reexport
/// begins.
pub open spec fn ascending_use_lines(numbers: Seq<int>, lines: Seq<Seq<char>>, i: int) -> bool {
    &&& forall|a: int|
        0 <= a < numbers.len() ==> i < #[trigger] numbers[a] <= lines.len() && is_use_line(
            lines[numbers[a] - 1],
        )
    &&& forall|a: int, b: int|
        0 <= a < b < numbers.len() ==> #[trigger] numbers[a] < #[trigger] numbers[b]
}

proof fn lemma_fixed_lines_from(
    lines: Seq<Seq<char>>,
    i: int,
    module_name: Seq<char>,
    hints: Seq<Seq<char>>,
    aliases: Seq<(Seq<char>, Seq<char>)>,
)
    requires
        0 <= i <= lines.len(),
    ensures
        ascending_use_lines(
            rewritten_from(lines, i, module_name, hints, aliases).1,
            lines,
            i,
        ),
    decreases lines.len() - i,
{
    let fixed = rewritten_from(lines, i, module_name, hints, aliases).1;
    if i < lines.len() {
        if is_use_line(lines[i]) {
            lemma_statement_end(lines, i);
            let end = statement_end(lines, i);
            lemma_fixed_lines_from(lines, end, module_name, hints, aliases);
            let later = rewritten_from(lines, end, module_name, hints, aliases).1;
            if new_statement(statement_at(lines, i), module_name, hints, aliases) is Some {
                assert(fixed =~= seq![i + 1] + later);
                assert forall|a: int| 0 <= a < fixed.len() implies i < #[trigger] fixed[a]
                    <= lines.len() && is_use_line(lines[fixed[a] - 1]) by {
                    if a > 0 {
                        assert(fixed[a] == later[a - 1]);
                    }
                }
                assert forall|a: int, b: int| 0 <= a < b < fixed.len() implies #[trigger] fixed[a]
                    < #[trigger] fixed[b] by {
                    assert(fixed[b] == later[b - 1]);
                    if a > 0 {
                        assert(fixed[a] == later[a - 1]);
                    }
                }
            } else {
                assert(fixed == later);
            }
        } else {
            lemma_fixed_lines_from(lines, i + 1, module_name, hints, aliases);
            assert(fixed == rewritten_from(lines, i + 1, module_name, hints, aliases).1);
        }
    } else {
        assert(fixed =~= Seq::empty());
    }
}

/// The numbers of the lines with a changed statement are strictly ascending, and
/// each of these lines begins a `use` statement that can reexport.
pub proof fn lemma_fixed_lines_ascend(
    source: Seq<char>,
    module_name: Seq<char>,
    hints: Seq<Seq<char>>,
    aliases: Seq<(Seq<char>, Seq<char>)>,
)
    ensures
        ascending_use_lines(
            rewritten(source, module_name, hints, aliases).1,
            text::whole_lines(source),
            0,
        ),
{
    lemma_fixed_lines_from(text::whole_lines(source), 0, module_name, hints, aliases);
}

/// Every binding of a changed statement is kept, as a public one or as one
/// private to the crate.
pub proof fn lemma_every_binding_kept(
    values: Seq<BindingText>,
    hints: Seq<Seq<char>>,
    aliases: Seq<(Seq<char>, Seq<char>)>,
)
    ensures
        names_of(values, hints, aliases, true).len() + names_of(
            values,
            hints,
            aliases,
            false,
        ).len() == values.len(),
    decreases values.len(),
{
    reveal(Seq::filter);
    if values.len() > 0 {
        lemma_every_binding_kept(values.drop_last(), hints, aliases);
    }
}

proof fn lemma_followed_with_less_seen(
    current: Seq<char>,
    aliases: Seq<(Seq<char>, Seq<char>)>,
    more: Set<Seq<char>>,
    less: Set<Seq<char>>,
)
    requires
        less.subset_of(more),
        strings::lookup(aliases, followed(current, aliases, more)) is None,
    ensures
        followed(current, aliases, less) == followed(current, aliases, more),
    decreases strings::keys_of(aliases).to_set().difference(more).len(),
{
    match strings::lookup(aliases, current) {
        None => {},
        Some(next) => {
            lemma_fewer_unseen(aliases, more, current);
            lemma_followed_with_less_seen(
                next,
                aliases,
                more.insert(current),
                less.insert(current),
            );
        },
    }
}

/// A path and the path it is an alias of stand for the same item, unless the
/// aliases lead into a cycle.
pub proof fn lemma_alias_same_item(
    path: Seq<char>,
    next: Seq<char>,
    aliases: Seq<(Seq<char>, Seq<char>)>,
)
    requires
        strings::lookup(aliases, path) == Some(next),
        strings::lookup(aliases, canonical(path, aliases)) is None,
    ensures
        canonical(next, aliases) == canonical(path, aliases),
{
    lemma_followed_with_less_seen(
        next,
        aliases,
        Set::empty().insert(path),
        Set::empty(),
    );
}

/// Whether each path of `trail` is an alias of the one behind it.
spec fn linked(trail: Seq<Seq<char>>, aliases: Seq<(Seq<char>, Seq<char>)>) -> bool {
    forall|i: int|
        0 <= i < trail.len() - 1 ==> strings::lookup(aliases, #[trigger] trail[i]) == Some(
            trail[i + 1],
        )
}

/// From a path of a cycle the aliases lead back to it.
proof fn lemma_round(
    trail: Seq<Seq<char>>,
    start: int,
    i: int,
    aliases: Seq<(Seq<char>, Seq<char>)>,
)
    requires
        linked(trail, aliases),
        trail.drop_last().no_duplicates(),
        0 <= start < trail.len() - 1,
        start <= i < trail.len(),
        trail.last() == trail[start],
    ensures
        followed(trail[i], aliases, trail.subrange(start, i).to_set()) == trail[start],
    decreases trail.len() - i,
{
    let passed = trail.subrange(start, i);
    if i == trail.len() - 1 {
        assert(passed[0] == trail[start]);
        assert(passed.contains(trail[start]));
    } else {
        if passed.contains(trail[i]) {
            let k = choose|k: int| 0 <= k < passed.len() && passed[k] == trail[i];
            assert(trail.drop_last()[start + k] == trail.drop_last()[i]);
        }
        let more = trail.subrange(start, i + 1);
        assert(more =~= passed.push(trail[i]));
        assert forall|p: Seq<char>| #[trigger] more.to_set().contains(p) <==> passed.to_set().insert(
            trail[i],
        ).contains(p) by {
            if passed.contains(p) {
                let k = choose|k: int| 0 <= k < passed.len() && passed[k] == p;
                assert(more[k] == p);
            }
            assert(more[i - start] == trail[i]);
            if more.contains(p) {
                let k = choose|k: int| 0 <= k < more.len() && more[k] == p;
                if k < passed.len() {
                    assert(passed[k] == p);
                }
            }
        }
        assert(more.to_set() =~= passed.to_set().insert(trail[i]));
        lemma_round(trail, start, i + 1, aliases);
    }
}

proof fn lemma_followed_settles(trail: Seq<Seq<char>>, aliases: Seq<(Seq<char>, Seq<char>)>)
    requires
        linked(trail, aliases),
        trail.len() > 0,
        trail.drop_last().no_duplicates(),
    ensures
        ({
            let last = followed(trail.last(), aliases, trail.drop_last().to_set());
            canonical(last, aliases) == last
        }),
    decreases strings::keys_of(aliases).to_set().difference(trail.drop_last().to_set()).len(),
{
    let passed = trail.drop_last();
    let current = trail.last();
    if passed.contains(current) {
        let start = choose|k: int| 0 <= k < passed.len() && passed[k] == current;
        assert(trail[start] == current);
        lemma_round(trail, start, start, aliases);
        assert(trail.subrange(start, start).to_set() =~= Set::empty());
    } else {
        match strings::lookup(aliases, current) {
            None => {},
            Some(next) => {
                let longer = trail.push(next);
                lemma_fewer_unseen(aliases, passed.to_set(), current);
                assert(longer.drop_last() =~= trail);
                assert(trail =~= passed.push(current));
                assert forall|p: Seq<char>| #[trigger] trail.to_set().contains(p)
                    <==> passed.to_set().insert(current).contains(p) by {
                    if passed.contains(p) {
                        let k = choose|k: int| 0 <= k < passed.len() && passed[k] == p;
                        assert(trail[k] == p);
                    }
                    assert(trail[trail.len() - 1] == current);
                    if trail.contains(p) {
                        let k = choose|k: int| 0 <= k < trail.len() && trail[k] == p;
                        if k < passed.len() {
                            assert(passed[k] == p);
                        }
                    }
                }
                assert(trail.to_set() =~= passed.to_set().insert(current));
                assert forall|i: int, j: int|
                    0 <= i < trail.len() && 0 <= j < trail.len() && i != j implies trail[i]
                    != trail[j] by {
                    if i < passed.len() && j < passed.len() {
                        assert(passed[i] != passed[j]);
                    } else if i < passed.len() {
                        assert(passed[i] == trail[i]);
                        assert(passed.contains(trail[i]));
                    } else {
                        assert(passed[j] == trail[j]);
                        assert(passed.contains(trail[j]));
                    }
                }
                assert forall|i: int| 0 <= i < longer.len() - 1 implies strings::lookup(
                    aliases,
                    #[trigger] longer[i],
                ) == Some(longer[i + 1]) by {
                    if i < trail.len() - 1 {
                        assert(longer[i] == trail[i] && longer[i + 1] == trail[i + 1]);
                    }
                }
                lemma_followed_settles(longer, aliases);
            },
        }
    }
}

/// Following the aliases from where they lead to leads nowhere else, even where they
/// lead into a cycle.
pub proof fn lemma_canonical_twice(path: Seq<char>, aliases: Seq<(Seq<char>, Seq<char>)>)
    ensures
        canonical(canonical(path, aliases), aliases) == canonical(path, aliases),
{
    let trail = seq![path];
    assert(trail.drop_last().to_set() =~= Set::empty());
    lemma_followed_settles(trail, aliases);
}

/// The hint for an item is its path behind the first separator, and only an item below
/// a module of its crate has one: behind that separator there is another.
pub proof fn lemma_hint_without_crate(display: Seq<char>)
    ensures
        hint_path(display) == match text::first_match(display, "::"@) {
            None => None,
            Some(n) => if text::has(display.skip(n + 2), "::"@) {
                Some(display.skip(n + 2))
            } else {
                None
            },
        },
{
    reveal_strlit("::");
    let sep = "::"@;
    text::lemma_first_match(display, sep);
    text::lemma_pieces_join(display, sep);
    if let Some(n) = text::first_match(display, sep) {
        let rest = display.skip(n + 2);
        let parts = text::pieces(display, sep);
        text::lemma_pieces_join(rest, sep);
        assert(parts == seq![display.take(n)] + text::pieces(rest, sep));
        assert(parts.drop_first() =~= text::pieces(rest, sep));
    }
}

/// The hint for `crate_name::module::rest` is `module::rest`.
pub proof fn lemma_hint_of_nested_item(crate_name: Seq<char>, path: Seq<char>)
    requires
        !crate_name.contains(':'),
        text::has(path, "::"@),
    ensures
        hint_path(crate_name + "::"@ + path) == Some(path),
{
    reveal_strlit("::");
    let display = crate_name + "::"@ + path;
    let n = crate_name.len() as int;
    lemma_hint_without_crate(display);
    text::lemma_first_match_least(display, "::"@);
    assert(display.subrange(n, n + 2) =~= "::"@);
    assert(text::matches_at(display, "::"@, n));
    if let Some(k) = text::first_match(display, "::"@) {
        if k < n {
            assert(display.subrange(k, k + 2)[0] == "::"@[0]);
            assert(crate_name[k] == ':');
        }
        assert(k == n);
        assert(display.skip(n + 2) =~= path);
    }
}

/// A line begins a statement that can reexport exactly if, white space in front of it
/// aside, it begins with one of the two keywords.
pub proof fn lemma_use_lines(indent: Seq<char>, rest: Seq<char>, line: Seq<char>)
    requires
        forall|i: int| 0 <= i < indent.len() ==> text::white(#[trigger] indent[i]),
    ensures
        is_use_line(indent + ("pub use "@ + rest)),
        is_use_line(indent + ("pub(crate) use "@ + rest)),
        is_use_line(line) ==> {
            let start = text::trimmed_start(line);
            "pub use "@.is_prefix_of(start) || "pub(crate) use "@.is_prefix_of(start)
        },
{
    reveal_strlit("pub use ");
    reveal_strlit("pub(crate) use ");
    let shown = "pub use "@ + rest;
    let hidden = "pub(crate) use "@ + rest;
    text::lemma_leading_white(indent, shown);
    text::lemma_leading_white(indent, hidden);
    assert(shown[0] == 'p' && hidden[0] == 'p');
    assert(text::trimmed_start(shown) == shown);
    assert(text::trimmed_start(hidden) == hidden);
    assert(shown.subrange(0, 8) =~= "pub use "@);
    assert(hidden.subrange(0, 15) =~= "pub(crate) use "@);
}

/// A statement goes up to the first line with a semicolon, that line and all before it,
/// or to the end where no line has one.
pub proof fn lemma_where_a_statement_ends(lines: Seq<Seq<char>>, i: int)
    requires
        0 <= i < lines.len(),
    ensures
        ({
            let end = statement_end(lines, i);
            &&& i < end <= lines.len()
            &&& forall|j: int| i <= j < end - 1 ==> !(#[trigger] lines[j]).contains(';')
            &&& end < lines.len() ==> lines[end - 1].contains(';')
            &&& lines[end - 1].contains(';') || end == lines.len()
        }),
    decreases lines.len() - i,
{
    reveal_strlit(";");
    assert(";"@ =~= seq![';']);
    text::lemma_first_char(lines[i], ';');
    if let Some(k) = text::first_match(lines[i], seq![';']) {
        assert(lines[i].contains(lines[i][k]));
    }
    lemma_statement_end(lines, i);
    if !text::has(lines[i], ";"@) && i + 1 < lines.len() {
        lemma_where_a_statement_ends(lines, i + 1);
    } else if i + 1 == lines.len() {
        reveal_with_fuel(statement_end, 2);
    }
}

/// The statements are read line by line: a line that begins none is passed over, and one
/// that begins a statement gives it, all its lines together, before those that follow.
pub proof fn lemma_statements_in_order(lines: Seq<Seq<char>>, i: int)
    requires
        0 <= i < lines.len(),
    ensures
        !is_use_line(lines[i]) ==> statements_from(lines, i) == statements_from(lines, i + 1),
        is_use_line(lines[i]) ==> {
            let end = statement_end(lines, i);
            &&& statements_from(lines, i).len() > 0
            &&& statements_from(lines, i)[0] == text::concatenated(lines.subrange(i, end))
            &&& statements_from(lines, i).drop_first() == statements_from(lines, end)
        },
        statements_from(lines, lines.len() as int).len() == 0,
{
    if is_use_line(lines[i]) {
        lemma_statement_end(lines, i);
        let end = statement_end(lines, i);
        let all = statements_from(lines, i);
        assert(all == seq![statement_at(lines, i)] + statements_from(lines, end));
        assert(all.drop_first() =~= statements_from(lines, end));
    }
}

/// A name is available in its module under its alias, or else under the last part of its
/// path.
pub proof fn lemma_bound_path(module_name: Seq<char>, rendered: Seq<char>)
    ensures
        module_name.len() == 0 ==> bound_path(module_name, rendered) == (
        match alias_split(rendered).1 {
            Some(alias) => alias,
            None => text::after_last(rendered, "::"@),
        }),
        module_name.len() > 0 ==> bound_path(module_name, rendered) == module_name + "::"@
            + bound_path(Seq::empty(), rendered),
{
}

/// Whether `segment` is one part of a path as it is written.
pub open spec fn is_path_part(segment: Seq<char>) -> bool {
    &&& segment.len() > 0
    &&& !segment.contains(':')
    &&& forall|i: int| 0 <= i < segment.len() ==> !text::white(#[trigger] segment[i])
}

proof fn lemma_part_kept(segment: Seq<char>)
    requires
        is_path_part(segment),
    ensures
        text::trimmed(segment) == segment,
{
    text::lemma_trimmed_fixed(segment);
}

proof fn lemma_all_parts_kept(parts: Seq<Seq<char>>)
    requires
        forall|i: int| 0 <= i < parts.len() ==> (#[trigger] parts[i]).len() > 0,
    ensures
        nonempty(parts) == parts,
    decreases parts.len(),
{
    reveal(Seq::filter);
    if parts.len() > 0 {
        let front = parts.drop_last();
        assert forall|i: int| 0 <= i < front.len() implies (#[trigger] front[i]).len() > 0 by {
            assert(front[i] == parts[i]);
        }
        lemma_all_parts_kept(front);
        assert(parts[parts.len() - 1].len() > 0);
        assert(nonempty(parts) =~= parts);
    } else {
        assert(nonempty(parts) =~= parts);
    }
}

proof fn lemma_joined_not_white(parts: Seq<Seq<char>>, i: int)
    requires
        forall|k: int| 0 <= k < parts.len() ==> is_path_part(#[trigger] parts[k]),
        0 <= i < text::joined(parts, "::"@).len(),
    ensures
        !text::white(text::joined(parts, "::"@)[i]),
    decreases parts.len(),
{
    reveal_strlit("::");
    let head = parts.drop_last();
    let last = parts.last();
    assert(parts[parts.len() - 1] == last);
    assert forall|k: int| 0 <= k < head.len() implies is_path_part(#[trigger] head[k]) by {
        assert(head[k] == parts[k]);
    }
    if head.len() > 0 {
        let front = text::joined(head, "::"@);
        let n = front.len() as int;
        if i < n {
            lemma_joined_not_white(head, i);
        } else if i >= n + 2 {
            assert(text::joined(parts, "::"@)[i] == last[i - n - 2]);
        }
    } else {
        assert(text::joined(parts, "::"@) == last);
    }
}

/// The parts of a path are what stands between its separators.
pub proof fn lemma_parts_of_path(parts: Seq<Seq<char>>)
    requires
        parts.len() > 0,
        forall|k: int| 0 <= k < parts.len() ==> is_path_part(#[trigger] parts[k]),
    ensures
        path_segments(text::joined(parts, "::"@)) == parts,
        module_segments(text::joined(parts, "::"@)) == parts,
{
    reveal_strlit("::");
    reveal_strlit(" as ");
    let path = text::joined(parts, "::"@);
    assert forall|i: int| 0 <= i < path.len() implies !text::white(#[trigger] path[i]) by {
        lemma_joined_not_white(parts, i);
    }
    text::lemma_first_match_least(path, " as "@);
    if let Some(k) = text::first_match(path, " as "@) {
        assert(path.subrange(k, k + 4)[0] == ' ');
        assert(path[k] == ' ');
        assert(text::white(' '));
    }
    assert(text::before(path, " as "@) == path);
    text::lemma_trimmed_fixed(path);
    text::lemma_joined_cut(parts, "::"@);
    assert forall|i: int| 0 <= i < parts.len() implies text::trimmed(#[trigger] parts[i])
        == parts[i] by {
        lemma_part_kept(parts[i]);
    }
    assert(parts.map_values(|p: Seq<char>| text::trimmed(p)) =~= parts);
    lemma_all_parts_kept(parts);
}

/// Each `super` in front of a path goes up one module from the one it stands in; the rest
/// follows the modules that are left.
pub proof fn lemma_climbed(base: Seq<Seq<char>>, rest: Seq<Seq<char>>, n: nat)
    requires
        rest.len() > 0,
        rest[0] != "super"@,
    ensures
        climbed(base, Seq::new(n, |i: int| "super"@) + rest) == if n <= base.len() {
            Some(text::joined(base.take(base.len() - n) + rest, "::"@))
        } else {
            None
        },
    decreases n,
{
    let up = Seq::new(n, |i: int| "super"@);
    if n == 0 {
        assert(up + rest =~= rest);
        assert(base.take(base.len() as int) =~= base);
    } else {
        let less = Seq::new((n - 1) as nat, |i: int| "super"@);
        assert((up + rest)[0] == "super"@);
        assert((up + rest).drop_first() =~= less + rest);
        if base.len() > 0 {
            lemma_climbed(base.drop_last(), rest, (n - 1) as nat);
            if n <= base.len() {
                assert(base.drop_last().take(base.len() - n) =~= base.take(base.len() - n));
            }
        }
    }
}

/// A path from the root of the crate names what follows `crate`; any other path names what
/// it does seen from its module, with or without `self` in front.
pub proof fn lemma_resolved(module_name: Seq<char>, parts: Seq<Seq<char>>)
    requires
        parts.len() > 0,
        forall|k: int| 0 <= k < parts.len() ==> is_path_part(#[trigger] parts[k]),
        parts[0] != "crate"@,
        parts[0] != "self"@,
    ensures
        resolved(module_name, text::joined(seq!["crate"@] + parts, "::"@)) == Some(
            text::joined(parts, "::"@),
        ),
        resolved(module_name, text::joined(seq!["self"@] + parts, "::"@)) == climbed(
            module_segments(module_name),
            parts,
        ),
        resolved(module_name, text::joined(parts, "::"@)) == climbed(
            module_segments(module_name),
            parts,
        ),
{
    reveal_strlit("crate");
    reveal_strlit("self");
    assert("crate"@.len() != "self"@.len());
    let from_root = seq!["crate"@] + parts;
    let from_here = seq!["self"@] + parts;
    assert forall|k: int| 0 <= k < from_root.len() implies is_path_part(
        #[trigger] from_root[k],
    ) by {
        if k > 0 {
            assert(from_root[k] == parts[k - 1]);
        }
    }
    assert forall|k: int| 0 <= k < from_here.len() implies is_path_part(
        #[trigger] from_here[k],
    ) by {
        if k > 0 {
            assert(from_here[k] == parts[k - 1]);
        }
    }
    lemma_parts_of_path(parts);
    lemma_parts_of_path(from_root);
    lemma_parts_of_path(from_here);
    assert(from_root.drop_first() =~= parts);
    assert(from_here.drop_first() =~= parts);
}

/// A name in a group is looked up behind the path in front of the group, one without a
/// group as it stands; it keeps its alias.
pub proof fn lemma_name_binding(module_name: Seq<char>, prefix: Seq<char>, segment: Seq<char>)
    ensures
        ({
            let (path, alias) = alias_split(segment);
            let full = if prefix.len() > 0 {
                prefix + "::"@ + path
            } else {
                path
            };
            &&& name_binding(module_name, prefix, segment) is Some <==> resolved(module_name, full)
                is Some
            &&& name_binding(module_name, prefix, segment) matches Some(binding) ==> {
                &&& Some(binding.source_path) == resolved(module_name, full)
                &&& alias is None ==> binding.rendered == path
                &&& alias matches Some(other) ==> binding.rendered == path + " as "@ + other
            }
        }),
{
}

/// The group of a `use` is what stands between its first and its last brace.
pub proof fn lemma_group_content(prefix: Seq<char>, list: Seq<char>, rest: Seq<char>)
    requires
        !prefix.contains('{'),
        !rest.contains('}'),
    ensures
        group_content(prefix + seq!['{'] + list + seq!['}'] + rest) == Some(list),
{
    reveal_strlit("{");
    reveal_strlit("}");
    assert("{"@ =~= seq!['{']);
    assert("}"@ =~= seq!['}']);
    let all = prefix + seq!['{'] + list + seq!['}'] + rest;
    let tail = list + seq!['}'] + rest;
    assert(all =~= prefix + seq!['{'] + tail);
    text::lemma_char_behind(prefix, '{', tail);
    let head = prefix + seq!['{'] + list;
    assert(all =~= head + seq!['}'] + rest);
    text::lemma_char_before(head, '}', rest);
    assert(all.subrange(prefix.len() as int + 1, head.len() as int) =~= list);
}

/// Every name of a group that has one is found under the path that it is available under,
/// unless a later name of the group has the same.
pub proof fn lemma_names_of_group(
    module_name: Seq<char>,
    prefix: Seq<char>,
    segments: Seq<Seq<char>>,
    segment: Seq<char>,
    key: Seq<char>,
)
    requires
        segment_bindings(module_name, prefix, segments.push(segment)) is Some,
    ensures
        segment_bindings(module_name, prefix, segments) is Some,
        ({
            let known = segment_bindings(module_name, prefix, segments)->Some_0;
            let now = segment_bindings(module_name, prefix, segments.push(segment))->Some_0;
            let words = text::trimmed(segment);
            &&& words.len() == 0 ==> now == known
            &&& words.len() > 0 ==> (name_binding(module_name, prefix, words) matches Some(binding)
                && strings::lookup(now, key) == if key == bound_path(
                module_name,
                binding.rendered,
            ) {
                Some(binding)
            } else {
                strings::lookup(known, key)
            })
        }),
{
    let all = segments.push(segment);
    assert(all.drop_last() =~= segments);
    assert(all.last() == segment);
    let words = text::trimmed(segment);
    if words.len() > 0 {
        let known = segment_bindings(module_name, prefix, segments)->Some_0;
        let binding = name_binding(module_name, prefix, words)->Some_0;
        strings::lemma_lookup_put(known, bound_path(module_name, binding.rendered), binding, key);
    }
}

/// The names of a group have no bindings exactly if one of them cannot be resolved.
pub proof fn lemma_unread_groups(module_name: Seq<char>, prefix: Seq<char>, segments: Seq<Seq<char>>)
    ensures
        (exists|i: int|
            0 <= i < segments.len() && text::trimmed(#[trigger] segments[i]).len() > 0
                && name_binding(module_name, prefix, text::trimmed(segments[i])) is None)
            <==> segment_bindings(module_name, prefix, segments) is None,
    decreases segments.len(),
{
    if segments.len() > 0 {
        let front = segments.drop_last();
        lemma_unread_groups(module_name, prefix, front);
        assert(segments[segments.len() - 1] == segments.last());
        if segment_bindings(module_name, prefix, front) is None {
            let i = choose|i: int|
                0 <= i < front.len() && text::trimmed(#[trigger] front[i]).len() > 0
                    && name_binding(module_name, prefix, text::trimmed(front[i])) is None;
            assert(segments[i] == front[i]);
        }
        if exists|i: int|
            0 <= i < segments.len() && text::trimmed(#[trigger] segments[i]).len() > 0
                && name_binding(module_name, prefix, text::trimmed(segments[i])) is None {
            let i = choose|i: int|
                0 <= i < segments.len() && text::trimmed(#[trigger] segments[i]).len() > 0
                    && name_binding(module_name, prefix, text::trimmed(segments[i])) is None;
            if i < front.len() {
                assert(front[i] == segments[i]);
            }
        }
    }
}

/// A statement is public or private to the crate by its keyword, and brings in what stands
/// between that and the first semicolon.
pub proof fn lemma_use_statement(body: Seq<char>, rest: Seq<char>)
    requires
        !body.contains(';'),
    ensures
        use_parts("pub use "@ + body + seq![';'] + rest) == Some((true, text::trimmed(body))),
        use_parts("pub(crate) use "@ + body + seq![';'] + rest) == Some(
            (false, text::trimmed(body)),
        ),
        use_parts("pub use "@ + body) is None,
        use_parts("pub(crate) use "@ + body) is None,
{
    reveal_strlit("pub use ");
    reveal_strlit("pub(crate) use ");
    reveal_strlit(";");
    assert(";"@ =~= seq![';']);
    let tail = body + seq![';'] + rest;
    text::lemma_char_behind(body, ';', rest);
    text::lemma_first_char(body, ';');
    assert(tail.take(body.len() as int) =~= body);
    let shown = "pub use "@ + body + seq![';'] + rest;
    let hidden = "pub(crate) use "@ + body + seq![';'] + rest;
    assert(shown =~= "pub use "@ + tail);
    assert(hidden =~= "pub(crate) use "@ + tail);
    lemma_hidden_keyword(tail);
    lemma_hidden_keyword(body);
    text::lemma_without_ends("pub use "@, tail);
    text::lemma_without_ends("pub use "@, body);
    assert(shown[0] == 'p' && text::trimmed_start(shown) == shown);
    let open = "pub use "@ + body;
    assert(open[0] == 'p' && text::trimmed_start(open) == open);
}

proof fn lemma_hidden_keyword(tail: Seq<char>)
    ensures
        use_tail("pub(crate) use "@ + tail) == Some((false, tail)),
{
    reveal_strlit("pub use ");
    reveal_strlit("pub(crate) use ");
    let hidden = "pub(crate) use "@ + tail;
    assert(hidden[0] == 'p' && text::trimmed_start(hidden) == hidden);
    assert(hidden[3] == '(');
    assert(!("pub use "@.is_prefix_of(hidden))) by {
        if "pub use "@.is_prefix_of(hidden) {
            assert(hidden.subrange(0, 8)[3] == "pub use "@[3]);
        }
    }
    text::lemma_without_ends("pub(crate) use "@, tail);
}

/// A path that is no alias stands for itself.
pub proof fn lemma_no_alias(path: Seq<char>, aliases: Seq<(Seq<char>, Seq<char>)>)
    requires
        strings::lookup(aliases, path) is None,
    ensures
        canonical(path, aliases) == path,
{
}

/// A binding is hidden exactly if one of the hints is the path that its item has.
pub proof fn lemma_hidden(
    binding: BindingText,
    hints: Seq<Seq<char>>,
    aliases: Seq<(Seq<char>, Seq<char>)>,
)
    ensures
        hidden(binding, hints, aliases) <==> exists|i: int|
            0 <= i < hints.len() && #[trigger] hints[i] == canonical(binding.source_path, aliases),
{
    if hidden(binding, hints, aliases) {
        let i = choose|i: int|
            0 <= i < hints.len() && hints[i] == canonical(binding.source_path, aliases);
        assert(hints[i] == canonical(binding.source_path, aliases));
    }
}

/// A statement changes exactly if it can be read, is public, and one of its bindings is
/// hidden.
pub proof fn lemma_what_changes(
    statement: Seq<char>,
    module_name: Seq<char>,
    hints: Seq<Seq<char>>,
    aliases: Seq<(Seq<char>, Seq<char>)>,
)
    ensures
        new_statement(statement, module_name, hints, aliases) is Some <==> (parsed_statement(
            statement,
            module_name,
        ) matches Some((is_public, bindings)) && is_public && exists|i: int|
            0 <= i < bindings.len() && hidden((#[trigger] bindings[i]).1, hints, aliases)),
{
    if let Some((is_public, bindings)) = parsed_statement(statement, module_name) {
        let values = strings::values_of(bindings);
        lemma_named_if_hidden(values, hints, aliases);
        if exists|i: int|
            0 <= i < bindings.len() && hidden((#[trigger] bindings[i]).1, hints, aliases) {
            let i = choose|i: int|
                0 <= i < bindings.len() && hidden((#[trigger] bindings[i]).1, hints, aliases);
            assert(values[i] == bindings[i].1);
        }
        if exists|i: int| 0 <= i < values.len() && hidden(#[trigger] values[i], hints, aliases) {
            let i = choose|i: int|
                0 <= i < values.len() && hidden(#[trigger] values[i], hints, aliases);
            assert(values[i] == bindings[i].1);
        }
    }
}

proof fn lemma_named_if_hidden(
    values: Seq<BindingText>,
    hints: Seq<Seq<char>>,
    aliases: Seq<(Seq<char>, Seq<char>)>,
)
    ensures
        names_of(values, hints, aliases, true).len() > 0 <==> exists|i: int|
            0 <= i < values.len() && hidden(#[trigger] values[i], hints, aliases),
    decreases values.len(),
{
    reveal(Seq::filter);
    if values.len() > 0 {
        let front = values.drop_last();
        lemma_named_if_hidden(front, hints, aliases);
        assert(values[values.len() - 1] == values.last());
        if exists|i: int| 0 <= i < front.len() && hidden(#[trigger] front[i], hints, aliases) {
            let i = choose|i: int|
                0 <= i < front.len() && hidden(#[trigger] front[i], hints, aliases);
            assert(values[i] == front[i]);
        }
        if exists|i: int| 0 <= i < values.len() && hidden(#[trigger] values[i], hints, aliases) {
            let i = choose|i: int|
                0 <= i < values.len() && hidden(#[trigger] values[i], hints, aliases);
            if i < front.len() {
                assert(front[i] == values[i]);
            }
        }
    }
}

/// The names of two lists of bindings are those of the one, then those of the other; a
/// binding is named on the side where it belongs, and on no other.
pub proof fn lemma_names_of_two(
    some: Seq<BindingText>,
    others: Seq<BindingText>,
    one: BindingText,
    hints: Seq<Seq<char>>,
    aliases: Seq<(Seq<char>, Seq<char>)>,
    are_hidden: bool,
)
    ensures
        names_of(some + others, hints, aliases, are_hidden) == names_of(
            some,
            hints,
            aliases,
            are_hidden,
        ) + names_of(others, hints, aliases, are_hidden),
        names_of(seq![one], hints, aliases, are_hidden) == if hidden(one, hints, aliases)
            == are_hidden {
            seq![one.rendered]
        } else {
            Seq::<Seq<char>>::empty()
        },
    decreases others.len(),
{
    reveal(Seq::filter);
    let a = names_of(some, hints, aliases, are_hidden);
    let b = names_of(others, hints, aliases, are_hidden);
    if others.len() == 0 {
        assert(some + others =~= some);
        assert(a + b =~= a);
    } else {
        lemma_names_of_two(some, others.drop_last(), one, hints, aliases, are_hidden);
        assert((some + others).drop_last() =~= some + others.drop_last());
        assert((some + others).last() == others.last());
        lemma_names_pushed(some + others, hints, aliases, are_hidden);
        lemma_names_pushed(others, hints, aliases, are_hidden);
        assert(names_of(some + others, hints, aliases, are_hidden) =~= a + b);
    }
    lemma_names_pushed(seq![one], hints, aliases, are_hidden);
    assert(seq![one].drop_last() =~= Seq::empty());
    assert(names_of(seq![one].drop_last(), hints, aliases, are_hidden) =~= Seq::empty());
    assert(names_of(seq![one], hints, aliases, are_hidden) =~= if hidden(one, hints, aliases)
        == are_hidden {
        seq![one.rendered]
    } else {
        Seq::<Seq<char>>::empty()
    });
}

proof fn lemma_names_pushed(
    values: Seq<BindingText>,
    hints: Seq<Seq<char>>,
    aliases: Seq<(Seq<char>, Seq<char>)>,
    are_hidden: bool,
)
    requires
        values.len() > 0,
    ensures
        names_of(values, hints, aliases, are_hidden) == if hidden(values.last(), hints, aliases)
            == are_hidden {
            names_of(values.drop_last(), hints, aliases, are_hidden).push(values.last().rendered)
        } else {
            names_of(values.drop_last(), hints, aliases, are_hidden)
        },
{
    reveal(Seq::filter);
    let now = names_of(values, hints, aliases, are_hidden);
    let known = names_of(values.drop_last(), hints, aliases, are_hidden);
    if hidden(values.last(), hints, aliases) == are_hidden {
        assert(now =~= known.push(values.last().rendered));
    } else {
        assert(now =~= known);
    }
}

/// A line that begins no statement stays as it is, and so does a statement that does not
/// change; one that changes is replaced by its new text, and its line is told.
pub proof fn lemma_rewritten_in_turn(
    lines: Seq<Seq<char>>,
    i: int,
    module_name: Seq<char>,
    hints: Seq<Seq<char>>,
    aliases: Seq<(Seq<char>, Seq<char>)>,
)
    requires
        0 <= i < lines.len(),
    ensures
        ({
            let now = rewritten_from(lines, i, module_name, hints, aliases);
            let end = statement_end(lines, i);
            let behind = rewritten_from(lines, end, module_name, hints, aliases);
            let statement = text::concatenated(lines.subrange(i, end));
            if !is_use_line(lines[i]) {
                let next = rewritten_from(lines, i + 1, module_name, hints, aliases);
                now.0 == lines[i] + next.0 && now.1 == next.1
            } else {
                match new_statement(statement, module_name, hints, aliases) {
                    None => now.0 == statement + behind.0 && now.1 == behind.1,
                    Some(new_text) => now.0 == new_text + behind.0 && now.1 == seq![i + 1]
                        + behind.1,
                }
            }
        }),
        rewritten_from(lines, lines.len() as int, module_name, hints, aliases).0.len() == 0,
        rewritten_from(lines, lines.len() as int, module_name, hints, aliases).1.len() == 0,
{
    lemma_statement_end(lines, i);
}

/// The source files are those whose name ends in `.rs` and begins with something else.
pub proof fn lemma_source_names(name: Seq<char>)
    ensures
        is_source_name(name) <==> name.len() > 3 && name.skip(name.len() - 3) == seq![
            '.',
            'r',
            's',
        ],
{
    reveal_strlit("rs");
    let end = seq!['.', 'r', 's'];
    assert("rs"@ =~= seq!['r', 's']);
    assert(!"rs"@.contains('.'));
    if name.len() > 3 && name.skip(name.len() - 3) == end {
        let stem = name.take(name.len() - 3);
        assert(name =~= stem + name.skip(name.len() - 3));
        assert(name =~= stem + seq!['.'] + "rs"@);
        utils::lemma_extension(stem, "rs"@);
    }
    if is_source_name(name) {
        text::lemma_last_match_greatest(name, seq!['.']);
        let dot = text::last_match(name, seq!['.'])->Some_0;
        assert(name.skip(dot + 1).len() == 2);
        assert(name.subrange(dot, dot + 1)[0] == '.');
        assert(name.skip(dot + 1)[0] == name[dot + 1]);
        assert(name.skip(dot + 1)[1] == name[dot + 2]);
        assert(name.skip(name.len() - 3) =~= end);
    }
}

/// The bindings of a statement count before what was known: a path that they bind stands
/// for the item of the last of them, and any other for what it stood for.
pub proof fn lemma_bindings_count(
    aliases: Seq<(Seq<char>, Seq<char>)>,
    bindings: Seq<(Seq<char>, BindingText)>,
    key: Seq<char>,
)
    ensures
        (forall|i: int| 0 <= i < bindings.len() ==> (#[trigger] bindings[i]).0 != key)
            ==> strings::lookup(with_bindings(aliases, bindings), key) == strings::lookup(
            aliases,
            key,
        ),
        forall|i: int|
            0 <= i < bindings.len() && (#[trigger] bindings[i]).0 == key && (forall|j: int|
                i < j < bindings.len() ==> (#[trigger] bindings[j]).0 != key) ==> strings::lookup(
                with_bindings(aliases, bindings),
                key,
            ) == Some(bindings[i].1.source_path),
    decreases bindings.len(),
{
    if bindings.len() > 0 {
        let front = bindings.drop_last();
        let last = bindings.last();
        let n = bindings.len() - 1;
        lemma_bindings_count(aliases, front, key);
        strings::lemma_lookup_put(with_bindings(aliases, front), last.0, last.1.source_path, key);
        assert(bindings[n] == last);
        assert forall|i: int| 0 <= i < front.len() implies #[trigger] front[i] == bindings[i] by {}
        assert forall|i: int|
            0 <= i < bindings.len() && (#[trigger] bindings[i]).0 == key && (forall|j: int|
                i < j < bindings.len() ==> (
                #[trigger] bindings[j]).0 != key) implies strings::lookup(
            with_bindings(aliases, bindings),
            key,
        ) == Some(bindings[i].1.source_path) by {
            if i < n {
                assert(bindings[n].0 != key);
                assert(front[i].0 == key);
                assert forall|j: int| i < j < front.len() implies (#[trigger] front[j]).0
                    != key by {
                    assert(bindings[j].0 != key);
                }
            }
        }
        if forall|i: int| 0 <= i < bindings.len() ==> (#[trigger] bindings[i]).0 != key {
            assert(bindings[n].0 != key);
            assert forall|i: int| 0 <= i < front.len() implies (#[trigger] front[i]).0 != key by {
                assert(bindings[i].0 != key);
            }
        }
    }
}

/// Every statement that can be read adds its bindings, public or not, to those of the
/// statements before it, and every file those of its statements.
pub proof fn lemma_aliases_of_all(
    aliases: Seq<(Seq<char>, Seq<char>)>,
    statements: Seq<Seq<char>>,
    statement: Seq<char>,
    module_name: Seq<char>,
    files: Seq<SourceFile>,
    file: SourceFile,
)
    ensures
        with_statements(aliases, Seq::empty(), module_name) == aliases,
        parsed_statement(statement, module_name) matches Some((is_public, bindings))
            ==> with_statements(aliases, statements.push(statement), module_name) == with_bindings(
            with_statements(aliases, statements, module_name),
            bindings,
        ),
        parsed_statement(statement, module_name) is None ==> with_statements(
            aliases,
            statements.push(statement),
            module_name,
        ) == with_statements(aliases, statements, module_name),
        aliases_of(Seq::empty()).len() == 0,
        aliases_of(files.push(file)) == with_statements(
            aliases_of(files),
            use_statements(file.source@),
            file.module@,
        ),
{
    assert(statements.push(statement).drop_last() =~= statements);
    assert(files.push(file).drop_last() =~= files);
}

/// A file holds the module of its folder if it is named for that, and else the module that
/// its name says below that folder; the folders are the modules around it.
pub proof fn lemma_module_of_file(folders: Seq<Seq<char>>, stem: Seq<char>)
    requires
        stem + ".rs"@ != "lib.rs"@,
        stem + ".rs"@ != "main.rs"@,
        stem + ".rs"@ != "mod.rs"@,
    ensures
        module_of_file(folders.push("lib.rs"@)) == text::joined(folders, "::"@),
        module_of_file(folders.push("main.rs"@)) == text::joined(folders, "::"@),
        module_of_file(folders.push("mod.rs"@)) == text::joined(folders, "::"@),
        module_of_file(folders.push(stem + ".rs"@)) == text::joined(folders.push(stem), "::"@),
        module_of_file(Seq::empty()).len() == 0,
{
    assert(folders.push("lib.rs"@).drop_last() =~= folders);
    assert(folders.push("main.rs"@).drop_last() =~= folders);
    assert(folders.push("mod.rs"@).drop_last() =~= folders);
    assert(folders.push(stem + ".rs"@).drop_last() =~= folders);
    text::lemma_without_ends(".rs"@, stem);
}

/// The path in front of a group is what stands before its separator and brace.
pub proof fn lemma_group_prefix(prefix: Seq<char>, rest: Seq<char>)
    requires
        prefix.len() > 0,
        !prefix.contains('{'),
        !text::white(prefix.last()),
    ensures
        group_prefix(prefix + "::"@ + seq!['{'] + rest) == prefix,
{
    reveal_strlit("{");
    reveal_strlit("::");
    assert("{"@ =~= seq!['{']);
    let head = prefix + "::"@;
    let body = head + seq!['{'] + rest;
    assert(!head.contains('{')) by {
        if head.contains('{') {
            let k = choose|k: int| 0 <= k < head.len() && head[k] == '{';
            if k < prefix.len() {
                assert(prefix[k] == '{');
            }
        }
    }
    text::lemma_char_behind(head, '{', rest);
    assert(body.take(head.len() as int) =~= head);
    assert(text::before(body, "{"@) == head);
    assert(head.last() == ':');
    assert(text::trimmed_end(head) == head);
    text::lemma_without_ends("::"@, prefix);
    assert(text::trimmed_end(prefix) == prefix);
}

/// What is brought in with a brace is a group, and has no bindings if one of its segments
/// has a brace; without a brace it is one name, available under its own path.
pub proof fn lemma_groups_and_names(module_name: Seq<char>, use_body: Seq<char>)
    ensures
        !use_body.contains('{') ==> body_bindings(module_name, use_body) == (match name_binding(
            module_name,
            Seq::empty(),
            text::trimmed(use_body),
        ) {
            Some(binding) => Some(seq![(bound_path(module_name, binding.rendered), binding)]),
            None => None,
        }),
        use_body.contains('{') ==> match group_content(use_body) {
            None => body_bindings(module_name, use_body) is None,
            Some(list) => {
                let segments = syntax::top_level_parts(list, ',');
                if exists|i: int|
                    0 <= i < segments.len() && ((#[trigger] segments[i]).contains('{')
                        || segments[i].contains('}')) {
                    body_bindings(module_name, use_body) is None
                } else {
                    body_bindings(module_name, use_body) == segment_bindings(
                        module_name,
                        group_prefix(use_body),
                        segments,
                    )
                }
            },
        },
{
    reveal_strlit("{");
    reveal_strlit("}");
    assert("{"@ =~= seq!['{']);
    assert("}"@ =~= seq!['}']);
    lemma_brace(use_body);
    if let Some(list) = group_content(use_body) {
        let segments = syntax::top_level_parts(list, ',');
        assert forall|i: int| 0 <= i < segments.len() implies has_brace(#[trigger] segments[i]) == (
        segments[i].contains('{') || segments[i].contains('}')) by {
            lemma_brace(segments[i]);
        }
        if exists|i: int|
            0 <= i < segments.len() && ((#[trigger] segments[i]).contains('{')
                || segments[i].contains('}')) {
            let i = choose|i: int|
                0 <= i < segments.len() && ((#[trigger] segments[i]).contains('{')
                    || segments[i].contains('}'));
            assert(has_brace(segments[i]));
        } else {
            assert forall|i: int| 0 <= i < segments.len() implies !has_brace(
                #[trigger] segments[i],
            ) by {
                assert(!segments[i].contains('{') && !segments[i].contains('}'));
            }
        }
    }
}

proof fn lemma_brace(s: Seq<char>)
    ensures
        text::has(s, "{"@) == s.contains('{'),
        text::has(s, "}"@) == s.contains('}'),
        has_brace(s) == (s.contains('{') || s.contains('}')),
{
    reveal_strlit("{");
    reveal_strlit("}");
    assert("{"@ =~= seq!['{']);
    assert("}"@ =~= seq!['}']);
    text::lemma_first_char(s, '{');
    text::lemma_first_char(s, '}');
    if let Some(k) = text::first_match(s, seq!['{']) {
        assert(s.contains(s[k]));
    }
    if let Some(k) = text::first_match(s, seq!['}']) {
        assert(s.contains(s[k]));
    }
}

/// A statement is read as what its keyword and what it brings in say.
pub proof fn lemma_parsed_statement(
    statement: Seq<char>,
    module_name: Seq<char>,
    is_public: bool,
    bindings: Seq<(Seq<char>, BindingText)>,
)
    ensures
        parsed_statement(statement, module_name) == Some((is_public, bindings)) <==> (use_parts(
            statement,
        ) matches Some((public, use_body)) && public == is_public && body_bindings(
            module_name,
            use_body,
        ) == Some(bindings)),
{
}

/// The new lines keep the indentation of the statement. The last one is private to the
/// crate and holds the names that are to be hidden; a public one stands before it exactly
/// if there are other names, and holds these. A group stays one, behind the same path.
pub proof fn lemma_new_lines(
    statement: Seq<char>,
    public: Seq<Seq<char>>,
    private: Seq<Seq<char>>,
)
    ensures
        ({
            let lines = rendered_lines(statement, public, private);
            let n = statement.len() - text::trimmed_start(statement).len();
            let indent = statement.take(n);
            let body = rendered_body(statement);
            let hidden = indent + "pub(crate) use "@;
            let shown = indent + "pub use "@;
            let path = group_prefix(body) + "::{"@;
            &&& lines.len() == if public.len() > 0 {
                2nat
            } else {
                1
            }
            &&& body.contains('{') ==> {
                &&& lines.last() == hidden + (path + text::joined(private, ", "@) + "};"@)
                &&& public.len() > 0 ==> lines[0] == shown + (path + text::joined(public, ", "@)
                    + "};"@)
            }
            &&& !body.contains('{') ==> {
                &&& lines.last() == hidden + private[0] + ";"@
                &&& public.len() > 0 ==> lines[0] == shown + public[0] + ";"@
            }
        }),
{
    let lines = rendered_lines(statement, public, private);
    let n = statement.len() - text::trimmed_start(statement).len();
    let indent = statement.take(n);
    let body = rendered_body(statement);
    lemma_brace(body);
    if body.contains('{') {
        let path = group_prefix(body) + "::{"@;
        assert(lines.last() =~= indent + "pub(crate) use "@ + (path + text::joined(
            private,
            ", "@,
        ) + "};"@));
        if public.len() > 0 {
            assert(lines[0] =~= indent + "pub use "@ + (path + text::joined(public, ", "@)
                + "};"@));
        }
    }
}

/// What a public statement brings in is what stands between its keyword and its first
/// semicolon.
pub proof fn lemma_body_of_statement(indent: Seq<char>, body: Seq<char>, rest: Seq<char>)
    requires
        forall|i: int| 0 <= i < indent.len() ==> text::white(#[trigger] indent[i]),
        !body.contains(';'),
    ensures
        rendered_body(indent + ("pub use "@ + (body + seq![';'] + rest))) == text::trimmed(body),
{
    reveal_strlit("pub use ");
    reveal_strlit(";");
    assert(";"@ =~= seq![';']);
    let tail = body + seq![';'] + rest;
    let start = "pub use "@ + tail;
    text::lemma_leading_white(indent, start);
    assert(start[0] == 'p' && text::trimmed_start(start) == start);
    text::lemma_without_ends("pub use "@, tail);
    text::lemma_char_behind(body, ';', rest);
    assert(tail.take(body.len() as int) =~= body);
}

/// The new lines stand one after the other, and the line feed at the end of a statement is
/// kept.
pub proof fn lemma_end_of_statement(
    statement: Seq<char>,
    public: Seq<Seq<char>>,
    private: Seq<Seq<char>>,
)
    ensures
        ({
            let lines = text::joined(rendered_lines(statement, public, private), "\n"@);
            let now = rendered_statement(statement, public, private);
            &&& lines.is_prefix_of(now)
            &&& statement.len() > 0 && statement.last() == '\n' ==> now == lines.push('\n')
            &&& statement.len() == 0 || statement.last() != '\n' ==> now == lines
        }),
{
    let lines = text::joined(rendered_lines(statement, public, private), "\n"@);
    let now = rendered_statement(statement, public, private);
    if statement.len() > 0 {
        let end = statement.subrange(statement.len() - 1, statement.len() as int);
        assert(end =~= seq![statement.last()]);
        if statement.last() == '\n' {
            assert(text::newline().is_suffix_of(statement));
            assert(now =~= lines.push('\n'));
        } else {
            assert(seq![statement.last()][0] != text::newline()[0]);
        }
    }
    assert(now.subrange(0, lines.len() as int) =~= lines);
}

} // verus!

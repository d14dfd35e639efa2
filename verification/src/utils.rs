//! Identifiers, locations and file names that the lints share.
use vstd::prelude::*;

use crate::text;

verus! {

/// A stable identifier for a definition.
#[derive(Debug, PartialEq, Eq, PartialOrd, Ord, Hash)]
pub struct DefKey {
    pub path: String,
}

impl View for DefKey {
    type V = Seq<char>;

    open spec fn view(&self) -> Seq<char> {
        self.path@
    }
}

impl Clone for DefKey {
    fn clone(&self) -> (r: DefKey)
        ensures
            r@ == self@,
    {
        DefKey { path: self.path.clone() }
    }
}

/// A character that stays as it is in a file name.
pub open spec fn plain(c: char) -> bool {
    ||| 'a' <= c <= 'z'
    ||| 'A' <= c <= 'Z'
    ||| '0' <= c <= '9'
    ||| c == '-'
    ||| c == '_'
}

/// `s` with every character that is not plain replaced by an underscore.
pub open spec fn sanitized(s: Seq<char>) -> Seq<char> {
    s.map_values(|c: char| if plain(c) { c } else { '_' })
}

/// Makes `value` fit for a file name: only `[a-zA-Z0-9_-]` is kept.
pub fn sanitize(value: &str) -> (r: String)
    ensures
        r@ == sanitized(value@),
{
    let v = text::chars_of(value);
    let mut out = String::new();
    let mut i: usize = 0;
    proof {
        reveal_strlit("_");
    }
    while i < v.len()
        invariant
            i <= v.len(),
            v@ == value@,
            "_"@ == seq!['_'],
            out@ == sanitized(value@).take(i as int),
        decreases v.len() - i,
    {
        let ghost known = out@;
        let c = v[i];
        if ('a' <= c && c <= 'z') || ('A' <= c && c <= 'Z') || ('0' <= c && c <= '9') || c == '-'
            || c == '_' {
            out.append(value.substring_char(i, i + 1));
        } else {
            out.append("_");
        }
        proof {
            let whole = sanitized(value@);
            assert(value@.subrange(i as int, i + 1) =~= seq![value@[i as int]]);
            assert(out@ =~= known.push(whole[i as int]));
            assert(whole.take(i + 1) =~= whole.take(i as int).push(whole[i as int]));
        }
        i = i + 1;
    }
    proof {
        assert(sanitized(value@).take(i as int) =~= sanitized(value@));
    }
    out
}

/// A file name made fit has only plain characters and as many as before; making
/// it fit once more changes nothing.
pub proof fn lemma_sanitized(s: Seq<char>)
    ensures
        sanitized(s).len() == s.len(),
        forall|i: int| 0 <= i < s.len() ==> plain(#[trigger] sanitized(s)[i]),
        sanitized(sanitized(s)) == sanitized(s),
{
    assert(sanitized(sanitized(s)) =~= sanitized(s));
}

/// `path` with the name of its crate in front.
pub open spec fn normalized(crate_name: Seq<char>, path: Seq<char>) -> Seq<char> {
    if path == crate_name || (crate_name + "::"@).is_prefix_of(path) {
        path
    } else {
        crate_name + "::"@ + path
    }
}

/// The path of a definition, beginning with the name of its crate.
pub fn normalized_def_path(crate_name: &str, path: &str) -> (r: String)
    ensures
        r@ == normalized(crate_name@, path@),
{
    let mut prefix = crate_name.to_owned();
    prefix.append("::");
    if text::equal(path, crate_name) || text::starts_with(path, prefix.as_str()) {
        path.to_owned()
    } else {
        prefix.append(path);
        prefix
    }
}

/// The key of the definition `path` of the crate `crate_name`.
pub fn def_key(crate_name: &str, path: &str) -> (r: DefKey)
    ensures
        r@ == normalized(crate_name@, path@),
{
    DefKey { path: normalized_def_path(crate_name, path) }
}

/// A normalized path begins with the name of its crate, and normalizing it once
/// more changes nothing.
pub proof fn lemma_normalized(crate_name: Seq<char>, path: Seq<char>)
    ensures
        crate_name.is_prefix_of(normalized(crate_name, path)),
        normalized(crate_name, normalized(crate_name, path)) == normalized(crate_name, path),
{
    let whole = normalized(crate_name, path);
    let prefix = crate_name + "::"@;
    if path == crate_name {
    } else if prefix.is_prefix_of(path) {
        assert(path.subrange(0, crate_name.len() as int) =~= prefix.subrange(
            0,
            crate_name.len() as int,
        )) by {
            assert forall|i: int| 0 <= i < crate_name.len() implies path[i] == prefix[i] by {
                assert(path.subrange(0, prefix.len() as int)[i] == prefix[i]);
            }
        }
        assert(prefix.subrange(0, crate_name.len() as int) =~= crate_name);
    } else {
        assert(whole =~= prefix + path);
        assert(whole.subrange(0, prefix.len() as int) =~= prefix);
        assert(whole.subrange(0, crate_name.len() as int) =~= crate_name);
    }
}

/// Where a span begins: the file, if it is one on disk, the line counted from
/// one and the column counted from zero.
#[derive(Debug)]
pub struct SpanStart {
    pub local_path: Option<String>,
    pub line: usize,
    pub column: usize,
}

/// A location in a file, with line and column counted from one.
#[derive(Debug)]
pub struct Location {
    pub file: String,
    pub line: u32,
    pub column: u32,
}

/// Whether a span has a location: it lies in a file on disk, and its line and
/// column fit.
pub open spec fn located(start: SpanStart) -> bool {
    start.local_path is Some && start.line <= u32::MAX && start.column < u32::MAX
}

/// The location of a span.
pub fn span_location(start: &SpanStart) -> (r: Option<Location>)
    ensures
        r is Some <==> located(*start),
        r matches Some(location) ==> {
            &&& start.local_path is Some
            &&& location.file@ == start.local_path->Some_0@
            &&& location.line == start.line
            &&& location.column == start.column + 1
        },
{
    match &start.local_path {
        None => None,
        Some(path) => {
            if start.line > 0xffff_ffff || start.column >= 0xffff_ffff {
                None
            } else {
                Some(
                    Location {
                        file: path.clone(),
                        line: start.line as u32,
                        column: (start.column + 1) as u32,
                    },
                )
            }
        },
    }
}

/// The extension of a file: what follows the last dot of its name, unless the name
/// begins with that dot.
pub open spec fn extension_of(file_name: Seq<char>) -> Option<Seq<char>> {
    match text::last_match(file_name, seq!['.']) {
        Some(dot) => if dot > 0 {
            Some(file_name.skip(dot + 1))
        } else {
            None
        },
        None => None,
    }
}

/// The extension of the file `file_name`.
pub fn file_extension(file_name: &str) -> (r: Option<&str>)
    ensures
        r is Some <==> extension_of(file_name@) is Some,
        r matches Some(extension) ==> extension_of(file_name@) == Some(extension@),
{
    proof {
        reveal_strlit(".");
        assert("."@ =~= seq!['.']);
    }
    match text::rfind(file_name, ".") {
        Some(dot) => if dot > 0 {
            Some(text::skip(file_name, dot + 1))
        } else {
            None
        },
        None => None,
    }
}

/// Letters, digits, dashes and underscores stay in a file name, each in its place; in
/// the place of any other character stands an underscore.
pub proof fn lemma_what_stays_in_name(s: Seq<char>, i: int)
    requires
        0 <= i < s.len(),
    ensures
        sanitized(s)[i] == if ('a' <= s[i] <= 'z') || ('A' <= s[i] <= 'Z') || ('0' <= s[i] <= '9')
            || s[i] == '-' || s[i] == '_' {
            s[i]
        } else {
            '_'
        },
{
}

/// A normalized path is the name of the crate or has it, with a separator, in front; it
/// ends in the path that was given, and it is that path itself exactly if that one was
/// normalized already.
pub proof fn lemma_normalized_path(crate_name: Seq<char>, path: Seq<char>)
    ensures
        ({
            let whole = normalized(crate_name, path);
            &&& whole == crate_name || (crate_name + "::"@).is_prefix_of(whole)
            &&& path.len() <= whole.len()
            &&& whole.skip(whole.len() - path.len()) == path
            &&& whole.len() == path.len() || whole.len() == crate_name.len() + 2 + path.len()
            &&& whole == path <==> path == crate_name || (crate_name + "::"@).is_prefix_of(path)
        }),
{
    reveal_strlit("::");
    let whole = normalized(crate_name, path);
    let prefix = crate_name + "::"@;
    if path == crate_name || prefix.is_prefix_of(path) {
        assert(whole.skip(0) =~= path);
    } else {
        assert(whole =~= prefix + path);
        assert(whole.take(prefix.len() as int) =~= prefix);
        assert(whole.skip(prefix.len() as int) =~= path);
    }
}

/// A name has the extension that follows its last dot, unless there is nothing in front
/// of that dot.
pub proof fn lemma_extension(stem: Seq<char>, extension: Seq<char>)
    requires
        !extension.contains('.'),
    ensures
        extension_of(stem + seq!['.'] + extension) == if stem.len() > 0 {
            Some(extension)
        } else {
            None
        },
        extension_of(extension) is None,
{
    text::lemma_char_before(stem, '.', extension);
    assert((stem + seq!['.'] + extension).skip((stem.len() + 1) as int) =~= extension);
    text::lemma_last_char(extension, '.');
}

} // verus!

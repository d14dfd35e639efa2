//! Small functions that the lints are tried on.
use vstd::prelude::*;

use std::collections::HashMap;

use crate::text;

verus! {

/// A function beside a reexport.
pub fn helper() -> (r: i32)
    ensures
        r == 42,
{
    42
}

/// A function in a module of its own.
pub fn compute() -> (r: i32)
    ensures
        r == 42,
{
    42
}

/// `HashMap::from` of std on an array of one entry: the map holds that entry and no
/// other.
#[verifier::external_body]
fn map_of_one(entries: [((), ()); 1]) -> (r: HashMap<(), ()>)
    ensures
        r@ == Map::empty().insert(entries@[0].0, entries@[0].1),
{
    HashMap::from(entries)
}

/// A map with the one entry that its type allows, behind an import that is not
/// reexported.
pub fn make_map() -> (r: HashMap<(), ()>)
    ensures
        r@ == Map::empty().insert((), ()),
{
    map_of_one([((), ())])
}

/// A match on a string with two literals.
pub fn match_str(s: &str) -> (r: i32)
    ensures
        r == (if s@ == "start"@ {
            1int
        } else if s@ == "stop"@ {
            2
        } else {
            0
        }),
{
    proof {
        reveal_strlit("start");
        reveal_strlit("stop");
        assert("start"@.len() != "stop"@.len());
    }
    if text::equal(s, "start") {
        1
    } else if text::equal(s, "stop") {
        2
    } else {
        0
    }
}

/// A sum.
pub fn target_add(x: i32, y: i32) -> (r: i32)
    requires
        i32::MIN <= x + y <= i32::MAX,
    ensures
        r == x + y,
{
    x + y
}

/// A function that only passes on to another.
pub fn forwarding_add(x: i32, y: i32) -> (r: i32)
    requires
        i32::MIN <= x + y <= i32::MAX,
    ensures
        r == x + y,
{
    target_add(x, y)
}

} // verus!

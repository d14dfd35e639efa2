//! Statics whose type can change through a shared reference.
use vstd::prelude::*;

use crate::hir;
use crate::hir::{Diagnostic, Item, ItemKind, KnownType, Ty};

verus! {

/// The types that a static should not hold.
pub open spec fn is_banned(known: KnownType) -> bool {
    ||| known is Mutex
    ||| known is RwLock
    ||| known is RefCell
    ||| known is Cell
    ||| known is UnsafeCell
}

/// The types that set their contents once and may hold any type in a static.
pub open spec fn is_shelter(known: KnownType) -> bool {
    known is LazyLock || known is OnceLock
}

/// The known type that `ty` is.
pub open spec fn known_type(ty: Ty) -> KnownType {
    match ty.kind {
        hir::TyKind::Adt(adt) => adt.known,
        _ => KnownType::Other,
    }
}

/// The first banned type in `ty` and the types it is made of. What is sheltered is
/// not looked at.
pub open spec fn first_banned(ty: Ty) -> Option<KnownType>
    decreases ty,
{
    if is_banned(known_type(ty)) {
        Some(known_type(ty))
    } else if is_shelter(known_type(ty)) {
        None
    } else {
        first_banned_of(ty.parts@)
    }
}

/// The first banned type in `parts`.
pub open spec fn first_banned_of(parts: Seq<Ty>) -> Option<KnownType>
    decreases parts,
{
    if parts.len() == 0 {
        None
    } else {
        match first_banned_of(parts.drop_last()) {
            Some(known) => Some(known),
            None => first_banned(parts.last()),
        }
    }
}

/// The first banned type in `ty`.
fn find_banned(ty: &Ty) -> (r: Option<KnownType>)
    ensures
        r == first_banned(*ty),
    decreases ty,
{
    let known = match &ty.kind {
        hir::TyKind::Adt(adt) => adt.known,
        _ => KnownType::Other,
    };
    match known {
        KnownType::Mutex | KnownType::RwLock | KnownType::RefCell | KnownType::Cell
        | KnownType::UnsafeCell => Some(known),
        KnownType::LazyLock | KnownType::OnceLock => None,
        _ => find_banned_of(&ty.parts),
    }
}

/// The first banned type in `parts`.
fn find_banned_of(parts: &Vec<Ty>) -> (r: Option<KnownType>)
    ensures
        r == first_banned_of(parts@),
    decreases parts,
{
    let mut found: Option<KnownType> = None;
    let mut i: usize = 0;
    proof {
        assert(parts@.take(0) =~= Seq::empty());
    }
    while i < parts.len()
        invariant
            i <= parts.len(),
            found == first_banned_of(parts@.take(i as int)),
        decreases parts.len() - i,
    {
        proof {
            assert(decreases_to!(parts => parts@[i as int]));
            assert(parts@.take(i + 1).drop_last() =~= parts@.take(i as int));
            assert(parts@.take(i + 1).last() == parts@[i as int]);
        }
        if found.is_none() {
            found = find_banned(&parts[i]);
        }
        i = i + 1;
    }
    proof {
        assert(parts@.take(i as int) =~= parts@);
    }
    found
}

/// The name of a banned type.
pub open spec fn banned_name(known: KnownType) -> Seq<char> {
    match known {
        KnownType::Mutex => "Mutex"@,
        KnownType::RwLock => "RwLock"@,
        KnownType::RefCell => "RefCell"@,
        KnownType::Cell => "Cell"@,
        _ => "unsafe_cell"@,
    }
}

/// The first banned type in the type of a static.
pub open spec fn banned_in_static(item: Item) -> Option<KnownType> {
    match item.kind {
        ItemKind::Static(ty) => first_banned(ty),
        _ => None,
    }
}

/// Looks at `item`.
pub fn check_item(item: &Item) -> (r: Option<Diagnostic>)
    ensures
        r is Some <==> banned_in_static(*item) is Some,
        r matches Some(warning) ==> (banned_in_static(*item) matches Some(known) && warning@ == (
        hir::DiagnosticText {
            span: item.span.id,
            message: "`static` item uses interior-mutable type `"@ + banned_name(known) + "`"@,
            advice: Seq::empty(),
        })),
{
    let ItemKind::Static(ty) = &item.kind else {
        return None;
    };
    let Some(known) = find_banned(ty) else {
        return None;
    };
    let name = match known {
        KnownType::Mutex => "Mutex",
        KnownType::RwLock => "RwLock",
        KnownType::RefCell => "RefCell",
        KnownType::Cell => "Cell",
        _ => "unsafe_cell",
    };
    let mut message = "`static` item uses interior-mutable type `".to_owned();
    message.append(name);
    message.append("`");
    let advice = String::new();
    proof {
        assert(advice@ =~= Seq::empty());
    }
    Some(Diagnostic { span: item.span.id, message, advice })
}

proof fn lemma_found_is_banned_of(parts: Seq<Ty>)
    ensures
        first_banned_of(parts) matches Some(known) ==> is_banned(known),
    decreases parts,
{
    if parts.len() > 0 {
        lemma_found_is_banned_of(parts.drop_last());
        lemma_found_is_banned(parts.last());
    }
}

/// What is found is banned.
pub proof fn lemma_found_is_banned(ty: Ty)
    ensures
        first_banned(ty) matches Some(known) ==> is_banned(known),
    decreases ty,
{
    if !is_banned(known_type(ty)) && !is_shelter(known_type(ty)) {
        lemma_found_is_banned_of(ty.parts@);
    }
}

proof fn lemma_part_found(parts: Seq<Ty>, i: int)
    requires
        0 <= i < parts.len(),
        first_banned(parts[i]) is Some,
    ensures
        first_banned_of(parts) is Some,
    decreases parts.len(),
{
    if i < parts.len() - 1 {
        lemma_part_found(parts.drop_last(), i);
    }
}

/// A banned type is found at any depth, unless it is sheltered.
pub proof fn lemma_nested_found(ty: Ty, i: int)
    requires
        0 <= i < ty.parts.len(),
        first_banned(ty.parts@[i]) is Some,
        !is_shelter(known_type(ty)),
    ensures
        first_banned(ty) is Some,
{
    lemma_part_found(ty.parts@, i);
}

proof fn lemma_first_of_parts(parts: Seq<Ty>, i: int)
    requires
        0 <= i < parts.len(),
        first_banned(parts[i]) is Some,
        forall|j: int| 0 <= j < i ==> first_banned(#[trigger] parts[j]) is None,
    ensures
        first_banned_of(parts) == first_banned(parts[i]),
    decreases parts.len(),
{
    let front = parts.drop_last();
    if i < front.len() {
        assert forall|j: int| 0 <= j < i implies first_banned(#[trigger] front[j]) is None by {
            assert(front[j] == parts[j]);
        }
        lemma_first_of_parts(front, i);
    } else {
        assert forall|j: int| 0 <= j < front.len() implies first_banned(#[trigger] front[j])
            is None by {
            assert(front[j] == parts[j]);
        }
        lemma_none_of_parts(front);
    }
}

proof fn lemma_none_of_parts(parts: Seq<Ty>)
    requires
        forall|j: int| 0 <= j < parts.len() ==> first_banned(#[trigger] parts[j]) is None,
    ensures
        first_banned_of(parts) is None,
    decreases parts.len(),
{
    if parts.len() > 0 {
        let front = parts.drop_last();
        assert forall|j: int| 0 <= j < front.len() implies first_banned(#[trigger] front[j])
            is None by {
            assert(front[j] == parts[j]);
        }
        lemma_none_of_parts(front);
        assert(parts[parts.len() - 1] == parts.last());
    }
}

/// A mutex, a lock or a cell is found where it stands; in a type that sets its contents
/// once nothing is found; in any other type what is found is what the first of its parts
/// with something holds.
pub proof fn lemma_what_is_found(ty: Ty)
    ensures
        match ty.kind {
            hir::TyKind::Adt(adt) => match adt.known {
                KnownType::Mutex | KnownType::RwLock | KnownType::RefCell | KnownType::Cell
                | KnownType::UnsafeCell => first_banned(ty) == Some(adt.known),
                KnownType::LazyLock | KnownType::OnceLock => first_banned(ty) is None,
                _ => first_banned(ty) == first_banned_of(ty.parts@),
            },
            _ => first_banned(ty) == first_banned_of(ty.parts@),
        },
        forall|i: int|
            0 <= i < ty.parts.len() && first_banned(#[trigger] ty.parts@[i]) is Some && (forall|
                j: int,
            | 0 <= j < i ==> first_banned(#[trigger] ty.parts@[j]) is None) ==> first_banned_of(
                ty.parts@,
            ) == first_banned(ty.parts@[i]),
        (forall|j: int| 0 <= j < ty.parts.len() ==> first_banned(#[trigger] ty.parts@[j]) is None)
            ==> first_banned_of(ty.parts@) is None,
{
    let parts = ty.parts@;
    assert forall|i: int|
        0 <= i < parts.len() && first_banned(#[trigger] parts[i]) is Some && (forall|j: int|
            0 <= j < i ==> first_banned(#[trigger] parts[j]) is None) implies first_banned_of(parts)
        == first_banned(parts[i]) by {
        lemma_first_of_parts(parts, i);
    }
    if forall|j: int| 0 <= j < parts.len() ==> first_banned(#[trigger] parts[j]) is None {
        lemma_none_of_parts(parts);
    }
}

/// Different types that a static should not hold have different names.
pub proof fn lemma_banned_names(a: KnownType, b: KnownType)
    requires
        is_banned(a),
        is_banned(b),
    ensures
        banned_name(a) == banned_name(b) <==> a == b,
{
    reveal_strlit("Mutex");
    reveal_strlit("RwLock");
    reveal_strlit("RefCell");
    reveal_strlit("Cell");
    reveal_strlit("unsafe_cell");
    assert(banned_name(a).len() != banned_name(b).len() || a == b);
}

/// Only a static can hold such a type, and it does exactly if its type does.
pub proof fn lemma_only_statics(item: Item)
    ensures
        banned_in_static(item) is Some <==> (item.kind matches ItemKind::Static(ty) && first_banned(
            ty,
        ) is Some),
        item.kind matches ItemKind::Static(ty) ==> banned_in_static(item) == first_banned(ty),
{
}

} // verus!

//! Public fields of public structs.
use vstd::prelude::*;

use crate::hir;
use crate::hir::{Diagnostic, FieldDef, Item, ItemKind, VariantData};
use crate::sorting;

verus! {

/// The warning on a public field.
pub open spec fn public_field_warning(field: FieldDef) -> hir::DiagnosticText {
    hir::DiagnosticText {
        span: field.span.id,
        message: "public field on a public struct"@,
        advice: "consider making this field private and adding accessor methods"@,
    }
}

/// The warnings on the public ones among `fields`, in their order.
pub open spec fn field_warnings(fields: Seq<FieldDef>) -> Seq<hir::DiagnosticText>
    decreases fields.len(),
{
    if fields.len() == 0 {
        Seq::empty()
    } else {
        let front = field_warnings(fields.drop_last());
        if fields.last().is_public {
            front.push(public_field_warning(fields.last()))
        } else {
            front
        }
    }
}

/// The warnings on an item: on the public fields of a public struct with named
/// fields, unless it has the layout of C.
pub open spec fn item_warnings(item: Item) -> Seq<hir::DiagnosticText> {
    match item.kind {
        ItemKind::Struct(VariantData::Struct(fields)) => if item.is_public && !item.is_repr_c {
            field_warnings(fields@)
        } else {
            Seq::empty()
        },
        _ => Seq::empty(),
    }
}

/// Looks at `item`.
pub fn check_item(item: &Item) -> (r: Vec<Diagnostic>)
    ensures
        sorting::views(r@) == item_warnings(*item),
{
    let mut found: Vec<Diagnostic> = Vec::new();
    proof {
        assert(sorting::views(found@) =~= Seq::empty());
    }
    let ItemKind::Struct(VariantData::Struct(fields)) = &item.kind else {
        return found;
    };
    if !item.is_public || item.is_repr_c {
        return found;
    }
    let mut i: usize = 0;
    proof {
        assert(fields@.take(0) =~= Seq::empty());
    }
    while i < fields.len()
        invariant
            i <= fields.len(),
            sorting::views(found@) == field_warnings(fields@.take(i as int)),
        decreases fields.len() - i,
    {
        let ghost had = found@;
        proof {
            assert(fields@.take(i + 1).drop_last() =~= fields@.take(i as int));
            assert(fields@.take(i + 1).last() == fields@[i as int]);
        }
        if fields[i].is_public {
            let warning = Diagnostic {
                span: fields[i].span.id,
                message: "public field on a public struct".to_owned(),
                advice: "consider making this field private and adding accessor methods".to_owned(),
            };
            let ghost value = warning@;
            found.push(warning);
            proof {
                assert(sorting::views(found@) =~= sorting::views(had).push(value));
            }
        }
        i = i + 1;
    }
    proof {
        assert(fields@.take(i as int) =~= fields@);
    }
    found
}

/// A struct without public fields gives no warning.
pub proof fn lemma_private_fields(fields: Seq<FieldDef>)
    requires
        forall|i: int| 0 <= i < fields.len() ==> !(#[trigger] fields[i]).is_public,
    ensures
        field_warnings(fields) == Seq::<hir::DiagnosticText>::empty(),
    decreases fields.len(),
{
    if fields.len() > 0 {
        let front = fields.drop_last();
        assert forall|i: int| 0 <= i < front.len() implies !(#[trigger] front[i]).is_public by {
            assert(front[i] == fields[i]);
        }
        lemma_private_fields(front);
    }
}

/// The warnings on two lists of fields are those on the one, then those on the other; a
/// public field has one, at its span, and a private one none.
pub proof fn lemma_fields_of_two(some: Seq<FieldDef>, others: Seq<FieldDef>, one: FieldDef)
    ensures
        field_warnings(some + others) == field_warnings(some) + field_warnings(others),
        one.is_public ==> field_warnings(seq![one]).len() == 1 && field_warnings(seq![one])[0].span
            == one.span.id,
        !one.is_public ==> field_warnings(seq![one]).len() == 0,
    decreases others.len(),
{
    if others.len() == 0 {
        assert(some + others =~= some);
        assert(field_warnings(some) + field_warnings(others) =~= field_warnings(some));
    } else {
        lemma_fields_of_two(some, others.drop_last(), one);
        assert((some + others).drop_last() =~= some + others.drop_last());
        assert((some + others).last() == others.last());
        assert(field_warnings(some + others) =~= field_warnings(some) + field_warnings(others));
    }
    assert(seq![one].drop_last() =~= Seq::empty());
    assert(field_warnings(seq![one].drop_last()) =~= Seq::empty());
}

/// The fields of a struct are looked at exactly if it is public, has named fields and has
/// not the layout of C.
pub proof fn lemma_structs_looked_at(item: Item)
    ensures
        item.kind matches ItemKind::Struct(VariantData::Struct(fields)) ==> (item.is_public
            && !item.is_repr_c ==> item_warnings(item) == field_warnings(fields@)),
        !item.is_public || item.is_repr_c || !(item.kind matches ItemKind::Struct(
            VariantData::Struct(_),
        )) ==> item_warnings(item).len() == 0,
{
}

} // verus!

//! Names with an underscore in front whose values have no destructor to wait for.
use vstd::prelude::*;

use crate::hir;
use crate::hir::{Diagnostic, FieldDef, Item, ItemKind, Param, Pat, VariantData};
use crate::sorting;
use crate::text;

verus! {

/// Whether a name has an underscore in front of at least one more character.
pub open spec fn is_prefixed(name: Seq<char>) -> bool {
    name.len() > 1 && name[0] == '_'
}

/// Whether `name` has an underscore in front. A bare underscore is no name.
pub fn is_underscore_prefixed(name: &str) -> (b: bool)
    ensures
        b == is_prefixed(name@),
{
    let v = text::chars_of(name);
    v.len() > 1 && v[0] == '_'
}

/// The warning on a binding or field: `what` it is, its name and its type.
pub open spec fn prefix_warning(
    span: usize,
    what: Seq<char>,
    name: Seq<char>,
    ty: Seq<char>,
) -> hir::DiagnosticText {
    hir::DiagnosticText {
        span,
        message: "`_`-prefixed "@ + what + " `"@ + name + "` has type `"@ + ty
            + "` which does not implement `Drop`"@,
        advice:
            "the `_` prefix is conventionally used to keep a value alive for its destructor; consider removing the prefix or the "@
            + what,
    }
}

/// The warning on the name `name`.
fn warn(span: usize, what: &str, name: &str, ty: &str) -> (r: Diagnostic)
    ensures
        r@ == prefix_warning(span, what@, name@, ty@),
{
    let mut message = "`_`-prefixed ".to_owned();
    message.append(what);
    message.append(" `");
    message.append(name);
    message.append("` has type `");
    message.append(ty);
    message.append("` which does not implement `Drop`");
    let mut advice =
        "the `_` prefix is conventionally used to keep a value alive for its destructor; consider removing the prefix or the ".to_owned();
    advice.append(what);
    Diagnostic { span, message, advice }
}

/// The warning on a parameter, if there is one: it is a name with an underscore in
/// front, was written in the source, and has a type without a destructor of note.
pub open spec fn param_warning(param: Param) -> Option<hir::DiagnosticText> {
    match param.pat {
        Pat::Binding(_, name) => if is_prefixed(name@) && !param.significant_drop
            && !param.compiler_generated {
            Some(prefix_warning(param.span.id, "binding"@, name@, param.ty_text@))
        } else {
            None
        },
        _ => None,
    }
}

/// The warnings on `params`, in their order.
pub open spec fn param_warnings(params: Seq<Param>) -> Seq<hir::DiagnosticText>
    decreases params.len(),
{
    if params.len() == 0 {
        Seq::empty()
    } else {
        let front = param_warnings(params.drop_last());
        match param_warning(params.last()) {
            Some(warning) => front.push(warning),
            None => front,
        }
    }
}

/// Looks at the parameters of a function.
pub fn check_fn(params: &Vec<Param>) -> (r: Vec<Diagnostic>)
    ensures
        sorting::views(r@) == param_warnings(params@),
{
    let mut found: Vec<Diagnostic> = Vec::new();
    let mut i: usize = 0;
    proof {
        assert(sorting::views(found@) =~= Seq::empty());
        assert(params@.take(0) =~= Seq::empty());
    }
    while i < params.len()
        invariant
            i <= params.len(),
            sorting::views(found@) == param_warnings(params@.take(i as int)),
        decreases params.len() - i,
    {
        let ghost had = found@;
        proof {
            assert(params@.take(i + 1).drop_last() =~= params@.take(i as int));
            assert(params@.take(i + 1).last() == params@[i as int]);
        }
        let param = &params[i];
        if let Pat::Binding(_, name) = &param.pat {
            if is_underscore_prefixed(name.as_str()) && !param.significant_drop
                && !param.compiler_generated {
                let warning = warn(
                    param.span.id,
                    "binding",
                    name.as_str(),
                    param.ty_text.as_str(),
                );
                let ghost value = warning@;
                found.push(warning);
                proof {
                    assert(sorting::views(found@) =~= sorting::views(had).push(value));
                }
            }
        }
        i = i + 1;
    }
    proof {
        assert(params@.take(i as int) =~= params@);
    }
    found
}

/// The warnings on `fields`, in their order.
pub open spec fn field_warnings(fields: Seq<FieldDef>) -> Seq<hir::DiagnosticText>
    decreases fields.len(),
{
    if fields.len() == 0 {
        Seq::empty()
    } else {
        let front = field_warnings(fields.drop_last());
        let last = fields.last();
        if is_prefixed(last.name@) && !last.significant_drop {
            front.push(prefix_warning(last.span.id, "field"@, last.name@, last.ty_text@))
        } else {
            front
        }
    }
}

/// The warnings on an item: on the fields of a struct.
pub open spec fn item_warnings(item: Item) -> Seq<hir::DiagnosticText> {
    match item.kind {
        ItemKind::Struct(VariantData::Struct(fields)) => field_warnings(fields@),
        ItemKind::Struct(VariantData::Tuple(fields)) => field_warnings(fields@),
        _ => Seq::empty(),
    }
}

/// The warnings on `fields`.
fn check_fields(fields: &Vec<FieldDef>) -> (r: Vec<Diagnostic>)
    ensures
        sorting::views(r@) == field_warnings(fields@),
{
    let mut found: Vec<Diagnostic> = Vec::new();
    let mut i: usize = 0;
    proof {
        assert(sorting::views(found@) =~= Seq::empty());
        assert(fields@.take(0) =~= Seq::empty());
    }
    while i < fields.len()
        invariant
            i <= fields.len(),
            sorting::views(found@) == field_warnings(fields@.take(i as int)),
        decreases fields.len() - i,
    {
        let ghost had = found@;
        proof {
            assert(fields@.take(i + 1).drop_last() =~= fields@.take(i as int));
            assert(fields@.take(i + 1).last() == fields@[i as int]);
        }
        let field = &fields[i];
        if is_underscore_prefixed(field.name.as_str()) && !field.significant_drop {
            let warning = warn(
                field.span.id,
                "field",
                field.name.as_str(),
                field.ty_text.as_str(),
            );
            let ghost value = warning@;
            found.push(warning);
            proof {
                assert(sorting::views(found@) =~= sorting::views(had).push(value));
            }
        }
        i = i + 1;
    }
    proof {
        assert(fields@.take(i as int) =~= fields@);
    }
    found
}

/// Looks at `item`.
pub fn check_item(item: &Item) -> (r: Vec<Diagnostic>)
    ensures
        sorting::views(r@) == item_warnings(*item),
{
    match &item.kind {
        ItemKind::Struct(VariantData::Struct(fields)) => check_fields(fields),
        ItemKind::Struct(VariantData::Tuple(fields)) => check_fields(fields),
        _ => {
            let found: Vec<Diagnostic> = Vec::new();
            proof {
                assert(sorting::views(found@) =~= Seq::empty());
            }
            found
        },
    }
}

/// A parameter whose value has a destructor of note gives no warning.
pub proof fn lemma_destructor_exempt(param: Param)
    requires
        param.significant_drop,
    ensures
        param_warning(param) is None,
{
}

/// A name is prefixed exactly if it is an underscore and at least one more character.
pub proof fn lemma_prefixed(rest: Seq<char>, first: char)
    ensures
        is_prefixed(seq![first] + rest) <==> first == '_' && rest.len() > 0,
        !is_prefixed(Seq::empty()),
{
    assert((seq![first] + rest)[0] == first);
}

/// A parameter has a warning exactly if it is a name with an underscore in front, was
/// written in the source and has a type without a destructor of note. The warning is at
/// the parameter.
pub proof fn lemma_param_warned(param: Param)
    ensures
        param_warning(param) is Some <==> (param.pat matches Pat::Binding(_, name) && name@.len()
            > 1 && name@[0] == '_') && !param.significant_drop && !param.compiler_generated,
        param_warning(param) matches Some(warning) ==> warning.span == param.span.id,
{
}

/// The warnings on two lists of parameters are those on the one, then those on the other,
/// and a parameter has at most its own.
pub proof fn lemma_params_of_two(some: Seq<Param>, others: Seq<Param>, one: Param)
    ensures
        param_warnings(some + others) == param_warnings(some) + param_warnings(others),
        param_warning(one) matches Some(warning) ==> param_warnings(seq![one]) == seq![warning],
        param_warning(one) is None ==> param_warnings(seq![one]).len() == 0,
    decreases others.len(),
{
    if others.len() == 0 {
        assert(some + others =~= some);
        assert(param_warnings(some) + param_warnings(others) =~= param_warnings(some));
    } else {
        lemma_params_of_two(some, others.drop_last(), one);
        assert((some + others).drop_last() =~= some + others.drop_last());
        assert((some + others).last() == others.last());
        assert(param_warnings(some + others) =~= param_warnings(some) + param_warnings(others));
    }
    assert(seq![one].drop_last() =~= Seq::empty());
    assert(param_warnings(seq![one].drop_last()) =~= Seq::empty());
    if let Some(warning) = param_warning(one) {
        assert(param_warnings(seq![one]) =~= seq![warning]);
    }
}

/// The warnings on two lists of fields are those on the one, then those on the other; a
/// field has one, at its span, exactly if its name has an underscore in front and its type
/// has no destructor of note.
pub proof fn lemma_fields_of_two(some: Seq<FieldDef>, others: Seq<FieldDef>, one: FieldDef)
    ensures
        field_warnings(some + others) == field_warnings(some) + field_warnings(others),
        if one.name@.len() > 1 && one.name@[0] == '_' && !one.significant_drop {
            field_warnings(seq![one]).len() == 1 && field_warnings(seq![one])[0].span == one.span.id
        } else {
            field_warnings(seq![one]).len() == 0
        },
    decreases others.len(),
{
    if others.len() == 0 {
        assert(some + others =~= some);
        assert(field_warnings(some) + field_warnings(others) =~= field_warnings(some));
    } else {
        lemma_fields_of_two(some, others.drop_last(), one);
        assert((some + others).drop_last() =~= some + others.drop_last());
        assert((some + others).last() == others.last());
        assert(field_warnings(some + others) =~= field_warnings(some) + field_warnings(others));
    }
    assert(seq![one].drop_last() =~= Seq::empty());
    assert(field_warnings(seq![one].drop_last()) =~= Seq::empty());
}

/// The fields of every struct are looked at, named or not, and those of nothing else.
pub proof fn lemma_structs_looked_at(item: Item)
    ensures
        item.kind matches ItemKind::Struct(VariantData::Struct(fields)) ==> item_warnings(item)
            == field_warnings(fields@),
        item.kind matches ItemKind::Struct(VariantData::Tuple(fields)) ==> item_warnings(item)
            == field_warnings(fields@),
        !(item.kind is Struct) ==> item_warnings(item).len() == 0,
        item.kind matches ItemKind::Struct(VariantData::Unit) ==> item_warnings(item).len() == 0,
{
}

/// What a warning says names the value and its type.
pub proof fn lemma_warning_names_value(
    span: usize,
    what: Seq<char>,
    name: Seq<char>,
    ty: Seq<char>,
)
    ensures
        ({
            let message = prefix_warning(span, what, name, ty).message;
            let n = 13 + what.len() as int;
            &&& message.subrange(13, n) == what
            &&& message.subrange(n + 2, n + 2 + name.len() as int) == name
            &&& message.subrange(
                n + 14 + name.len() as int,
                n + 14 + name.len() as int + ty.len() as int,
            ) == ty
        }),
{
    reveal_strlit("`_`-prefixed ");
    reveal_strlit(" `");
    reveal_strlit("` has type `");
    let message = prefix_warning(span, what, name, ty).message;
    let n = 13 + what.len() as int;
    assert(message.subrange(13, n) =~= what);
    assert(message.subrange(n + 2, n + 2 + name.len() as int) =~= name);
    assert(message.subrange(
        n + 14 + name.len() as int,
        n + 14 + name.len() as int + ty.len() as int,
    ) =~= ty);
}

} // verus!

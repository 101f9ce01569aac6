//! What `#[injectable]` and `#[async_injectable]` generate for a struct: how
//! each field is initialised and which values the provider must supply.
use vstd::prelude::*;
use crate::attrs::{
    all_typed, attr_inject_ok, called, factory_inputs, field_errors, inject_reads_as,
    last_where, param_types, parsed_field_of, positions_where, InjectExpr, InjectableAttrs,
    ParsedField, FieldError,
};
use crate::attrs::{any_where, attrs_where, hook_position, hook_unreadable, inject_that_reads, not_hook};
use crate::hash::{fnv1a_fold, FNV_OFFSET_BASIS_128, FNV_PRIME_128};
use crate::model::{
    attr_is, copy_string, is_type_named, name_is, type_named, AttrModel, ClosureParam, FieldModel, InjectSyntax,
    StructModel, TypeInfo,
};
use crate::naming::{decimal, join, u128_text, with_number};

verus! {

// ---------------------------------------------------------------------------
// Field initialisation.

/// How a field of the new value is initialised.
pub enum FieldInit {
    /// `Named::<Tag, T>::into_inner(provider.provide())`.
    Named,
    /// `Named::<Key<hash>, T>::into_inner(provider.provide())`.
    NamedKey(u128),
    /// The `#[inject]` value, after providing its closure's inputs.
    Value,
    /// `None`, for an `Option` field without `#[inject]`.
    Absent,
    /// `Late::new()`.
    LateNew,
    /// `Lazy::new()`.
    LazyNew,
    /// `provider.provide()`.
    Provide,
}

/// How a field with this `#[inject]` expression and type is initialised.
pub open spec fn field_init_of(a: Option<InjectExpr>, t: TypeInfo) -> FieldInit {
    match a {
        Some(InjectExpr::Named(_)) => FieldInit::Named,
        Some(InjectExpr::NamedStr(h)) => FieldInit::NamedKey(h),
        Some(InjectExpr::Value(_)) => FieldInit::Value,
        None => if type_named(t, "Option"@) {
            FieldInit::Absent
        } else if type_named(t, "Late"@) {
            FieldInit::LateNew
        } else if type_named(t, "Lazy"@) {
            FieldInit::LazyNew
        } else {
            FieldInit::Provide
        },
    }
}

/// Generate the initialization of a single field.
pub fn field_init_expr(ty: &TypeInfo, attr: &Option<InjectExpr>) -> (r: FieldInit)
    ensures
        r == field_init_of(*attr, *ty),
{
    match attr {
        Some(InjectExpr::Named(_)) => FieldInit::Named,
        Some(InjectExpr::NamedStr(h)) => FieldInit::NamedKey(*h),
        Some(InjectExpr::Value(_)) => FieldInit::Value,
        None => {
            if is_type_named(ty, "Option") {
                FieldInit::Absent
            } else if is_type_named(ty, "Late") {
                FieldInit::LateNew
            } else if is_type_named(ty, "Lazy") {
                FieldInit::LazyNew
            } else {
                FieldInit::Provide
            }
        },
    }
}

/// The construction expression of `Injectable::inject`: tuple syntax or
/// named-field syntax, and each field's initialisation in order.
pub struct CreationPlan {
    pub tuple: bool,
    pub inits: Vec<FieldInit>,
}

/// Build the struct construction expression for `Injectable::inject`.
/// A struct with fields but no field names is built with tuple syntax.
pub fn build_creation_output(
    types: &Vec<TypeInfo>,
    key_count: usize,
    attributes: &Vec<Option<InjectExpr>>,
) -> (r: CreationPlan)
    requires
        types@.len() == attributes@.len(),
        key_count == 0 || key_count == types@.len(),
    ensures
        r.tuple == (key_count == 0 && types@.len() > 0),
        r.inits@.len() == if r.tuple { types@.len() } else { key_count as nat },
        forall|i: int|
            0 <= i < r.inits@.len() ==> #[trigger] r.inits@[i] == field_init_of(
                attributes@[i],
                types@[i],
            ),
{
    let tuple = key_count == 0 && types.len() > 0;
    let n = if tuple { types.len() } else { key_count };
    let mut inits: Vec<FieldInit> = Vec::new();
    let mut k: usize = 0;
    while k < n
        invariant
            n <= types@.len(),
            types@.len() == attributes@.len(),
            k <= n,
            inits@.len() == k,
            forall|i: int|
                0 <= i < k ==> #[trigger] inits@[i] == field_init_of(attributes@[i], types@[i]),
        decreases n - k,
    {
        inits.push(field_init_expr(&types[k], &attributes[k]));
        k = k + 1;
    }
    CreationPlan { tuple, inits }
}

// ---------------------------------------------------------------------------
// Provider bounds.

/// A value that the provider must be able to provide.
pub enum ProvType {
    /// `Named<Tag, T>`.
    Named(TypeInfo, TypeInfo),
    /// `Named<Key<hash>, T>`.
    Key(u128, TypeInfo),
    /// A plain type.
    Plain(TypeInfo),
}

/// The token text of a provided value, as the provider bound names it:
/// the type itself, `::conject::Named<Tag, T>`, or
/// `::conject::Named<::conject::Key<hash>, T>`, tokens separated by spaces.
pub open spec fn prov_text(p: ProvType) -> Seq<char> {
    match p {
        ProvType::Plain(t) => t.key@,
        ProvType::Named(tag, t) => ":: conject :: Named < "@ + tag.key@ + " , "@ + t.key@ + " >"@,
        ProvType::Key(h, t) => ":: conject :: Named < :: conject :: Key < "@ + decimal(h as nat)
            + "u128 > , "@ + t.key@ + " >"@,
    }
}

/// Writes the token text of a provided value.
pub fn render_prov(p: &ProvType) -> (s: String)
    ensures
        s@ == prov_text(*p),
{
    match p {
        ProvType::Plain(t) => copy_string(&t.key),
        ProvType::Named(tag, t) => {
            let a = join(":: conject :: Named < ", tag.key.as_str());
            let b = join(a.as_str(), " , ");
            let c = join(b.as_str(), t.key.as_str());
            join(c.as_str(), " >")
        },
        ProvType::Key(h, t) => {
            let d = u128_text(*h);
            let a = join(":: conject :: Named < :: conject :: Key < ", d.as_str());
            let b = join(a.as_str(), "u128 > , ");
            let c = join(b.as_str(), t.key.as_str());
            join(c.as_str(), " >")
        },
    }
}

/// Whether two provided values render to the same token text.
pub open spec fn same_prov(a: ProvType, b: ProvType) -> bool {
    prov_text(a) == prov_text(b)
}

fn same_prov_exec(a: &ProvType, b: &ProvType) -> (r: bool)
    ensures
        r == same_prov(*a, *b),
{
    render_prov(a) == render_prov(b)
}

/// `s` with every element that renders as the one kept before it removed
/// (`Vec::dedup_by` on the rendered tokens).
pub open spec fn dedup_spec(s: Seq<ProvType>) -> Seq<ProvType>
    decreases s.len(),
{
    if s.len() == 0 {
        Seq::empty()
    } else {
        let d = dedup_spec(s.drop_last());
        if d.len() > 0 && same_prov(s.last(), d.last()) {
            d
        } else {
            d.push(s.last())
        }
    }
}

/// No two neighbouring bounds left by the deduplication render alike, and
/// every bound removed renders like the one kept before it.
pub proof fn law_dedup_no_adjacent_repeats(s: Seq<ProvType>)
    ensures
        forall|i: int| 0 <= i < dedup_spec(s).len() - 1 ==> !same_prov(#[trigger] dedup_spec(s)[i], dedup_spec(s)[i + 1]),
        dedup_spec(s).len() <= s.len(),
        s.len() > 0 ==> dedup_spec(s).len() > 0 && same_prov(s.last(), dedup_spec(s).last()),
    decreases s.len(),
{
    if s.len() > 0 {
        let d = dedup_spec(s.drop_last());
        law_dedup_no_adjacent_repeats(s.drop_last());
        if !(d.len() > 0 && same_prov(s.last(), d.last())) {
            let e = d.push(s.last());
            assert forall|i: int| 0 <= i < e.len() - 1 implies !same_prov(#[trigger] e[i], e[i + 1]) by {
                if i == e.len() - 2 {
                    assert(e[i] == d.last());
                    assert(e[i + 1] == s.last());
                } else {
                    assert(e[i] == d[i]);
                    assert(e[i + 1] == d[i + 1]);
                }
            }
        }
    }
}

/// Removes consecutive repetitions, as `Vec::dedup_by` on the rendered tokens does.
pub fn dedup_prov(items: Vec<ProvType>) -> (r: Vec<ProvType>)
    ensures
        r@ == dedup_spec(items@),
{
    let mut rest = items;
    let ghost orig = rest@;
    let n = rest.len();
    let mut out: Vec<ProvType> = Vec::new();
    let mut k: usize = 0;
    while k < n
        invariant
            n == orig.len(),
            k <= n,
            rest@ == orig.subrange(k as int, n as int),
            out@ == dedup_spec(orig.subrange(0, k as int)),
        decreases n - k,
    {
        assert(orig.subrange(0, k + 1).drop_last() =~= orig.subrange(0, k as int));
        let x = rest.remove(0);
        let keep = if out.len() > 0 {
            !same_prov_exec(&x, &out[out.len() - 1])
        } else {
            true
        };
        if keep {
            out.push(x);
        }
        k = k + 1;
        assert(rest@ =~= orig.subrange(k as int, n as int));
    }
    assert(orig.subrange(0, n as int) =~= orig);
    out
}

/// The plain types of `ts`.
pub open spec fn plain_all(ts: Seq<TypeInfo>) -> Seq<ProvType> {
    Seq::new(ts.len(), |i: int| ProvType::Plain(ts[i]))
}

/// What one field asks of the provider: the tagged or keyed value, the inputs
/// of its `#[inject]` closure, or, without `#[inject]`, its own type unless it
/// is an `Option`, `Late` or `Lazy`.
pub open spec fn field_bounds(a: Option<InjectExpr>, t: TypeInfo) -> Seq<ProvType> {
    match a {
        Some(InjectExpr::Named(tag)) => seq![ProvType::Named(tag, t)],
        Some(InjectExpr::NamedStr(h)) => seq![ProvType::Key(h, t)],
        Some(InjectExpr::Value(inputs)) => plain_all(inputs@),
        None => if !type_named(t, "Option"@) && !type_named(t, "Late"@) && !type_named(
            t,
            "Lazy"@,
        ) {
            seq![ProvType::Plain(t)]
        } else {
            Seq::empty()
        },
    }
}

/// What the fields ask of the provider, field after field.
pub open spec fn all_bounds(types: Seq<TypeInfo>, attrs: Seq<Option<InjectExpr>>) -> Seq<
    ProvType,
>
    decreases types.len(),
{
    if types.len() == 0 || attrs.len() == 0 {
        Seq::empty()
    } else {
        all_bounds(types.drop_last(), attrs.drop_last()) + field_bounds(attrs.last(), types.last())
    }
}

fn clone_prov_list(ts: &Vec<TypeInfo>, out: &mut Vec<ProvType>)
    ensures
        final(out)@ == old(out)@ + plain_all(ts@),
{
    let ghost base = out@;
    let mut k: usize = 0;
    while k < ts.len()
        invariant
            k <= ts@.len(),
            out@ == base + plain_all(ts@.subrange(0, k as int)),
        decreases ts@.len() - k,
    {
        out.push(ProvType::Plain(ts[k].clone()));
        k = k + 1;
        assert(out@ =~= base + plain_all(ts@.subrange(0, k as int)));
    }
    assert(ts@.subrange(0, ts@.len() as int) =~= ts@);
}

/// Appends what one field asks of the provider.
fn push_field_bounds(t: &TypeInfo, a: &Option<InjectExpr>, prov: &mut Vec<ProvType>)
    ensures
        final(prov)@ == old(prov)@ + field_bounds(*a, *t),
{
    let ghost before = prov@;
    match a {
        Some(InjectExpr::Named(tag)) => {
            prov.push(ProvType::Named(tag.clone(), t.clone()));
        },
        Some(InjectExpr::NamedStr(h)) => {
            prov.push(ProvType::Key(*h, t.clone()));
        },
        Some(InjectExpr::Value(inputs)) => {
            clone_prov_list(inputs, prov);
        },
        None => {
            if !is_type_named(t, "Option") && !is_type_named(t, "Late") && !is_type_named(
                t,
                "Lazy",
            ) {
                prov.push(ProvType::Plain(t.clone()));
            }
        },
    }
    assert(prov@ =~= before + field_bounds(*a, *t));
}

/// The values a provider must supply for an injectable struct, each once
/// where it repeats in a row. The bound clause is empty exactly when the list is.
pub fn build_provider_bounds(types: &Vec<TypeInfo>, attributes: &Vec<Option<InjectExpr>>) -> (r:
    Vec<ProvType>)
    requires
        types@.len() == attributes@.len(),
    ensures
        r@ == dedup_spec(all_bounds(types@, attributes@)),
{
    let mut prov: Vec<ProvType> = Vec::new();
    let n = types.len();
    let mut k: usize = 0;
    while k < n
        invariant
            n == types@.len(),
            types@.len() == attributes@.len(),
            k <= n,
            prov@ == all_bounds(types@.subrange(0, k as int), attributes@.subrange(0, k as int)),
        decreases n - k,
    {
        assert(types@.subrange(0, k + 1).drop_last() =~= types@.subrange(0, k as int));
        assert(attributes@.subrange(0, k + 1).drop_last() =~= attributes@.subrange(0, k as int));
        let ghost before = prov@;
        push_field_bounds(&types[k], &attributes[k], &mut prov);
        assert(prov@ =~= before + field_bounds(attributes@[k as int], types@[k as int]));
        k = k + 1;
    }
    assert(types@.subrange(0, n as int) =~= types@);
    assert(attributes@.subrange(0, n as int) =~= attributes@);
    dedup_prov(prov)
}

// ---------------------------------------------------------------------------
// Reading fields.

/// The `#[inject]` arguments in force on a field: those of its last readable
/// `#[inject]` attribute.
pub open spec fn inject_syntax_of(f: FieldModel) -> Option<InjectSyntax> {
    let i = last_where(f.attrs@, inject_that_reads());
    if i >= 0 {
        Some(f.attrs@[i].inject->0)
    } else {
        None
    }
}

/// Whether the field is `#[assisted]`.
pub open spec fn is_assisted(f: FieldModel) -> bool {
    any_where(f.attrs@, called("assisted"@))
}

/// How a field is initialised, read from its attributes and type.
pub open spec fn init_of_field(f: FieldModel) -> FieldInit {
    match inject_syntax_of(f) {
        Some(InjectSyntax::NamedType(_)) => FieldInit::Named,
        Some(InjectSyntax::NamedLit(text)) => FieldInit::NamedKey(
            fnv1a_fold(FNV_OFFSET_BASIS_128, FNV_PRIME_128, vstd::utf8::encode_utf8(text@)),
        ),
        Some(_) => FieldInit::Value,
        None => if type_named(f.ty, "Option"@) {
            FieldInit::Absent
        } else if type_named(f.ty, "Late"@) {
            FieldInit::LateNew
        } else if type_named(f.ty, "Lazy"@) {
            FieldInit::LazyNew
        } else {
            FieldInit::Provide
        },
    }
}

/// What a field asks of the provider, read from its attributes and type.
pub open spec fn bounds_of_field(f: FieldModel) -> Seq<ProvType> {
    match inject_syntax_of(f) {
        Some(InjectSyntax::NamedType(tag)) => seq![ProvType::Named(tag, f.ty)],
        Some(InjectSyntax::NamedLit(text)) => seq![
            ProvType::Key(
                fnv1a_fold(FNV_OFFSET_BASIS_128, FNV_PRIME_128, vstd::utf8::encode_utf8(text@)),
                f.ty,
            ),
        ],
        Some(InjectSyntax::Closure(ps)) => plain_all(param_types(ps@)),
        Some(InjectSyntax::Expr) => Seq::empty(),
        None => if !type_named(f.ty, "Option"@) && !type_named(f.ty, "Late"@) && !type_named(
            f.ty,
            "Lazy"@,
        ) {
            seq![ProvType::Plain(f.ty)]
        } else {
            Seq::empty()
        },
    }
}

/// What the fields ask of the provider, field after field.
pub open spec fn bounds_of_fields(fields: Seq<FieldModel>) -> Seq<ProvType>
    decreases fields.len(),
{
    if fields.len() == 0 {
        Seq::empty()
    } else {
        bounds_of_fields(fields.drop_last()) + bounds_of_field(fields.last())
    }
}

proof fn lemma_parsed_inject(f: FieldModel, p: ParsedField)
    requires
        parsed_field_of(f.attrs@, p),
    ensures
        field_init_of(p.inject, f.ty) == init_of_field(f),
        field_bounds(p.inject, f.ty) =~= bounds_of_field(f),
        p.assisted == is_assisted(f),
{
    crate::attrs::lemma_last_where_bounds(f.attrs@, inject_that_reads());
}

proof fn lemma_bounds_prefix(
    types: Seq<TypeInfo>,
    attrs: Seq<Option<InjectExpr>>,
    fields: Seq<FieldModel>,
    ps: Seq<ParsedField>,
)
    requires
        types.len() == attrs.len(),
        types.len() == fields.len(),
        ps.len() == fields.len(),
        forall|i: int| 0 <= i < fields.len() ==> parsed_field_of(fields[i].attrs@, #[trigger] ps[i]),
        forall|i: int| 0 <= i < fields.len() ==> #[trigger] types[i] == fields[i].ty,
        forall|i: int| 0 <= i < fields.len() ==> same_inject(#[trigger] attrs[i], ps[i].inject),
    ensures
        all_bounds(types, attrs) == bounds_of_fields(fields),
    decreases types.len(),
{
    if types.len() > 0 {
        let n = types.len() - 1;
        lemma_bounds_prefix(
            types.drop_last(),
            attrs.drop_last(),
            fields.drop_last(),
            ps.drop_last(),
        );
        lemma_parsed_inject(fields[n], ps[n]);
    }
}

// ---------------------------------------------------------------------------
// Assisted injection.

/// How a field of an assisted struct is set by `create`.
pub enum AssistedItem {
    /// From the `create` parameter of this name.
    Param(String),
    /// Injected as `Injectable::inject` sets a field.
    Injected(FieldInit),
}

/// A parameter of the generated `create` function.
pub struct AssistedParam {
    /// Position of the field it sets.
    pub field: usize,
    /// The parameter's name.
    pub name: String,
}

/// The generated `create(provider, assisted..)` function.
pub struct AssistedPlan {
    pub tuple: bool,
    pub params: Vec<AssistedParam>,
    pub items: Vec<AssistedItem>,
    pub prov: Vec<ProvType>,
}

/// The name of the `create` parameter for field `i`: the field's name, or
/// `__assisted_<i>` in a tuple struct.
pub open spec fn assisted_name(fields: Seq<FieldModel>, tuple: bool, i: int) -> Seq<char> {
    if tuple {
        "__assisted_"@ + decimal(i as nat)
    } else {
        fields[i].ident->0@
    }
}

/// What a field of an assisted struct asks of the provider: nothing for an
/// assisted field, and otherwise what it asks of `Injectable::inject`.
pub open spec fn assisted_bounds_of_field(f: FieldModel) -> Seq<ProvType> {
    if is_assisted(f) {
        Seq::empty()
    } else {
        bounds_of_field(f)
    }
}

/// [`assisted_bounds_of_field`] over the fields, field after field.
pub open spec fn assisted_bounds(fields: Seq<FieldModel>) -> Seq<ProvType>
    decreases fields.len(),
{
    if fields.len() == 0 {
        Seq::empty()
    } else {
        assisted_bounds(fields.drop_last()) + assisted_bounds_of_field(fields.last())
    }
}

/// The positions of the assisted fields, in order.
pub open spec fn assisted_positions(fields: Seq<FieldModel>) -> Seq<usize>
    decreases fields.len(),
{
    if fields.len() == 0 {
        Seq::empty()
    } else if is_assisted(fields.last()) {
        assisted_positions(fields.drop_last()).push((fields.len() - 1) as usize)
    } else {
        assisted_positions(fields.drop_last())
    }
}

/// Whether `item` is how field `i` is set by `create`.
pub open spec fn assisted_item_of(fields: Seq<FieldModel>, tuple: bool, i: int, item: AssistedItem) -> bool {
    if is_assisted(fields[i]) {
        item matches AssistedItem::Param(n) && n@ == assisted_name(fields, tuple, i)
    } else {
        item == AssistedItem::Injected(init_of_field(fields[i]))
    }
}

/// Whether the fields are those of one struct: all named or all unnamed.
pub open spec fn fields_consistent(fields: Seq<FieldModel>) -> bool {
    (forall|i: int| 0 <= i < fields.len() ==> (#[trigger] fields[i]).ident is Some) || (forall|
        i: int,
    |
        0 <= i < fields.len() ==> (#[trigger] fields[i]).ident is None)
}

/// Plans `create` for a struct with `#[assisted]` fields: assisted fields
/// become parameters, the others are injected.
pub fn handle_assisted_injectable(fields: &Vec<FieldModel>, parsed: &Vec<ParsedField>) -> (r: AssistedPlan)
    requires
        fields_consistent(fields@),
        parsed@.len() == fields@.len(),
        forall|i: int|
            0 <= i < fields@.len() ==> parsed_field_of(fields@[i].attrs@, #[trigger] parsed@[i]),
    ensures
        r.tuple == (fields@.len() > 0 && fields@[0].ident is None),
        r.params@.len() == assisted_positions(fields@).len(),
        forall|j: int|
            0 <= j < r.params@.len() ==> (#[trigger] r.params@[j]).field == assisted_positions(
                fields@,
            )[j] && r.params@[j].name@ == assisted_name(fields@, r.tuple, r.params@[j].field as int),
        r.items@.len() == fields@.len(),
        forall|i: int|
            0 <= i < fields@.len() ==> assisted_item_of(fields@, r.tuple, i, #[trigger] r.items@[i]),
        r.prov@ == dedup_spec(assisted_bounds(fields@)),
{
    let n = fields.len();
    let tuple = n > 0 && fields[0].ident.is_none();
    let mut params: Vec<AssistedParam> = Vec::new();
    let mut items: Vec<AssistedItem> = Vec::new();
    let mut prov: Vec<ProvType> = Vec::new();
    let mut k: usize = 0;
    while k < n
        invariant
            n == fields@.len(),
            n == parsed@.len(),
            fields_consistent(fields@),
            tuple == (fields@.len() > 0 && fields@[0].ident is None),
            forall|i: int|
                0 <= i < fields@.len() ==> parsed_field_of(fields@[i].attrs@, #[trigger] parsed@[i]),
            k <= n,
            params@.len() == assisted_positions(fields@.subrange(0, k as int)).len(),
            forall|j: int|
                0 <= j < params@.len() ==> (#[trigger] params@[j]).field == assisted_positions(
                    fields@.subrange(0, k as int),
                )[j] && params@[j].name@ == assisted_name(fields@, tuple, params@[j].field as int),
            items@.len() == k,
            forall|i: int| 0 <= i < k ==> assisted_item_of(fields@, tuple, i, #[trigger] items@[i]),
            prov@ == assisted_bounds(fields@.subrange(0, k as int)),
        decreases n - k,
    {
        let ghost pre = fields@.subrange(0, k as int);
        assert(fields@.subrange(0, k + 1).drop_last() =~= pre);
        assert(fields@.subrange(0, k + 1).last() == fields@[k as int]);
        let f = &fields[k];
        let p = &parsed[k];
        proof {
            lemma_parsed_inject(fields@[k as int], parsed@[k as int]);
            crate::attrs::lemma_last_where_bounds(fields@[k as int].attrs@, inject_that_reads());
        }
        let ghost before = prov@;
        if p.assisted {
            let name = if tuple {
                with_number("__assisted_", k)
            } else {
                match &f.ident {
                    Some(i) => crate::model::copy_string(i),
                    None => {
                        // a named struct names every field
                        assert(fields@[0].ident is Some);
                        vstd::pervasive::unreached()
                    },
                }
            };
            let item_name = crate::model::copy_string(&name);
            params.push(AssistedParam { field: k, name });
            items.push(AssistedItem::Param(item_name));
        } else {
            items.push(AssistedItem::Injected(field_init_expr(&f.ty, &p.inject)));
            push_field_bounds(&f.ty, &p.inject, &mut prov);
        }
        assert(prov@ =~= before + assisted_bounds_of_field(fields@[k as int]));
        k = k + 1;
    }
    assert(fields@.subrange(0, n as int) =~= fields@);
    let prov = dedup_prov(prov);
    AssistedPlan { tuple, params, items, prov }
}

// ---------------------------------------------------------------------------
// `#[injectable]`.

/// What `#[injectable]` generates.
pub enum InjectableOutput {
    /// A struct with `#[assisted]` fields gets a `create` function.
    Assisted(AssistedPlan),
    /// Otherwise: `Injectable::inject` builds the value (then runs the
    /// post-construct hook, if any) with these provider bounds; the drop and
    /// async destroy hooks are emitted when present.
    /// `annotate_destroy` tells whether the async destroy hook is a closure
    /// whose first parameter is to be typed `&mut Self`.
    Inject { creation: CreationPlan, prov: Vec<ProvType>, hooks: InjectableAttrs, annotate_destroy: bool },
}

/// The plan of `#[injectable]`: the struct's attributes that are re-emitted
/// (all but the lifecycle hooks), and what is generated.
pub struct InjectablePlan {
    pub kept_attrs: Vec<usize>,
    /// Each field, read.
    pub parsed: Vec<ParsedField>,
    pub output: InjectableOutput,
}

/// Why `#[injectable]` refuses a struct.
pub enum InjectableError {
    /// Lifecycle hooks at these positions hold no expression.
    Hooks(Vec<usize>),
    /// These fields (position, faults) have faulty attributes.
    Fields(Vec<(usize, Vec<FieldError>)>),
}

/// Whether some field is `#[assisted]`.
pub open spec fn any_assisted(fields: Seq<FieldModel>) -> bool {
    exists|i: int| 0 <= i < fields.len() && is_assisted(#[trigger] fields[i])
}

/// The plan of `#[injectable]` for `input`. Hooks are read first; then the
/// fields; a struct with an assisted field gets `create`, any other gets
/// `Injectable::inject` whose fields are initialised as their attributes
/// and types say and whose bounds are what the fields ask for, each kept once
/// where it repeats in a row.
pub fn handle_injectable(input: &StructModel) -> (r: Result<InjectablePlan, InjectableError>)
    requires
        fields_consistent(input.fields@),
    ensures
        positions_where(input.attrs@, hook_unreadable()).len() > 0 ==> (r matches Err(
            InjectableError::Hooks(ps),
        ) && ps@ == positions_where(input.attrs@, hook_unreadable())),
        positions_where(input.attrs@, hook_unreadable()).len() == 0 && crate::attrs::failing_fields(
            input.fields@,
        ).len() > 0 ==> (r matches Err(InjectableError::Fields(es)) && es@.len()
            == crate::attrs::failing_fields(input.fields@).len() && forall|j: int|
            0 <= j < es@.len() ==> (#[trigger] es@[j]).0 == crate::attrs::failing_fields(input.fields@)[j]
                && es@[j].1@ == field_errors(input.fields@[es@[j].0 as int].attrs@)),
        positions_where(input.attrs@, hook_unreadable()).len() == 0 && crate::attrs::failing_fields(
            input.fields@,
        ).len() == 0 ==> r is Ok,
        r matches Ok(plan) ==> {
            &&& plan.kept_attrs@ == positions_where(input.attrs@, not_hook())
            &&& plan.parsed@.len() == input.fields@.len()
            &&& (forall|i: int|
                0 <= i < input.fields@.len() ==> parsed_field_of(
                    input.fields@[i].attrs@,
                    #[trigger] plan.parsed@[i],
                ))
            &&& (any_assisted(input.fields@) <==> plan.output is Assisted)
            &&& match plan.output {
                InjectableOutput::Inject { creation, prov, hooks, annotate_destroy } => {
                    &&& creation.tuple == (input.fields@.len() > 0 && input.fields@[0].ident is None)
                    &&& creation.inits@.len() == input.fields@.len()
                    &&& (forall|i: int|
                        0 <= i < input.fields@.len() ==> #[trigger] creation.inits@[i]
                            == init_of_field(input.fields@[i]))
                    &&& prov@ == dedup_spec(bounds_of_fields(input.fields@))
                    &&& hooks.post_construct == hook_position(input.attrs@, "post_construct"@)
                    &&& hooks.pre_destroy == hook_position(input.attrs@, "pre_destroy"@)
                    &&& hooks.async_pre_destroy == hook_position(
                        input.attrs@,
                        "async_pre_destroy"@,
                    )
                    &&& annotate_destroy == (hooks.async_pre_destroy matches Some(p) && annotates_first_param(
                        input.attrs@[p as int],
                    ))
                },
                InjectableOutput::Assisted(a) => {
                    &&& a.tuple == (input.fields@.len() > 0 && input.fields@[0].ident is None)
                    &&& a.items@.len() == input.fields@.len()
                    &&& (forall|i: int|
                        0 <= i < input.fields@.len() ==> assisted_item_of(
                            input.fields@,
                            a.tuple,
                            i,
                            #[trigger] a.items@[i],
                        ))
                    &&& a.params@.len() == assisted_positions(input.fields@).len()
                    &&& (forall|j: int|
                        0 <= j < a.params@.len() ==> (#[trigger] a.params@[j]).field
                            == assisted_positions(input.fields@)[j] && a.params@[j].name@
                            == assisted_name(input.fields@, a.tuple, a.params@[j].field as int))
                    &&& a.prov@ == dedup_spec(assisted_bounds(input.fields@))
                },
            }
        },
{
    let hooks = match InjectableAttrs::from_attrs(&input.attrs) {
        Ok(h) => h,
        Err(ps) => {
            return Err(InjectableError::Hooks(ps));
        },
    };
    let kept_attrs = kept_attr_positions(&input.attrs);
    let parsed = match ParsedField::from_fields(&input.fields) {
        Ok(ps) => ps,
        Err(es) => {
            return Err(InjectableError::Fields(es));
        },
    };
    let n = input.fields.len();
    let mut types: Vec<TypeInfo> = Vec::new();
    let mut attributes: Vec<Option<InjectExpr>> = Vec::new();
    let mut has_assisted = false;
    let mut k: usize = 0;
    while k < n
        invariant
            n == input.fields@.len(),
            n == parsed@.len(),
            forall|i: int|
                0 <= i < n ==> parsed_field_of(input.fields@[i].attrs@, #[trigger] parsed@[i]),
            k <= n,
            types@.len() == k,
            attributes@.len() == k,
            forall|i: int| 0 <= i < k ==> #[trigger] types@[i] == input.fields@[i].ty,
            forall|i: int| 0 <= i < k ==> same_inject(#[trigger] attributes@[i], parsed@[i].inject),
            has_assisted == exists|i: int| 0 <= i < k && is_assisted(#[trigger] input.fields@[i]),
        decreases n - k,
    {
        proof {
            lemma_parsed_inject(input.fields@[k as int], parsed@[k as int]);
        }
        types.push(input.fields[k].ty.clone());
        attributes.push(clone_inject(&parsed[k].inject));
        if parsed[k].assisted {
            has_assisted = true;
        }
        k = k + 1;
    }
    if has_assisted {
        let a = handle_assisted_injectable(&input.fields, &parsed);
        return Ok(InjectablePlan { kept_attrs, parsed, output: InjectableOutput::Assisted(a) });
    }
    let key_count = if n > 0 && input.fields[0].ident.is_some() { n } else { 0 };
    let creation = build_creation_output(&types, key_count, &attributes);
    proof {
        assert forall|i: int| 0 <= i < n implies #[trigger] creation.inits@[i] == init_of_field(
            input.fields@[i],
        ) by {
            lemma_parsed_inject(input.fields@[i], parsed@[i]);
            assert(types@[i] == input.fields@[i].ty);
            assert(same_inject(attributes@[i], parsed@[i].inject));
        }
        lemma_bounds_prefix(types@, attributes@, input.fields@, parsed@);
    }
    let prov = build_provider_bounds(&types, &attributes);
    let annotate_destroy = match hooks.async_pre_destroy {
        Some(p) => {
            proof {
                crate::attrs::lemma_last_where_bounds(
                    input.attrs@,
                    crate::attrs::hook_that_reads("async_pre_destroy"@),
                );
            }
            annotate_closure_first_param(&input.attrs[p])
        },
        None => false,
    };
    Ok(
        InjectablePlan {
            kept_attrs,
            parsed,
            output: InjectableOutput::Inject { creation, prov, hooks, annotate_destroy },
        },
    )
}

/// Whether two inject expressions hold the same values.
pub open spec fn same_inject(a: Option<InjectExpr>, b: Option<InjectExpr>) -> bool {
    match (a, b) {
        (Some(InjectExpr::Value(x)), Some(InjectExpr::Value(y))) => x@ == y@,
        _ => a == b,
    }
}

fn clone_inject(e: &Option<InjectExpr>) -> (c: Option<InjectExpr>)
    ensures
        same_inject(c, *e),
{
    match e {
        None => None,
        Some(InjectExpr::Named(t)) => Some(InjectExpr::Named(t.clone())),
        Some(InjectExpr::NamedStr(h)) => Some(InjectExpr::NamedStr(*h)),
        Some(InjectExpr::Value(ts)) => {
            let mut out: Vec<TypeInfo> = Vec::new();
            let mut k: usize = 0;
            while k < ts.len()
                invariant
                    k <= ts@.len(),
                    out@ == ts@.subrange(0, k as int),
                decreases ts@.len() - k,
            {
                out.push(ts[k].clone());
                k = k + 1;
                assert(out@ =~= ts@.subrange(0, k as int));
            }
            assert(ts@.subrange(0, ts@.len() as int) =~= ts@);
            assert(out@ =~= ts@);
            Some(InjectExpr::Value(out))
        },
    }
}

/// The positions of the attributes that are not lifecycle hooks.
pub fn kept_attr_positions(attrs: &Vec<AttrModel>) -> (r: Vec<usize>)
    ensures
        r@ == positions_where(attrs@, not_hook()),
{
    let mut r: Vec<usize> = Vec::new();
    let n = attrs.len();
    let mut k: usize = 0;
    while k < n
        invariant
            n == attrs@.len(),
            k <= n,
            r@ == positions_where(attrs@.subrange(0, k as int), not_hook()),
        decreases n - k,
    {
        proof {
            crate::attrs::lemma_where_step(attrs@, k as int, not_hook());
        }
        let a = &attrs[k];
        if !(name_is(&a.name, "post_construct") || name_is(&a.name, "pre_destroy") || name_is(
            &a.name,
            "async_pre_destroy",
        )) {
            r.push(k);
        }
        k = k + 1;
    }
    assert(attrs@.subrange(0, n as int) =~= attrs@);
    r
}

// ---------------------------------------------------------------------------
// `#[async_injectable]`.

/// The `#[inject]` attribute an async injectable field uses: its last one, if any.
pub open spec fn last_inject_attr(f: FieldModel) -> int {
    last_where(f.attrs@, called("inject"@))
}

/// Whether an `#[inject]` attribute reads as a plain inject expression: a
/// closure needs typed parameters; `named(..)` is an ordinary call expression.
pub open spec fn simple_inject_ok(a: AttrModel) -> bool {
    match a.inject {
        Some(InjectSyntax::Closure(ps)) => all_typed(ps@),
        Some(_) => true,
        None => false,
    }
}

/// The inputs of the plain inject expression of `a`: a closure's parameter types, else none.
pub open spec fn simple_inject_inputs(a: AttrModel) -> Seq<TypeInfo> {
    match a.inject {
        Some(InjectSyntax::Closure(ps)) => param_types(ps@),
        _ => Seq::empty(),
    }
}

/// What an async injectable field asks of the provider: its `#[inject]`
/// closure's inputs, or its own type.
pub open spec fn async_bounds_of_field(f: FieldModel) -> Seq<ProvType> {
    let i = last_inject_attr(f);
    if i >= 0 {
        plain_all(simple_inject_inputs(f.attrs@[i]))
    } else {
        seq![ProvType::Plain(f.ty)]
    }
}

/// [`async_bounds_of_field`] over the fields, field after field.
pub open spec fn async_bounds(fields: Seq<FieldModel>) -> Seq<ProvType>
    decreases fields.len(),
{
    if fields.len() == 0 {
        Seq::empty()
    } else {
        async_bounds(fields.drop_last()) + async_bounds_of_field(fields.last())
    }
}

/// Whether the field's `#[inject]` in force cannot be read.
pub open spec fn async_field_faulty(f: FieldModel) -> bool {
    last_inject_attr(f) >= 0 && !simple_inject_ok(f.attrs@[last_inject_attr(f)])
}

/// What `#[async_injectable]` generates: tuple or named-field syntax; for each
/// field whether it takes its `#[inject]` value (else it is provided
/// asynchronously); and the values the async provider must supply.
pub struct AsyncPlan {
    pub tuple: bool,
    /// For each field, the position of its `#[inject]` in force, if any.
    pub injected: Vec<Option<usize>>,
    pub prov: Vec<ProvType>,
}

/// Plans `#[async_injectable]`; fails with the position of the first field
/// whose `#[inject]` cannot be read.
pub fn handle_async_injectable(fields: &Vec<FieldModel>) -> (r: Result<AsyncPlan, usize>)
    ensures
        match r {
            Ok(p) => {
                &&& (forall|i: int| 0 <= i < fields@.len() ==> !async_field_faulty(#[trigger] fields@[i]))
                &&& p.tuple == (fields@.len() > 0 && fields@[0].ident is None)
                &&& p.injected@.len() == fields@.len()
                &&& forall|i: int|
                    0 <= i < fields@.len() ==> #[trigger] p.injected@[i] == if last_inject_attr(
                        fields@[i],
                    ) >= 0 {
                        Some(last_inject_attr(fields@[i]) as usize)
                    } else {
                        None
                    }
                &&& p.prov@ == dedup_spec(async_bounds(fields@))
            },
            Err(i) => i < fields@.len() && async_field_faulty(fields@[i as int]) && forall|j: int|
                0 <= j < i ==> !async_field_faulty(#[trigger] fields@[j]),
        },
{
    let n = fields.len();
    let tuple = n > 0 && fields[0].ident.is_none();
    let mut injected: Vec<Option<usize>> = Vec::new();
    let mut prov: Vec<ProvType> = Vec::new();
    let mut k: usize = 0;
    while k < n
        invariant
            n == fields@.len(),
            k <= n,
            injected@.len() == k,
            forall|i: int| 0 <= i < k ==> !async_field_faulty(#[trigger] fields@[i]),
            forall|i: int|
                0 <= i < k ==> #[trigger] injected@[i] == if last_inject_attr(fields@[i]) >= 0 {
                    Some(last_inject_attr(fields@[i]) as usize)
                } else {
                    None
                },
            prov@ == async_bounds(fields@.subrange(0, k as int)),
        decreases n - k,
    {
        assert(fields@.subrange(0, k + 1).drop_last() =~= fields@.subrange(0, k as int));
        assert(fields@.subrange(0, k + 1).last() == fields@[k as int]);
        let f = &fields[k];
        let ghost before = prov@;
        let attrs = &f.attrs;
        let mut last: usize = attrs.len();
        let mut j: usize = attrs.len();
        assert(attrs@.subrange(0, attrs@.len() as int) =~= attrs@);
        while j > 0
            invariant
                j <= attrs@.len(),
                last == attrs@.len() ==> last_where(attrs@, called("inject"@)) == last_where(
                    attrs@.subrange(0, j as int),
                    called("inject"@),
                ),
                last < attrs@.len() ==> last == last_where(attrs@, called("inject"@)),
                last == attrs@.len() || last < attrs@.len(),
            decreases j,
        {
            proof {
                crate::attrs::lemma_where_step(attrs@, j - 1, called("inject"@));
            }
            if last == attrs.len() && name_is(&attrs[j - 1].name, "inject") {
                last = j - 1;
            }
            j = j - 1;
        }
        proof {
            crate::attrs::lemma_last_where_bounds(attrs@, called("inject"@));
        }
        if last < attrs.len() {
            let a = &attrs[last];
            let ok = match &a.inject {
                Some(InjectSyntax::Closure(ps)) => match factory_inputs(ps) {
                    Ok(ts) => {
                        clone_prov_list(&ts, &mut prov);
                        true
                    },
                    Err(_) => false,
                },
                Some(_) => true,
                None => false,
            };
            if !ok {
                return Err(k);
            }
            injected.push(Some(last));
        } else {
            prov.push(ProvType::Plain(f.ty.clone()));
            injected.push(None);
        }
        assert(prov@ =~= before + async_bounds_of_field(fields@[k as int]));
        k = k + 1;
    }
    assert(fields@.subrange(0, n as int) =~= fields@);
    Ok(AsyncPlan { tuple, injected, prov: dedup_prov(prov) })
}

// ---------------------------------------------------------------------------
// Hook closures and `#[inject(..)]` on a struct.

/// Whether a hook's expression is a closure whose first parameter is a bare
/// name, which is then typed `&mut Self` so that an async block borrowing it
/// gets the right lifetime.
pub open spec fn annotates_first_param(hook: AttrModel) -> bool {
    hook.inject matches Some(InjectSyntax::Closure(ps)) && ps@.len() > 0 && ps@[0].ident is Some
        && ps@[0].ty is None
}

/// Tells whether the hook's closure has its first parameter typed `&mut Self`.
pub fn annotate_closure_first_param(hook: &AttrModel) -> (b: bool)
    ensures
        b == annotates_first_param(*hook),
{
    match &hook.inject {
        Some(InjectSyntax::Closure(ps)) => ps.len() > 0 && ps[0].ident.is_some() && ps[0].ty.is_none(),
        _ => false,
    }
}

/// A plain inject expression: the types the provider supplies to it, in
/// the order of the closure's parameters (none for any other expression).
pub struct SimpleInjectExpr {
    pub inputs: Vec<TypeInfo>,
}

/// Why `#[inject(..)]` on a struct is refused.
pub enum InjectError {
    /// The arguments are no expression.
    Unparsable,
    /// The closure parameter at this position has no type.
    UntypedParam(usize),
}

/// What `#[inject(..)]` on a struct reads as: a closure with typed
/// parameters, or any other expression (which takes no inputs).
pub fn handle_inject(attr: &Option<InjectSyntax>) -> (r: Result<SimpleInjectExpr, InjectError>)
    ensures
        match *attr {
            None => r matches Err(InjectError::Unparsable),
            Some(InjectSyntax::Closure(ps)) => match r {
                Ok(e) => all_typed(ps@) && e.inputs@ == param_types(ps@),
                Err(InjectError::UntypedParam(i)) => i < ps@.len() && ps@[i as int].ty is None && all_typed(
                    ps@.subrange(0, i as int),
                ),
                Err(InjectError::Unparsable) => false,
            },
            Some(_) => r matches Ok(e) && e.inputs@.len() == 0,
        },
{
    match attr {
        None => Err(InjectError::Unparsable),
        Some(InjectSyntax::Closure(ps)) => match factory_inputs(ps) {
            Ok(inputs) => Ok(SimpleInjectExpr { inputs }),
            Err(i) => Err(InjectError::UntypedParam(i)),
        },
        Some(_) => Ok(SimpleInjectExpr { inputs: Vec::new() }),
    }
}

// ---------------------------------------------------------------------------
// Every value a field asks for is among the provider bounds.

proof fn lemma_dedup_keeps_renderings(s: Seq<ProvType>)
    ensures
        forall|k: int|
            0 <= k < s.len() ==> exists|k2: int|
                0 <= k2 < dedup_spec(s).len() && prov_text(#[trigger] dedup_spec(s)[k2]) == prov_text(
                    #[trigger] s[k],
                ),
    decreases s.len(),
{
    if s.len() > 0 {
        let p = s.drop_last();
        let d = dedup_spec(p);
        lemma_dedup_keeps_renderings(p);
        let r = dedup_spec(s);
        assert(d.len() <= r.len());
        assert forall|k2: int| 0 <= k2 < d.len() implies r[k2] == d[k2] by {}
        assert forall|k: int| 0 <= k < s.len() implies exists|k2: int|
            0 <= k2 < r.len() && prov_text(#[trigger] r[k2]) == prov_text(#[trigger] s[k]) by {
            if k < s.len() - 1 {
                assert(s[k] == p[k]);
                let k2 = choose|k2: int| 0 <= k2 < d.len() && prov_text(#[trigger] d[k2]) == prov_text(p[k]);
                assert(r[k2] == d[k2]);
            } else if d.len() > 0 && same_prov(s.last(), d.last()) {
                assert(r[d.len() - 1] == d.last());
            } else {
                assert(r[d.len() as int] == s.last());
            }
        }
    }
}

proof fn lemma_async_bound_at(fields: Seq<FieldModel>, i: int, j: int)
    requires
        0 <= i < fields.len(),
        0 <= j < async_bounds_of_field(fields[i]).len(),
    ensures
        exists|k: int|
            0 <= k < async_bounds(fields).len() && #[trigger] async_bounds(fields)[k] == async_bounds_of_field(
                fields[i],
            )[j],
    decreases fields.len(),
{
    let p = fields.drop_last();
    let a = async_bounds(p);
    let b = async_bounds_of_field(fields.last());
    assert(async_bounds(fields) == a + b);
    if i < fields.len() - 1 {
        assert(fields[i] == p[i]);
        lemma_async_bound_at(p, i, j);
        let k = choose|k: int| 0 <= k < a.len() && #[trigger] a[k] == async_bounds_of_field(p[i])[j];
        assert(async_bounds(fields)[k] == a[k]);
    } else {
        assert(async_bounds(fields)[a.len() + j] == b[j]);
    }
}

proof fn lemma_assisted_bound_at(fields: Seq<FieldModel>, i: int, j: int)
    requires
        0 <= i < fields.len(),
        0 <= j < assisted_bounds_of_field(fields[i]).len(),
    ensures
        exists|k: int|
            0 <= k < assisted_bounds(fields).len() && #[trigger] assisted_bounds(fields)[k] == assisted_bounds_of_field(
                fields[i],
            )[j],
    decreases fields.len(),
{
    let p = fields.drop_last();
    let a = assisted_bounds(p);
    let b = assisted_bounds_of_field(fields.last());
    assert(assisted_bounds(fields) == a + b);
    if i < fields.len() - 1 {
        assert(fields[i] == p[i]);
        lemma_assisted_bound_at(p, i, j);
        let k = choose|k: int| 0 <= k < a.len() && #[trigger] a[k] == assisted_bounds_of_field(p[i])[j];
        assert(assisted_bounds(fields)[k] == a[k]);
    } else {
        assert(assisted_bounds(fields)[a.len() + j] == b[j]);
    }
}

/// The parameters of the closure of the `#[inject(..)]` in force on an async
/// injectable field, when it is a closure.
pub open spec fn async_closure_params(f: FieldModel) -> Seq<ClosureParam> {
    let i = last_inject_attr(f);
    if i >= 0 {
        match f.attrs@[i].inject {
            Some(InjectSyntax::Closure(ps)) => ps@,
            _ => Seq::empty(),
        }
    } else {
        Seq::empty()
    }
}

/// The async provider is bound to supply every typed parameter of each
/// field's `#[inject]` closure, and the type of each field without
/// `#[inject]`: some bound renders as that type.
pub proof fn law_async_bounds_cover_field_inputs(fields: Seq<FieldModel>, prov: Seq<ProvType>)
    requires
        prov == dedup_spec(async_bounds(fields)),
    ensures
        forall|i: int, j: int|
            0 <= i < fields.len() && 0 <= j < async_closure_params(fields[i]).len() && (#[trigger] async_closure_params(
                fields[i],
            )[j]).ty is Some ==> exists|k: int|
                0 <= k < prov.len() && prov_text(#[trigger] prov[k]) == async_closure_params(fields[i])[j].ty->0.key@,
        forall|i: int|
            0 <= i < fields.len() && last_inject_attr(#[trigger] fields[i]) < 0 ==> exists|k: int|
                0 <= k < prov.len() && prov_text(#[trigger] prov[k]) == fields[i].ty.key@,
{
    let all = async_bounds(fields);
    lemma_dedup_keeps_renderings(all);
    assert forall|i: int, j: int|
        0 <= i < fields.len() && 0 <= j < async_closure_params(fields[i]).len() && (#[trigger] async_closure_params(
            fields[i],
        )[j]).ty is Some implies exists|k: int|
            0 <= k < prov.len() && prov_text(#[trigger] prov[k]) == async_closure_params(fields[i])[j].ty->0.key@ by {
        let x = async_bounds_of_field(fields[i])[j];
        assert(x == ProvType::Plain(async_closure_params(fields[i])[j].ty->0));
        lemma_async_bound_at(fields, i, j);
        let k0 = choose|k: int| 0 <= k < all.len() && #[trigger] all[k] == async_bounds_of_field(fields[i])[j];
        assert(prov_text(all[k0]) == async_closure_params(fields[i])[j].ty->0.key@);
    }
    assert forall|i: int| 0 <= i < fields.len() && last_inject_attr(#[trigger] fields[i]) < 0 implies exists|k: int|
        0 <= k < prov.len() && prov_text(#[trigger] prov[k]) == fields[i].ty.key@ by {
        let x = async_bounds_of_field(fields[i])[0];
        lemma_async_bound_at(fields, i, 0);
        let k0 = choose|k: int| 0 <= k < all.len() && #[trigger] all[k] == async_bounds_of_field(fields[i])[0];
        assert(prov_text(all[k0]) == fields[i].ty.key@);
    }
}

/// The parameters of the closure of the readable `#[inject(..)]` in force on
/// a field, when it is a closure.
pub open spec fn inject_closure_params(f: FieldModel) -> Seq<ClosureParam> {
    match inject_syntax_of(f) {
        Some(InjectSyntax::Closure(ps)) => ps@,
        _ => Seq::empty(),
    }
}

/// The tag of the `#[inject(named(Tag))]` in force on a field, if it has one.
pub open spec fn inject_tag(f: FieldModel) -> Option<TypeInfo> {
    match inject_syntax_of(f) {
        Some(InjectSyntax::NamedType(tag)) => Some(tag),
        _ => None,
    }
}

proof fn lemma_fields_bound_at(fields: Seq<FieldModel>, i: int, j: int)
    requires
        0 <= i < fields.len(),
        0 <= j < bounds_of_field(fields[i]).len(),
    ensures
        exists|k: int|
            0 <= k < bounds_of_fields(fields).len() && #[trigger] bounds_of_fields(fields)[k] == bounds_of_field(
                fields[i],
            )[j],
    decreases fields.len(),
{
    let p = fields.drop_last();
    let a = bounds_of_fields(p);
    let b = bounds_of_field(fields.last());
    assert(bounds_of_fields(fields) == a + b);
    if i < fields.len() - 1 {
        assert(fields[i] == p[i]);
        lemma_fields_bound_at(p, i, j);
        let k = choose|k: int| 0 <= k < a.len() && #[trigger] a[k] == bounds_of_field(p[i])[j];
        assert(bounds_of_fields(fields)[k] == a[k]);
    } else {
        assert(bounds_of_fields(fields)[a.len() + j] == b[j]);
    }
}

/// Whether a field without `#[inject]` asks the provider for its own type:
/// it is no `Option`, `Late` or `Lazy`.
pub open spec fn provided_as_itself(f: FieldModel) -> bool {
    inject_syntax_of(f) is None && !type_named(f.ty, "Option"@) && !type_named(f.ty, "Late"@) && !type_named(
        f.ty,
        "Lazy"@,
    )
}

/// `Injectable::inject` is bound to supply every parameter type of each
/// field's `#[inject]` closure, the tagged value of each field injected by
/// `named(Tag)`, and the type of each field provided as itself: some bound
/// renders as it.
pub proof fn law_injectable_bounds_cover_field_inputs(fields: Seq<FieldModel>, prov: Seq<ProvType>)
    requires
        prov == dedup_spec(bounds_of_fields(fields)),
    ensures
        forall|i: int, j: int|
            0 <= i < fields.len() && 0 <= j < inject_closure_params(fields[i]).len() ==> exists|k: int|
                0 <= k < prov.len() && prov_text(#[trigger] prov[k]) == (#[trigger] inject_closure_params(
                    fields[i],
                )[j]).ty->0.key@,
        forall|i: int|
            0 <= i < fields.len() && (#[trigger] inject_tag(fields[i])) is Some ==> exists|k: int|
                0 <= k < prov.len() && prov_text(#[trigger] prov[k]) == prov_text(
                    ProvType::Named(inject_tag(fields[i])->0, fields[i].ty),
                ),
        forall|i: int|
            0 <= i < fields.len() && provided_as_itself(#[trigger] fields[i]) ==> exists|k: int|
                0 <= k < prov.len() && prov_text(#[trigger] prov[k]) == fields[i].ty.key@,
{
    let all = bounds_of_fields(fields);
    lemma_dedup_keeps_renderings(all);
    assert forall|i: int, j: int| 0 <= i < fields.len() && 0 <= j < inject_closure_params(fields[i]).len() implies exists|
        k: int,
    |
        0 <= k < prov.len() && prov_text(#[trigger] prov[k]) == (#[trigger] inject_closure_params(
            fields[i],
        )[j]).ty->0.key@ by {
        assert(bounds_of_field(fields[i])[j] == ProvType::Plain(inject_closure_params(fields[i])[j].ty->0));
        lemma_fields_bound_at(fields, i, j);
        let k0 = choose|k: int| 0 <= k < all.len() && #[trigger] all[k] == bounds_of_field(fields[i])[j];
        assert(prov_text(all[k0]) == inject_closure_params(fields[i])[j].ty->0.key@);
    }
    assert forall|i: int| 0 <= i < fields.len() && (#[trigger] inject_tag(fields[i])) is Some implies exists|k: int|
        0 <= k < prov.len() && prov_text(#[trigger] prov[k]) == prov_text(
            ProvType::Named(inject_tag(fields[i])->0, fields[i].ty),
        ) by {
        assert(bounds_of_field(fields[i])[0] == ProvType::Named(inject_tag(fields[i])->0, fields[i].ty));
        lemma_fields_bound_at(fields, i, 0);
        let k0 = choose|k: int| 0 <= k < all.len() && #[trigger] all[k] == bounds_of_field(fields[i])[0];
        assert(prov_text(all[k0]) == prov_text(ProvType::Named(inject_tag(fields[i])->0, fields[i].ty)));
    }
    assert forall|i: int| 0 <= i < fields.len() && provided_as_itself(#[trigger] fields[i]) implies exists|k: int|
        0 <= k < prov.len() && prov_text(#[trigger] prov[k]) == fields[i].ty.key@ by {
        assert(bounds_of_field(fields[i])[0] == ProvType::Plain(fields[i].ty));
        lemma_fields_bound_at(fields, i, 0);
        let k0 = choose|k: int| 0 <= k < all.len() && #[trigger] all[k] == bounds_of_field(fields[i])[0];
        assert(prov_text(all[k0]) == fields[i].ty.key@);
    }
}

/// `create` of an assisted struct is bound to supply every parameter type of
/// each injected field's `#[inject]` closure, and the tagged or keyed value
/// of each field injected by name: some bound renders as it.
pub proof fn law_assisted_bounds_cover_field_inputs(fields: Seq<FieldModel>, prov: Seq<ProvType>)
    requires
        prov == dedup_spec(assisted_bounds(fields)),
    ensures
        forall|i: int, j: int|
            0 <= i < fields.len() && !is_assisted(fields[i]) && 0 <= j < inject_closure_params(fields[i]).len()
                ==> exists|k: int|
                0 <= k < prov.len() && prov_text(#[trigger] prov[k]) == (#[trigger] inject_closure_params(
                    fields[i],
                )[j]).ty->0.key@,
        forall|i: int|
            0 <= i < fields.len() && !is_assisted(fields[i]) && (#[trigger] inject_tag(fields[i])) is Some
                ==> exists|k: int|
                0 <= k < prov.len() && prov_text(#[trigger] prov[k]) == prov_text(
                    ProvType::Named(inject_tag(fields[i])->0, fields[i].ty),
                ),
        forall|i: int|
            0 <= i < fields.len() && !is_assisted(fields[i]) && provided_as_itself(#[trigger] fields[i]) ==> exists|
                k: int,
            | 0 <= k < prov.len() && prov_text(#[trigger] prov[k]) == fields[i].ty.key@,
{
    let all = assisted_bounds(fields);
    lemma_dedup_keeps_renderings(all);
    assert forall|i: int, j: int|
        0 <= i < fields.len() && !is_assisted(fields[i]) && 0 <= j < inject_closure_params(fields[i]).len()
            implies exists|k: int|
            0 <= k < prov.len() && prov_text(#[trigger] prov[k]) == (#[trigger] inject_closure_params(
                fields[i],
            )[j]).ty->0.key@ by {
        let x = assisted_bounds_of_field(fields[i])[j];
        assert(x == ProvType::Plain(inject_closure_params(fields[i])[j].ty->0));
        lemma_assisted_bound_at(fields, i, j);
        let k0 = choose|k: int| 0 <= k < all.len() && #[trigger] all[k] == assisted_bounds_of_field(fields[i])[j];
        assert(prov_text(all[k0]) == inject_closure_params(fields[i])[j].ty->0.key@);
    }
    assert forall|i: int|
        0 <= i < fields.len() && !is_assisted(fields[i]) && (#[trigger] inject_tag(fields[i])) is Some implies exists|
            k: int,
        |
            0 <= k < prov.len() && prov_text(#[trigger] prov[k]) == prov_text(
                ProvType::Named(inject_tag(fields[i])->0, fields[i].ty),
            ) by {
        let tag = inject_tag(fields[i])->0;
        let x = assisted_bounds_of_field(fields[i])[0];
        assert(x == ProvType::Named(tag, fields[i].ty));
        lemma_assisted_bound_at(fields, i, 0);
        let k0 = choose|k: int| 0 <= k < all.len() && #[trigger] all[k] == assisted_bounds_of_field(fields[i])[0];
        assert(prov_text(all[k0]) == prov_text(ProvType::Named(tag, fields[i].ty)));
    }
    assert forall|i: int|
        0 <= i < fields.len() && !is_assisted(fields[i]) && provided_as_itself(#[trigger] fields[i]) implies exists|
            k: int,
        | 0 <= k < prov.len() && prov_text(#[trigger] prov[k]) == fields[i].ty.key@ by {
        assert(assisted_bounds_of_field(fields[i])[0] == ProvType::Plain(fields[i].ty));
        lemma_assisted_bound_at(fields, i, 0);
        let k0 = choose|k: int| 0 <= k < all.len() && #[trigger] all[k] == assisted_bounds_of_field(fields[i])[0];
        assert(prov_text(all[k0]) == fields[i].ty.key@);
    }
}

} // verus!

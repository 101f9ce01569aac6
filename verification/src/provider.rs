//! What `#[provider]` generates: which fields are imported modules, which
//! fields are provided and as what, and the struct-level bindings with their
//! decorators.
use vstd::prelude::*;
use crate::attrs::{
    called, called_either, failing_fields, field_errors, lemma_positions_where_valid,
    lemma_struct_attr_names_distinct, lemma_where_step, parse_decorate, parse_field_factory,
    parse_type_factory, param_types, parsed_field_of, positions_where, all_typed, factory_inputs, DecorateStructInput,
    DecorateError, FieldError, FieldFactoryExpr, FieldFactoryError, ParsedField, ProviderAttrs,
    TypeFactoryInput,
};
use crate::model::{
    attr_is, copy_string, name_is, AttrModel, DecorateSyntax, FieldFactorySyntax, FieldModel,
    ScopeField, StructModel, TypeFactorySyntax, TypeInfo,
};
use crate::scope::{gen_scope_output, read_fields, scope_firsts, scope_plan_of, ScopePlan};

verus! {

// ---------------------------------------------------------------------------
// Which fields.

/// The positions of the `#[import]` fields.
pub open spec fn import_positions(ps: Seq<ParsedField>) -> Seq<usize>
    decreases ps.len(),
{
    if ps.len() == 0 {
        Seq::empty()
    } else if ps.last().import {
        import_positions(ps.drop_last()).push((ps.len() - 1) as usize)
    } else {
        import_positions(ps.drop_last())
    }
}

/// The positions of the fields with `#[provide]` or `#[singleton]`.
pub open spec fn provide_positions(ps: Seq<ParsedField>) -> Seq<usize>
    decreases ps.len(),
{
    if ps.len() == 0 {
        Seq::empty()
    } else if ps.last().provide_attrs@.len() > 0 || ps.last().singleton {
        provide_positions(ps.drop_last()).push((ps.len() - 1) as usize)
    } else {
        provide_positions(ps.drop_last())
    }
}

/// Fields that the provider reads: the imported modules, and each provided
/// field with the positions of its `#[provide]` / `#[singleton]` attributes.
pub struct ProviderFields {
    pub imports: Vec<usize>,
    pub provides: Vec<(usize, Vec<usize>)>,
}

/// Picks out the imported and the provided fields of a provider.
pub fn provider_fields(fields: &Vec<FieldModel>, parsed: &Vec<ParsedField>) -> (r: ProviderFields)
    requires
        parsed@.len() == fields@.len(),
        forall|i: int|
            0 <= i < fields@.len() ==> parsed_field_of(fields@[i].attrs@, #[trigger] parsed@[i]),
    ensures
        r.imports@ == import_positions(parsed@),
        r.provides@.len() == provide_positions(parsed@).len(),
        forall|j: int|
            0 <= j < r.provides@.len() ==> (#[trigger] r.provides@[j]).0 == provide_positions(
                parsed@,
            )[j] && r.provides@[j].1@ == positions_where(
                fields@[r.provides@[j].0 as int].attrs@,
                called_either("provide"@, "singleton"@),
            ),
{
    let n = fields.len();
    let mut imports: Vec<usize> = Vec::new();
    let mut provides: Vec<(usize, Vec<usize>)> = Vec::new();
    let mut k: usize = 0;
    while k < n
        invariant
            n == fields@.len(),
            n == parsed@.len(),
            forall|i: int|
                0 <= i < fields@.len() ==> parsed_field_of(fields@[i].attrs@, #[trigger] parsed@[i]),
            k <= n,
            imports@ == import_positions(parsed@.subrange(0, k as int)),
            provides@.len() == provide_positions(parsed@.subrange(0, k as int)).len(),
            forall|j: int|
                0 <= j < provides@.len() ==> (#[trigger] provides@[j]).0 == provide_positions(
                    parsed@.subrange(0, k as int),
                )[j] && provides@[j].0 < k && provides@[j].1@ == positions_where(
                    fields@[provides@[j].0 as int].attrs@,
                    called_either("provide"@, "singleton"@),
                ),
        decreases n - k,
    {
        assert(parsed@.subrange(0, k + 1).drop_last() =~= parsed@.subrange(0, k as int));
        assert(parsed@.subrange(0, k + 1).last() == parsed@[k as int]);
        let p = &parsed[k];
        if p.import {
            imports.push(k);
        }
        if p.has_provide_or_singleton() {
            let mut attrs: Vec<usize> = Vec::new();
            let mut j: usize = 0;
            while j < p.provide_attrs.len()
                invariant
                    j <= p.provide_attrs@.len(),
                    attrs@ == p.provide_attrs@.subrange(0, j as int),
                decreases p.provide_attrs@.len() - j,
            {
                attrs.push(p.provide_attrs[j]);
                j = j + 1;
                assert(attrs@ =~= p.provide_attrs@.subrange(0, j as int));
            }
            assert(attrs@ =~= p.provide_attrs@);
            provides.push((k, attrs));
        }
        k = k + 1;
    }
    assert(parsed@.subrange(0, n as int) =~= parsed@);
    ProviderFields { imports, provides }
}

// ---------------------------------------------------------------------------
// Provided fields.

/// The lifetime of a provided reference.
pub enum RefLifetime {
    /// `'prov`, the provider's borrow.
    Prov,
    /// The field's own reference lifetime (none written: plain `&`).
    Field(Option<String>),
}

/// The type a `Provider` impl provides.
pub enum ProvidedType {
    /// A reference to the type with this token text.
    Ref(RefLifetime, String),
    /// The type given in the attribute.
    Given(TypeInfo),
}

/// One `Provider` impl for a field: the type it provides, and whether its
/// body binds the field to a closure variable before the closure's body.
/// The field is borrowed (`&self.field`) unless it is itself a reference.
pub struct ProvideImpl {
    pub field: usize,
    pub ty: ProvidedType,
    pub closure_var: Option<String>,
    pub borrow: bool,
}

/// What a field-level provide attribute reads as: a bare attribute provides
/// the field's own type.
pub open spec fn field_factory_of(a: AttrModel, f: FieldModel) -> Option<FieldFactorySyntax> {
    if a.bare {
        Some(FieldFactorySyntax::Type(f.ty))
    } else {
        a.field_factory
    }
}

/// Whether a field-level provide attribute can be read.
pub open spec fn field_factory_ok(a: AttrModel) -> bool {
    a.bare || match a.field_factory {
        Some(FieldFactorySyntax::TypeClosure(_, ps)) => ps@.len() == 1 && ps@[0].ident is Some
            && ps@[0].ty is None,
        Some(_) => true,
        None => false,
    }
}

/// The lifetime a reference provided from field `f` carries.
pub open spec fn ref_lifetime_of(f: FieldModel) -> RefLifetime {
    match f.ty.reference {
        Some(r) => RefLifetime::Field(r.lifetime),
        None => RefLifetime::Prov,
    }
}

/// The text of the type a reference to `t` points to (`t` itself, or what `t` refers to).
pub open spec fn pointee_of(t: TypeInfo) -> Seq<char> {
    match t.reference {
        Some(r) => r.elem_key@,
        None => t.key@,
    }
}

/// Whether `imp` is the impl that provide attribute `a` of field `i` (`f`) asks for.
pub open spec fn provide_impl_of(a: AttrModel, f: FieldModel, i: usize, imp: ProvideImpl) -> bool {
    let borrow = f.ty.reference is None;
    &&& imp.field == i
    &&& imp.borrow == borrow
    &&& if a.bare {
        imp.ty matches ProvidedType::Ref(l, t) && l == ref_lifetime_of(f) && t@ == pointee_of(f.ty)
            && imp.closure_var is None
    } else {
        match a.field_factory {
            Some(FieldFactorySyntax::Empty) => imp.ty matches ProvidedType::Ref(l, t) && l
                == ref_lifetime_of(f) && t@ == pointee_of(f.ty) && imp.closure_var is None,
            Some(FieldFactorySyntax::Type(g)) => imp.ty matches ProvidedType::Ref(l, t) && l
                == ref_lifetime_of(f) && t@ == pointee_of(g) && imp.closure_var is None,
            Some(FieldFactorySyntax::TypeClosure(g, ps)) => imp.ty == ProvidedType::Given(g)
                && (imp.closure_var matches Some(v) && v@ == ps@[0].ident->0@),
            None => false,
        }
    }
}

fn clone_lifetime(l: &Option<String>) -> (c: Option<String>)
    ensures
        c == *l,
{
    match l {
        Some(s) => Some(s.clone()),
        None => None,
    }
}

fn ref_lifetime(f: &FieldModel) -> (l: RefLifetime)
    ensures
        l == ref_lifetime_of(*f),
{
    match &f.ty.reference {
        Some(r) => RefLifetime::Field(clone_lifetime(&r.lifetime)),
        None => RefLifetime::Prov,
    }
}

fn pointee(t: &TypeInfo) -> (s: String)
    ensures
        s@ == pointee_of(*t),
{
    match &t.reference {
        Some(r) => copy_string(&r.elem_key),
        None => copy_string(&t.key),
    }
}

/// The `Provider` impl for provide attribute `attr` of field `i`.
pub fn provide_impl(attr: &AttrModel, field: &FieldModel, i: usize) -> (r: ProvideImpl)
    requires
        field_factory_ok(*attr),
    ensures
        provide_impl_of(*attr, *field, i, r),
{
    let borrow = field.ty.reference.is_none();
    if attr.bare {
        return ProvideImpl {
            field: i,
            ty: ProvidedType::Ref(ref_lifetime(field), pointee(&field.ty)),
            closure_var: None,
            borrow,
        };
    }
    match &attr.field_factory {
        Some(syn) => {
            let read = parse_field_factory(syn);
            match read {
                Ok(FieldFactoryExpr::Empty) => ProvideImpl {
                    field: i,
                    ty: ProvidedType::Ref(ref_lifetime(field), pointee(&field.ty)),
                    closure_var: None,
                    borrow,
                },
                Ok(FieldFactoryExpr::Type(g)) => ProvideImpl {
                    field: i,
                    ty: ProvidedType::Ref(ref_lifetime(field), pointee(&g)),
                    closure_var: None,
                    borrow,
                },
                Ok(FieldFactoryExpr::TypeExpr(g, v)) => ProvideImpl {
                    field: i,
                    ty: ProvidedType::Given(g),
                    closure_var: Some(v),
                    borrow,
                },
                Err(_) => vstd::pervasive::unreached(),
            }
        },
        None => vstd::pervasive::unreached(),
    }
}

/// The `Provider` impls of the provided fields: for each field, one per
/// provide attribute, in order.
pub fn gen_providers_for_provide_attr_on_fields(
    fields: &Vec<FieldModel>,
    provides: &Vec<(usize, Vec<usize>)>,
) -> (r: Vec<Vec<ProvideImpl>>)
    requires
        forall|j: int|
            0 <= j < provides@.len() ==> (#[trigger] provides@[j]).0 < fields@.len() && forall|
                k: int,
            |
                0 <= k < provides@[j].1@.len() ==> #[trigger] provides@[j].1@[k]
                    < fields@[provides@[j].0 as int].attrs@.len() && field_factory_ok(
                    fields@[provides@[j].0 as int].attrs@[provides@[j].1@[k] as int],
                ),
    ensures
        r@.len() == provides@.len(),
        forall|j: int|
            0 <= j < r@.len() ==> (#[trigger] r@[j])@.len() == provides@[j].1@.len() && forall|
                k: int,
            |
                0 <= k < r@[j]@.len() ==> provide_impl_of(
                    fields@[provides@[j].0 as int].attrs@[provides@[j].1@[k] as int],
                    fields@[provides@[j].0 as int],
                    provides@[j].0,
                    #[trigger] r@[j]@[k],
                ),
{
    let mut out: Vec<Vec<ProvideImpl>> = Vec::new();
    let mut j: usize = 0;
    while j < provides.len()
        invariant
            j <= provides@.len(),
            forall|j: int|
                0 <= j < provides@.len() ==> (#[trigger] provides@[j]).0 < fields@.len() && forall|
                    k: int,
                |
                    0 <= k < provides@[j].1@.len() ==> #[trigger] provides@[j].1@[k]
                        < fields@[provides@[j].0 as int].attrs@.len() && field_factory_ok(
                        fields@[provides@[j].0 as int].attrs@[provides@[j].1@[k] as int],
                    ),
            out@.len() == j,
            forall|jj: int|
                0 <= jj < j ==> (#[trigger] out@[jj])@.len() == provides@[jj].1@.len() && forall|
                    k: int,
                |
                    0 <= k < out@[jj]@.len() ==> provide_impl_of(
                        fields@[provides@[jj].0 as int].attrs@[provides@[jj].1@[k] as int],
                        fields@[provides@[jj].0 as int],
                        provides@[jj].0,
                        #[trigger] out@[jj]@[k],
                    ),
        decreases provides@.len() - j,
    {
        let (i, attrs) = (&provides[j].0, &provides[j].1);
        let field = &fields[*i];
        let mut impls: Vec<ProvideImpl> = Vec::new();
        let mut k: usize = 0;
        while k < attrs.len()
            invariant
                k <= attrs@.len(),
                attrs@ == provides@[j as int].1@,
                *i == provides@[j as int].0,
                *field == fields@[*i as int],
                forall|k: int|
                    0 <= k < attrs@.len() ==> #[trigger] attrs@[k] < field.attrs@.len()
                        && field_factory_ok(field.attrs@[attrs@[k] as int]),
                impls@.len() == k,
                forall|kk: int|
                    0 <= kk < k ==> provide_impl_of(
                        field.attrs@[attrs@[kk] as int],
                        *field,
                        *i,
                        #[trigger] impls@[kk],
                    ),
            decreases attrs@.len() - k,
        {
            impls.push(provide_impl(&field.attrs[attrs[k]], field, *i));
            k = k + 1;
        }
        out.push(impls);
        j = j + 1;
    }
    out
}

// ---------------------------------------------------------------------------
// Struct-level bindings.

/// A struct-level `#[provide(Type, ..)]` binding: the attribute's position,
/// what it reads as, and the positions (in the decorator list) of the
/// decorators of the same type, in the order written.
pub struct StructProvide {
    pub attr: usize,
    pub factory: TypeFactoryInput,
    pub decorators: Vec<usize>,
}

/// The positions of the decorators whose type renders as `key`.
pub open spec fn decorators_for(ds: Seq<DecorateStructInput>, key: Seq<char>) -> Seq<usize>
    decreases ds.len(),
{
    if ds.len() == 0 {
        Seq::empty()
    } else if ds.last().ty.key@ == key {
        decorators_for(ds.drop_last(), key).push((ds.len() - 1) as usize)
    } else {
        decorators_for(ds.drop_last(), key)
    }
}

/// Whether decorator syntax can be read.
pub open spec fn decorate_ok(s: DecorateSyntax) -> bool {
    s.params@.len() == 1 && s.params@[0].ident is Some
}

/// Whether struct-level factory syntax can be read.
pub open spec fn type_factory_ok(s: TypeFactorySyntax) -> bool {
    s matches TypeFactorySyntax::TypeClosure(_, ps) ==> all_typed(ps@)
}

/// The decorators, read; every one must read.
pub fn parse_decorators(ds: &Vec<DecorateSyntax>) -> (r: Vec<DecorateStructInput>)
    requires
        forall|i: int| 0 <= i < ds@.len() ==> decorate_ok(#[trigger] ds@[i]),
    ensures
        r@.len() == ds@.len(),
        forall|i: int|
            0 <= i < ds@.len() ==> (#[trigger] r@[i]).ty == ds@[i].ty && r@[i].var@
                == ds@[i].params@[0].ident->0@,
{
    let mut r: Vec<DecorateStructInput> = Vec::new();
    let mut k: usize = 0;
    while k < ds.len()
        invariant
            k <= ds@.len(),
            forall|i: int| 0 <= i < ds@.len() ==> decorate_ok(#[trigger] ds@[i]),
            r@.len() == k,
            forall|i: int|
                0 <= i < k ==> (#[trigger] r@[i]).ty == ds@[i].ty && r@[i].var@
                    == ds@[i].params@[0].ident->0@,
        decreases ds@.len() - k,
    {
        match parse_decorate(&ds[k]) {
            Ok(d) => r.push(d),
            Err(_) => {
                assert(false);
            },
        }
        k = k + 1;
    }
    r
}

/// The decorators of one type, in the order written.
pub fn decorators_of_type(ds: &Vec<DecorateStructInput>, key: &String) -> (r: Vec<usize>)
    ensures
        r@ == decorators_for(ds@, key@),
{
    let mut r: Vec<usize> = Vec::new();
    let mut k: usize = 0;
    while k < ds.len()
        invariant
            k <= ds@.len(),
            r@ == decorators_for(ds@.subrange(0, k as int), key@),
        decreases ds@.len() - k,
    {
        assert(ds@.subrange(0, k + 1).drop_last() =~= ds@.subrange(0, k as int));
        if ds[k].ty.key == *key {
            r.push(k);
        }
        k = k + 1;
    }
    assert(ds@.subrange(0, ds@.len() as int) =~= ds@);
    r
}

/// The struct-level bindings of a provider: each `#[provide(Type, ..)]`, in
/// order, with the decorators written for the same type applied in the
/// order written.
pub fn gen_providers_for_provide_attr_on_struct(
    provides: &Vec<(usize, TypeFactorySyntax)>,
    decorates: &Vec<DecorateSyntax>,
) -> (r: Vec<StructProvide>)
    requires
        forall|i: int| 0 <= i < provides@.len() ==> type_factory_ok(#[trigger] provides@[i].1),
        forall|i: int| 0 <= i < decorates@.len() ==> decorate_ok(#[trigger] decorates@[i]),
    ensures
        r@.len() == provides@.len(),
        forall|i: int|
            0 <= i < r@.len() ==> {
                let syn = provides@[i].1;
                let t = match syn {
                    TypeFactorySyntax::TypeExpr(t) => t,
                    TypeFactorySyntax::TypeClosure(t, _) => t,
                };
                &&& (#[trigger] r@[i]).attr == provides@[i].0
                &&& r@[i].factory.ty == t
                &&& r@[i].factory.inputs@ == match syn {
                    TypeFactorySyntax::TypeExpr(_) => Seq::<TypeInfo>::empty(),
                    TypeFactorySyntax::TypeClosure(_, ps) => param_types(ps@),
                }
                &&& r@[i].decorators@ == decorators_of(decorates@, t.key@)
            },
{
    let ds = parse_decorators(decorates);
    proof {
        lemma_decorators_same(decorates@, ds@);
    }
    let mut r: Vec<StructProvide> = Vec::new();
    let mut k: usize = 0;
    while k < provides.len()
        invariant
            k <= provides@.len(),
            forall|i: int| 0 <= i < provides@.len() ==> type_factory_ok(#[trigger] provides@[i].1),
            forall|key: Seq<char>| #[trigger] decorators_for(ds@, key) == decorators_of(decorates@, key),
            r@.len() == k,
            forall|i: int|
                0 <= i < k ==> {
                    let syn = provides@[i].1;
                    let t = match syn {
                        TypeFactorySyntax::TypeExpr(t) => t,
                        TypeFactorySyntax::TypeClosure(t, _) => t,
                    };
                    &&& (#[trigger] r@[i]).attr == provides@[i].0
                    &&& r@[i].factory.ty == t
                    &&& r@[i].factory.inputs@ == match syn {
                        TypeFactorySyntax::TypeExpr(_) => Seq::<TypeInfo>::empty(),
                        TypeFactorySyntax::TypeClosure(_, ps) => param_types(ps@),
                    }
                    &&& r@[i].decorators@ == decorators_of(decorates@, t.key@)
                },
        decreases provides@.len() - k,
    {
        match parse_type_factory(&provides[k].1) {
            Some(factory) => {
                let decorators = decorators_of_type(&ds, &factory.ty.key);
                r.push(StructProvide { attr: provides[k].0, factory, decorators });
            },
            None => {
                assert(false);
            },
        }
        k = k + 1;
    }
    r
}

/// The positions of the decorators written for the type `key`.
pub open spec fn decorators_of(ds: Seq<DecorateSyntax>, key: Seq<char>) -> Seq<usize>
    decreases ds.len(),
{
    if ds.len() == 0 {
        Seq::empty()
    } else if ds.last().ty.key@ == key {
        decorators_of(ds.drop_last(), key).push((ds.len() - 1) as usize)
    } else {
        decorators_of(ds.drop_last(), key)
    }
}

proof fn lemma_decorators_same(syn: Seq<DecorateSyntax>, ds: Seq<DecorateStructInput>)
    requires
        syn.len() == ds.len(),
        forall|i: int| 0 <= i < ds.len() ==> (#[trigger] ds[i]).ty == syn[i].ty,
    ensures
        forall|key: Seq<char>| #[trigger] decorators_for(ds, key) == decorators_of(syn, key),
    decreases syn.len(),
{
    if syn.len() > 0 {
        lemma_decorators_same(syn.drop_last(), ds.drop_last());
        assert forall|key: Seq<char>| #[trigger] decorators_for(ds, key) == decorators_of(syn, key) by {
            assert(ds.last().ty == syn.last().ty);
            assert(decorators_for(ds.drop_last(), key) == decorators_of(syn.drop_last(), key));
        }
    }
}

// ---------------------------------------------------------------------------
// The whole provider.

proof fn lemma_provide_positions_bounded(ps: Seq<ParsedField>)
    ensures
        forall|j: int|
            0 <= j < provide_positions(ps).len() ==> #[trigger] provide_positions(ps)[j] < ps.len(),
    decreases ps.len(),
{
    if ps.len() > 0 {
        let prev = provide_positions(ps.drop_last());
        lemma_provide_positions_bounded(ps.drop_last());
        assert forall|j: int| 0 <= j < provide_positions(ps).len() implies #[trigger] provide_positions(ps)[j]
            < ps.len() by {
            if j < prev.len() {
                assert(provide_positions(ps)[j] == prev[j]);
            }
        }
    }
}

/// Whether every `#[provide]` / `#[singleton]` attribute of every field can be read.
pub open spec fn field_provides_readable(fields: Seq<FieldModel>) -> bool {
    forall|i: int, k: int|
        #![trigger fields[i].attrs@[k]]
        0 <= i < fields.len() && 0 <= k < fields[i].attrs@.len() && called_either("provide"@, "singleton"@)(
            fields[i].attrs@[k],
        ) ==> field_factory_ok(fields[i].attrs@[k])
}

/// Whether every struct-level `#[provide(..)]` and `#[decorate(..)]` can be read.
pub open spec fn struct_attrs_readable(attrs: Seq<AttrModel>) -> bool {
    forall|k: int|
        0 <= k < attrs.len() ==> {
            &&& attr_is(#[trigger] attrs[k], "provide"@) ==> (attrs[k].type_factory matches Some(t)
                && type_factory_ok(t))
            &&& attr_is(attrs[k], "decorate"@) ==> (attrs[k].decorate matches Some(d) && decorate_ok(d))
        }
}

/// Whether a field-level factory attribute can be read.
pub fn field_factory_readable(a: &AttrModel) -> (r: bool)
    ensures
        r == field_factory_ok(*a),
{
    if a.bare {
        return true;
    }
    match &a.field_factory {
        Some(FieldFactorySyntax::TypeClosure(_, ps)) => ps.len() == 1 && ps[0].ident.is_some()
            && ps[0].ty.is_none(),
        Some(_) => true,
        None => false,
    }
}

/// Whether the factory attributes of the fields named `l1` or `l2` can all be read.
pub fn field_factories_readable(fields: &Vec<FieldModel>, l1: &str, l2: &str) -> (r: bool)
    ensures
        r == (forall|i: int, k: int|
            #![trigger fields@[i].attrs@[k]]
            0 <= i < fields@.len() && 0 <= k < fields@[i].attrs@.len() && called_either(l1@, l2@)(
                fields@[i].attrs@[k],
            ) ==> field_factory_ok(fields@[i].attrs@[k])),
{
    let mut i: usize = 0;
    while i < fields.len()
        invariant
            i <= fields@.len(),
            forall|j: int, k: int|
                #![trigger fields@[j].attrs@[k]]
                0 <= j < i && 0 <= k < fields@[j].attrs@.len() && called_either(l1@, l2@)(
                    fields@[j].attrs@[k],
                ) ==> field_factory_ok(fields@[j].attrs@[k]),
        decreases fields@.len() - i,
    {
        let attrs = &fields[i].attrs;
        let mut k: usize = 0;
        while k < attrs.len()
            invariant
                i < fields@.len(),
                attrs@ == fields@[i as int].attrs@,
                k <= attrs@.len(),
                forall|j: int, m: int|
                    #![trigger fields@[j].attrs@[m]]
                    0 <= j < i && 0 <= m < fields@[j].attrs@.len() && called_either(l1@, l2@)(
                        fields@[j].attrs@[m],
                    ) ==> field_factory_ok(fields@[j].attrs@[m]),
                forall|m: int|
                    0 <= m < k && called_either(l1@, l2@)(#[trigger] fields@[i as int].attrs@[m])
                        ==> field_factory_ok(fields@[i as int].attrs@[m]),
            decreases attrs@.len() - k,
        {
            let a = &attrs[k];
            if (name_is(&a.name, l1) || name_is(&a.name, l2)) && !field_factory_readable(a) {
                assert(called_either(l1@, l2@)(fields@[i as int].attrs@[k as int]));
                return false;
            }
            k = k + 1;
        }
        i = i + 1;
    }
    true
}

/// Whether struct-level factory syntax can be read.
fn type_factory_readable(s: &TypeFactorySyntax) -> (r: bool)
    ensures
        r == type_factory_ok(*s),
{
    match s {
        TypeFactorySyntax::TypeClosure(_, ps) => factory_inputs(ps).is_ok(),
        TypeFactorySyntax::TypeExpr(_) => true,
    }
}

/// Whether the struct-level `#[provide(..)]` and `#[decorate(..)]` can all be read.
pub fn struct_attrs_readable_exec(attrs: &Vec<AttrModel>) -> (r: bool)
    ensures
        r == struct_attrs_readable(attrs@),
{
    let mut k: usize = 0;
    while k < attrs.len()
        invariant
            k <= attrs@.len(),
            forall|j: int|
                0 <= j < k ==> {
                    &&& attr_is(#[trigger] attrs@[j], "provide"@) ==> (attrs@[j].type_factory matches Some(t)
                        && type_factory_ok(t))
                    &&& attr_is(attrs@[j], "decorate"@) ==> (attrs@[j].decorate matches Some(d)
                        && decorate_ok(d))
                },
        decreases attrs@.len() - k,
    {
        let a = &attrs[k];
        if name_is(&a.name, "provide") {
            let ok = match &a.type_factory {
                Some(t) => type_factory_readable(t),
                None => false,
            };
            if !ok {
                return false;
            }
        }
        if name_is(&a.name, "decorate") {
            let ok = match &a.decorate {
                Some(d) => d.params.len() == 1 && d.params[0].ident.is_some(),
                None => false,
            };
            if !ok {
                return false;
            }
        }
        k = k + 1;
    }
    true
}

/// Whether [`handle_provider`] may be asked about `input`: its field faults
/// are reported, or else every provide, singleton and decorate attribute reads.
pub fn provider_input_ok(input: &StructModel) -> (r: bool)
    ensures
        r == (failing_fields(input.fields@).len() == 0 ==> field_provides_readable(input.fields@)
            && struct_attrs_readable(input.attrs@)),
{
    if ParsedField::from_fields(&input.fields).is_err() {
        return true;
    }
    field_factories_readable(&input.fields, "provide", "singleton") && struct_attrs_readable_exec(
        &input.attrs,
    )
}

/// The struct-level `#[provide(..)]` attributes: position and reading, in order.
pub open spec fn provide_syntax(attrs: Seq<AttrModel>) -> Seq<(usize, TypeFactorySyntax)> {
    let ps = positions_where(attrs, called("provide"@));
    Seq::new(ps.len(), |j: int| (ps[j], attrs[ps[j] as int].type_factory->0))
}

/// The readings of the struct-level `#[decorate(..)]` attributes, in order.
pub open spec fn decorate_syntax(attrs: Seq<AttrModel>) -> Seq<DecorateSyntax> {
    let ps = positions_where(attrs, called("decorate"@));
    Seq::new(ps.len(), |j: int| attrs[ps[j] as int].decorate->0)
}

/// The readings of the struct-level `#[scope(..)]` attributes, in order.
pub open spec fn scope_syntax(attrs: Seq<AttrModel>) -> Seq<Option<ScopeField>> {
    let ps = positions_where(attrs, called("scope"@));
    Seq::new(ps.len(), |j: int| attrs[ps[j] as int].scope)
}

struct StructAttrSyntax {
    provides: Vec<(usize, TypeFactorySyntax)>,
    decorates: Vec<DecorateSyntax>,
    scopes: Vec<Option<ScopeField>>,
}

fn take_struct_attrs(attrs: Vec<AttrModel>) -> (r: StructAttrSyntax)
    requires
        struct_attrs_readable(attrs@),
    ensures
        r.provides@ == provide_syntax(attrs@),
        r.decorates@ == decorate_syntax(attrs@),
        r.scopes@ == scope_syntax(attrs@),
{
    let ghost orig = attrs@;
    let n = attrs.len();
    let mut rest = attrs;
    let mut provides: Vec<(usize, TypeFactorySyntax)> = Vec::new();
    let mut decorates: Vec<DecorateSyntax> = Vec::new();
    let mut scopes: Vec<Option<ScopeField>> = Vec::new();
    let mut k: usize = 0;
    while k < n
        invariant
            n == orig.len(),
            struct_attrs_readable(orig),
            k <= n,
            rest@ == orig.subrange(k as int, n as int),
            provides@.len() == positions_where(orig.subrange(0, k as int), called("provide"@)).len(),
            forall|j: int|
                0 <= j < provides@.len() ==> #[trigger] provides@[j] == (
                    positions_where(orig.subrange(0, k as int), called("provide"@))[j],
                    orig[positions_where(orig.subrange(0, k as int), called("provide"@))[j] as int].type_factory->0,
                ),
            decorates@.len() == positions_where(orig.subrange(0, k as int), called("decorate"@)).len(),
            forall|j: int|
                0 <= j < decorates@.len() ==> #[trigger] decorates@[j] == orig[positions_where(
                    orig.subrange(0, k as int),
                    called("decorate"@),
                )[j] as int].decorate->0,
            scopes@.len() == positions_where(orig.subrange(0, k as int), called("scope"@)).len(),
            forall|j: int|
                0 <= j < scopes@.len() ==> #[trigger] scopes@[j] == orig[positions_where(
                    orig.subrange(0, k as int),
                    called("scope"@),
                )[j] as int].scope,
        decreases n - k,
    {
        proof {
            lemma_struct_attr_names_distinct();
            lemma_where_step(orig, k as int, called("provide"@));
            lemma_where_step(orig, k as int, called("decorate"@));
            lemma_where_step(orig, k as int, called("scope"@));
        }
        let a = rest.remove(0);
        assert(a == orig[k as int]);
        if name_is(&a.name, "provide") {
            match a.type_factory {
                Some(t) => {
                    provides.push((k, t));
                },
                None => {
                    assert(false);
                },
            }
        } else if name_is(&a.name, "decorate") {
            match a.decorate {
                Some(d) => {
                    decorates.push(d);
                },
                None => {
                    assert(false);
                },
            }
        } else if name_is(&a.name, "scope") {
            scopes.push(a.scope);
        }
        k = k + 1;
        assert(rest@ =~= orig.subrange(k as int, n as int));
    }
    assert(orig.subrange(0, n as int) =~= orig);
    assert(provides@ =~= provide_syntax(orig));
    assert(decorates@ =~= decorate_syntax(orig));
    assert(scopes@ =~= scope_syntax(orig));
    StructAttrSyntax { provides, decorates, scopes }
}

/// What `#[provider]` generates for a struct.
pub struct ProviderPlan {
    /// Each field, read.
    pub parsed: Vec<ParsedField>,
    /// The imported modules, and the provided fields with their attributes.
    pub fields: ProviderFields,
    /// For each provided field, one impl per provide attribute.
    pub field_provides: Vec<Vec<ProvideImpl>>,
    /// The struct-level bindings.
    pub struct_provides: Vec<StructProvide>,
    /// The scopes.
    pub scopes: Vec<ScopePlan>,
}

/// Why `#[provider]` refuses a struct.
pub enum ProviderError {
    /// These fields, by position, have these faults.
    Fields(Vec<(usize, Vec<FieldError>)>),
    /// The `#[scope(..)]` attribute at this position does not declare a field.
    Scope(usize),
}

/// Whether `r` are the struct-level bindings for these `#[provide(..)]` and
/// `#[decorate(..)]` readings.
pub open spec fn struct_provides_of(
    provides: Seq<(usize, TypeFactorySyntax)>,
    decorates: Seq<DecorateSyntax>,
    r: Seq<StructProvide>,
) -> bool {
    &&& r.len() == provides.len()
    &&& forall|i: int|
        0 <= i < r.len() ==> {
            let syn = provides[i].1;
            let t = match syn {
                TypeFactorySyntax::TypeExpr(t) => t,
                TypeFactorySyntax::TypeClosure(t, _) => t,
            };
            &&& (#[trigger] r[i]).attr == provides[i].0
            &&& r[i].factory.ty == t
            &&& r[i].factory.inputs@ == match syn {
                TypeFactorySyntax::TypeExpr(_) => Seq::<TypeInfo>::empty(),
                TypeFactorySyntax::TypeClosure(_, ps) => param_types(ps@),
            }
            &&& r[i].decorators@ == decorators_of(decorates, t.key@)
        }
}

/// Whether `r` are the impls of the provided fields listed in `provides`.
pub open spec fn field_provides_of(
    fields: Seq<FieldModel>,
    provides: Seq<(usize, Vec<usize>)>,
    r: Seq<Vec<ProvideImpl>>,
) -> bool {
    &&& r.len() == provides.len()
    &&& forall|j: int|
        0 <= j < r.len() ==> (#[trigger] r[j])@.len() == provides[j].1@.len() && forall|k: int|
            0 <= k < r[j]@.len() ==> provide_impl_of(
                fields[provides[j].0 as int].attrs@[provides[j].1@[k] as int],
                fields[provides[j].0 as int],
                provides[j].0,
                #[trigger] r[j]@[k],
            )
}

/// Whether `r` are the scopes of provider `name` declared by these readings.
pub open spec fn scopes_of(name: Seq<char>, scopes: Seq<Option<ScopeField>>, r: Seq<ScopePlan>) -> bool {
    let fs = read_fields(scopes);
    &&& r.len() == scope_firsts(fs).len()
    &&& forall|g: int| 0 <= g < r.len() ==> scope_plan_of(name, fs, scope_firsts(fs)[g] as int, #[trigger] r[g])
}

/// What `#[provider]` generates for `input`: refused when a field's
/// attributes have faults (all of them reported), or when a `#[scope(..)]`
/// does not declare a field (the first such).
#[verifier::rlimit(40)]
pub fn handle_provider(input: StructModel) -> (r: Result<ProviderPlan, ProviderError>)
    requires
        failing_fields(input.fields@).len() == 0 ==> field_provides_readable(input.fields@)
            && struct_attrs_readable(input.attrs@),
    ensures
        match r {
            Err(ProviderError::Fields(es)) => failing_fields(input.fields@).len() > 0 && es@.len()
                == failing_fields(input.fields@).len() && forall|j: int|
                0 <= j < es@.len() ==> (#[trigger] es@[j]).0 == failing_fields(input.fields@)[j]
                    && es@[j].1@ == field_errors(input.fields@[es@[j].0 as int].attrs@),
            Err(ProviderError::Scope(p)) => failing_fields(input.fields@).len() == 0 && exists|i: int|
                0 <= i < scope_syntax(input.attrs@).len() && scope_syntax(input.attrs@)[i] is None
                    && (forall|j: int| 0 <= j < i ==> (#[trigger] scope_syntax(input.attrs@)[j]) is Some)
                    && p == positions_where(input.attrs@, called("scope"@))[i],
            Ok(plan) => {
                &&& failing_fields(input.fields@).len() == 0
                &&& plan.parsed@.len() == input.fields@.len()
                &&& forall|i: int|
                    0 <= i < input.fields@.len() ==> parsed_field_of(
                        input.fields@[i].attrs@,
                        #[trigger] plan.parsed@[i],
                    )
                &&& plan.fields.imports@ == import_positions(plan.parsed@)
                &&& plan.fields.provides@.len() == provide_positions(plan.parsed@).len()
                &&& forall|j: int|
                    0 <= j < plan.fields.provides@.len() ==> (#[trigger] plan.fields.provides@[j]).0
                        == provide_positions(plan.parsed@)[j] && plan.fields.provides@[j].1@
                        == positions_where(
                        input.fields@[plan.fields.provides@[j].0 as int].attrs@,
                        called_either("provide"@, "singleton"@),
                    )
                &&& field_provides_of(input.fields@, plan.fields.provides@, plan.field_provides@)
                &&& struct_provides_of(
                    provide_syntax(input.attrs@),
                    decorate_syntax(input.attrs@),
                    plan.struct_provides@,
                )
                &&& forall|i: int|
                    0 <= i < scope_syntax(input.attrs@).len() ==> (#[trigger] scope_syntax(input.attrs@)[i]) is Some
                &&& scopes_of(input.ident@, scope_syntax(input.attrs@), plan.scopes@)
            },
        },
{
    let StructModel { ident, attrs, fields, generics: _ } = input;
    let parsed = match ParsedField::from_fields(&fields) {
        Ok(p) => p,
        Err(es) => {
            return Err(ProviderError::Fields(es));
        },
    };
    let pf = provider_fields(&fields, &parsed);
    proof {
        lemma_provide_positions_bounded(parsed@);
        assert forall|j: int| 0 <= j < pf.provides@.len() implies (#[trigger] pf.provides@[j]).0
            < fields@.len() && forall|k: int|
            0 <= k < pf.provides@[j].1@.len() ==> #[trigger] pf.provides@[j].1@[k]
                < fields@[pf.provides@[j].0 as int].attrs@.len() && field_factory_ok(
                fields@[pf.provides@[j].0 as int].attrs@[pf.provides@[j].1@[k] as int],
            ) by {
            let i = pf.provides@[j].0 as int;
            assert(fields@[i].attrs@.len() == fields@[i].attrs.len());
            lemma_positions_where_valid(fields@[i].attrs@, called_either("provide"@, "singleton"@));
            assert forall|k: int| 0 <= k < pf.provides@[j].1@.len() implies #[trigger] pf.provides@[j].1@[k]
                < fields@[i].attrs@.len() && field_factory_ok(fields@[i].attrs@[pf.provides@[j].1@[k] as int]) by {
                let a = pf.provides@[j].1@[k] as int;
                assert(positions_where(fields@[i].attrs@, called_either("provide"@, "singleton"@))[k] == a);
                assert(called_either("provide"@, "singleton"@)(fields@[i].attrs@[a]));
            }
        }
    }
    let field_provides = gen_providers_for_provide_attr_on_fields(&fields, &pf.provides);
    let pa = ProviderAttrs::from_attrs(&attrs);
    let ghost av = attrs@;
    let n_attrs = attrs.len();
    assert(av.len() == n_attrs);
    let syn = take_struct_attrs(attrs);
    proof {
        lemma_positions_where_valid(av, called("provide"@));
        lemma_positions_where_valid(av, called("decorate"@));
        assert forall|i: int| 0 <= i < syn.provides@.len() implies type_factory_ok(#[trigger] syn.provides@[i].1) by {
            let p = positions_where(av, called("provide"@))[i] as int;
            assert(attr_is(av[p], "provide"@));
        }
        assert forall|i: int| 0 <= i < syn.decorates@.len() implies decorate_ok(#[trigger] syn.decorates@[i]) by {
            let p = positions_where(av, called("decorate"@))[i] as int;
            assert(attr_is(av[p], "decorate"@));
        }
    }
    let struct_provides = gen_providers_for_provide_attr_on_struct(&syn.provides, &syn.decorates);
    match gen_scope_output(ident.as_str(), syn.scopes) {
        Ok(scopes) => Ok(ProviderPlan { parsed, fields: pf, field_provides, struct_provides, scopes }),
        Err(i) => Err(ProviderError::Scope(pa.scope_attrs[i])),
    }
}

// ---------------------------------------------------------------------------
// What a field-level provide attribute provides.

/// A field-level `#[provide(T)]` (or `#[singleton(T)]`) provides a reference
/// to `T`, or to what `T` points to when `T` is a reference, whatever the
/// field's own type. A bare or empty one provides a reference to what the
/// field holds, and one with a closure provides the type it names. A field
/// that is not a reference is borrowed from the provider, for `'prov`.
pub proof fn law_provided_type_follows_the_attribute(
    a: AttrModel,
    f: FieldModel,
    i: usize,
    imp: ProvideImpl,
)
    requires
        provide_impl_of(a, f, i, imp),
    ensures
        imp.field == i,
        a.field_factory matches Some(FieldFactorySyntax::Type(g)) ==> (!a.bare ==> (imp.ty matches ProvidedType::Ref(
            _,
            t,
        ) && t@ == (match g.reference {
            Some(r) => r.elem_key@,
            None => g.key@,
        }))),
        (a.bare || a.field_factory == Some(FieldFactorySyntax::Empty)) ==> (imp.ty matches ProvidedType::Ref(
            _,
            t,
        ) && t@ == (match f.ty.reference {
            Some(r) => r.elem_key@,
            None => f.ty.key@,
        })),
        a.field_factory matches Some(FieldFactorySyntax::TypeClosure(g, _)) ==> (!a.bare ==> imp.ty
            == ProvidedType::Given(g)),
        f.ty.reference is None ==> imp.borrow && (imp.ty matches ProvidedType::Ref(l, _) ==> l
            == RefLifetime::Prov),
{
}

} // verus!

//! What `#[module]` generates: the module's public path, the types it
//! exports at struct level (grouped by type), and the references it exports
//! from its fields.
use vstd::prelude::*;
use crate::attrs::{
    called, failing_fields, field_errors, lemma_positions_where_valid, lemma_where_step,
    parse_type_factory, param_types, parsed_field_of, positions_where, FieldError, ParsedField,
    TypeFactoryInput,
};
use crate::collection::{group_positions_by_key, grouped_by_key, law_groups_partition};
use crate::model::{attr_is, copy_string, name_is, views, AttrModel, FieldFactorySyntax, FieldModel, StructModel, TypeFactorySyntax, TypeInfo};
use crate::provider::{field_factories_readable, field_factory_ok, provide_impl, provide_impl_of, type_factory_ok, ProvideImpl, ProvidedType};

verus! {

/// The argument of `#[module(..)]`: none, a public path, or text that is no path.
pub enum ModuleAttr {
    Empty,
    Path(String),
    Unparsable,
}

/// A struct-level `#[export(..)]` that can be read.
pub open spec fn readable_export() -> spec_fn(AttrModel) -> bool {
    |a: AttrModel| attr_is(a, "export"@) && (a.type_factory matches Some(t) && type_factory_ok(t))
}

/// A struct-level `#[export(..)]` that cannot be read.
pub open spec fn unreadable_export() -> spec_fn(AttrModel) -> bool {
    |a: AttrModel| attr_is(a, "export"@) && !(a.type_factory matches Some(t) && type_factory_ok(t))
}

/// Whether `f` is what the struct-level factory syntax `s` reads as.
pub open spec fn type_factory_reads(s: TypeFactorySyntax, f: TypeFactoryInput) -> bool {
    match s {
        TypeFactorySyntax::TypeExpr(t) => f.ty == t && f.inputs@.len() == 0,
        TypeFactorySyntax::TypeClosure(t, ps) => f.ty == t && f.inputs@ == param_types(ps@),
    }
}

/// The type texts of the struct-level exports, in order.
pub open spec fn export_keys(xs: Seq<(usize, TypeFactoryInput)>) -> Seq<Seq<char>> {
    Seq::new(xs.len(), |j: int| xs[j].1.ty.key@)
}

/// The positions of the fields with `#[export]` attributes.
pub open spec fn export_positions(ps: Seq<ParsedField>) -> Seq<usize>
    decreases ps.len(),
{
    if ps.len() == 0 {
        Seq::empty()
    } else if ps.last().export_attrs@.len() > 0 {
        export_positions(ps.drop_last()).push((ps.len() - 1) as usize)
    } else {
        export_positions(ps.drop_last())
    }
}

/// Whether every `#[export]` attribute of every field can be read.
pub open spec fn field_exports_readable(fields: Seq<FieldModel>) -> bool {
    forall|i: int, k: int|
        #![trigger fields[i].attrs@[k]]
        0 <= i < fields.len() && 0 <= k < fields[i].attrs@.len() && attr_is(fields[i].attrs@[k], "export"@)
            ==> field_factory_ok(fields[i].attrs@[k])
}

/// Whether `imp` is the impl that export attribute `a` of field `i` (`f`)
/// asks for: the type is that of the matching provide attribute; the field
/// is borrowed unless a closure receives the field and the field is itself a
/// reference.
pub open spec fn export_impl_of(a: AttrModel, f: FieldModel, i: usize, imp: ProvideImpl) -> bool {
    &&& provide_impl_of(
        a,
        f,
        i,
        ProvideImpl {
            field: imp.field,
            ty: imp.ty,
            closure_var: imp.closure_var,
            borrow: f.ty.reference is None,
        },
    )
    &&& imp.borrow == (imp.closure_var is None || f.ty.reference is None)
}

/// The `Injectable` impl for export attribute `attr` of field `i`.
pub fn export_impl(attr: &AttrModel, field: &FieldModel, i: usize) -> (r: ProvideImpl)
    requires
        field_factory_ok(*attr),
    ensures
        export_impl_of(*attr, *field, i, r),
{
    let p = provide_impl(attr, field, i);
    let borrow = p.closure_var.is_none() || field.ty.reference.is_none();
    ProvideImpl { field: p.field, ty: p.ty, closure_var: p.closure_var, borrow }
}

/// The last member of each group.
pub open spec fn group_lasts(groups: Seq<Vec<usize>>) -> Seq<usize> {
    Seq::new(groups.len(), |g: int| groups[g]@.last())
}

fn last_of_each(groups: &Vec<Vec<usize>>) -> (r: Vec<usize>)
    requires
        forall|g: int| 0 <= g < groups@.len() ==> (#[trigger] groups@[g])@.len() > 0,
    ensures
        r@ == group_lasts(groups@),
{
    let mut r: Vec<usize> = Vec::new();
    let mut g: usize = 0;
    while g < groups.len()
        invariant
            g <= groups@.len(),
            forall|h: int| 0 <= h < groups@.len() ==> (#[trigger] groups@[h])@.len() > 0,
            r@ == group_lasts(groups@).take(g as int),
        decreases groups@.len() - g,
    {
        let group = &groups[g];
        assert(group@.len() > 0);
        r.push(group[group.len() - 1]);
        g = g + 1;
        assert(r@ =~= group_lasts(groups@).take(g as int));
    }
    assert(group_lasts(groups@).take(g as int) =~= group_lasts(groups@));
    r
}

/// What `#[module]` generates for a struct.
pub struct ModulePlan {
    /// The public path the module is reached by, if one is given.
    pub public_path: Option<String>,
    /// Each field, read.
    pub parsed: Vec<ParsedField>,
    /// The struct-level exports: attribute position and reading, in order.
    pub struct_exports: Vec<(usize, TypeFactoryInput)>,
    /// The struct-level exports grouped by type (positions in `struct_exports`),
    /// in the order each type is first exported.
    pub struct_groups: Vec<Vec<usize>>,
    /// For each group, the export that the type's `RefInjectable` impl
    /// evaluates: the last one of the group (a later export of a type wins).
    /// `RefIterable` evaluates the group's exports by index, in order.
    pub ref_exports: Vec<usize>,
    /// For each field with `#[export]` attributes: its position, and one
    /// impl per export attribute, in order.
    pub field_exports: Vec<(usize, Vec<ProvideImpl>)>,
}

/// Why `#[module]` refuses a struct.
pub enum ModuleError {
    /// The argument of `#[module(..)]` is no path.
    PublicPath,
    /// The struct-level `#[export(..)]` at these positions cannot be read.
    StructExports(Vec<usize>),
    /// These fields, by position, have these faults.
    Fields(Vec<(usize, Vec<FieldError>)>),
}

/// Whether `r` are the field exports of `fields`, whose readings are `parsed`.
pub open spec fn field_exports_of(
    fields: Seq<FieldModel>,
    parsed: Seq<ParsedField>,
    r: Seq<(usize, Vec<ProvideImpl>)>,
) -> bool {
    &&& r.len() == export_positions(parsed).len()
    &&& forall|j: int|
        0 <= j < r.len() ==> {
            let i = (#[trigger] r[j]).0 as int;
            let ps = positions_where(fields[i].attrs@, called("export"@));
            &&& r[j].0 == export_positions(parsed)[j]
            &&& r[j].1@.len() == ps.len()
            &&& forall|k: int|
                0 <= k < ps.len() ==> export_impl_of(
                    fields[i].attrs@[ps[k] as int],
                    fields[i],
                    r[j].0,
                    #[trigger] r[j].1@[k],
                )
        }
}

fn read_struct_exports(attrs: &Vec<AttrModel>) -> (r: (Vec<(usize, TypeFactoryInput)>, Vec<usize>))
    ensures
        r.1@ == positions_where(attrs@, unreadable_export()),
        r.0@.len() == positions_where(attrs@, readable_export()).len(),
        forall|j: int|
            0 <= j < r.0@.len() ==> (#[trigger] r.0@[j]).0 == positions_where(attrs@, readable_export())[j]
                && type_factory_reads(attrs@[r.0@[j].0 as int].type_factory->0, r.0@[j].1),
{
    let n = attrs.len();
    let mut reads: Vec<(usize, TypeFactoryInput)> = Vec::new();
    let mut errs: Vec<usize> = Vec::new();
    let mut k: usize = 0;
    while k < n
        invariant
            n == attrs@.len(),
            k <= n,
            errs@ == positions_where(attrs@.subrange(0, k as int), unreadable_export()),
            reads@.len() == positions_where(attrs@.subrange(0, k as int), readable_export()).len(),
            forall|j: int|
                0 <= j < reads@.len() ==> (#[trigger] reads@[j]).0 == positions_where(
                    attrs@.subrange(0, k as int),
                    readable_export(),
                )[j] && reads@[j].0 < k && type_factory_reads(
                    attrs@[reads@[j].0 as int].type_factory->0,
                    reads@[j].1,
                ),
        decreases n - k,
    {
        proof {
            lemma_where_step(attrs@, k as int, readable_export());
            lemma_where_step(attrs@, k as int, unreadable_export());
        }
        let a = &attrs[k];
        if name_is(&a.name, "export") {
            match &a.type_factory {
                Some(s) => match parse_type_factory(s) {
                    Some(f) => {
                        reads.push((k, f));
                    },
                    None => {
                        errs.push(k);
                    },
                },
                None => {
                    errs.push(k);
                },
            }
        }
        k = k + 1;
    }
    assert(attrs@.subrange(0, n as int) =~= attrs@);
    (reads, errs)
}

proof fn lemma_export_positions_step(ps: Seq<ParsedField>, k: int)
    requires
        0 <= k < ps.len(),
    ensures
        export_positions(ps.subrange(0, k + 1)) == if ps[k].export_attrs@.len() > 0 {
            export_positions(ps.subrange(0, k)).push(k as usize)
        } else {
            export_positions(ps.subrange(0, k))
        },
{
    assert(ps.subrange(0, k + 1).drop_last() =~= ps.subrange(0, k));
}

fn field_export_impls(fields: &Vec<FieldModel>, i: usize, positions: &Vec<usize>) -> (r: Vec<ProvideImpl>)
    requires
        i < fields@.len(),
        forall|k: int|
            0 <= k < positions@.len() ==> #[trigger] positions@[k] < fields@[i as int].attrs@.len()
                && field_factory_ok(fields@[i as int].attrs@[positions@[k] as int]),
    ensures
        r@.len() == positions@.len(),
        forall|k: int|
            0 <= k < positions@.len() ==> export_impl_of(
                fields@[i as int].attrs@[positions@[k] as int],
                fields@[i as int],
                i,
                #[trigger] r@[k],
            ),
{
    let field = &fields[i];
    let mut r: Vec<ProvideImpl> = Vec::new();
    let mut k: usize = 0;
    while k < positions.len()
        invariant
            i < fields@.len(),
            *field == fields@[i as int],
            k <= positions@.len(),
            forall|k: int|
                0 <= k < positions@.len() ==> #[trigger] positions@[k] < field.attrs@.len()
                    && field_factory_ok(field.attrs@[positions@[k] as int]),
            r@.len() == k,
            forall|kk: int|
                0 <= kk < k ==> export_impl_of(
                    field.attrs@[positions@[kk] as int],
                    *field,
                    i,
                    #[trigger] r@[kk],
                ),
        decreases positions@.len() - k,
    {
        r.push(export_impl(&field.attrs[positions[k]], field, i));
        k = k + 1;
    }
    r
}

#[verifier::rlimit(40)]
fn field_exports(fields: &Vec<FieldModel>, parsed: &Vec<ParsedField>) -> (r: Vec<(usize, Vec<ProvideImpl>)>)
    requires
        parsed@.len() == fields@.len(),
        forall|i: int| 0 <= i < fields@.len() ==> parsed_field_of(fields@[i].attrs@, #[trigger] parsed@[i]),
        field_exports_readable(fields@),
    ensures
        field_exports_of(fields@, parsed@, r@),
{
    let n = fields.len();
    let mut r: Vec<(usize, Vec<ProvideImpl>)> = Vec::new();
    let mut i: usize = 0;
    while i < n
        invariant
            n == fields@.len(),
            n == parsed@.len(),
            forall|i: int| 0 <= i < fields@.len() ==> parsed_field_of(fields@[i].attrs@, #[trigger] parsed@[i]),
            field_exports_readable(fields@),
            i <= n,
            r@.len() == export_positions(parsed@.subrange(0, i as int)).len(),
            forall|j: int|
                0 <= j < r@.len() ==> {
                    let f = (#[trigger] r@[j]).0 as int;
                    let ps = positions_where(fields@[f].attrs@, called("export"@));
                    &&& r@[j].0 == export_positions(parsed@.subrange(0, i as int))[j]
                    &&& r@[j].0 < i
                    &&& r@[j].1@.len() == ps.len()
                    &&& forall|k: int|
                        0 <= k < ps.len() ==> export_impl_of(
                            fields@[f].attrs@[ps[k] as int],
                            fields@[f],
                            r@[j].0,
                            #[trigger] r@[j].1@[k],
                        )
                },
        decreases n - i,
    {
        proof {
            lemma_export_positions_step(parsed@, i as int);
        }
        if parsed[i].export_attrs.len() > 0 {
            proof {
                let attrs = fields@[i as int].attrs@;
                assert(attrs.len() == fields@[i as int].attrs.len());
                lemma_positions_where_valid(attrs, called("export"@));
                assert(parsed@[i as int].export_attrs@ == positions_where(attrs, called("export"@)));
                assert forall|k: int| 0 <= k < parsed@[i as int].export_attrs@.len() implies #[trigger] parsed@[i as int].export_attrs@[k]
                    < attrs.len() && field_factory_ok(attrs[parsed@[i as int].export_attrs@[k] as int]) by {
                    let a = parsed@[i as int].export_attrs@[k] as int;
                    assert(positions_where(attrs, called("export"@))[k] == a);
                    assert(called("export"@)(attrs[a]));
                }
            }
            let impls = field_export_impls(fields, i, &parsed[i].export_attrs);
            r.push((i, impls));
        }
        i = i + 1;
    }
    assert(parsed@.subrange(0, n as int) =~= parsed@);
    r
}

fn export_key_texts(xs: &Vec<(usize, TypeFactoryInput)>) -> (r: Vec<String>)
    ensures
        views(r@) == export_keys(xs@),
{
    let mut r: Vec<String> = Vec::new();
    let mut j: usize = 0;
    while j < xs.len()
        invariant
            j <= xs@.len(),
            r@.len() == j,
            forall|i: int| 0 <= i < j ==> (#[trigger] r@[i])@ == xs@[i].1.ty.key@,
        decreases xs@.len() - j,
    {
        r.push(copy_string(&xs[j].1.ty.key));
        j = j + 1;
    }
    assert(views(r@) =~= export_keys(xs@));
    r
}

/// Whether [`handle_module`] may be asked about `attr` and `input`: it
/// reports a fault, or else every field-level `#[export]` reads.
pub fn module_input_ok(attr: &ModuleAttr, input: &StructModel) -> (r: bool)
    ensures
        r == (!(*attr is Unparsable) && positions_where(input.attrs@, unreadable_export()).len() == 0
            && failing_fields(input.fields@).len() == 0 ==> field_exports_readable(input.fields@)),
{
    if let ModuleAttr::Unparsable = attr {
        return true;
    }
    let (_, errs) = read_struct_exports(&input.attrs);
    if errs.len() > 0 {
        return true;
    }
    if ParsedField::from_fields(&input.fields).is_err() {
        return true;
    }
    field_factories_readable(&input.fields, "export", "export")
}

/// What `#[module]` generates for `input`, whose attribute argument is
/// `attr`. Refused, in this order, when the argument is no path, when a
/// struct-level `#[export(..)]` cannot be read (all such reported), or when
/// a field's attributes have faults (all such reported).
pub fn handle_module(attr: &ModuleAttr, input: &StructModel) -> (r: Result<ModulePlan, ModuleError>)
    requires
        !(attr is Unparsable) && positions_where(input.attrs@, unreadable_export()).len() == 0
            && failing_fields(input.fields@).len() == 0 ==> field_exports_readable(input.fields@),
    ensures
        match r {
            Err(ModuleError::PublicPath) => attr is Unparsable,
            Err(ModuleError::StructExports(ps)) => !(attr is Unparsable) && ps@.len() > 0 && ps@
                == positions_where(input.attrs@, unreadable_export()),
            Err(ModuleError::Fields(es)) => {
                &&& !(attr is Unparsable)
                &&& positions_where(input.attrs@, unreadable_export()).len() == 0
                &&& failing_fields(input.fields@).len() > 0
                &&& es@.len() == failing_fields(input.fields@).len()
                &&& forall|j: int|
                    0 <= j < es@.len() ==> (#[trigger] es@[j]).0 == failing_fields(input.fields@)[j]
                        && es@[j].1@ == field_errors(input.fields@[es@[j].0 as int].attrs@)
            },
            Ok(plan) => {
                &&& match *attr {
                    ModuleAttr::Empty => plan.public_path is None,
                    ModuleAttr::Path(p) => plan.public_path matches Some(q) && q@ == p@,
                    ModuleAttr::Unparsable => false,
                }
                &&& positions_where(input.attrs@, unreadable_export()).len() == 0
                &&& failing_fields(input.fields@).len() == 0
                &&& plan.struct_exports@.len() == positions_where(input.attrs@, readable_export()).len()
                &&& forall|j: int|
                    0 <= j < plan.struct_exports@.len() ==> (#[trigger] plan.struct_exports@[j]).0
                        == positions_where(input.attrs@, readable_export())[j] && type_factory_reads(
                        input.attrs@[plan.struct_exports@[j].0 as int].type_factory->0,
                        plan.struct_exports@[j].1,
                    )
                &&& grouped_by_key(export_keys(plan.struct_exports@), plan.struct_groups@)
                &&& plan.ref_exports@ == group_lasts(plan.struct_groups@)
                &&& plan.parsed@.len() == input.fields@.len()
                &&& forall|i: int|
                    0 <= i < input.fields@.len() ==> parsed_field_of(
                        input.fields@[i].attrs@,
                        #[trigger] plan.parsed@[i],
                    )
                &&& field_exports_of(input.fields@, plan.parsed@, plan.field_exports@)
            },
        },
{
    let public_path = match attr {
        ModuleAttr::Empty => None,
        ModuleAttr::Path(p) => Some(copy_string(p)),
        ModuleAttr::Unparsable => {
            return Err(ModuleError::PublicPath);
        },
    };
    let (struct_exports, errs) = read_struct_exports(&input.attrs);
    if errs.len() > 0 {
        return Err(ModuleError::StructExports(errs));
    }
    let parsed = match ParsedField::from_fields(&input.fields) {
        Ok(p) => p,
        Err(es) => {
            return Err(ModuleError::Fields(es));
        },
    };
    let keys = export_key_texts(&struct_exports);
    let struct_groups = group_positions_by_key(&keys);
    proof {
        law_groups_partition(views(keys@), struct_groups@);
    }
    let ref_exports = last_of_each(&struct_groups);
    let field_exports = field_exports(&input.fields, &parsed);
    Ok(ModulePlan { public_path, parsed, struct_exports, struct_groups, ref_exports, field_exports })
}

// ---------------------------------------------------------------------------
// How an exported field is reached.

/// An exported field that is not itself a reference is always borrowed from
/// the module, whatever form the export attribute has; one that is a
/// reference is borrowed too unless a closure receives it, which then gets
/// the reference itself. The export provides what the same attribute would
/// provide on a provider's field.
pub proof fn law_export_borrows_owned_fields(a: AttrModel, f: FieldModel, i: usize, imp: ProvideImpl)
    requires
        export_impl_of(a, f, i, imp),
    ensures
        imp.field == i,
        f.ty.reference is None ==> imp.borrow,
        imp.closure_var is None ==> imp.borrow,
        f.ty.reference is Some && imp.closure_var is Some ==> !imp.borrow,
        a.field_factory matches Some(FieldFactorySyntax::Type(g)) ==> (!a.bare ==> (imp.ty matches ProvidedType::Ref(
            _,
            t,
        ) && t@ == (match g.reference {
            Some(r) => r.elem_key@,
            None => g.key@,
        }))),
        a.field_factory matches Some(FieldFactorySyntax::TypeClosure(g, ps)) ==> (!a.bare ==> (imp.ty
            == ProvidedType::Given(g) && (imp.closure_var matches Some(v) && v@ == ps@[0].ident->0@))),
{
    crate::provider::law_provided_type_follows_the_attribute(
        a,
        f,
        i,
        ProvideImpl { field: imp.field, ty: imp.ty, closure_var: imp.closure_var, borrow: f.ty.reference is None },
    );
}

} // verus!

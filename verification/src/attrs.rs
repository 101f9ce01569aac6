//! Reading of the generator attributes: `#[inject]`, `#[import]`,
//! `#[assisted]`, `#[provide]`, `#[singleton]`, `#[export]`, `#[late_bind]`
//! on fields, and the struct-level lifecycle and provider attributes.
use vstd::prelude::*;
use crate::hash::{fnv1a_fold, string_key, FNV_OFFSET_BASIS_128, FNV_PRIME_128};
use crate::model::{
    attr_is, AttrModel, ClosureParam, DecorateSyntax, FieldFactorySyntax, FieldModel,
    InjectSyntax, TypeFactorySyntax, TypeInfo, name_is,
};

verus! {

/// A parsed `#[inject(..)]` expression.
pub enum InjectExpr {
    /// A value expression, or a closure whose parameters (of these types) are provided.
    Value(Vec<TypeInfo>),
    /// `named(Tag)`: the value provided under the tag type.
    Named(TypeInfo),
    /// `named("text")`: the value provided under the key of the text's hash.
    NamedStr(u128),
}

// ---------------------------------------------------------------------------
// Closures.

/// Whether every closure parameter has an ascribed type.
pub open spec fn all_typed(ps: Seq<ClosureParam>) -> bool {
    forall|i: int| 0 <= i < ps.len() ==> (#[trigger] ps[i]).ty is Some
}

/// The ascribed types of the closure parameters, in order.
pub open spec fn param_types(ps: Seq<ClosureParam>) -> Seq<TypeInfo> {
    Seq::new(ps.len(), |i: int| ps[i].ty->0)
}

/// Reads the inputs of a factory closure: each must have the form `name: Type`.
/// On failure, gives the position of the first input that has not.
pub fn factory_inputs(params: &Vec<ClosureParam>) -> (r: Result<Vec<TypeInfo>, usize>)
    ensures
        match r {
            Ok(ts) => all_typed(params@) && ts@ == param_types(params@),
            Err(i) => i < params@.len() && params@[i as int].ty is None && all_typed(
                params@.subrange(0, i as int),
            ),
        },
{
    let mut ts: Vec<TypeInfo> = Vec::new();
    let mut i: usize = 0;
    while i < params.len()
        invariant
            i <= params@.len(),
            all_typed(params@.subrange(0, i as int)),
            ts@ == param_types(params@.subrange(0, i as int)),
        decreases params@.len() - i,
    {
        match &params[i].ty {
            Some(t) => {
                ts.push(t.clone());
            },
            None => {
                return Err(i);
            },
        }
        i = i + 1;
        assert(ts@ =~= param_types(params@.subrange(0, i as int)));
        assert forall|j: int| 0 <= j < i implies (#[trigger] params@.subrange(
            0,
            i as int,
        )[j]).ty is Some by {
            if j < i - 1 {
                assert(params@.subrange(0, i as int)[j] == params@.subrange(0, i - 1)[j]);
            }
        }
    }
    assert(params@.subrange(0, params@.len() as int) =~= params@);
    Ok(ts)
}

// ---------------------------------------------------------------------------
// `#[inject(..)]`.

/// Whether `e` is what the inject syntax `s` reads as: `named("text")` is the
/// key of the text's 128-bit FNV-1a hash, `named(Tag)` the tag, a closure the
/// types of its parameters, and any other expression a value with no inputs.
pub open spec fn inject_reads_as(s: InjectSyntax, e: InjectExpr) -> bool {
    match s {
        InjectSyntax::NamedLit(text) => e == InjectExpr::NamedStr(
            fnv1a_fold(FNV_OFFSET_BASIS_128, FNV_PRIME_128, vstd::utf8::encode_utf8(text@)),
        ),
        InjectSyntax::NamedType(t) => e == InjectExpr::Named(t),
        InjectSyntax::Closure(ps) => e matches InjectExpr::Value(ts) && ts@ == param_types(ps@),
        InjectSyntax::Expr => e matches InjectExpr::Value(ts) && ts@.len() == 0,
    }
}

/// Whether the inject syntax can be read: a closure needs typed parameters.
pub open spec fn inject_readable(s: InjectSyntax) -> bool {
    s matches InjectSyntax::Closure(ps) ==> all_typed(ps@)
}

/// Reads `#[inject(..)]` arguments.
pub fn parse_inject(s: &InjectSyntax) -> (r: Option<InjectExpr>)
    ensures
        r is Some <==> inject_readable(*s),
        r matches Some(e) ==> inject_reads_as(*s, e),
{
    match s {
        InjectSyntax::NamedLit(text) => Some(InjectExpr::NamedStr(string_key(text.as_str()))),
        InjectSyntax::NamedType(t) => Some(InjectExpr::Named(t.clone())),
        InjectSyntax::Closure(ps) => match factory_inputs(ps) {
            Ok(ts) => Some(InjectExpr::Value(ts)),
            Err(_) => None,
        },
        InjectSyntax::Expr => Some(InjectExpr::Value(Vec::new())),
    }
}

/// Whether an attribute's arguments read as an inject expression.
pub open spec fn attr_inject_ok(a: AttrModel) -> bool {
    a.inject matches Some(s) && inject_readable(s)
}

// ---------------------------------------------------------------------------
// Field factories, struct factories and decorators.

/// A field-level `#[provide(..)]` / `#[export(..)]`.
pub enum FieldFactoryExpr {
    /// No arguments.
    Empty,
    /// `(Type)`: provide the field as this type.
    Type(TypeInfo),
    /// `(Type, |var| expr)`: provide `expr` with `var` bound to the field.
    TypeExpr(TypeInfo, String),
}

/// Why field factory arguments were refused.
pub enum FieldFactoryError {
    /// The closure has no parameter.
    MissingInput,
    /// The closure has more than one parameter.
    MoreThanOneInput,
    /// The closure's parameter is not a plain identifier.
    InputNotIdent,
}

/// Reads field-level factory arguments: no arguments, a type, or a type and a
/// closure with exactly one parameter that is a plain identifier.
pub fn parse_field_factory(s: &FieldFactorySyntax) -> (r: Result<FieldFactoryExpr, FieldFactoryError>)
    ensures
        match *s {
            FieldFactorySyntax::Empty => r == Ok::<FieldFactoryExpr, FieldFactoryError>(
                FieldFactoryExpr::Empty,
            ),
            FieldFactorySyntax::Type(t) => r == Ok::<FieldFactoryExpr, FieldFactoryError>(
                FieldFactoryExpr::Type(t),
            ),
            FieldFactorySyntax::TypeClosure(t, ps) => if ps@.len() == 0 {
                r == Err::<FieldFactoryExpr, FieldFactoryError>(FieldFactoryError::MissingInput)
            } else if ps@.len() > 1 {
                r == Err::<FieldFactoryExpr, FieldFactoryError>(FieldFactoryError::MoreThanOneInput)
            } else if ps@[0].ident is None || ps@[0].ty is Some {
                r == Err::<FieldFactoryExpr, FieldFactoryError>(FieldFactoryError::InputNotIdent)
            } else {
                r matches Ok(FieldFactoryExpr::TypeExpr(t2, v)) && t2 == t && v@ == ps@[0].ident->0@
            },
        },
{
    match s {
        FieldFactorySyntax::Empty => Ok(FieldFactoryExpr::Empty),
        FieldFactorySyntax::Type(t) => Ok(FieldFactoryExpr::Type(t.clone())),
        FieldFactorySyntax::TypeClosure(t, ps) => {
            if ps.len() == 0 {
                return Err(FieldFactoryError::MissingInput);
            }
            if ps.len() > 1 {
                return Err(FieldFactoryError::MoreThanOneInput);
            }
            match (&ps[0].ident, &ps[0].ty) {
                (Some(v), None) => Ok(FieldFactoryExpr::TypeExpr(t.clone(), v.clone())),
                _ => Err(FieldFactoryError::InputNotIdent),
            }
        },
    }
}

/// A struct-level `#[provide(Type, ..)]` / `#[export(Type, ..)]`: the type and
/// the types of the closure's inputs (none for a plain expression).
pub struct TypeFactoryInput {
    pub ty: TypeInfo,
    pub inputs: Vec<TypeInfo>,
}

/// Reads struct-level factory arguments; a closure needs typed parameters.
pub fn parse_type_factory(s: &TypeFactorySyntax) -> (r: Option<TypeFactoryInput>)
    ensures
        match *s {
            TypeFactorySyntax::TypeExpr(t) => r matches Some(f) && f.ty == t && f.inputs@.len()
                == 0,
            TypeFactorySyntax::TypeClosure(t, ps) => if all_typed(ps@) {
                r matches Some(f) && f.ty == t && f.inputs@ == param_types(ps@)
            } else {
                r is None
            },
        },
{
    match s {
        TypeFactorySyntax::TypeExpr(t) => Some(TypeFactoryInput { ty: t.clone(), inputs: Vec::new() }),
        TypeFactorySyntax::TypeClosure(t, ps) => match factory_inputs(ps) {
            Ok(inputs) => Some(TypeFactoryInput { ty: t.clone(), inputs }),
            Err(_) => None,
        },
    }
}

/// A parsed `#[decorate(Type, |var| expr)]`.
pub struct DecorateStructInput {
    pub ty: TypeInfo,
    pub var: String,
}

/// Why decorator arguments were refused.
pub enum DecorateError {
    /// The closure does not have exactly one parameter.
    NotExactlyOneParam,
    /// The parameter is not an identifier.
    ParamNotIdent,
}

/// Reads decorator arguments: the closure must have exactly one parameter,
/// an identifier, possibly with a type ascribed.
pub fn parse_decorate(s: &DecorateSyntax) -> (r: Result<DecorateStructInput, DecorateError>)
    ensures
        s.params@.len() != 1 ==> r == Err::<DecorateStructInput, DecorateError>(
            DecorateError::NotExactlyOneParam,
        ),
        s.params@.len() == 1 && s.params@[0].ident is None ==> r == Err::<DecorateStructInput, DecorateError>(
            DecorateError::ParamNotIdent,
        ),
        s.params@.len() == 1 && s.params@[0].ident is Some ==> (r matches Ok(d) && d.ty == s.ty
            && d.var@ == s.params@[0].ident->0@),
{
    if s.params.len() != 1 {
        return Err(DecorateError::NotExactlyOneParam);
    }
    match &s.params[0].ident {
        Some(v) => Ok(DecorateStructInput { ty: s.ty.clone(), var: v.clone() }),
        None => Err(DecorateError::ParamNotIdent),
    }
}

// ---------------------------------------------------------------------------
// Positions of attributes.

/// The position of the last attribute satisfying `pred`, or -1.
pub open spec fn last_where(attrs: Seq<AttrModel>, pred: spec_fn(AttrModel) -> bool) -> int
    decreases attrs.len(),
{
    if attrs.len() == 0 {
        -1
    } else if pred(attrs.last()) {
        attrs.len() - 1
    } else {
        last_where(attrs.drop_last(), pred)
    }
}

/// The positions of the attributes satisfying `pred`, in order.
pub open spec fn positions_where(attrs: Seq<AttrModel>, pred: spec_fn(AttrModel) -> bool) -> Seq<
    usize,
>
    decreases attrs.len(),
{
    if attrs.len() == 0 {
        Seq::empty()
    } else if pred(attrs.last()) {
        positions_where(attrs.drop_last(), pred).push((attrs.len() - 1) as usize)
    } else {
        positions_where(attrs.drop_last(), pred)
    }
}

/// Whether some attribute satisfies `pred`.
pub open spec fn any_where(attrs: Seq<AttrModel>, pred: spec_fn(AttrModel) -> bool) -> bool {
    last_where(attrs, pred) >= 0
}

/// The attribute is called `lit`.
pub open spec fn called(lit: Seq<char>) -> spec_fn(AttrModel) -> bool {
    |a: AttrModel| attr_is(a, lit)
}

/// The attribute is called `l1` or `l2`.
pub open spec fn called_either(l1: Seq<char>, l2: Seq<char>) -> spec_fn(AttrModel) -> bool {
    |a: AttrModel| attr_is(a, l1) || attr_is(a, l2)
}

pub(crate) proof fn lemma_prefix_step(attrs: Seq<AttrModel>, k: int)
    requires
        0 <= k < attrs.len(),
    ensures
        attrs.subrange(0, k + 1).drop_last() =~= attrs.subrange(0, k),
        attrs.subrange(0, k + 1).last() == attrs[k],
        attrs.subrange(0, k + 1).len() == k + 1,
{
}

pub(crate) proof fn lemma_last_where_bounds(attrs: Seq<AttrModel>, pred: spec_fn(AttrModel) -> bool)
    ensures
        -1 <= last_where(attrs, pred) < attrs.len(),
        last_where(attrs, pred) >= 0 ==> pred(attrs[last_where(attrs, pred)]),
    decreases attrs.len(),
{
    if attrs.len() > 0 && !pred(attrs.last()) {
        lemma_last_where_bounds(attrs.drop_last(), pred);
    }
}

pub(crate) proof fn lemma_positions_where_valid(attrs: Seq<AttrModel>, pred: spec_fn(AttrModel) -> bool)
    requires
        attrs.len() <= usize::MAX,
    ensures
        forall|j: int|
            0 <= j < positions_where(attrs, pred).len() ==> #[trigger] positions_where(attrs, pred)[j]
                < attrs.len() && pred(attrs[positions_where(attrs, pred)[j] as int]),
    decreases attrs.len(),
{
    if attrs.len() > 0 {
        let prev = positions_where(attrs.drop_last(), pred);
        lemma_positions_where_valid(attrs.drop_last(), pred);
        assert forall|j: int| 0 <= j < positions_where(attrs, pred).len() implies #[trigger] positions_where(
            attrs,
            pred,
        )[j] < attrs.len() && pred(attrs[positions_where(attrs, pred)[j] as int]) by {
            if j < prev.len() {
                assert(positions_where(attrs, pred)[j] == prev[j]);
                assert(attrs.drop_last()[prev[j] as int] == attrs[prev[j] as int]);
            }
        }
    }
}

pub(crate) proof fn lemma_where_step(attrs: Seq<AttrModel>, k: int, pred: spec_fn(AttrModel) -> bool)
    requires
        0 <= k < attrs.len(),
    ensures
        last_where(attrs.subrange(0, k + 1), pred) == if pred(attrs[k]) {
            k
        } else {
            last_where(attrs.subrange(0, k), pred)
        },
        positions_where(attrs.subrange(0, k + 1), pred) == if pred(attrs[k]) {
            positions_where(attrs.subrange(0, k), pred).push(k as usize)
        } else {
            positions_where(attrs.subrange(0, k), pred)
        },
        any_where(attrs.subrange(0, k + 1), pred) == (pred(attrs[k]) || any_where(
            attrs.subrange(0, k),
            pred,
        )),
{
    lemma_prefix_step(attrs, k);
    lemma_last_where_bounds(attrs.subrange(0, k), pred);
}

proof fn lemma_field_attr_names_distinct()
    ensures
        "inject"@ != "import"@,
        "inject"@ != "assisted"@,
        "inject"@ != "provide"@,
        "inject"@ != "singleton"@,
        "inject"@ != "export"@,
        "inject"@ != "late_bind"@,
        "import"@ != "assisted"@,
        "import"@ != "provide"@,
        "import"@ != "singleton"@,
        "import"@ != "export"@,
        "import"@ != "late_bind"@,
        "assisted"@ != "provide"@,
        "assisted"@ != "singleton"@,
        "assisted"@ != "export"@,
        "assisted"@ != "late_bind"@,
        "provide"@ != "singleton"@,
        "provide"@ != "export"@,
        "provide"@ != "late_bind"@,
        "singleton"@ != "export"@,
        "singleton"@ != "late_bind"@,
        "export"@ != "late_bind"@,
{
    reveal_strlit("inject");
    reveal_strlit("import");
    reveal_strlit("assisted");
    reveal_strlit("provide");
    reveal_strlit("singleton");
    reveal_strlit("export");
    reveal_strlit("late_bind");
    // names of one length differ in a character; the others in their lengths
    assert("inject"@.len() == 6 && "import"@.len() == 6 && "export"@.len() == 6);
    assert("assisted"@.len() == 8 && "provide"@.len() == 7);
    assert("singleton"@.len() == 9 && "late_bind"@.len() == 9);
    assert("inject"@[1] != "import"@[1]);
    assert("inject"@[0] != "export"@[0]);
    assert("import"@[0] != "export"@[0]);
    assert("singleton"@[0] != "late_bind"@[0]);
}

// ---------------------------------------------------------------------------
// Field attributes.

/// Centralized parsed field info: what a field's attributes ask for.
pub struct ParsedField {
    /// The parsed `#[inject(..)]` expression.
    pub inject: Option<InjectExpr>,
    /// Position of the `#[inject(..)]` attribute it comes from.
    pub inject_at: Option<usize>,
    /// `#[import]` flag.
    pub import: bool,
    /// `#[assisted]` flag.
    pub assisted: bool,
    /// `#[singleton]` flag.
    pub singleton: bool,
    /// Position of the `#[late_bind(..)]` attribute in force.
    pub late_bind: Option<usize>,
    /// Positions of the `#[provide]` / `#[singleton]` attributes.
    pub provide_attrs: Vec<usize>,
    /// Positions of the `#[export]` attributes.
    pub export_attrs: Vec<usize>,
}

/// A fault in a field's attributes.
pub enum FieldError {
    /// The `#[inject(..)]` at this position cannot be read.
    InjectUnparsable(usize),
    /// The `#[late_bind(..)]` at this position does not hold an expression.
    LateBindUnparsable(usize),
    /// A field cannot have both `#[inject]` and `#[assisted]`.
    InjectAndAssisted,
}

/// The attribute is an `#[inject(..)]` that reads.
pub open spec fn inject_that_reads() -> spec_fn(AttrModel) -> bool {
    |a: AttrModel| attr_is(a, "inject"@) && attr_inject_ok(a)
}

/// The attribute is a `#[late_bind(..)]` holding an expression.
pub open spec fn late_bind_that_reads() -> spec_fn(AttrModel) -> bool {
    |a: AttrModel| attr_is(a, "late_bind"@) && a.expr_ok
}

/// The faults of the attributes themselves, in order.
pub open spec fn attr_errors(attrs: Seq<AttrModel>) -> Seq<FieldError>
    decreases attrs.len(),
{
    if attrs.len() == 0 {
        Seq::empty()
    } else {
        let a = attrs.last();
        let k = (attrs.len() - 1) as usize;
        let before = attr_errors(attrs.drop_last());
        if attr_is(a, "inject"@) && !attr_inject_ok(a) {
            before.push(FieldError::InjectUnparsable(k))
        } else if attr_is(a, "late_bind"@) && !a.expr_ok {
            before.push(FieldError::LateBindUnparsable(k))
        } else {
            before
        }
    }
}

/// All faults of a field's attributes: those of each attribute, then the
/// combination of a readable `#[inject]` with `#[assisted]`.
pub open spec fn field_errors(attrs: Seq<AttrModel>) -> Seq<FieldError> {
    if any_where(attrs, called("assisted"@)) && any_where(attrs, inject_that_reads()) {
        attr_errors(attrs).push(FieldError::InjectAndAssisted)
    } else {
        attr_errors(attrs)
    }
}

/// Whether `p` is what a field with these attributes reads as.
pub open spec fn parsed_field_of(attrs: Seq<AttrModel>, p: ParsedField) -> bool {
    let inj = last_where(attrs, inject_that_reads());
    &&& (p.inject is Some <==> inj >= 0)
    &&& (p.inject matches Some(e) ==> inject_reads_as(attrs[inj].inject->0, e))
    &&& (p.inject_at is Some <==> inj >= 0)
    &&& (p.inject_at matches Some(i) ==> i == inj)
    &&& p.import == any_where(attrs, called("import"@))
    &&& p.assisted == any_where(attrs, called("assisted"@))
    &&& p.singleton == any_where(attrs, called("singleton"@))
    &&& (p.late_bind is Some <==> last_where(attrs, late_bind_that_reads()) >= 0)
    &&& (p.late_bind matches Some(i) ==> i == last_where(attrs, late_bind_that_reads()))
    &&& p.provide_attrs@ == positions_where(attrs, called_either("provide"@, "singleton"@))
    &&& p.export_attrs@ == positions_where(attrs, called("export"@))
}

impl ParsedField {
    /// Parse a field's attributes, collecting every fault.
    pub fn from_syn_field(field: &FieldModel) -> (r: Result<ParsedField, Vec<FieldError>>)
        ensures
            match r {
                Ok(p) => field_errors(field.attrs@).len() == 0 && parsed_field_of(field.attrs@, p),
                Err(es) => es@.len() > 0 && es@ == field_errors(field.attrs@),
            },
    {
        let attrs = &field.attrs;
        let n = attrs.len();
        let mut inject: Option<InjectExpr> = None;
        let mut inject_at: Option<usize> = None;
        let mut import = false;
        let mut assisted = false;
        let mut singleton = false;
        let mut late_bind: Option<usize> = None;
        let mut provide_attrs: Vec<usize> = Vec::new();
        let mut export_attrs: Vec<usize> = Vec::new();
        let mut errors: Vec<FieldError> = Vec::new();
        let mut k: usize = 0;
        while k < n
            invariant
                n == attrs@.len(),
                k <= n,
                (inject is Some <==> last_where(attrs@.subrange(0, k as int), inject_that_reads())
                    >= 0),
                inject matches Some(e) ==> inject_reads_as(
                    attrs@[last_where(attrs@.subrange(0, k as int), inject_that_reads())].inject->0,
                    e,
                ),
                (inject_at is Some <==> last_where(attrs@.subrange(0, k as int), inject_that_reads())
                    >= 0),
                inject_at matches Some(i) ==> i == last_where(
                    attrs@.subrange(0, k as int),
                    inject_that_reads(),
                ),
                import == any_where(attrs@.subrange(0, k as int), called("import"@)),
                assisted == any_where(attrs@.subrange(0, k as int), called("assisted"@)),
                singleton == any_where(attrs@.subrange(0, k as int), called("singleton"@)),
                (late_bind is Some <==> last_where(
                    attrs@.subrange(0, k as int),
                    late_bind_that_reads(),
                ) >= 0),
                late_bind matches Some(i) ==> i == last_where(
                    attrs@.subrange(0, k as int),
                    late_bind_that_reads(),
                ),
                provide_attrs@ == positions_where(
                    attrs@.subrange(0, k as int),
                    called_either("provide"@, "singleton"@),
                ),
                export_attrs@ == positions_where(attrs@.subrange(0, k as int), called("export"@)),
                errors@ == attr_errors(attrs@.subrange(0, k as int)),
            decreases n - k,
        {
            proof {
                lemma_prefix_step(attrs@, k as int);
                lemma_last_where_bounds(attrs@.subrange(0, k as int), inject_that_reads());
                lemma_where_step(attrs@, k as int, inject_that_reads());
                lemma_where_step(attrs@, k as int, late_bind_that_reads());
                lemma_where_step(attrs@, k as int, called("import"@));
                lemma_where_step(attrs@, k as int, called("assisted"@));
                lemma_where_step(attrs@, k as int, called("singleton"@));
                lemma_where_step(attrs@, k as int, called("export"@));
                lemma_where_step(attrs@, k as int, called_either("provide"@, "singleton"@));
                lemma_field_attr_names_distinct();
            }
            let a = &attrs[k];
            let ghost pre = attrs@.subrange(0, k as int);
            let ghost post = attrs@.subrange(0, k + 1);
            if name_is(&a.name, "inject") {
                let read = match &a.inject {
                    Some(syn) => parse_inject(syn),
                    None => None,
                };
                match read {
                    Some(e) => {
                        inject = Some(e);
                        inject_at = Some(k);
                    },
                    None => {
                        errors.push(FieldError::InjectUnparsable(k));
                    },
                }
            } else if name_is(&a.name, "import") {
                import = true;
            } else if name_is(&a.name, "assisted") {
                assisted = true;
            } else if name_is(&a.name, "provide") || name_is(&a.name, "singleton") {
                provide_attrs.push(k);
                if name_is(&a.name, "singleton") {
                    singleton = true;
                }
            } else if name_is(&a.name, "export") {
                export_attrs.push(k);
            } else if name_is(&a.name, "late_bind") {
                if a.expr_ok {
                    late_bind = Some(k);
                } else {
                    errors.push(FieldError::LateBindUnparsable(k));
                }
            }
            k = k + 1;
        }
        proof {
            assert(attrs@.subrange(0, n as int) =~= attrs@);
        }
        if assisted && inject.is_some() {
            errors.push(FieldError::InjectAndAssisted);
        }
        if errors.len() > 0 {
            return Err(errors);
        }
        Ok(ParsedField {
            inject,
            inject_at,
            import,
            assisted,
            singleton,
            late_bind,
            provide_attrs,
            export_attrs,
        })
    }

    /// Whether this field has any `#[provide]` or `#[singleton]` attributes.
    pub fn has_provide_or_singleton(&self) -> (b: bool)
        ensures
            b == (self.provide_attrs@.len() > 0 || self.singleton),
    {
        self.provide_attrs.len() > 0 || self.singleton
    }

    /// Whether this field has any `#[export]` attributes.
    pub fn has_export(&self) -> (b: bool)
        ensures
            b == (self.export_attrs@.len() > 0),
    {
        self.export_attrs.len() > 0
    }
}

pub(crate) proof fn lemma_struct_attr_names_distinct()
    ensures
        "post_construct"@ != "pre_destroy"@,
        "post_construct"@ != "async_pre_destroy"@,
        "post_construct"@ != "provide"@,
        "post_construct"@ != "decorate"@,
        "post_construct"@ != "scope"@,
        "pre_destroy"@ != "async_pre_destroy"@,
        "pre_destroy"@ != "provide"@,
        "pre_destroy"@ != "decorate"@,
        "pre_destroy"@ != "scope"@,
        "async_pre_destroy"@ != "provide"@,
        "async_pre_destroy"@ != "decorate"@,
        "async_pre_destroy"@ != "scope"@,
        "provide"@ != "decorate"@,
        "provide"@ != "scope"@,
        "decorate"@ != "scope"@,
{
    reveal_strlit("post_construct");
    reveal_strlit("pre_destroy");
    reveal_strlit("async_pre_destroy");
    reveal_strlit("provide");
    reveal_strlit("decorate");
    reveal_strlit("scope");
    // all of different lengths
    assert("post_construct"@.len() == 14 && "pre_destroy"@.len() == 11 && "async_pre_destroy"@.len() == 17);
    assert("provide"@.len() == 7 && "decorate"@.len() == 8 && "scope"@.len() == 5);
}

/// The positions of the fields whose attributes have faults.
pub open spec fn failing_fields(fields: Seq<FieldModel>) -> Seq<usize>
    decreases fields.len(),
{
    if fields.len() == 0 {
        Seq::empty()
    } else if field_errors(fields.last().attrs@).len() > 0 {
        failing_fields(fields.drop_last()).push((fields.len() - 1) as usize)
    } else {
        failing_fields(fields.drop_last())
    }
}

impl ParsedField {
    /// Parse all fields. On success, one parsed field per field, in order; on
    /// failure, the position and the faults of every field that has faults.
    pub fn from_fields(fields: &Vec<FieldModel>) -> (r: Result<
        Vec<ParsedField>,
        Vec<(usize, Vec<FieldError>)>,
    >)
        ensures
            match r {
                Ok(ps) => failing_fields(fields@).len() == 0 && ps@.len() == fields@.len() && (
                forall|i: int|
                    0 <= i < fields@.len() ==> parsed_field_of(
                        fields@[i].attrs@,
                        #[trigger] ps@[i],
                    )),
                Err(es) => es@.len() > 0 && es@.len() == failing_fields(fields@).len() && (forall|
                    j: int,
                |
                    0 <= j < es@.len() ==> (#[trigger] es@[j]).0 == failing_fields(fields@)[j]
                        && es@[j].1@ == field_errors(fields@[es@[j].0 as int].attrs@)),
            },
    {
        let mut parsed: Vec<ParsedField> = Vec::new();
        let mut errors: Vec<(usize, Vec<FieldError>)> = Vec::new();
        let n = fields.len();
        let mut i: usize = 0;
        while i < n
            invariant
                n == fields@.len(),
                i <= n,
                errors@.len() == failing_fields(fields@.subrange(0, i as int)).len(),
                forall|j: int|
                    0 <= j < errors@.len() ==> (#[trigger] errors@[j]).0 == failing_fields(
                        fields@.subrange(0, i as int),
                    )[j] && errors@[j].0 < i && errors@[j].1@ == field_errors(
                        fields@[errors@[j].0 as int].attrs@,
                    ),
                errors@.len() == 0 ==> parsed@.len() == i && forall|j: int|
                    0 <= j < i ==> parsed_field_of(fields@[j].attrs@, #[trigger] parsed@[j]),
            decreases n - i,
        {
            let ghost pre = fields@.subrange(0, i as int);
            assert(fields@.subrange(0, i + 1).drop_last() =~= pre);
            assert(fields@.subrange(0, i + 1).last() == fields@[i as int]);
            match ParsedField::from_syn_field(&fields[i]) {
                Ok(pf) => {
                    parsed.push(pf);
                },
                Err(e) => {
                    errors.push((i, e));
                },
            }
            i = i + 1;
        }
        assert(fields@.subrange(0, n as int) =~= fields@);
        if errors.len() == 0 {
            Ok(parsed)
        } else {
            Err(errors)
        }
    }
}

// ---------------------------------------------------------------------------
// Struct attributes.

/// The positions of the struct-level lifecycle hooks in force.
pub struct InjectableAttrs {
    /// `#[post_construct(expr)]`: run on the new value.
    pub post_construct: Option<usize>,
    /// `#[pre_destroy(expr)]`: run on drop.
    pub pre_destroy: Option<usize>,
    /// `#[async_pre_destroy(expr)]`: run by an async `destroy()`.
    pub async_pre_destroy: Option<usize>,
}

/// The attribute is a lifecycle hook called `lit` holding an expression.
pub open spec fn hook_that_reads(lit: Seq<char>) -> spec_fn(AttrModel) -> bool {
    |a: AttrModel| attr_is(a, lit) && a.expr_ok
}

/// The attribute is a lifecycle hook.
pub open spec fn is_hook(a: AttrModel) -> bool {
    attr_is(a, "post_construct"@) || attr_is(a, "pre_destroy"@) || attr_is(
        a,
        "async_pre_destroy"@,
    )
}

/// The attribute is a lifecycle hook that does not hold an expression.
pub open spec fn hook_unreadable() -> spec_fn(AttrModel) -> bool {
    |a: AttrModel| is_hook(a) && !a.expr_ok
}

/// The position of the last readable hook called `lit`, if any.
pub open spec fn hook_position(attrs: Seq<AttrModel>, lit: Seq<char>) -> Option<usize> {
    let i = last_where(attrs, hook_that_reads(lit));
    if i >= 0 {
        Some(i as usize)
    } else {
        None
    }
}

impl InjectableAttrs {
    /// Read the lifecycle hooks; the last readable one of each kind is in
    /// force. Fails with the positions of the hooks that hold no expression.
    pub fn from_attrs(attrs: &Vec<AttrModel>) -> (r: Result<InjectableAttrs, Vec<usize>>)
        ensures
            match r {
                Ok(h) => positions_where(attrs@, hook_unreadable()).len() == 0 && h.post_construct
                    == hook_position(attrs@, "post_construct"@) && h.pre_destroy == hook_position(
                    attrs@,
                    "pre_destroy"@,
                ) && h.async_pre_destroy == hook_position(attrs@, "async_pre_destroy"@),
                Err(ps) => ps@.len() > 0 && ps@ == positions_where(attrs@, hook_unreadable()),
            },
    {
        let mut post_construct: Option<usize> = None;
        let mut pre_destroy: Option<usize> = None;
        let mut async_pre_destroy: Option<usize> = None;
        let mut errors: Vec<usize> = Vec::new();
        let n = attrs.len();
        let mut k: usize = 0;
        while k < n
            invariant
                n == attrs@.len(),
                k <= n,
                post_construct == hook_position(attrs@.subrange(0, k as int), "post_construct"@),
                pre_destroy == hook_position(attrs@.subrange(0, k as int), "pre_destroy"@),
                async_pre_destroy == hook_position(
                    attrs@.subrange(0, k as int),
                    "async_pre_destroy"@,
                ),
                errors@ == positions_where(attrs@.subrange(0, k as int), hook_unreadable()),
            decreases n - k,
        {
            proof {
                lemma_struct_attr_names_distinct();
                lemma_where_step(attrs@, k as int, hook_that_reads("post_construct"@));
                lemma_where_step(attrs@, k as int, hook_that_reads("pre_destroy"@));
                lemma_where_step(attrs@, k as int, hook_that_reads("async_pre_destroy"@));
                lemma_where_step(attrs@, k as int, hook_unreadable());
            }
            let a = &attrs[k];
            if name_is(&a.name, "post_construct") {
                if a.expr_ok {
                    post_construct = Some(k);
                } else {
                    errors.push(k);
                }
            } else if name_is(&a.name, "pre_destroy") {
                if a.expr_ok {
                    pre_destroy = Some(k);
                } else {
                    errors.push(k);
                }
            } else if name_is(&a.name, "async_pre_destroy") {
                if a.expr_ok {
                    async_pre_destroy = Some(k);
                } else {
                    errors.push(k);
                }
            }
            k = k + 1;
        }
        assert(attrs@.subrange(0, n as int) =~= attrs@);
        if errors.len() > 0 {
            return Err(errors);
        }
        Ok(InjectableAttrs { post_construct, pre_destroy, async_pre_destroy })
    }

    /// Remove consumed attributes (the lifecycle hooks) from a mutable attrs list.
    pub fn strip_from(attrs: &mut Vec<AttrModel>)
        ensures
            final(attrs)@ == attrs_where(old(attrs)@, not_hook()),
    {
        let mut rest: Vec<AttrModel> = Vec::new();
        std::mem::swap(&mut rest, attrs);
        let ghost orig = rest@;
        let n = rest.len();
        let mut k: usize = 0;
        while k < n
            invariant
                n == orig.len(),
                k <= n,
                rest@ == orig.subrange(k as int, n as int),
                attrs@ == attrs_where(orig.subrange(0, k as int), not_hook()),
            decreases n - k,
        {
            proof {
                lemma_prefix_step(orig, k as int);
            }
            let a = rest.remove(0);
            let keep = !(name_is(&a.name, "post_construct") || name_is(&a.name, "pre_destroy")
                || name_is(&a.name, "async_pre_destroy"));
            if keep {
                attrs.push(a);
            }
            k = k + 1;
            assert(rest@ =~= orig.subrange(k as int, n as int));
        }
        assert(orig.subrange(0, n as int) =~= orig);
    }
}

/// The attribute is not a lifecycle hook.
pub open spec fn not_hook() -> spec_fn(AttrModel) -> bool {
    |a: AttrModel| !is_hook(a)
}

/// The attributes satisfying `pred`, in order.
pub open spec fn attrs_where(attrs: Seq<AttrModel>, pred: spec_fn(AttrModel) -> bool) -> Seq<
    AttrModel,
>
    decreases attrs.len(),
{
    if attrs.len() == 0 {
        Seq::empty()
    } else if pred(attrs.last()) {
        attrs_where(attrs.drop_last(), pred).push(attrs.last())
    } else {
        attrs_where(attrs.drop_last(), pred)
    }
}

/// Parsed struct-level attributes for `#[provider]`: positions of the
/// `#[provide(..)]`, `#[decorate(..)]` and `#[scope(..)]` attributes.
pub struct ProviderAttrs {
    pub provide_attrs: Vec<usize>,
    pub decorate_attrs: Vec<usize>,
    pub scope_attrs: Vec<usize>,
}

impl ProviderAttrs {
    /// Collect provider-relevant attributes from the struct-level attribute list.
    pub fn from_attrs(attrs: &Vec<AttrModel>) -> (r: ProviderAttrs)
        ensures
            r.provide_attrs@ == positions_where(attrs@, called("provide"@)),
            r.decorate_attrs@ == positions_where(attrs@, called("decorate"@)),
            r.scope_attrs@ == positions_where(attrs@, called("scope"@)),
    {
        let mut provide_attrs: Vec<usize> = Vec::new();
        let mut decorate_attrs: Vec<usize> = Vec::new();
        let mut scope_attrs: Vec<usize> = Vec::new();
        let n = attrs.len();
        let mut k: usize = 0;
        while k < n
            invariant
                n == attrs@.len(),
                k <= n,
                provide_attrs@ == positions_where(attrs@.subrange(0, k as int), called("provide"@)),
                decorate_attrs@ == positions_where(
                    attrs@.subrange(0, k as int),
                    called("decorate"@),
                ),
                scope_attrs@ == positions_where(attrs@.subrange(0, k as int), called("scope"@)),
            decreases n - k,
        {
            proof {
                lemma_struct_attr_names_distinct();
                lemma_where_step(attrs@, k as int, called("provide"@));
                lemma_where_step(attrs@, k as int, called("decorate"@));
                lemma_where_step(attrs@, k as int, called("scope"@));
            }
            let a = &attrs[k];
            if name_is(&a.name, "provide") {
                provide_attrs.push(k);
            } else if name_is(&a.name, "decorate") {
                decorate_attrs.push(k);
            } else if name_is(&a.name, "scope") {
                scope_attrs.push(k);
            }
            k = k + 1;
        }
        assert(attrs@.subrange(0, n as int) =~= attrs@);
        ProviderAttrs { provide_attrs, decorate_attrs, scope_attrs }
    }
}

} // verus!

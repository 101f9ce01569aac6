//! Plain-value models of the Rust syntax that the generators read. A front
//! end parses the source tokens and fills these in; the generators decide on
//! them and refer back to the parsed items by position.
use vstd::prelude::*;
use vstd::string::StringExecFns;

verus! {

/// A reference type `&'a T`: the lifetime's name if one is written, and `T`'s token text.
pub struct RefInfo {
    pub lifetime: Option<String>,
    pub elem_key: String,
}

impl Clone for RefInfo {
    fn clone(&self) -> (c: Self)
        ensures
            c == *self,
    {
        RefInfo {
            lifetime: match &self.lifetime {
                Some(l) => Some(l.clone()),
                None => None,
            },
            elem_key: self.elem_key.clone(),
        }
    }
}

impl Clone for TypeInfo {
    fn clone(&self) -> (c: Self)
        ensures
            c == *self,
    {
        TypeInfo {
            key: self.key.clone(),
            last_segment: match &self.last_segment {
                Some(l) => Some(l.clone()),
                None => None,
            },
            reference: match &self.reference {
                Some(r) => Some(r.clone()),
                None => None,
            },
        }
    }
}

/// A type, by its token text and the parts of its shape the generators test.
pub struct TypeInfo {
    /// The type's token text; two types are the same when their texts are.
    pub key: String,
    /// The name of the last path segment, for a path type.
    pub last_segment: Option<String>,
    /// Set for a reference type.
    pub reference: Option<RefInfo>,
}

/// One parameter of a closure written in an attribute.
pub struct ClosureParam {
    /// The bound name, when the pattern is a plain identifier (possibly with a type ascribed).
    pub ident: Option<String>,
    /// The ascribed type, when the pattern has the form `pat: Type`.
    pub ty: Option<TypeInfo>,
}

/// The arguments of `#[inject(..)]` as written.
pub enum InjectSyntax {
    /// `named("text")`.
    NamedLit(String),
    /// `named(Type)`.
    NamedType(TypeInfo),
    /// `|a: A, b: B| expr`.
    Closure(Vec<ClosureParam>),
    /// Any other expression.
    Expr,
}

/// The arguments of a field-level `#[provide(..)]` or `#[export(..)]` as written.
pub enum FieldFactorySyntax {
    /// `()`.
    Empty,
    /// `(Type)`.
    Type(TypeInfo),
    /// `(Type, |params| expr)`.
    TypeClosure(TypeInfo, Vec<ClosureParam>),
}

/// The arguments of a struct-level `#[provide(..)]` or `#[export(..)]` as written.
pub enum TypeFactorySyntax {
    /// `(Type, expr)`.
    TypeExpr(TypeInfo),
    /// `(Type, |params| expr)`.
    TypeClosure(TypeInfo, Vec<ClosureParam>),
}

/// The arguments of `#[decorate(Type, |param| expr)]` as written.
pub struct DecorateSyntax {
    pub ty: TypeInfo,
    pub params: Vec<ClosureParam>,
}

/// An attribute, with every reading of its arguments that the generators may ask for.
pub struct AttrModel {
    /// The attribute's name, when its path is a single identifier.
    pub name: Option<String>,
    /// Written as a bare path, without arguments.
    pub bare: bool,
    /// The arguments read as an inject expression, when they parse as one.
    pub inject: Option<InjectSyntax>,
    /// Whether the arguments parse as one expression.
    pub expr_ok: bool,
    /// The arguments read as a field-level factory, when they parse as one.
    pub field_factory: Option<FieldFactorySyntax>,
    /// The arguments read as a struct-level factory, when they parse as one.
    pub type_factory: Option<TypeFactorySyntax>,
    /// The arguments read as a decorator, when they parse as one.
    pub decorate: Option<DecorateSyntax>,
    /// The arguments read as a scope field, when they parse as one.
    pub scope: Option<ScopeField>,
}

/// A field declared by `#[scope(..)]`: `name: #[attrs] Type` or `#[attrs] Type`.
pub struct ScopeField {
    pub name: Option<String>,
    pub ty: TypeInfo,
    pub attrs: Vec<AttrModel>,
}

/// A struct field.
pub struct FieldModel {
    pub ident: Option<String>,
    pub ty: TypeInfo,
    pub attrs: Vec<AttrModel>,
}

/// Whether `name` is present and reads `lit`.
pub open spec fn named(name: Option<String>, lit: Seq<char>) -> bool {
    match name {
        Some(n) => n@ == lit,
        None => false,
    }
}

/// Whether the attribute is called `lit`.
pub open spec fn attr_is(a: AttrModel, lit: Seq<char>) -> bool {
    named(a.name, lit)
}

/// Tests whether `name` is present and reads `lit`.
pub fn name_is(name: &Option<String>, lit: &str) -> (b: bool)
    ensures
        b == named(*name, lit@),
{
    match name {
        Some(n) => {
            let l = String::from_str(lit);
            *n == l
        },
        None => false,
    }
}

/// Whether a type's last path segment is named `name` (`Option`, `Lazy`, ...).
pub open spec fn type_named(t: TypeInfo, name: Seq<char>) -> bool {
    named(t.last_segment, name)
}

/// Check if a type's last path segment matches the given name (e.g. "Option", "Late", "Lazy").
pub fn is_type_named(ty: &TypeInfo, name: &str) -> (b: bool)
    ensures
        b == type_named(*ty, name@),
{
    name_is(&ty.last_segment, name)
}

/// Copies a string.
pub fn copy_string(s: &String) -> (c: String)
    ensures
        c@ == s@,
{
    s.clone()
}

/// The kind of a generic parameter.
pub enum GenericKind {
    Lifetime,
    Type,
    Const,
}

/// A generic parameter: its kind and its name (a lifetime with its quote, `'a`).
pub struct GenericParamModel {
    pub kind: GenericKind,
    pub name: String,
}

/// A struct that a generator is applied to.
pub struct StructModel {
    pub ident: String,
    pub attrs: Vec<AttrModel>,
    pub fields: Vec<FieldModel>,
    pub generics: Vec<GenericParamModel>,
}

/// The names of the fields that have one, in order.
pub open spec fn field_idents_spec(fields: Seq<FieldModel>) -> Seq<Seq<char>>
    decreases fields.len(),
{
    if fields.len() == 0 {
        Seq::empty()
    } else {
        match fields.last().ident {
            Some(i) => field_idents_spec(fields.drop_last()).push(i@),
            None => field_idents_spec(fields.drop_last()),
        }
    }
}

/// The views of a sequence of strings.
pub open spec fn views(s: Seq<String>) -> Seq<Seq<char>> {
    Seq::new(s.len(), |i: int| s[i]@)
}

/// The names of the lifetime parameters, in order.
pub open spec fn lifetime_keys_spec(ps: Seq<GenericParamModel>) -> Seq<Seq<char>>
    decreases ps.len(),
{
    if ps.len() == 0 {
        Seq::empty()
    } else if ps.last().kind is Lifetime {
        lifetime_keys_spec(ps.drop_last()).push(ps.last().name@)
    } else {
        lifetime_keys_spec(ps.drop_last())
    }
}

impl StructModel {
    /// The names of the named fields (none for a tuple struct).
    pub fn field_idents(&self) -> (r: Vec<String>)
        ensures
            views(r@) == field_idents_spec(self.fields@),
    {
        let mut r: Vec<String> = Vec::new();
        let n = self.fields.len();
        let mut k: usize = 0;
        while k < n
            invariant
                n == self.fields@.len(),
                k <= n,
                views(r@) == field_idents_spec(self.fields@.subrange(0, k as int)),
            decreases n - k,
        {
            assert(self.fields@.subrange(0, k + 1).drop_last() =~= self.fields@.subrange(0, k as int));
            match &self.fields[k].ident {
                Some(i) => {
                    r.push(copy_string(i));
                },
                None => {},
            }
            k = k + 1;
            assert(views(r@) =~= field_idents_spec(self.fields@.subrange(0, k as int)));
        }
        assert(self.fields@.subrange(0, n as int) =~= self.fields@);
        r
    }

    /// The names of all generic parameters, in order.
    pub fn generic_keys(&self) -> (r: Vec<String>)
        ensures
            r@.len() == self.generics@.len(),
            forall|i: int| 0 <= i < r@.len() ==> (#[trigger] r@[i])@ == self.generics@[i].name@,
    {
        let mut r: Vec<String> = Vec::new();
        let n = self.generics.len();
        let mut k: usize = 0;
        while k < n
            invariant
                n == self.generics@.len(),
                k <= n,
                r@.len() == k,
                forall|i: int| 0 <= i < k ==> (#[trigger] r@[i])@ == self.generics@[i].name@,
            decreases n - k,
        {
            r.push(copy_string(&self.generics[k].name));
            k = k + 1;
        }
        r
    }

    /// The names of the lifetime parameters, in order.
    pub fn lifetime_keys(&self) -> (r: Vec<String>)
        ensures
            views(r@) == lifetime_keys_spec(self.generics@),
    {
        let mut r: Vec<String> = Vec::new();
        let n = self.generics.len();
        let mut k: usize = 0;
        while k < n
            invariant
                n == self.generics@.len(),
                k <= n,
                views(r@) == lifetime_keys_spec(self.generics@.subrange(0, k as int)),
            decreases n - k,
        {
            assert(self.generics@.subrange(0, k + 1).drop_last() =~= self.generics@.subrange(
                0,
                k as int,
            ));
            match self.generics[k].kind {
                GenericKind::Lifetime => {
                    r.push(copy_string(&self.generics[k].name));
                },
                _ => {},
            }
            k = k + 1;
            assert(views(r@) =~= lifetime_keys_spec(self.generics@.subrange(0, k as int)));
        }
        assert(self.generics@.subrange(0, n as int) =~= self.generics@);
        r
    }
}

/// The generic parts of a generated impl: the parameters' names, and the
/// lifetimes that `'prov` must outlive (`'prov: 'a + 'b,`; no bound when empty).
pub struct Generics {
    pub keys: Vec<String>,
    pub prov_outlives: Vec<String>,
}

impl Generics {
    /// The generic parts of an impl for `input`.
    pub fn from_input(input: &StructModel) -> (g: Generics)
        ensures
            g.keys@.len() == input.generics@.len(),
            forall|i: int| 0 <= i < g.keys@.len() ==> (#[trigger] g.keys@[i])@ == input.generics@[i].name@,
            views(g.prov_outlives@) == lifetime_keys_spec(input.generics@),
    {
        Generics { keys: input.generic_keys(), prov_outlives: input.lifetime_keys() }
    }
}

} // verus!

//! The shape of a Rust type as the generators walk it: path segments with
//! their generic arguments, references, trait objects, and everything else
//! kept as token text.
use vstd::prelude::*;
use crate::model::{copy_string, views};
use vstd::string::StringExecFns;

verus! {

/// A type.
pub enum TypeShape {
    /// A path type, `a::B<C>`.
    Path(PathShape),
    /// A reference, `&'a mut T`: its lifetime's name if one is written,
    /// whether it is mutable, and the referred type.
    Reference(Option<String>, bool, Box<TypeShape>),
    /// A trait object, `dyn A + 'a`: its bounds.
    TraitObject(Vec<BoundShape>),
    /// Any other type, by its token text.
    Other(String),
}

/// A path: whether it starts with `::`, and its segments.
pub struct PathShape {
    pub leading_colon: bool,
    pub segments: Vec<SegmentShape>,
}

/// A path segment: its name and its arguments.
pub struct SegmentShape {
    pub ident: String,
    pub args: ArgsShape,
}

/// The arguments of a path segment.
pub enum ArgsShape {
    /// None.
    Plain,
    /// `<A, 'b, C = D>`.
    Angle(Vec<ArgShape>),
    /// `(A, B) -> C`: the inputs, and the output as token text, if any.
    Paren(Vec<TypeShape>, Option<String>),
}

/// A generic argument.
pub enum ArgShape {
    /// A lifetime, by its name.
    Lifetime(String),
    /// A type.
    Type(TypeShape),
    /// `Name<..> = Type`: the name, its own arguments if written, and the type.
    AssocType(String, Option<Vec<ArgShape>>, TypeShape),
    /// `Name<..>: Bounds`: the name, its own arguments if written, and the bounds.
    Constraint(String, Option<Vec<ArgShape>>, Vec<BoundShape>),
    /// Any other argument, by its token text.
    Other(String),
}

/// A bound: a trait path, or any other bound by its token text.
pub enum BoundShape {
    Trait(PathShape),
    Other(String),
}

// ---------------------------------------------------------------------------
// Lifetimes.

/// The lifetimes written in a type, in order of appearance, as the
/// generators find them: those of references, and those given as generic
/// arguments of path segments, looking into type arguments.
pub open spec fn type_lifetimes(t: TypeShape) -> Seq<Seq<char>>
    decreases t,
{
    match t {
        TypeShape::Path(p) => segments_lifetimes(p.segments@),
        TypeShape::Reference(l, _, e) => match l {
            Some(x) => seq![x@] + type_lifetimes(*e),
            None => type_lifetimes(*e),
        },
        _ => Seq::empty(),
    }
}

/// The lifetimes written in path segments, in order.
pub open spec fn segments_lifetimes(s: Seq<SegmentShape>) -> Seq<Seq<char>>
    decreases s,
{
    if s.len() == 0 {
        Seq::empty()
    } else {
        segments_lifetimes(s.subrange(0, s.len() - 1)) + match s[s.len() - 1].args {
            ArgsShape::Angle(a) => args_lifetimes(a@),
            _ => Seq::empty(),
        }
    }
}

/// The lifetimes written in generic arguments, in order.
pub open spec fn args_lifetimes(a: Seq<ArgShape>) -> Seq<Seq<char>>
    decreases a,
{
    if a.len() == 0 {
        Seq::empty()
    } else {
        args_lifetimes(a.subrange(0, a.len() - 1)) + match a[a.len() - 1] {
            ArgShape::Lifetime(l) => seq![l@],
            ArgShape::Type(t) => type_lifetimes(t),
            _ => Seq::empty(),
        }
    }
}

/// `acc` followed by those items of `s` that are not already there, each once,
/// in order.
pub open spec fn add_unique(acc: Seq<Seq<char>>, s: Seq<Seq<char>>) -> Seq<Seq<char>>
    decreases s.len(),
{
    if s.len() == 0 {
        acc
    } else {
        let before = add_unique(acc, s.drop_last());
        if before.contains(s.last()) {
            before
        } else {
            before.push(s.last())
        }
    }
}

/// Adding two sequences one after the other is adding their concatenation.
pub proof fn lemma_add_unique_concat(acc: Seq<Seq<char>>, s1: Seq<Seq<char>>, s2: Seq<Seq<char>>)
    ensures
        add_unique(add_unique(acc, s1), s2) == add_unique(acc, s1 + s2),
    decreases s2.len(),
{
    if s2.len() == 0 {
        assert(s1 + s2 =~= s1);
    } else {
        lemma_add_unique_concat(acc, s1, s2.drop_last());
        assert((s1 + s2).drop_last() =~= s1 + s2.drop_last());
        assert((s1 + s2).last() == s2.last());
    }
}

/// Adding items never repeats one: when `acc` holds no item twice, neither
/// does the result, and the result holds exactly the items of `acc` and `s`.
pub proof fn law_add_unique_distinct(acc: Seq<Seq<char>>, s: Seq<Seq<char>>)
    requires
        acc.no_duplicates(),
    ensures
        add_unique(acc, s).no_duplicates(),
        forall|x: Seq<char>| #[trigger] add_unique(acc, s).contains(x) <==> acc.contains(x) || s.contains(x),
    decreases s.len(),
{
    if s.len() > 0 {
        let before = add_unique(acc, s.drop_last());
        law_add_unique_distinct(acc, s.drop_last());
        assert forall|x: Seq<char>| #[trigger] add_unique(acc, s).contains(x) <==> acc.contains(x) || s.contains(x) by {
            if s.drop_last().contains(x) {
                let j = choose|j: int| 0 <= j < s.drop_last().len() && s.drop_last()[j] == x;
                assert(s[j] == x);
            }
            if s.contains(x) && x != s.last() {
                let j = choose|j: int| 0 <= j < s.len() && s[j] == x;
                assert(s.drop_last()[j] == x);
            }
            if !before.contains(s.last()) {
                assert(before.push(s.last()).last() == s.last());
                if before.contains(x) {
                    let j = choose|j: int| 0 <= j < before.len() && before[j] == x;
                    assert(before.push(s.last())[j] == x);
                }
                if before.push(s.last()).contains(x) && x != s.last() {
                    let j = choose|j: int| 0 <= j < before.len() + 1 && before.push(s.last())[j] == x;
                    assert(before[j] == x);
                }
            }
        }
        if !before.contains(s.last()) {
            assert forall|i: int, j: int|
                0 <= i < before.len() + 1 && 0 <= j < before.len() + 1 && i != j implies before.push(
                s.last(),
            )[i] != before.push(s.last())[j] by {
                if i == before.len() {
                    assert(before[j] != s.last());
                } else if j == before.len() {
                    assert(before[i] != s.last());
                }
            }
        }
    }
}

fn contains_name(names: &Vec<String>, n: &String) -> (b: bool)
    ensures
        b == views(names@).contains(n@),
{
    let mut k: usize = 0;
    while k < names.len()
        invariant
            k <= names@.len(),
            forall|i: int| 0 <= i < k ==> names@[i]@ != n@,
        decreases names@.len() - k,
    {
        if names[k] == *n {
            assert(views(names@)[k as int] == n@);
            return true;
        }
        k = k + 1;
    }
    assert forall|i: int| 0 <= i < views(names@).len() implies views(names@)[i] != n@ by {}
    false
}

fn add_name(names: &mut Vec<String>, n: &String)
    ensures
        views(final(names)@) == add_unique(views(old(names)@), seq![n@]),
{
    proof {
        reveal_with_fuel(add_unique, 2);
        assert(seq![n@].drop_last() =~= Seq::<Seq<char>>::empty());
    }
    if !contains_name(names, n) {
        names.push(n.clone());
        assert(views(names@) =~= views(old(names)@).push(n@));
    }
}

fn collect_lifetimes_from_args(args: &Vec<ArgShape>, lifetimes: &mut Vec<String>)
    ensures
        views(final(lifetimes)@) == add_unique(views(old(lifetimes)@), args_lifetimes(args@)),
    decreases args@, 0nat,
{
    let ghost start = views(lifetimes@);
    let mut k: usize = 0;
    while k < args.len()
        invariant
            k <= args@.len(),
            views(lifetimes@) == add_unique(start, args_lifetimes(args@.subrange(0, k as int))),
        decreases args@.len() - k,
    {
        let ghost before = views(lifetimes@);
        let ghost pre = args@.subrange(0, k as int);
        assert(args@.subrange(0, k + 1).subrange(0, k as int) =~= pre);
        assert(args@.subrange(0, k + 1)[k as int] == args@[k as int]);
        match &args[k] {
            ArgShape::Lifetime(lt) => {
                add_name(lifetimes, lt);
                proof {
                    lemma_add_unique_concat(start, args_lifetimes(pre), seq![lt@]);
                }
            },
            ArgShape::Type(t) => {
                assert(decreases_to!(args@ => args@[k as int]));
                collect_lifetimes_from_type(t, lifetimes);
                proof {
                    lemma_add_unique_concat(start, args_lifetimes(pre), type_lifetimes(*t));
                }
            },
            _ => {
                assert(args_lifetimes(pre) + Seq::<Seq<char>>::empty() =~= args_lifetimes(pre));
            },
        }
        k = k + 1;
    }
    assert(args@.subrange(0, args@.len() as int) =~= args@);
}

/// Adds to `lifetimes` the lifetimes written in `ty` that it does not hold
/// yet, in order of appearance.
pub fn collect_lifetimes_from_type(ty: &TypeShape, lifetimes: &mut Vec<String>)
    ensures
        views(final(lifetimes)@) == add_unique(views(old(lifetimes)@), type_lifetimes(*ty)),
    decreases ty, 1nat,
{
    match ty {
        TypeShape::Path(p) => {
            let ghost start = views(lifetimes@);
            let segs = &p.segments;
            let mut k: usize = 0;
            while k < segs.len()
                invariant
                    k <= segs@.len(),
                    *segs == p.segments,
                    *ty == TypeShape::Path(*p),
                    views(lifetimes@) == add_unique(start, segments_lifetimes(segs@.subrange(0, k as int))),
                decreases segs@.len() - k,
            {
                let ghost pre = segs@.subrange(0, k as int);
                assert(segs@.subrange(0, k + 1).subrange(0, k as int) =~= pre);
                assert(segs@.subrange(0, k + 1)[k as int] == segs@[k as int]);
                match &segs[k].args {
                    ArgsShape::Angle(args) => {
                        proof {
                            let sk = segs@[k as int];
                            assert(decreases_to!(*ty => ty->Path_0));
                            assert(decreases_to!(*p => p.segments));
                            assert(decreases_to!(p.segments => p.segments@));
                            assert(decreases_to!(p.segments@ => sk));
                            assert(decreases_to!(sk => sk.args));
                            assert(decreases_to!(sk.args => *args));
                            assert(decreases_to!(*args => args@));
                        }
                        collect_lifetimes_from_args(args, lifetimes);
                        proof {
                            lemma_add_unique_concat(start, segments_lifetimes(pre), args_lifetimes(args@));
                        }
                    },
                    _ => {
                        assert(segments_lifetimes(pre) + Seq::<Seq<char>>::empty() =~= segments_lifetimes(pre));
                    },
                }
                k = k + 1;
            }
            assert(segs@.subrange(0, segs@.len() as int) =~= segs@);
        },
        TypeShape::Reference(l, _, e) => {
            let ghost start = views(lifetimes@);
            match l {
                Some(x) => {
                    add_name(lifetimes, x);
                    collect_lifetimes_from_type(e, lifetimes);
                    proof {
                        lemma_add_unique_concat(start, seq![x@], type_lifetimes(**e));
                    }
                },
                None => {
                    collect_lifetimes_from_type(e, lifetimes);
                },
            }
        },
        _ => {
            assert(views(lifetimes@) == add_unique(views(lifetimes@), Seq::<Seq<char>>::empty()));
        },
    }
}

// ---------------------------------------------------------------------------
// Renaming path segments.

/// The name a segment named `ident` gets when `from` is renamed `to`.
pub open spec fn renamed_ident(ident: Seq<char>, from: Seq<char>, to: Seq<char>) -> Seq<char> {
    if ident == from {
        to
    } else {
        ident
    }
}

/// Whether the renaming walk can go through `t`: it reaches only paths,
/// references and trait objects.
pub open spec fn renamable(t: TypeShape) -> bool
    decreases t,
{
    match t {
        TypeShape::Path(p) => segments_renamable(p.segments@),
        TypeShape::Reference(_, _, e) => renamable(*e),
        TypeShape::TraitObject(bs) => bounds_renamable(bs@),
        TypeShape::Other(_) => false,
    }
}

pub open spec fn segments_renamable(s: Seq<SegmentShape>) -> bool
    decreases s,
{
    if s.len() == 0 {
        true
    } else {
        segments_renamable(s.subrange(0, s.len() - 1)) && match s[s.len() - 1].args {
            ArgsShape::Plain => true,
            ArgsShape::Angle(a) => args_renamable(a@),
            ArgsShape::Paren(i, _) => types_renamable(i@),
        }
    }
}

pub open spec fn types_renamable(s: Seq<TypeShape>) -> bool
    decreases s,
{
    if s.len() == 0 {
        true
    } else {
        types_renamable(s.subrange(0, s.len() - 1)) && renamable(s[s.len() - 1])
    }
}

pub open spec fn args_renamable(a: Seq<ArgShape>) -> bool
    decreases a,
{
    if a.len() == 0 {
        true
    } else {
        args_renamable(a.subrange(0, a.len() - 1)) && match a[a.len() - 1] {
            ArgShape::Type(t) => renamable(t),
            ArgShape::AssocType(_, g, t) => (match g {
                Some(v) => args_renamable(v@),
                None => true,
            }) && renamable(t),
            ArgShape::Constraint(_, g, bs) => (match g {
                Some(v) => args_renamable(v@),
                None => true,
            }) && bounds_renamable(bs@),
            _ => true,
        }
    }
}

pub open spec fn bounds_renamable(b: Seq<BoundShape>) -> bool
    decreases b,
{
    if b.len() == 0 {
        true
    } else {
        bounds_renamable(b.subrange(0, b.len() - 1)) && match b[b.len() - 1] {
            BoundShape::Trait(p) => segments_renamable(p.segments@),
            BoundShape::Other(_) => true,
        }
    }
}

/// Whether `n` is `t` with every path segment named `from` renamed `to`:
/// in the type's paths, in the type arguments, associated types and
/// constraints of their segments, in the inputs of parenthesized arguments,
/// under references and in trait-object bounds.
pub open spec fn type_renamed(t: TypeShape, n: TypeShape, from: Seq<char>, to: Seq<char>) -> bool
    decreases t,
{
    match t {
        TypeShape::Path(p) => n matches TypeShape::Path(q) && p.leading_colon == q.leading_colon
            && segments_renamed(p.segments@, q.segments@, from, to),
        TypeShape::Reference(l, m, e) => n matches TypeShape::Reference(l2, m2, e2) && l == l2 && m == m2
            && type_renamed(*e, *e2, from, to),
        TypeShape::TraitObject(bs) => n matches TypeShape::TraitObject(bs2) && bounds_renamed(
            bs@,
            bs2@,
            from,
            to,
        ),
        TypeShape::Other(_) => false,
    }
}

pub open spec fn segments_renamed(
    s: Seq<SegmentShape>,
    s2: Seq<SegmentShape>,
    from: Seq<char>,
    to: Seq<char>,
) -> bool
    decreases s,
{
    &&& s.len() == s2.len()
    &&& if s.len() == 0 {
        true
    } else {
        let g = s[s.len() - 1];
        let h = s2[s.len() - 1];
        &&& segments_renamed(s.subrange(0, s.len() - 1), s2.subrange(0, s.len() - 1), from, to)
        &&& h.ident@ == renamed_ident(g.ident@, from, to)
        &&& match g.args {
            ArgsShape::Plain => h.args is Plain,
            ArgsShape::Angle(a) => h.args matches ArgsShape::Angle(b) && args_renamed(a@, b@, from, to),
            ArgsShape::Paren(i, o) => h.args matches ArgsShape::Paren(i2, o2) && o == o2 && types_renamed(
                i@,
                i2@,
                from,
                to,
            ),
        }
    }
}

pub open spec fn types_renamed(s: Seq<TypeShape>, s2: Seq<TypeShape>, from: Seq<char>, to: Seq<char>) -> bool
    decreases s,
{
    &&& s.len() == s2.len()
    &&& if s.len() == 0 {
        true
    } else {
        &&& types_renamed(s.subrange(0, s.len() - 1), s2.subrange(0, s.len() - 1), from, to)
        &&& type_renamed(s[s.len() - 1], s2[s.len() - 1], from, to)
    }
}

pub open spec fn opt_args_renamed(
    g: Option<Vec<ArgShape>>,
    g2: Option<Vec<ArgShape>>,
    from: Seq<char>,
    to: Seq<char>,
) -> bool
    decreases g,
{
    match g {
        Some(v) => g2 matches Some(w) && args_renamed(v@, w@, from, to),
        None => g2 is None,
    }
}

pub open spec fn args_renamed(a: Seq<ArgShape>, b: Seq<ArgShape>, from: Seq<char>, to: Seq<char>) -> bool
    decreases a,
{
    &&& a.len() == b.len()
    &&& if a.len() == 0 {
        true
    } else {
        let x = a[a.len() - 1];
        let y = b[a.len() - 1];
        &&& args_renamed(a.subrange(0, a.len() - 1), b.subrange(0, a.len() - 1), from, to)
        &&& match x {
            ArgShape::Type(t) => y matches ArgShape::Type(u) && type_renamed(t, u, from, to),
            ArgShape::AssocType(nm, g, t) => y matches ArgShape::AssocType(nm2, g2, u) && nm == nm2
                && opt_args_renamed(g, g2, from, to) && type_renamed(t, u, from, to),
            ArgShape::Constraint(nm, g, bs) => y matches ArgShape::Constraint(nm2, g2, bs2) && nm == nm2
                && opt_args_renamed(g, g2, from, to) && bounds_renamed(bs@, bs2@, from, to),
            _ => y == x,
        }
    }
}

pub open spec fn bounds_renamed(b: Seq<BoundShape>, b2: Seq<BoundShape>, from: Seq<char>, to: Seq<char>) -> bool
    decreases b,
{
    &&& b.len() == b2.len()
    &&& if b.len() == 0 {
        true
    } else {
        &&& bounds_renamed(b.subrange(0, b.len() - 1), b2.subrange(0, b.len() - 1), from, to)
        &&& match b[b.len() - 1] {
            BoundShape::Trait(p) => b2[b.len() - 1] matches BoundShape::Trait(q) && p.leading_colon
                == q.leading_colon && segments_renamed(p.segments@, q.segments@, from, to),
            BoundShape::Other(x) => b2[b.len() - 1] == BoundShape::Other(x),
        }
    }
}

/// Whether no segment that the renaming walk reaches in `t` is named `name`.
pub open spec fn type_free_of(t: TypeShape, name: Seq<char>) -> bool
    decreases t,
{
    match t {
        TypeShape::Path(p) => segments_free_of(p.segments@, name),
        TypeShape::Reference(_, _, e) => type_free_of(*e, name),
        TypeShape::TraitObject(bs) => bounds_free_of(bs@, name),
        TypeShape::Other(_) => true,
    }
}

pub open spec fn segments_free_of(s: Seq<SegmentShape>, name: Seq<char>) -> bool
    decreases s,
{
    if s.len() == 0 {
        true
    } else {
        &&& segments_free_of(s.subrange(0, s.len() - 1), name)
        &&& s[s.len() - 1].ident@ != name
        &&& match s[s.len() - 1].args {
            ArgsShape::Plain => true,
            ArgsShape::Angle(a) => args_free_of(a@, name),
            ArgsShape::Paren(i, _) => types_free_of(i@, name),
        }
    }
}

pub open spec fn types_free_of(s: Seq<TypeShape>, name: Seq<char>) -> bool
    decreases s,
{
    if s.len() == 0 {
        true
    } else {
        types_free_of(s.subrange(0, s.len() - 1), name) && type_free_of(s[s.len() - 1], name)
    }
}

pub open spec fn args_free_of(a: Seq<ArgShape>, name: Seq<char>) -> bool
    decreases a,
{
    if a.len() == 0 {
        true
    } else {
        args_free_of(a.subrange(0, a.len() - 1), name) && match a[a.len() - 1] {
            ArgShape::Type(t) => type_free_of(t, name),
            ArgShape::AssocType(_, g, t) => (match g {
                Some(v) => args_free_of(v@, name),
                None => true,
            }) && type_free_of(t, name),
            ArgShape::Constraint(_, g, bs) => (match g {
                Some(v) => args_free_of(v@, name),
                None => true,
            }) && bounds_free_of(bs@, name),
            _ => true,
        }
    }
}

pub open spec fn bounds_free_of(b: Seq<BoundShape>, name: Seq<char>) -> bool
    decreases b,
{
    if b.len() == 0 {
        true
    } else {
        bounds_free_of(b.subrange(0, b.len() - 1), name) && match b[b.len() - 1] {
            BoundShape::Trait(p) => segments_free_of(p.segments@, name),
            BoundShape::Other(_) => true,
        }
    }
}

/// Renaming `from` to another name leaves no segment named `from` where the
/// renaming walk goes.
pub proof fn law_renamed_type_is_free_of_from(t: TypeShape, n: TypeShape, from: Seq<char>, to: Seq<char>)
    requires
        type_renamed(t, n, from, to),
        from != to,
    ensures
        type_free_of(n, from),
    decreases t,
{
    match t {
        TypeShape::Path(p) => {
            let q = n->Path_0;
            lemma_segments_renamed_free(p.segments@, q.segments@, from, to);
        },
        TypeShape::Reference(_, _, e) => {
            let e2 = n->Reference_2;
            law_renamed_type_is_free_of_from(*e, *e2, from, to);
        },
        TypeShape::TraitObject(bs) => {
            let bs2 = n->TraitObject_0;
            lemma_bounds_renamed_free(bs@, bs2@, from, to);
        },
        TypeShape::Other(_) => {},
    }
}

proof fn lemma_segments_renamed_free(s: Seq<SegmentShape>, s2: Seq<SegmentShape>, from: Seq<char>, to: Seq<char>)
    requires
        segments_renamed(s, s2, from, to),
        from != to,
    ensures
        segments_free_of(s2, from),
    decreases s,
{
    if s.len() > 0 {
        let k = s.len() - 1;
        lemma_segments_renamed_free(s.subrange(0, k), s2.subrange(0, k), from, to);
        match s[k].args {
            ArgsShape::Angle(a) => {
                let b = s2[k].args->Angle_0;
                lemma_args_renamed_free(a@, b@, from, to);
            },
            ArgsShape::Paren(i, _) => {
                let i2 = s2[k].args->Paren_0;
                lemma_types_renamed_free(i@, i2@, from, to);
            },
            ArgsShape::Plain => {},
        }
    }
}

proof fn lemma_types_renamed_free(s: Seq<TypeShape>, s2: Seq<TypeShape>, from: Seq<char>, to: Seq<char>)
    requires
        types_renamed(s, s2, from, to),
        from != to,
    ensures
        types_free_of(s2, from),
    decreases s,
{
    if s.len() > 0 {
        let k = s.len() - 1;
        lemma_types_renamed_free(s.subrange(0, k), s2.subrange(0, k), from, to);
        law_renamed_type_is_free_of_from(s[k], s2[k], from, to);
    }
}

proof fn lemma_opt_args_renamed_free(
    g: Option<Vec<ArgShape>>,
    g2: Option<Vec<ArgShape>>,
    from: Seq<char>,
    to: Seq<char>,
)
    requires
        opt_args_renamed(g, g2, from, to),
        from != to,
    ensures
        match g2 {
            Some(v) => args_free_of(v@, from),
            None => true,
        },
    decreases g,
{
    match g {
        Some(v) => {
            let w = g2->0;
            lemma_args_renamed_free(v@, w@, from, to);
        },
        None => {},
    }
}

proof fn lemma_args_renamed_free(a: Seq<ArgShape>, b: Seq<ArgShape>, from: Seq<char>, to: Seq<char>)
    requires
        args_renamed(a, b, from, to),
        from != to,
    ensures
        args_free_of(b, from),
    decreases a,
{
    if a.len() > 0 {
        let k = a.len() - 1;
        lemma_args_renamed_free(a.subrange(0, k), b.subrange(0, k), from, to);
        match a[k] {
            ArgShape::Type(t) => {
                law_renamed_type_is_free_of_from(t, b[k]->Type_0, from, to);
            },
            ArgShape::AssocType(_, g, t) => {
                lemma_opt_args_renamed_free(g, b[k]->AssocType_1, from, to);
                law_renamed_type_is_free_of_from(t, b[k]->AssocType_2, from, to);
            },
            ArgShape::Constraint(_, g, bs) => {
                lemma_opt_args_renamed_free(g, b[k]->Constraint_1, from, to);
                lemma_bounds_renamed_free(bs@, (b[k]->Constraint_2)@, from, to);
            },
            _ => {},
        }
    }
}

proof fn lemma_bounds_renamed_free(b: Seq<BoundShape>, b2: Seq<BoundShape>, from: Seq<char>, to: Seq<char>)
    requires
        bounds_renamed(b, b2, from, to),
        from != to,
    ensures
        bounds_free_of(b2, from),
    decreases b,
{
    if b.len() > 0 {
        let k = b.len() - 1;
        lemma_bounds_renamed_free(b.subrange(0, k), b2.subrange(0, k), from, to);
        match b[k] {
            BoundShape::Trait(p) => {
                lemma_segments_renamed_free(p.segments@, (b2[k]->Trait_0).segments@, from, to);
            },
            BoundShape::Other(_) => {},
        }
    }
}

fn rename_ident(ident: String, from: &str, to: &str) -> (r: String)
    ensures
        r@ == renamed_ident(ident@, from@, to@),
{
    let f = String::from_str(from);
    if ident == f {
        String::from_str(to)
    } else {
        ident
    }
}

fn rename_type(t: TypeShape, from: &str, to: &str) -> (n: TypeShape)
    requires
        renamable(t),
    ensures
        type_renamed(t, n, from@, to@),
    decreases t,
{
    match t {
        TypeShape::Path(p) => {
            let PathShape { leading_colon, segments } = p;
            TypeShape::Path(PathShape { leading_colon, segments: rename_segments(segments, from, to) })
        },
        TypeShape::Reference(l, m, e) => TypeShape::Reference(l, m, Box::new(rename_type(*e, from, to))),
        TypeShape::TraitObject(bs) => TypeShape::TraitObject(rename_bounds(bs, from, to)),
        TypeShape::Other(_) => vstd::pervasive::unreached(),
    }
}

fn rename_segments(segs: Vec<SegmentShape>, from: &str, to: &str) -> (r: Vec<SegmentShape>)
    requires
        segments_renamable(segs@),
    ensures
        segments_renamed(segs@, r@, from@, to@),
    decreases segs,
{
    let ghost orig = segs@;
    let n = segs.len();
    let mut rest = segs;
    let mut out: Vec<SegmentShape> = Vec::new();
    let mut k: usize = 0;
    proof {
        lemma_segments_renamable_prefix(orig, n as int);
    }
    while k < n
        invariant
            n == orig.len(),
            orig == segs@,
            k <= n,
            rest@ == orig.subrange(k as int, n as int),
            segments_renamed(orig.subrange(0, k as int), out@, from@, to@),
            forall|j: int| 0 <= j <= n ==> #[trigger] segments_renamable(orig.subrange(0, j)),
        decreases n - k,
    {
        let g = rest.remove(0);
        assert(g == orig[k as int]);
        let ghost pre = orig.subrange(0, k + 1);
        assert(pre.subrange(0, k as int) =~= orig.subrange(0, k as int));
        assert(pre[k as int] == g);
        assert(segments_renamable(pre));
        proof {
            assert(decreases_to!(segs => segs@));
            assert(decreases_to!(segs@ => segs@[k as int]));
            assert(decreases_to!(segs@[k as int] => segs@[k as int].args));
        }
        let SegmentShape { ident, args } = g;
        let ident = rename_ident(ident, from, to);
        let args = rename_args_shape(args, from, to);
        let ghost before = out@;
        out.push(SegmentShape { ident, args });
        assert(out@.subrange(0, k as int) =~= before);
        k = k + 1;
        assert(rest@ =~= orig.subrange(k as int, n as int));
    }
    assert(orig.subrange(0, n as int) =~= orig);
    out
}

proof fn lemma_segments_renamable_prefix(s: Seq<SegmentShape>, n: int)
    requires
        n == s.len(),
        segments_renamable(s),
    ensures
        forall|j: int| 0 <= j <= n ==> #[trigger] segments_renamable(s.subrange(0, j)),
    decreases n,
{
    assert(s.subrange(0, n) =~= s);
    if n > 0 {
        let t = s.subrange(0, n - 1);
        lemma_segments_renamable_prefix(t, n - 1);
        assert forall|j: int| 0 <= j <= n implies #[trigger] segments_renamable(s.subrange(0, j)) by {
            if j < n {
                assert(t.subrange(0, j) =~= s.subrange(0, j));
            }
        }
    }
}

fn rename_args_shape(a: ArgsShape, from: &str, to: &str) -> (r: ArgsShape)
    requires
        match a {
            ArgsShape::Plain => true,
            ArgsShape::Angle(v) => args_renamable(v@),
            ArgsShape::Paren(i, _) => types_renamable(i@),
        },
    ensures
        match a {
            ArgsShape::Plain => r is Plain,
            ArgsShape::Angle(v) => r matches ArgsShape::Angle(w) && args_renamed(v@, w@, from@, to@),
            ArgsShape::Paren(i, o) => r matches ArgsShape::Paren(i2, o2) && o == o2 && types_renamed(
                i@,
                i2@,
                from@,
                to@,
            ),
        },
    decreases a,
{
    match a {
        ArgsShape::Plain => ArgsShape::Plain,
        ArgsShape::Angle(v) => ArgsShape::Angle(rename_args(v, from, to)),
        ArgsShape::Paren(i, o) => ArgsShape::Paren(rename_types(i, from, to), o),
    }
}

proof fn lemma_types_renamable_prefix(s: Seq<TypeShape>, n: int)
    requires
        n == s.len(),
        types_renamable(s),
    ensures
        forall|j: int| 0 <= j <= n ==> #[trigger] types_renamable(s.subrange(0, j)),
    decreases n,
{
    assert(s.subrange(0, n) =~= s);
    if n > 0 {
        let t = s.subrange(0, n - 1);
        lemma_types_renamable_prefix(t, n - 1);
        assert forall|j: int| 0 <= j <= n implies #[trigger] types_renamable(s.subrange(0, j)) by {
            if j < n {
                assert(t.subrange(0, j) =~= s.subrange(0, j));
            }
        }
    }
}

proof fn lemma_args_renamable_prefix(s: Seq<ArgShape>, n: int)
    requires
        n == s.len(),
        args_renamable(s),
    ensures
        forall|j: int| 0 <= j <= n ==> #[trigger] args_renamable(s.subrange(0, j)),
    decreases n,
{
    assert(s.subrange(0, n) =~= s);
    if n > 0 {
        let t = s.subrange(0, n - 1);
        lemma_args_renamable_prefix(t, n - 1);
        assert forall|j: int| 0 <= j <= n implies #[trigger] args_renamable(s.subrange(0, j)) by {
            if j < n {
                assert(t.subrange(0, j) =~= s.subrange(0, j));
            }
        }
    }
}

proof fn lemma_bounds_renamable_prefix(s: Seq<BoundShape>, n: int)
    requires
        n == s.len(),
        bounds_renamable(s),
    ensures
        forall|j: int| 0 <= j <= n ==> #[trigger] bounds_renamable(s.subrange(0, j)),
    decreases n,
{
    assert(s.subrange(0, n) =~= s);
    if n > 0 {
        let t = s.subrange(0, n - 1);
        lemma_bounds_renamable_prefix(t, n - 1);
        assert forall|j: int| 0 <= j <= n implies #[trigger] bounds_renamable(s.subrange(0, j)) by {
            if j < n {
                assert(t.subrange(0, j) =~= s.subrange(0, j));
            }
        }
    }
}

fn rename_types(ts: Vec<TypeShape>, from: &str, to: &str) -> (r: Vec<TypeShape>)
    requires
        types_renamable(ts@),
    ensures
        types_renamed(ts@, r@, from@, to@),
    decreases ts,
{
    let ghost orig = ts@;
    let n = ts.len();
    let mut rest = ts;
    let mut out: Vec<TypeShape> = Vec::new();
    let mut k: usize = 0;
    proof {
        lemma_types_renamable_prefix(orig, n as int);
    }
    while k < n
        invariant
            n == orig.len(),
            orig == ts@,
            k <= n,
            rest@ == orig.subrange(k as int, n as int),
            types_renamed(orig.subrange(0, k as int), out@, from@, to@),
            forall|j: int| 0 <= j <= n ==> #[trigger] types_renamable(orig.subrange(0, j)),
        decreases n - k,
    {
        let x = rest.remove(0);
        assert(x == orig[k as int]);
        let ghost pre = orig.subrange(0, k + 1);
        assert(pre.subrange(0, k as int) =~= orig.subrange(0, k as int));
        assert(pre[k as int] == x);
        assert(types_renamable(pre));
        proof {
            assert(decreases_to!(ts => ts@));
            assert(decreases_to!(ts@ => ts@[k as int]));
        }
        let y = rename_type(x, from, to);
        let ghost before = out@;
        out.push(y);
        assert(out@.subrange(0, k as int) =~= before);
        k = k + 1;
        assert(rest@ =~= orig.subrange(k as int, n as int));
    }
    assert(orig.subrange(0, n as int) =~= orig);
    out
}

fn rename_opt_args(g: Option<Vec<ArgShape>>, from: &str, to: &str) -> (r: Option<Vec<ArgShape>>)
    requires
        match g {
            Some(v) => args_renamable(v@),
            None => true,
        },
    ensures
        opt_args_renamed(g, r, from@, to@),
    decreases g,
{
    match g {
        Some(v) => Some(rename_args(v, from, to)),
        None => None,
    }
}

fn rename_arg(x: ArgShape, from: &str, to: &str) -> (y: ArgShape)
    requires
        match x {
            ArgShape::Type(t) => renamable(t),
            ArgShape::AssocType(_, g, t) => (match g {
                Some(v) => args_renamable(v@),
                None => true,
            }) && renamable(t),
            ArgShape::Constraint(_, g, bs) => (match g {
                Some(v) => args_renamable(v@),
                None => true,
            }) && bounds_renamable(bs@),
            _ => true,
        },
    ensures
        match x {
            ArgShape::Type(t) => y matches ArgShape::Type(u) && type_renamed(t, u, from@, to@),
            ArgShape::AssocType(nm, g, t) => y matches ArgShape::AssocType(nm2, g2, u) && nm == nm2
                && opt_args_renamed(g, g2, from@, to@) && type_renamed(t, u, from@, to@),
            ArgShape::Constraint(nm, g, bs) => y matches ArgShape::Constraint(nm2, g2, bs2) && nm == nm2
                && opt_args_renamed(g, g2, from@, to@) && bounds_renamed(bs@, bs2@, from@, to@),
            _ => y == x,
        },
    decreases x,
{
    match x {
        ArgShape::Type(t) => ArgShape::Type(rename_type(t, from, to)),
        ArgShape::AssocType(nm, g, t) => ArgShape::AssocType(nm, rename_opt_args(g, from, to), rename_type(t, from, to)),
        ArgShape::Constraint(nm, g, bs) => ArgShape::Constraint(
            nm,
            rename_opt_args(g, from, to),
            rename_bounds(bs, from, to),
        ),
        other => other,
    }
}

fn rename_args(args: Vec<ArgShape>, from: &str, to: &str) -> (r: Vec<ArgShape>)
    requires
        args_renamable(args@),
    ensures
        args_renamed(args@, r@, from@, to@),
    decreases args,
{
    let ghost orig = args@;
    let n = args.len();
    let mut rest = args;
    let mut out: Vec<ArgShape> = Vec::new();
    let mut k: usize = 0;
    proof {
        lemma_args_renamable_prefix(orig, n as int);
    }
    while k < n
        invariant
            n == orig.len(),
            orig == args@,
            k <= n,
            rest@ == orig.subrange(k as int, n as int),
            args_renamed(orig.subrange(0, k as int), out@, from@, to@),
            forall|j: int| 0 <= j <= n ==> #[trigger] args_renamable(orig.subrange(0, j)),
        decreases n - k,
    {
        let x = rest.remove(0);
        assert(x == orig[k as int]);
        let ghost pre = orig.subrange(0, k + 1);
        assert(pre.subrange(0, k as int) =~= orig.subrange(0, k as int));
        assert(pre[k as int] == x);
        assert(args_renamable(pre));
        proof {
            assert(decreases_to!(args => args@));
            assert(decreases_to!(args@ => args@[k as int]));
        }
        let y = rename_arg(x, from, to);
        let ghost before = out@;
        out.push(y);
        assert(out@.subrange(0, k as int) =~= before);
        k = k + 1;
        assert(rest@ =~= orig.subrange(k as int, n as int));
    }
    assert(orig.subrange(0, n as int) =~= orig);
    out
}

fn rename_bounds(bs: Vec<BoundShape>, from: &str, to: &str) -> (r: Vec<BoundShape>)
    requires
        bounds_renamable(bs@),
    ensures
        bounds_renamed(bs@, r@, from@, to@),
    decreases bs,
{
    let ghost orig = bs@;
    let n = bs.len();
    let mut rest = bs;
    let mut out: Vec<BoundShape> = Vec::new();
    let mut k: usize = 0;
    proof {
        lemma_bounds_renamable_prefix(orig, n as int);
    }
    while k < n
        invariant
            n == orig.len(),
            orig == bs@,
            k <= n,
            rest@ == orig.subrange(k as int, n as int),
            bounds_renamed(orig.subrange(0, k as int), out@, from@, to@),
            forall|j: int| 0 <= j <= n ==> #[trigger] bounds_renamable(orig.subrange(0, j)),
        decreases n - k,
    {
        let x = rest.remove(0);
        assert(x == orig[k as int]);
        let ghost pre = orig.subrange(0, k + 1);
        assert(pre.subrange(0, k as int) =~= orig.subrange(0, k as int));
        assert(pre[k as int] == x);
        assert(bounds_renamable(pre));
        proof {
            assert(decreases_to!(bs => bs@));
            assert(decreases_to!(bs@ => bs@[k as int]));
        }
        let y = match x {
            BoundShape::Trait(p) => {
                proof {
                    assert(decreases_to!(bs@[k as int] => p));
                    assert(decreases_to!(p => p.segments));
                }
                let PathShape { leading_colon, segments } = p;
                BoundShape::Trait(PathShape { leading_colon, segments: rename_segments(segments, from, to) })
            },
            BoundShape::Other(o) => BoundShape::Other(o),
        };
        let ghost before = out@;
        out.push(y);
        assert(out@.subrange(0, k as int) =~= before);
        k = k + 1;
        assert(rest@ =~= orig.subrange(k as int, n as int));
    }
    assert(orig.subrange(0, n as int) =~= orig);
    out
}

/// Renames, in place, every segment of `ty` named `from` to `to`: in the
/// type's paths, in the type arguments, associated types and constraints of
/// their segments, in the inputs of parenthesized arguments, under
/// references and in trait-object bounds.
pub fn substitute_in_type(ty: &mut TypeShape, from: &str, to: &str)
    requires
        renamable(*old(ty)),
    ensures
        type_renamed(*old(ty), *final(ty), from@, to@),
{
    let mut t = TypeShape::Other(String::new());
    core::mem::swap(&mut t, ty);
    *ty = rename_type(t, from, to);
}

/// Renames, in place, every segment of `path` named `from` to `to`, and
/// those in its arguments as `substitute_in_type` does.
pub fn substitute_in_path(path: &mut PathShape, from: &str, to: &str)
    requires
        segments_renamable(old(path).segments@),
    ensures
        final(path).leading_colon == old(path).leading_colon,
        segments_renamed(old(path).segments@, final(path).segments@, from@, to@),
{
    let mut segs: Vec<SegmentShape> = Vec::new();
    core::mem::swap(&mut segs, &mut path.segments);
    path.segments = rename_segments(segs, from, to);
}

// ---------------------------------------------------------------------------
// The path of a type.

/// Whether `t` is a path type, possibly under references.
pub open spec fn has_path(t: TypeShape) -> bool
    decreases t,
{
    match t {
        TypeShape::Path(_) => true,
        TypeShape::Reference(_, _, e) => has_path(*e),
        _ => false,
    }
}

/// The path of a path type, possibly under references.
pub open spec fn path_of(t: TypeShape) -> PathShape
    recommends
        has_path(t),
    decreases t,
{
    match t {
        TypeShape::Path(p) => p,
        TypeShape::Reference(_, _, e) => path_of(*e),
        _ => arbitrary(),
    }
}

/// The path of a path type, looking through references.
pub fn extract_path_from_type(ty: &TypeShape) -> (p: &PathShape)
    requires
        has_path(*ty),
    ensures
        *p == path_of(*ty),
    decreases ty,
{
    match ty {
        TypeShape::Path(p) => p,
        TypeShape::Reference(_, _, e) => extract_path_from_type(e),
        _ => vstd::pervasive::unreached(),
    }
}

/// Whether the type, looked at through references, is a path.
pub fn is_path_type(ty: &TypeShape) -> (b: bool)
    ensures
        b == has_path(*ty),
    decreases ty,
{
    match ty {
        TypeShape::Path(_) => true,
        TypeShape::Reference(_, _, e) => is_path_type(e),
        _ => false,
    }
}

/// The key under which the record of the module of type `t` is kept: the
/// name of the last segment of its path, when it is a path with segments.
pub open spec fn module_key_of(t: TypeShape) -> Option<Seq<char>> {
    if has_path(t) && path_of(t).segments@.len() > 0 {
        Some(path_of(t).segments@.last().ident@)
    } else {
        None
    }
}

/// Computes [`module_key_of`].
pub fn module_key(ty: &TypeShape) -> (k: Option<String>)
    ensures
        match k {
            Some(s) => module_key_of(*ty) == Some(s@),
            None => module_key_of(*ty) is None,
        },
{
    if !is_path_type(ty) {
        return None;
    }
    let p = extract_path_from_type(ty);
    let n = p.segments.len();
    if n == 0 {
        return None;
    }
    Some(copy_string(&p.segments[n - 1].ident))
}

// ---------------------------------------------------------------------------
// Whether renaming can walk a type.

fn segments_walkable(segs: &Vec<SegmentShape>) -> (b: bool)
    ensures
        b == segments_renamable(segs@),
    decreases segs@, 0nat,
{
    let mut k: usize = 0;
    while k < segs.len()
        invariant
            k <= segs@.len(),
            segments_renamable(segs@.subrange(0, k as int)),
        decreases segs@.len() - k,
    {
        let ghost pre = segs@.subrange(0, k + 1);
        assert(pre.subrange(0, k as int) =~= segs@.subrange(0, k as int));
        assert(pre[k as int] == segs@[k as int]);
        proof {
            assert(decreases_to!(segs@ => segs@[k as int]));
            assert(decreases_to!(segs@[k as int] => segs@[k as int].args));
        }
        let ok = match &segs[k].args {
            ArgsShape::Plain => true,
            ArgsShape::Angle(a) => {
                proof {
                    assert(decreases_to!(segs@[k as int].args => *a));
                    assert(decreases_to!(*a => a@));
                }
                args_walkable(a)
            },
            ArgsShape::Paren(i, _) => {
                proof {
                    assert(decreases_to!(segs@[k as int].args => *i));
                    assert(decreases_to!(*i => i@));
                }
                types_walkable(i)
            },
        };
        if !ok {
            proof {
                if segments_renamable(segs@) {
                    lemma_segments_renamable_prefix(segs@, segs@.len() as int);
                    assert(segments_renamable(pre));
                }
            }
            return false;
        }
        k = k + 1;
    }
    assert(segs@.subrange(0, segs@.len() as int) =~= segs@);
    true
}

fn types_walkable(ts: &Vec<TypeShape>) -> (b: bool)
    ensures
        b == types_renamable(ts@),
    decreases ts@, 0nat,
{
    let mut k: usize = 0;
    while k < ts.len()
        invariant
            k <= ts@.len(),
            types_renamable(ts@.subrange(0, k as int)),
        decreases ts@.len() - k,
    {
        let ghost pre = ts@.subrange(0, k + 1);
        assert(pre.subrange(0, k as int) =~= ts@.subrange(0, k as int));
        assert(pre[k as int] == ts@[k as int]);
        proof {
            assert(decreases_to!(ts@ => ts@[k as int]));
        }
        if !can_substitute(&ts[k]) {
            proof {
                if types_renamable(ts@) {
                    lemma_types_renamable_prefix(ts@, ts@.len() as int);
                    assert(types_renamable(pre));
                }
            }
            return false;
        }
        k = k + 1;
    }
    assert(ts@.subrange(0, ts@.len() as int) =~= ts@);
    true
}

fn opt_args_walkable(g: &Option<Vec<ArgShape>>) -> (b: bool)
    ensures
        b == match *g {
            Some(v) => args_renamable(v@),
            None => true,
        },
    decreases *g, 0nat,
{
    match g {
        Some(v) => {
            proof {
                assert(decreases_to!(*g => *v));
                assert(decreases_to!(*v => v@));
            }
            args_walkable(v)
        },
        None => true,
    }
}

fn args_walkable(args: &Vec<ArgShape>) -> (b: bool)
    ensures
        b == args_renamable(args@),
    decreases args@, 0nat,
{
    let mut k: usize = 0;
    while k < args.len()
        invariant
            k <= args@.len(),
            args_renamable(args@.subrange(0, k as int)),
        decreases args@.len() - k,
    {
        let ghost pre = args@.subrange(0, k + 1);
        assert(pre.subrange(0, k as int) =~= args@.subrange(0, k as int));
        assert(pre[k as int] == args@[k as int]);
        proof {
            assert(decreases_to!(args@ => args@[k as int]));
        }
        let ok = match &args[k] {
            ArgShape::Type(t) => can_substitute(t),
            ArgShape::AssocType(_, g, t) => opt_args_walkable(g) && can_substitute(t),
            ArgShape::Constraint(_, g, bs) => {
                proof {
                    assert(decreases_to!(*bs => bs@));
                }
                opt_args_walkable(g) && bounds_walkable(bs)
            },
            _ => true,
        };
        if !ok {
            proof {
                if args_renamable(args@) {
                    lemma_args_renamable_prefix(args@, args@.len() as int);
                    assert(args_renamable(pre));
                }
            }
            return false;
        }
        k = k + 1;
    }
    assert(args@.subrange(0, args@.len() as int) =~= args@);
    true
}

fn bounds_walkable(bs: &Vec<BoundShape>) -> (b: bool)
    ensures
        b == bounds_renamable(bs@),
    decreases bs@, 0nat,
{
    let mut k: usize = 0;
    while k < bs.len()
        invariant
            k <= bs@.len(),
            bounds_renamable(bs@.subrange(0, k as int)),
        decreases bs@.len() - k,
    {
        let ghost pre = bs@.subrange(0, k + 1);
        assert(pre.subrange(0, k as int) =~= bs@.subrange(0, k as int));
        assert(pre[k as int] == bs@[k as int]);
        proof {
            assert(decreases_to!(bs@ => bs@[k as int]));
        }
        let ok = match &bs[k] {
            BoundShape::Trait(p) => {
                proof {
                    assert(decreases_to!(bs@[k as int] => *p));
                    assert(decreases_to!(*p => p.segments));
                    assert(decreases_to!(p.segments => p.segments@));
                }
                segments_walkable(&p.segments)
            },
            BoundShape::Other(_) => true,
        };
        if !ok {
            proof {
                if bounds_renamable(bs@) {
                    lemma_bounds_renamable_prefix(bs@, bs@.len() as int);
                    assert(bounds_renamable(pre));
                }
            }
            return false;
        }
        k = k + 1;
    }
    assert(bs@.subrange(0, bs@.len() as int) =~= bs@);
    true
}

/// Whether segments of `ty` can be renamed: the walk reaches only paths,
/// references and trait objects (any other type stops it).
pub fn can_substitute(ty: &TypeShape) -> (b: bool)
    ensures
        b == renamable(*ty),
    decreases *ty, 1nat,
{
    match ty {
        TypeShape::Path(p) => {
            proof {
                assert(decreases_to!(*ty => ty->Path_0));
                assert(decreases_to!(*p => p.segments));
                assert(decreases_to!(p.segments => p.segments@));
            }
            segments_walkable(&p.segments)
        },
        TypeShape::Reference(_, _, e) => can_substitute(e),
        TypeShape::TraitObject(bs) => {
            proof {
                assert(decreases_to!(*ty => ty->TraitObject_0));
                assert(decreases_to!(*bs => bs@));
            }
            bounds_walkable(bs)
        },
        TypeShape::Other(_) => false,
    }
}

} // verus!

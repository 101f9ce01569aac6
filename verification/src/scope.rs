//! What `#[scope(..)]` attributes on a provider generate: one scope provider
//! struct per scope name, with the scoped fields, and a method creating it.
use vstd::prelude::*;
use vstd::string::StringExecFns;
use crate::collection::{group_by, group_of, has_key, seconds};
use crate::model::{name_is, named, ScopeField};
use crate::naming::{join, decimal, pascal_spec, snake_to_pascal, with_number};

verus! {

broadcast use vstd::std_specs::hash::group_hash_axioms;

/// Whether two scope fields belong to the same scope: both unnamed, or named alike.
pub open spec fn same_scope(a: Option<String>, b: Option<String>) -> bool {
    match (a, b) {
        (None, None) => true,
        (Some(x), Some(y)) => x@ == y@,
        _ => false,
    }
}

fn same_scope_exec(a: &Option<String>, b: &Option<String>) -> (r: bool)
    ensures
        r == same_scope(*a, *b),
{
    match (a, b) {
        (None, None) => true,
        (Some(x), Some(y)) => *x == *y,
        _ => false,
    }
}

/// Whether the field is passed as an argument: it has a bare `#[arg]`.
pub open spec fn is_arg(f: ScopeField) -> bool {
    exists|i: int| 0 <= i < f.attrs@.len() && (#[trigger] f.attrs@[i]).bare && named(f.attrs@[i].name, "arg"@)
}

/// The positions of the scope fields of the scope of field `f`, in order.
pub open spec fn scope_members(fs: Seq<ScopeField>, name: Option<String>) -> Seq<usize>
    decreases fs.len(),
{
    if fs.len() == 0 {
        Seq::empty()
    } else if same_scope(fs.last().name, name) {
        scope_members(fs.drop_last(), name).push((fs.len() - 1) as usize)
    } else {
        scope_members(fs.drop_last(), name)
    }
}

/// Whether scope field `i` is the first of its scope.
pub open spec fn first_of_scope(fs: Seq<ScopeField>, i: int) -> bool {
    forall|k: int| 0 <= k < i ==> !same_scope((#[trigger] fs[k]).name, fs[i].name)
}

/// The positions of the first field of each scope, in order.
pub open spec fn scope_firsts(fs: Seq<ScopeField>) -> Seq<usize>
    decreases fs.len(),
{
    if fs.len() == 0 {
        Seq::empty()
    } else if first_of_scope(fs, fs.len() - 1) {
        scope_firsts(fs.drop_last()).push((fs.len() - 1) as usize)
    } else {
        scope_firsts(fs.drop_last())
    }
}

/// What is generated for one scope.
pub struct ScopePlan {
    /// `<Provider><Name>Scope`, or `<Provider>Scope` for unnamed scope fields.
    pub scope_struct_name: String,
    /// `<name>_scope`, or `scope`.
    pub fn_name: String,
    /// Positions of the scope's fields, in order.
    pub fields: Vec<usize>,
    /// For each of them, whether it is passed as an argument (else provided).
    pub args: Vec<bool>,
    /// For each of them, the name of its argument: `v<i>`.
    pub arg_names: Vec<String>,
}

/// The name of the scope struct.
pub open spec fn scope_type_name(provider: Seq<char>, name: Option<String>) -> Seq<char> {
    match name {
        Some(n) => provider + pascal_spec(n@) + "Scope"@,
        None => provider + "Scope"@,
    }
}

/// The name of the method creating the scope.
pub open spec fn scope_fn_name(name: Option<String>) -> Seq<char> {
    match name {
        Some(n) => n@ + "_scope"@,
        None => "scope"@,
    }
}

/// Whether `p` is what is generated for the scope named `name`, whose fields
/// stand at positions `ms`.
pub open spec fn plan_matches(
    provider: Seq<char>,
    fs: Seq<ScopeField>,
    name: Option<String>,
    ms: Seq<usize>,
    p: ScopePlan,
) -> bool {
    &&& p.scope_struct_name@ == scope_type_name(provider, name)
    &&& p.fn_name@ == scope_fn_name(name)
    &&& p.fields@ == ms
    &&& p.args@.len() == ms.len()
    &&& p.arg_names@.len() == ms.len()
    &&& forall|i: int|
        0 <= i < ms.len() ==> (#[trigger] p.args@[i]) == is_arg(fs[ms[i] as int]) && p.arg_names@[i]@ == "v"@
            + decimal(i as nat)
}

/// Whether `p` is what is generated for the scope of field `f`.
pub open spec fn scope_plan_of(provider: Seq<char>, fs: Seq<ScopeField>, f: int, p: ScopePlan) -> bool {
    plan_matches(provider, fs, fs[f].name, scope_members(fs, fs[f].name), p)
}

fn arg_flag(f: &ScopeField) -> (b: bool)
    ensures
        b == is_arg(*f),
{
    let mut k: usize = 0;
    while k < f.attrs.len()
        invariant
            k <= f.attrs@.len(),
            forall|i: int| 0 <= i < k ==> !((#[trigger] f.attrs@[i]).bare && named(f.attrs@[i].name, "arg"@)),
        decreases f.attrs@.len() - k,
    {
        if f.attrs[k].bare && name_is(&f.attrs[k].name, "arg") {
            return true;
        }
        k = k + 1;
    }
    false
}

proof fn lemma_group_is_scope(
    fs: Seq<ScopeField>,
    ids: Seq<usize>,
    pairs: Seq<(usize, usize)>,
    f: usize,
    n: int,
)
    requires
        0 <= n <= fs.len(),
        fs.len() <= usize::MAX,
        ids.len() == fs.len(),
        pairs.len() == n,
        forall|i: int| 0 <= i < n ==> (#[trigger] pairs[i]) == (ids[i], i as usize),
        forall|i: int| 0 <= i < fs.len() ==> (#[trigger] ids[i] == f <==> same_scope(fs[i].name, fs[f as int].name)),
        f < fs.len(),
    ensures
        seconds(group_of(pairs, f)) == scope_members(fs.subrange(0, n), fs[f as int].name),
    decreases n,
{
    if n > 0 {
        lemma_group_is_scope(fs, ids, pairs.drop_last(), f, n - 1);
        assert(fs.subrange(0, n).drop_last() =~= fs.subrange(0, n - 1));
        crate::collection::lemma_group_of_step(pairs, f);
        assert(seconds(group_of(pairs, f)) =~= scope_members(fs.subrange(0, n), fs[f as int].name));
    } else {
        crate::collection::lemma_group_of_empty(pairs, f);
        assert(seconds(group_of(pairs, f)) =~= scope_members(fs.subrange(0, n), fs[f as int].name));
    }
}

proof fn lemma_scope_firsts_step(fs: Seq<ScopeField>, k: int)
    requires
        0 <= k < fs.len(),
        fs.len() <= usize::MAX,
    ensures
        scope_firsts(fs.subrange(0, k + 1)) == if first_of_scope(fs, k) {
            scope_firsts(fs.subrange(0, k)).push(k as usize)
        } else {
            scope_firsts(fs.subrange(0, k))
        },
{
    let pre = fs.subrange(0, k + 1);
    assert(pre.drop_last() =~= fs.subrange(0, k));
    assert(first_of_scope(pre, k) == first_of_scope(fs, k)) by {
        assert forall|j: int| 0 <= j < k implies pre[j] == fs[j] by {}
    }
}

proof fn lemma_members_contain(fs: Seq<ScopeField>, name: Option<String>, f: int)
    requires
        0 <= f < fs.len(),
        fs.len() <= usize::MAX,
        same_scope(fs[f].name, name),
    ensures
        scope_members(fs, name).len() > 0,
        forall|m: int| 0 <= m < scope_members(fs, name).len() ==> #[trigger] scope_members(fs, name)[m] < fs.len(),
    decreases fs.len(),
{
    lemma_members_bounded(fs, name);
    if f < fs.len() - 1 {
        lemma_members_contain(fs.drop_last(), name, f);
    }
}

proof fn lemma_members_bounded(fs: Seq<ScopeField>, name: Option<String>)
    requires
        fs.len() <= usize::MAX,
    ensures
        forall|m: int| 0 <= m < scope_members(fs, name).len() ==> #[trigger] scope_members(fs, name)[m] < fs.len(),
    decreases fs.len(),
{
    if fs.len() > 0 {
        lemma_members_bounded(fs.drop_last(), name);
        let prev = scope_members(fs.drop_last(), name);
        assert forall|m: int| 0 <= m < scope_members(fs, name).len() implies #[trigger] scope_members(fs, name)[m]
            < fs.len() by {
            if m < prev.len() {
                assert(scope_members(fs, name)[m] == prev[m]);
            }
        }
    }
}

fn plan_one_scope(provider: &str, fs: &Vec<ScopeField>, g: &Vec<(usize, usize)>, f: usize) -> (p: ScopePlan)
    requires
        f < fs@.len(),
        seconds(g@) == scope_members(fs@, fs@[f as int].name),
        forall|m: int|
            0 <= m < scope_members(fs@, fs@[f as int].name).len() ==> #[trigger] scope_members(
                fs@,
                fs@[f as int].name,
            )[m] < fs@.len(),
    ensures
        scope_plan_of(provider@, fs@, f as int, p),
{
    let ghost ms = scope_members(fs@, fs@[f as int].name);
    let name = &fs[f].name;
    let scope_struct_name = match name {
        Some(n) => {
            let pascal = snake_to_pascal(n.as_str());
            let a = join(provider, pascal.as_str());
            join(a.as_str(), "Scope")
        },
        None => join(provider, "Scope"),
    };
    let fn_name = match name {
        Some(n) => join(n.as_str(), "_scope"),
        None => String::from_str("scope"),
    };
    let mut fields: Vec<usize> = Vec::new();
    let mut args: Vec<bool> = Vec::new();
    let mut arg_names: Vec<String> = Vec::new();
    let mut i: usize = 0;
    while i < g.len()
        invariant
            i <= g@.len(),
            seconds(g@) == ms,
            forall|m: int| 0 <= m < ms.len() ==> #[trigger] ms[m] < fs@.len(),
            fields@ == ms.subrange(0, i as int),
            args@.len() == i,
            arg_names@.len() == i,
            forall|k: int|
                0 <= k < i ==> #[trigger] args@[k] == is_arg(fs@[ms[k] as int]) && arg_names@[k]@ == "v"@
                    + decimal(k as nat),
        decreases g@.len() - i,
    {
        let pos = g[i].1;
        assert(pos == ms[i as int]);
        fields.push(pos);
        args.push(arg_flag(&fs[pos]));
        arg_names.push(with_number("v", i));
        i = i + 1;
        assert(fields@ =~= ms.subrange(0, i as int));
    }
    assert(ms.subrange(0, ms.len() as int) =~= ms);
    assert forall|k: int| 0 <= k < ms.len() implies #[trigger] args@[k] == is_arg(fs@[ms[k] as int])
        && arg_names@[k]@ == "v"@ + decimal(k as nat) by {}
    let p = ScopePlan { scope_struct_name, fn_name, fields, args, arg_names };
    assert(plan_matches(provider@, fs@, fs@[f as int].name, ms, p));
    p
}

/// Whether `ids` gives, for each field, the position of the first field of its scope.
pub open spec fn first_ids(fs: Seq<ScopeField>, ids: Seq<usize>) -> bool {
    &&& ids.len() == fs.len()
    &&& forall|j: int| 0 <= j < fs.len() ==> #[trigger] ids[j] <= j && same_scope(fs[ids[j] as int].name, fs[j].name)
    &&& forall|j: int, k: int|
        0 <= j < fs.len() && 0 <= k < ids[j] ==> !same_scope((#[trigger] fs[k]).name, (#[trigger] fs[j]).name)
}

fn scope_ids(fs: &Vec<ScopeField>) -> (ids: Vec<usize>)
    ensures
        first_ids(fs@, ids@),
{
    let n = fs.len();
    let mut ids: Vec<usize> = Vec::new();
    let mut i: usize = 0;
    while i < n
        invariant
            n == fs@.len(),
            i <= n,
            ids@.len() == i,
            forall|j: int| 0 <= j < i ==> #[trigger] ids@[j] <= j && same_scope(fs@[ids@[j] as int].name, fs@[j].name),
            forall|j: int, k: int|
                0 <= j < i && 0 <= k < ids@[j] ==> !same_scope((#[trigger] fs@[k]).name, (#[trigger] fs@[j]).name),
        decreases n - i,
    {
        let mut j: usize = 0;
        while j < i && !same_scope_exec(&fs[j].name, &fs[i].name)
            invariant
                j <= i,
                i < n,
                n == fs@.len(),
                forall|k: int| 0 <= k < j ==> !same_scope((#[trigger] fs@[k]).name, fs@[i as int].name),
            decreases i - j,
        {
            j = j + 1;
        }
        ids.push(j);
        i = i + 1;
    }
    ids
}

proof fn lemma_same_scope_equiv(a: Option<String>, b: Option<String>, c: Option<String>)
    ensures
        same_scope(a, a),
        same_scope(a, b) ==> same_scope(b, a),
        same_scope(a, b) && same_scope(b, c) ==> same_scope(a, c),
{
}

/// For the first field `f` of a scope, the fields whose first is `f` are those of its scope.
proof fn lemma_first_ids(fs: Seq<ScopeField>, ids: Seq<usize>, f: int)
    requires
        first_ids(fs, ids),
        0 <= f < fs.len(),
    ensures
        first_of_scope(fs, f) <==> ids[f] == f,
        first_of_scope(fs, f) ==> forall|j: int|
            0 <= j < fs.len() ==> (#[trigger] ids[j] == f as usize <==> same_scope(fs[j].name, fs[f].name)),
{
    if ids[f] == f {
        assert forall|k: int| 0 <= k < f implies !same_scope((#[trigger] fs[k]).name, fs[f].name) by {}
    } else {
        assert(!first_of_scope(fs, f)) by {
            assert(same_scope(fs[ids[f] as int].name, fs[f].name));
        }
    }
    if first_of_scope(fs, f) {
        assert forall|j: int| 0 <= j < fs.len() implies (#[trigger] ids[j] == f as usize <==> same_scope(
            fs[j].name,
            fs[f].name,
        )) by {
            lemma_same_scope_equiv(fs[j].name, fs[f].name, fs[ids[j] as int].name);
            lemma_same_scope_equiv(fs[ids[j] as int].name, fs[j].name, fs[f].name);
            if same_scope(fs[j].name, fs[f].name) {
                if ids[j] < f {
                    assert(same_scope(fs[ids[j] as int].name, fs[f].name));
                    assert(!same_scope(fs[ids[j] as int].name, fs[f].name));
                } else if ids[j] > f {
                    assert(!same_scope(fs[f].name, fs[j].name));
                }
            } else if ids[j] == f {
                assert(same_scope(fs[f].name, fs[j].name));
            }
        }
    }
}

/// The scope fields, or the position of the first `#[scope(..)]` whose field could not be read.
pub open spec fn read_fields(attrs: Seq<Option<ScopeField>>) -> Seq<ScopeField> {
    Seq::new(attrs.len(), |j: int| attrs[j]->0)
}

/// The scopes of a provider named `provider`, in the order their names first
/// appear; fields of one scope are grouped in their written order. Fails with
/// the position of the first `#[scope(..)]` whose field cannot be read.
pub fn gen_scope_output(provider: &str, scope_attrs: Vec<Option<ScopeField>>) -> (r: Result<Vec<ScopePlan>, usize>)
    ensures
        match r {
            Err(i) => i < scope_attrs@.len() && scope_attrs@[i as int] is None && forall|j: int|
                0 <= j < i ==> (#[trigger] scope_attrs@[j]) is Some,
            Ok(plans) => (forall|j: int| 0 <= j < scope_attrs@.len() ==> (#[trigger] scope_attrs@[j]) is Some)
                && plans@.len() == scope_firsts(read_fields(scope_attrs@)).len() && forall|g: int|
                0 <= g < plans@.len() ==> scope_plan_of(
                    provider@,
                    read_fields(scope_attrs@),
                    scope_firsts(read_fields(scope_attrs@))[g] as int,
                    #[trigger] plans@[g],
                ),
        },
{
    // read the scope fields; stop at the first that cannot be read
    let ghost orig = scope_attrs@;
    let n = scope_attrs.len();
    let mut rest = scope_attrs;
    let mut fs: Vec<ScopeField> = Vec::new();
    let mut k: usize = 0;
    while k < n
        invariant
            n == orig.len(),
            orig == scope_attrs@,
            k <= n,
            rest@ == orig.subrange(k as int, n as int),
            fs@.len() == k,
            forall|j: int| 0 <= j < k ==> (#[trigger] orig[j]) is Some && fs@[j] == orig[j]->0,
        decreases n - k,
    {
        let o = rest.remove(0);
        assert(o == orig[k as int]);
        match o {
            Some(f) => {
                fs.push(f);
            },
            None => {
                assert(orig[k as int] is None);
                return Err(k);
            },
        }
        k = k + 1;
        assert(rest@ =~= orig.subrange(k as int, n as int));
    }
    assert(fs@ =~= read_fields(orig));
    let plans = plan_scopes(provider, &fs);
    Ok(plans)
}

#[verifier::rlimit(40)]
fn plan_scopes(provider: &str, fs: &Vec<ScopeField>) -> (plans: Vec<ScopePlan>)
    ensures
        plans@.len() == scope_firsts(fs@).len(),
        forall|g: int|
            0 <= g < plans@.len() ==> scope_plan_of(provider@, fs@, scope_firsts(fs@)[g] as int, #[trigger] plans@[g]),
{
    let n = fs.len();
    let ids = scope_ids(fs);
    let ghost ids_v = ids@;
    let mut pairs: Vec<(usize, usize)> = Vec::new();
    let mut i: usize = 0;
    while i < n
        invariant
            n == fs@.len(),
            ids@ == ids_v,
            ids_v.len() == n,
            i <= n,
            pairs@.len() == i,
            forall|j: int| 0 <= j < i ==> #[trigger] pairs@[j] == (ids_v[j], j as usize),
        decreases n - i,
    {
        pairs.push((ids[i], i));
        i = i + 1;
    }
    let ghost pairs_v = pairs@;
    let map = group_by(pairs);
    let mut plans: Vec<ScopePlan> = Vec::new();
    let mut f: usize = 0;
    while f < n
        invariant
            n == fs@.len(),
            f <= n,
            ids@ == ids_v,
            first_ids(fs@, ids_v),
            pairs_v.len() == n,
            forall|j: int| 0 <= j < n ==> #[trigger] pairs_v[j] == (ids_v[j], j as usize),
            forall|k: usize| #[trigger] map@.contains_key(k) <==> has_key(pairs_v, k),
            forall|k: usize| #[trigger] map@.contains_key(k) ==> map@[k]@ == group_of(pairs_v, k),
            plans@.len() == scope_firsts(fs@.subrange(0, f as int)).len(),
            forall|g: int|
                0 <= g < plans@.len() ==> scope_plan_of(
                    provider@,
                    fs@,
                    scope_firsts(fs@.subrange(0, f as int))[g] as int,
                    #[trigger] plans@[g],
                ),
        decreases n - f,
    {
        proof {
            lemma_scope_firsts_step(fs@, f as int);
            lemma_first_ids(fs@, ids_v, f as int);
        }
        if ids[f] == f {
            assert(pairs_v[f as int].0 == f);
            assert(has_key(pairs_v, f));
            match map.get(&f) {
                Some(g) => {
                    proof {
                        lemma_group_is_scope(fs@, ids_v, pairs_v, f, n as int);
                        assert(fs@.subrange(0, n as int) =~= fs@);
                        lemma_members_contain(fs@, fs@[f as int].name, f as int);
                    }
                    plans.push(plan_one_scope(provider, fs, g, f));
                },
                None => {
                    assert(false);
                },
            }
        }
        f = f + 1;
    }
    assert(fs@.subrange(0, n as int) =~= fs@);
    plans
}

// ---------------------------------------------------------------------------
// Scopes partition the scope fields.

proof fn lemma_scope_members_char(fs: Seq<ScopeField>, name: Option<String>)
    requires
        fs.len() <= usize::MAX,
    ensures
        forall|m: int|
            0 <= m < scope_members(fs, name).len() ==> #[trigger] scope_members(fs, name)[m] < fs.len()
                && same_scope(fs[scope_members(fs, name)[m] as int].name, name),
        forall|i: int|
            0 <= i < fs.len() && same_scope(fs[i].name, name) ==> #[trigger] scope_members(fs, name).contains(
                i as usize,
            ),
    decreases fs.len(),
{
    if fs.len() > 0 {
        let prev = scope_members(fs.drop_last(), name);
        lemma_scope_members_char(fs.drop_last(), name);
        assert forall|m: int| 0 <= m < scope_members(fs, name).len() implies #[trigger] scope_members(fs, name)[m]
            < fs.len() && same_scope(fs[scope_members(fs, name)[m] as int].name, name) by {
            if m < prev.len() {
                assert(scope_members(fs, name)[m] == prev[m]);
                assert(fs.drop_last()[prev[m] as int] == fs[prev[m] as int]);
            }
        }
        assert forall|i: int| 0 <= i < fs.len() && same_scope(fs[i].name, name) implies #[trigger] scope_members(
            fs,
            name,
        ).contains(i as usize) by {
            if i < fs.len() - 1 {
                assert(fs.drop_last()[i] == fs[i]);
                assert(prev.contains(i as usize));
                let j = choose|j: int| 0 <= j < prev.len() && prev[j] == i as usize;
                assert(scope_members(fs, name)[j] == i as usize);
            } else {
                assert(scope_members(fs, name) == prev.push(i as usize));
                assert(scope_members(fs, name)[prev.len() as int] == i as usize);
            }
        }
    }
}

proof fn lemma_scope_firsts_prefix(fs: Seq<ScopeField>)
    requires
        fs.len() > 0,
    ensures
        forall|f: int|
            0 <= f < fs.len() - 1 ==> #[trigger] first_of_scope(fs.drop_last(), f) == first_of_scope(fs, f),
        forall|g: int|
            0 <= g < scope_firsts(fs.drop_last()).len() ==> #[trigger] scope_firsts(fs)[g] == scope_firsts(
                fs.drop_last(),
            )[g],
{
    let pre = fs.drop_last();
    assert forall|f: int| 0 <= f < fs.len() - 1 implies #[trigger] first_of_scope(pre, f) == first_of_scope(fs, f) by {
        assert forall|j: int| 0 <= j < f implies pre[j] == fs[j] by {}
    }
}

proof fn lemma_scope_firsts_bounds(fs: Seq<ScopeField>)
    requires
        fs.len() <= usize::MAX,
    ensures
        forall|g: int|
            0 <= g < scope_firsts(fs).len() ==> #[trigger] scope_firsts(fs)[g] < fs.len() && first_of_scope(
                fs,
                scope_firsts(fs)[g] as int,
            ),
    decreases fs.len(),
{
    if fs.len() > 0 {
        let prev = scope_firsts(fs.drop_last());
        lemma_scope_firsts_bounds(fs.drop_last());
        lemma_scope_firsts_prefix(fs);
        assert forall|g: int| 0 <= g < scope_firsts(fs).len() implies #[trigger] scope_firsts(fs)[g] < fs.len()
            && first_of_scope(fs, scope_firsts(fs)[g] as int) by {
            if g < prev.len() {
                assert(first_of_scope(fs.drop_last(), prev[g] as int));
            }
        }
    }
}

proof fn lemma_scope_firsts_cover(fs: Seq<ScopeField>)
    requires
        fs.len() <= usize::MAX,
    ensures
        forall|i: int|
            #![trigger fs[i]]
            0 <= i < fs.len() ==> exists|g: int|
                0 <= g < scope_firsts(fs).len() && same_scope(
                    fs[#[trigger] scope_firsts(fs)[g] as int].name,
                    fs[i].name,
                ),
    decreases fs.len(),
{
    if fs.len() > 0 {
        let n = fs.len();
        let pre = fs.drop_last();
        let prev = scope_firsts(pre);
        let firsts = scope_firsts(fs);
        lemma_scope_firsts_cover(pre);
        lemma_scope_firsts_bounds(pre);
        lemma_scope_firsts_prefix(fs);
        assert forall|i: int|
            #![trigger fs[i]]
            0 <= i < fs.len() implies exists|g: int|
            0 <= g < firsts.len() && same_scope(fs[#[trigger] firsts[g] as int].name, fs[i].name) by {
            if i < n - 1 {
                assert(pre[i] == fs[i]);
                let g = choose|g: int|
                    0 <= g < prev.len() && same_scope(pre[#[trigger] prev[g] as int].name, pre[i].name);
                assert(firsts[g] == prev[g]);
                assert(pre[prev[g] as int] == fs[prev[g] as int]);
                assert(same_scope(fs[firsts[g] as int].name, fs[i].name));
            } else if first_of_scope(fs, n - 1) {
                let g = prev.len() as int;
                assert(firsts[g] == (n - 1) as usize);
                lemma_same_scope_equiv(fs[i].name, fs[i].name, fs[i].name);
                assert(same_scope(fs[firsts[g] as int].name, fs[i].name));
            } else {
                let j = choose|j: int| 0 <= j < n - 1 && same_scope((#[trigger] fs[j]).name, fs[n - 1].name);
                assert(pre[j] == fs[j]);
                let g = choose|g: int|
                    0 <= g < prev.len() && same_scope(pre[#[trigger] prev[g] as int].name, pre[j].name);
                assert(firsts[g] == prev[g]);
                assert(pre[prev[g] as int] == fs[prev[g] as int]);
                lemma_same_scope_equiv(fs[firsts[g] as int].name, fs[j].name, fs[i].name);
                assert(same_scope(fs[firsts[g] as int].name, fs[i].name));
            }
        }
    }
}

proof fn lemma_scope_firsts_distinct(fs: Seq<ScopeField>)
    requires
        fs.len() <= usize::MAX,
    ensures
        forall|g1: int, g2: int|
            0 <= g1 < g2 < scope_firsts(fs).len() ==> !same_scope(
                fs[#[trigger] scope_firsts(fs)[g1] as int].name,
                fs[#[trigger] scope_firsts(fs)[g2] as int].name,
            ),
    decreases fs.len(),
{
    if fs.len() > 0 {
        let n = fs.len();
        let pre = fs.drop_last();
        let prev = scope_firsts(pre);
        let firsts = scope_firsts(fs);
        lemma_scope_firsts_distinct(pre);
        lemma_scope_firsts_bounds(pre);
        lemma_scope_firsts_prefix(fs);
        assert forall|g1: int, g2: int| 0 <= g1 < g2 < firsts.len() implies !same_scope(
            fs[#[trigger] firsts[g1] as int].name,
            fs[#[trigger] firsts[g2] as int].name,
        ) by {
            assert(firsts[g1] == prev[g1]);
            assert(prev[g1] < n - 1);
            assert(pre[prev[g1] as int] == fs[prev[g1] as int]);
            if g2 < prev.len() {
                assert(firsts[g2] == prev[g2]);
                assert(pre[prev[g2] as int] == fs[prev[g2] as int]);
                assert(!same_scope(pre[prev[g1] as int].name, pre[prev[g2] as int].name));
            } else {
                assert(firsts[g2] == (n - 1) as usize);
                assert(first_of_scope(fs, n - 1));
                assert(!same_scope(fs[firsts[g1] as int].name, fs[n - 1].name));
            }
        }
    }
}

/// The scope that field `i` belongs to: the one whose first field shares its scope.
pub open spec fn scope_index(fs: Seq<ScopeField>, i: int) -> int {
    choose|g: int|
        0 <= g < scope_firsts(fs).len() && same_scope(fs[#[trigger] scope_firsts(fs)[g] as int].name, fs[i].name)
}

/// The scopes partition the scope fields: each field of a scope belongs to
/// it, every field lies in the scope of its index, and no field lies in two
/// scopes.
pub proof fn law_scopes_partition(provider: Seq<char>, fs: Seq<ScopeField>, plans: Seq<ScopePlan>)
    requires
        fs.len() <= usize::MAX,
        plans.len() == scope_firsts(fs).len(),
        forall|g: int| 0 <= g < plans.len() ==> scope_plan_of(provider, fs, scope_firsts(fs)[g] as int, #[trigger] plans[g]),
    ensures
        forall|g: int, m: int|
            0 <= g < plans.len() && 0 <= m < plans[g].fields@.len() ==> #[trigger] plans[g].fields@[m] < fs.len()
                && same_scope(fs[plans[g].fields@[m] as int].name, fs[scope_firsts(fs)[g] as int].name),
        forall|i: int|
            0 <= i < fs.len() ==> 0 <= #[trigger] scope_index(fs, i) < plans.len() && plans[scope_index(
                fs,
                i,
            )].fields@.contains(i as usize),
        forall|g1: int, g2: int, m1: int, m2: int|
            0 <= g1 < plans.len() && 0 <= g2 < plans.len() && g1 != g2 && 0 <= m1 < plans[g1].fields@.len() && 0
                <= m2 < plans[g2].fields@.len() ==> #[trigger] plans[g1].fields@[m1] != #[trigger] plans[g2].fields@[m2],
{
    let firsts = scope_firsts(fs);
    lemma_scope_firsts_bounds(fs);
    lemma_scope_firsts_cover(fs);
    lemma_scope_firsts_distinct(fs);
    assert forall|g: int, m: int| 0 <= g < plans.len() && 0 <= m < plans[g].fields@.len() implies #[trigger] plans[g].fields@[m]
        < fs.len() && same_scope(fs[plans[g].fields@[m] as int].name, fs[firsts[g] as int].name) by {
        assert(scope_plan_of(provider, fs, firsts[g] as int, plans[g]));
        lemma_scope_members_char(fs, fs[firsts[g] as int].name);
    }
    assert forall|i: int| 0 <= i < fs.len() implies 0 <= #[trigger] scope_index(fs, i) < plans.len() && plans[scope_index(
        fs,
        i,
    )].fields@.contains(i as usize) by {
        assert(fs[i] == fs[i]);
        let g = scope_index(fs, i);
        assert(scope_plan_of(provider, fs, firsts[g] as int, plans[g]));
        lemma_scope_members_char(fs, fs[firsts[g] as int].name);
        lemma_same_scope_equiv(fs[firsts[g] as int].name, fs[i].name, fs[i].name);
    }
    assert forall|g1: int, g2: int, m1: int, m2: int|
        0 <= g1 < plans.len() && 0 <= g2 < plans.len() && g1 != g2 && 0 <= m1 < plans[g1].fields@.len() && 0 <= m2
            < plans[g2].fields@.len() implies #[trigger] plans[g1].fields@[m1] != #[trigger] plans[g2].fields@[m2] by {
        assert(scope_plan_of(provider, fs, firsts[g1] as int, plans[g1]));
        assert(scope_plan_of(provider, fs, firsts[g2] as int, plans[g2]));
        lemma_scope_members_char(fs, fs[firsts[g1] as int].name);
        lemma_scope_members_char(fs, fs[firsts[g2] as int].name);
        let a = plans[g1].fields@[m1] as int;
        let b = plans[g2].fields@[m2] as int;
        if a == b {
            lemma_same_scope_equiv(fs[a].name, fs[firsts[g1] as int].name, fs[firsts[g2] as int].name);
            lemma_same_scope_equiv(fs[firsts[g1] as int].name, fs[a].name, fs[firsts[g2] as int].name);
            if g1 < g2 {
                assert(!same_scope(fs[firsts[g1] as int].name, fs[firsts[g2] as int].name));
            } else {
                assert(!same_scope(fs[firsts[g2] as int].name, fs[firsts[g1] as int].name));
                lemma_same_scope_equiv(fs[firsts[g2] as int].name, fs[firsts[g1] as int].name, fs[a].name);
            }
        }
    }
}

} // verus!

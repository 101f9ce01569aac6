//! What a provider generates for its `#[import]` fields: an `Import` impl per
//! imported module, and, per type that the imported modules export, a
//! `Provider` impl (served by the last module exporting it) and an
//! `Iterable` impl over every export of that type.
use vstd::prelude::*;
use crate::collection::{first_of_key, group_by, group_of, has_key, key_firsts, key_group, seconds};
use crate::model::copy_string;

verus! {

broadcast use vstd::std_specs::hash::group_hash_axioms;

/// An imported module: the field holding it, an identifier of the module
/// (equal for equal modules), and the texts of the types it exports.
pub struct ImportedModule {
    pub field: usize,
    pub module: usize,
    pub exports: Vec<String>,
}

/// One export of an imported module.
pub struct Export {
    pub module: usize,
    pub ty: String,
    pub field: usize,
}

/// The exports of the imported modules, module after module.
pub open spec fn all_exports(imports: Seq<ImportedModule>) -> Seq<(usize, Seq<char>, usize)>
    decreases imports.len(),
{
    if imports.len() == 0 {
        Seq::empty()
    } else {
        let m = imports.last();
        all_exports(imports.drop_last()) + Seq::new(
            m.exports@.len(),
            |i: int| (m.module, m.exports@[i]@, m.field),
        )
    }
}

/// One arm of an `Iterable` impl: the overall position, and the export's
/// field and position among the exports of its module.
pub struct IterArm {
    pub index: usize,
    pub field: usize,
    pub module_index: usize,
}

/// What is generated for one exported type.
pub struct ExportedType {
    /// The type's text.
    pub ty: String,
    /// The field whose module serves the `Provider` impl: that of the last export.
    pub provider_field: usize,
    /// The arms of the `Iterable` impl, one per export of the type.
    pub arms: Vec<IterArm>,
}

/// The positions of the exports of type `t`, in order.
pub open spec fn members(ex: Seq<(usize, Seq<char>, usize)>, t: Seq<char>) -> Seq<usize>
    decreases ex.len(),
{
    if ex.len() == 0 {
        Seq::empty()
    } else if ex.last().1 == t {
        members(ex.drop_last(), t).push((ex.len() - 1) as usize)
    } else {
        members(ex.drop_last(), t)
    }
}

/// Whether export `i` is the first of its type.
pub open spec fn is_first(ex: Seq<(usize, Seq<char>, usize)>, i: int) -> bool {
    forall|k: int| 0 <= k < i ==> (#[trigger] ex[k]).1 != ex[i].1
}

/// The positions of the first export of each type, in order.
pub open spec fn firsts(ex: Seq<(usize, Seq<char>, usize)>) -> Seq<usize>
    decreases ex.len(),
{
    if ex.len() == 0 {
        Seq::empty()
    } else if is_first(ex, ex.len() - 1) {
        firsts(ex.drop_last()).push((ex.len() - 1) as usize)
    } else {
        firsts(ex.drop_last())
    }
}

/// How many of the first `upto` members come from the module of member `m`.
pub open spec fn same_module_before(
    ex: Seq<(usize, Seq<char>, usize)>,
    ms: Seq<usize>,
    m: int,
    upto: int,
) -> nat
    decreases upto,
{
    if upto <= 0 {
        0
    } else {
        same_module_before(ex, ms, m, upto - 1) + if ex[ms[upto - 1] as int].0 == ex[ms[m] as int].0 {
            1nat
        } else {
            0nat
        }
    }
}

/// Whether `e` is what is generated for the type of export `f`.
pub open spec fn exported_type_of(ex: Seq<(usize, Seq<char>, usize)>, f: int, e: ExportedType) -> bool {
    let t = ex[f].1;
    let ms = members(ex, t);
    &&& e.ty@ == t
    &&& e.provider_field == ex[ms.last() as int].2
    &&& e.arms@.len() == ms.len()
    &&& forall|m: int|
        0 <= m < ms.len() ==> (#[trigger] e.arms@[m]).index == m && e.arms@[m].field == ex[ms[m] as int].2
            && e.arms@[m].module_index == same_module_before(ex, ms, m, m)
}

/// Flattens the exports of the imported modules, module after module.
pub fn exports_of(imports: &Vec<ImportedModule>) -> (r: Vec<Export>)
    ensures
        r@.len() == all_exports(imports@).len(),
        forall|i: int|
            0 <= i < r@.len() ==> ((#[trigger] r@[i]).module, r@[i].ty@, r@[i].field)
                == all_exports(imports@)[i],
{
    let mut r: Vec<Export> = Vec::new();
    let mut k: usize = 0;
    while k < imports.len()
        invariant
            k <= imports@.len(),
            r@.len() == all_exports(imports@.subrange(0, k as int)).len(),
            forall|i: int|
                0 <= i < r@.len() ==> ((#[trigger] r@[i]).module, r@[i].ty@, r@[i].field)
                    == all_exports(imports@.subrange(0, k as int))[i],
        decreases imports@.len() - k,
    {
        assert(imports@.subrange(0, k + 1).drop_last() =~= imports@.subrange(0, k as int));
        let m = &imports[k];
        let ghost base = all_exports(imports@.subrange(0, k as int));
        let mut j: usize = 0;
        while j < m.exports.len()
            invariant
                j <= m.exports@.len(),
                r@.len() == base.len() + j,
                forall|i: int|
                    0 <= i < r@.len() ==> ((#[trigger] r@[i]).module, r@[i].ty@, r@[i].field) == (base
                        + Seq::new(
                        m.exports@.len(),
                        |i: int| (m.module, m.exports@[i]@, m.field),
                    ))[i],
            decreases m.exports@.len() - j,
        {
            r.push(Export { module: m.module, ty: copy_string(&m.exports[j]), field: m.field });
            j = j + 1;
        }
        k = k + 1;
    }
    assert(imports@.subrange(0, imports@.len() as int) =~= imports@);
    r
}

proof fn lemma_members_step(ex: Seq<(usize, Seq<char>, usize)>, t: Seq<char>, k: int)
    requires
        0 <= k < ex.len(),
        ex.len() <= usize::MAX,
    ensures
        members(ex.subrange(0, k + 1), t) == if ex[k].1 == t {
            members(ex.subrange(0, k), t).push(k as usize)
        } else {
            members(ex.subrange(0, k), t)
        },
{
    assert(ex.subrange(0, k + 1).drop_last() =~= ex.subrange(0, k));
}

proof fn lemma_members_bounds(ex: Seq<(usize, Seq<char>, usize)>, t: Seq<char>)
    requires
        ex.len() <= usize::MAX,
    ensures
        forall|m: int|
            0 <= m < members(ex, t).len() ==> #[trigger] members(ex, t)[m] < ex.len() && ex[members(
                ex,
                t,
            )[m] as int].1 == t,
        forall|i: int| 0 <= i < ex.len() && ex[i].1 == t ==> members(ex, t).contains(i as usize),
    decreases ex.len(),
{
    if ex.len() > 0 {
        lemma_members_bounds(ex.drop_last(), t);
        assert forall|i: int| 0 <= i < ex.len() && ex[i].1 == t implies members(ex, t).contains(
            i as usize,
        ) by {
            if i < ex.len() - 1 {
                assert(ex.drop_last()[i] == ex[i]);
                let ms0 = members(ex.drop_last(), t);
                let j = choose|j: int| 0 <= j < ms0.len() && ms0[j] == i as usize;
                if ex.last().1 == t {
                    assert(members(ex, t)[j] == i as usize);
                } else {
                    assert(members(ex, t)[j] == i as usize);
                }
            } else {
                assert(members(ex, t).last() == i as usize);
            }
        }
    }
}

/// The positions grouped under the first export `f` of a type are the
/// positions of the exports of that type.
proof fn lemma_group_is_members(
    ex: Seq<(usize, Seq<char>, usize)>,
    ids: Seq<usize>,
    pairs: Seq<(usize, usize)>,
    f: usize,
    n: int,
)
    requires
        0 <= n <= ex.len(),
        ex.len() <= usize::MAX,
        ids.len() == ex.len(),
        pairs.len() == n,
        forall|i: int| 0 <= i < n ==> (#[trigger] pairs[i]) == (ids[i], i as usize),
        forall|i: int| 0 <= i < ex.len() ==> (#[trigger] ids[i] == f <==> ex[i].1 == ex[f as int].1),
        f < ex.len(),
    ensures
        seconds(group_of(pairs, f)) == members(ex.subrange(0, n), ex[f as int].1),
    decreases n,
{
    if n > 0 {
        lemma_group_is_members(ex, ids, pairs.drop_last(), f, n - 1);
        lemma_members_step(ex, ex[f as int].1, n - 1);
        crate::collection::lemma_group_of_step(pairs, f);
        assert(seconds(group_of(pairs, f)) =~= members(ex.subrange(0, n), ex[f as int].1));
    } else {
        crate::collection::lemma_group_of_empty(pairs, f);
        assert(seconds(group_of(pairs, f)) =~= members(ex.subrange(0, n), ex[f as int].1));
    }
}

/// What a provider generates for its imports: an `Import` impl for each
/// imported field, and for each exported type, in the order of first export.
pub struct ImportPlan {
    pub import_fields: Vec<usize>,
    pub types: Vec<ExportedType>,
}

/// The spec view of flattened exports.
pub open spec fn export_view(r: Seq<Export>) -> Seq<(usize, Seq<char>, usize)> {
    Seq::new(r.len(), |i: int| (r[i].module, r[i].ty@, r[i].field))
}

proof fn lemma_firsts_step(ex: Seq<(usize, Seq<char>, usize)>, k: int)
    requires
        0 <= k < ex.len(),
        ex.len() <= usize::MAX,
    ensures
        firsts(ex.subrange(0, k + 1)) == if is_first(ex, k) {
            firsts(ex.subrange(0, k)).push(k as usize)
        } else {
            firsts(ex.subrange(0, k))
        },
        forall|g: int| 0 <= g < firsts(ex.subrange(0, k)).len() ==> #[trigger] firsts(ex.subrange(0, k))[g] < k,
    decreases k,
{
    let pre = ex.subrange(0, k + 1);
    assert(pre.drop_last() =~= ex.subrange(0, k));
    assert(is_first(pre, k) == is_first(ex, k)) by {
        assert forall|j: int| 0 <= j < k implies pre[j] == ex[j] by {}
    }
    if k > 0 {
        lemma_firsts_step(ex, k - 1);
    }
}

fn build_exported_type(ex: &Vec<Export>, g: &Vec<(usize, usize)>, f: usize) -> (e: ExportedType)
    requires
        f < ex@.len(),
        seconds(g@) == members(export_view(ex@), export_view(ex@)[f as int].1),
        members(export_view(ex@), export_view(ex@)[f as int].1).contains(f),
        forall|m: int|
            0 <= m < members(export_view(ex@), export_view(ex@)[f as int].1).len() ==> #[trigger] members(
                export_view(ex@),
                export_view(ex@)[f as int].1,
            )[m] < ex@.len(),
    ensures
        exported_type_of(export_view(ex@), f as int, e),
{
    let ghost exs = export_view(ex@);
    let ghost ms = members(exs, exs[f as int].1);
    let mut arms: Vec<IterArm> = Vec::new();
    let mut m: usize = 0;
    while m < g.len()
        invariant
            m <= g@.len(),
            seconds(g@) == ms,
            exs == export_view(ex@),
            forall|m: int| 0 <= m < ms.len() ==> #[trigger] ms[m] < exs.len(),
            arms@.len() == m,
            forall|mm: int|
                0 <= mm < m ==> (#[trigger] arms@[mm]).index == mm && arms@[mm].field == exs[ms[mm] as int].2
                    && arms@[mm].module_index == same_module_before(exs, ms, mm, mm),
        decreases g@.len() - m,
    {
        let pos = g[m].1;
        assert(pos == ms[m as int]);
        let module = ex[pos].module;
        let mut before: usize = 0;
        let mut q: usize = 0;
        while q < m
            invariant
                q <= m,
                m < g@.len(),
                seconds(g@) == ms,
                exs == export_view(ex@),
                forall|m: int| 0 <= m < ms.len() ==> #[trigger] ms[m] < exs.len(),
                module == exs[ms[m as int] as int].0,
                before == same_module_before(exs, ms, m as int, q as int),
                before <= q,
            decreases m - q,
        {
            let other = g[q].1;
            assert(other == ms[q as int]);
            if ex[other].module == module {
                before = before + 1;
            }
            q = q + 1;
        }
        arms.push(IterArm { index: m, field: ex[pos].field, module_index: before });
        m = m + 1;
    }
    let last = g[g.len() - 1].1;
    assert(last == ms.last());
    ExportedType { ty: copy_string(&ex[f].ty), provider_field: ex[last].field, arms }
}

/// The plan for the `#[import]` fields of a provider.
#[verifier::rlimit(60)]
pub fn gen_imports_for_import_attr(imports: &Vec<ImportedModule>) -> (r: ImportPlan)
    ensures
        r.import_fields@.len() == imports@.len(),
        forall|i: int| 0 <= i < imports@.len() ==> #[trigger] r.import_fields@[i] == imports@[i].field,
        r.types@.len() == firsts(all_exports(imports@)).len(),
        forall|g: int|
            0 <= g < r.types@.len() ==> exported_type_of(
                all_exports(imports@),
                firsts(all_exports(imports@))[g] as int,
                #[trigger] r.types@[g],
            ),
{
    let mut import_fields: Vec<usize> = Vec::new();
    let mut k: usize = 0;
    while k < imports.len()
        invariant
            k <= imports@.len(),
            import_fields@.len() == k,
            forall|i: int| 0 <= i < k ==> #[trigger] import_fields@[i] == imports@[i].field,
        decreases imports@.len() - k,
    {
        import_fields.push(imports[k].field);
        k = k + 1;
    }
    let ex = exports_of(imports);
    let ghost exs = all_exports(imports@);
    assert(export_view(ex@) =~= exs);
    let n = ex.len();
    // the first export of each export's type
    let mut ids: Vec<usize> = Vec::new();
    let mut pairs: Vec<(usize, usize)> = Vec::new();
    let mut i: usize = 0;
    while i < n
        invariant
            n == ex@.len(),
            exs == export_view(ex@),
            i <= n,
            ids@.len() == i,
            pairs@.len() == i,
            forall|j: int| 0 <= j < i ==> #[trigger] pairs@[j] == (ids@[j], j as usize),
            forall|j: int|
                0 <= j < i ==> #[trigger] ids@[j] <= j && exs[ids@[j] as int].1 == exs[j].1 && forall|
                    k: int,
                | 0 <= k < ids@[j] ==> exs[k].1 != exs[j].1,
        decreases n - i,
    {
        let mut j: usize = 0;
        while j < i && ex[j].ty != ex[i].ty
            invariant
                j <= i,
                i < n,
                n == ex@.len(),
                exs == export_view(ex@),
                forall|k: int| 0 <= k < j ==> exs[k].1 != exs[i as int].1,
            decreases i - j,
        {
            j = j + 1;
        }
        ids.push(j);
        pairs.push((j, i));
        i = i + 1;
    }
    proof {
        assert forall|f: int, j: int|
            0 <= f < n && 0 <= j < n && is_first(exs, f) implies (#[trigger] ids@[j] == f as usize
            <==> exs[j].1 == #[trigger] exs[f].1) by {
            if exs[j].1 == exs[f].1 {
                if ids@[j] < f {
                    assert(exs[ids@[j] as int].1 != exs[f].1);
                } else if ids@[j] > f {
                    assert(exs[f].1 != exs[j].1);
                }
            }
        }
    }
    let ghost pairs_v = pairs@;
    let ghost ids_v = ids@;
    let map = group_by(pairs);
    let mut types: Vec<ExportedType> = Vec::new();
    let mut f: usize = 0;
    while f < n
        invariant
            n == ex@.len(),
            exs == export_view(ex@),
            f <= n,
            ids_v.len() == n,
            pairs_v.len() == n,
            forall|j: int| 0 <= j < n ==> #[trigger] pairs_v[j] == (ids_v[j], j as usize),
            forall|j: int| 0 <= j < n ==> #[trigger] ids_v[j] <= j && exs[ids_v[j] as int].1 == exs[j].1,
            forall|j: int, k: int|
                0 <= j < n && 0 <= k < ids_v[j] ==> (#[trigger] exs[k]).1 != (#[trigger] exs[j]).1,
            forall|f: int, j: int|
                0 <= f < n && 0 <= j < n && is_first(exs, f) ==> (#[trigger] ids_v[j] == f as usize
                <==> exs[j].1 == #[trigger] exs[f].1),
            ids@ == ids_v,
            forall|k: usize| #[trigger] map@.contains_key(k) <==> has_key(pairs_v, k),
            forall|k: usize| #[trigger] map@.contains_key(k) ==> map@[k]@ == group_of(pairs_v, k),
            types@.len() == firsts(exs.subrange(0, f as int)).len(),
            forall|g: int|
                0 <= g < types@.len() ==> exported_type_of(
                    exs,
                    firsts(exs.subrange(0, f as int))[g] as int,
                    #[trigger] types@[g],
                ),
        decreases n - f,
    {
        proof {
            lemma_firsts_step(exs, f as int);
        }
        if ids[f] == f {
            assert(is_first(exs, f as int)) by {
                assert forall|k: int| 0 <= k < f implies (#[trigger] exs[k]).1 != exs[f as int].1 by {
                    assert(ids_v[f as int] == f);
                }
            }
            assert(pairs_v[f as int].0 == f);
            assert(has_key(pairs_v, f));
            let group = map.get(&f);
            match group {
                Some(g) => {
                    proof {
                        lemma_group_is_members(exs, ids_v, pairs_v, f, n as int);
                        assert(exs.subrange(0, n as int) =~= exs);
                        lemma_members_bounds(exs, exs[f as int].1);
                    }
                    assert(g@ == group_of(pairs_v, f));
                    assert(members(exs, exs[f as int].1).contains(f));
                    types.push(build_exported_type(&ex, g, f));
                },
                None => {
                    assert(false);
                },
            }
        }
        f = f + 1;
    }
    assert(exs.subrange(0, n as int) =~= exs);
    ImportPlan { import_fields, types }
}

// ---------------------------------------------------------------------------
// Every export is served by exactly one exported type.

/// The type texts of the exports, in order.
pub open spec fn export_types(ex: Seq<(usize, Seq<char>, usize)>) -> Seq<Seq<char>> {
    Seq::new(ex.len(), |i: int| ex[i].1)
}

proof fn lemma_firsts_by_key(ex: Seq<(usize, Seq<char>, usize)>)
    ensures
        firsts(ex) == key_firsts(export_types(ex)),
    decreases ex.len(),
{
    if ex.len() > 0 {
        lemma_firsts_by_key(ex.drop_last());
        let ks = export_types(ex);
        assert(ks.drop_last() =~= export_types(ex.drop_last()));
        assert(is_first(ex, ex.len() - 1) == first_of_key(ks, ks.len() - 1)) by {
            if !is_first(ex, ex.len() - 1) {
                let k = choose|k: int| 0 <= k < ex.len() - 1 && !((#[trigger] ex[k]).1 != ex[ex.len() - 1].1);
                assert(ks[k] == ks[ks.len() - 1]);
            }
            if !first_of_key(ks, ks.len() - 1) {
                let k = choose|k: int| 0 <= k < ks.len() - 1 && !((#[trigger] ks[k]) != ks[ks.len() - 1]);
                assert(ex[k].1 == ex[ex.len() - 1].1);
            }
        }
    }
}

/// The exported types of a provider's imports are pairwise distinct, and the
/// type of every export is one of them: that of the export's key group.
pub proof fn law_exported_types_partition(imports: Seq<ImportedModule>, types: Seq<ExportedType>)
    requires
        all_exports(imports).len() <= usize::MAX,
        types.len() == firsts(all_exports(imports)).len(),
        forall|g: int|
            0 <= g < types.len() ==> exported_type_of(
                all_exports(imports),
                firsts(all_exports(imports))[g] as int,
                #[trigger] types[g],
            ),
    ensures
        forall|g1: int, g2: int|
            0 <= g1 < types.len() && 0 <= g2 < types.len() && g1 != g2 ==> (#[trigger] types[g1]).ty@
                != (#[trigger] types[g2]).ty@,
        forall|i: int|
            0 <= i < all_exports(imports).len() ==> 0 <= #[trigger] key_group(
                export_types(all_exports(imports)),
                i,
            ) < types.len() && types[key_group(export_types(all_exports(imports)), i)].ty@ == all_exports(
                imports,
            )[i].1,
{
    let ex = all_exports(imports);
    let ks = export_types(ex);
    lemma_firsts_by_key(ex);
    crate::collection::lemma_key_firsts_char(ks);
    assert forall|g1: int, g2: int|
        0 <= g1 < types.len() && 0 <= g2 < types.len() && g1 != g2 implies (#[trigger] types[g1]).ty@
        != (#[trigger] types[g2]).ty@ by {
        assert(exported_type_of(ex, firsts(ex)[g1] as int, types[g1]));
        assert(exported_type_of(ex, firsts(ex)[g2] as int, types[g2]));
        let f1 = key_firsts(ks)[g1] as int;
        let f2 = key_firsts(ks)[g2] as int;
        if g1 < g2 {
            assert(ks[f1] != ks[f2]);
        } else {
            assert(ks[f2] != ks[f1]);
        }
    }
    assert forall|i: int| 0 <= i < ex.len() implies 0 <= #[trigger] key_group(ks, i) < types.len()
        && types[key_group(ks, i)].ty@ == ex[i].1 by {
        assert(ks[i] == ks[i]);
        let g = key_group(ks, i);
        assert(exported_type_of(ex, firsts(ex)[g] as int, types[g]));
    }
}

// ---------------------------------------------------------------------------
// How an `Iterable` arm reaches its module's export.

/// The module that the `m`-th export of the type of export `f` comes from.
pub open spec fn arm_module(ex: Seq<(usize, Seq<char>, usize)>, f: int, m: int) -> usize {
    ex[members(ex, ex[f].1)[m] as int].0
}

proof fn lemma_same_module_count_agrees(
    ex: Seq<(usize, Seq<char>, usize)>,
    ms: Seq<usize>,
    m1: int,
    m2: int,
    u: int,
)
    requires
        ex[ms[m1] as int].0 == ex[ms[m2] as int].0,
    ensures
        same_module_before(ex, ms, m1, u) == same_module_before(ex, ms, m2, u),
    decreases u,
{
    if u > 0 {
        lemma_same_module_count_agrees(ex, ms, m1, m2, u - 1);
    }
}

proof fn lemma_same_module_count_grows(ex: Seq<(usize, Seq<char>, usize)>, ms: Seq<usize>, m: int, u: int, v: int)
    requires
        0 <= u <= v,
    ensures
        same_module_before(ex, ms, m, u) <= same_module_before(ex, ms, m, v),
    decreases v - u,
{
    if u < v {
        lemma_same_module_count_grows(ex, ms, m, u, v - 1);
    }
}

proof fn lemma_same_module_count_none(ex: Seq<(usize, Seq<char>, usize)>, ms: Seq<usize>, m: int, u: int)
    requires
        forall|k: int| 0 <= k < u ==> ex[ms[k] as int].0 != ex[ms[m] as int].0,
    ensures
        same_module_before(ex, ms, m, u) == 0,
    decreases u,
{
    if u > 0 {
        lemma_same_module_count_none(ex, ms, m, u - 1);
    }
}

proof fn lemma_same_module_count_previous(ex: Seq<(usize, Seq<char>, usize)>, ms: Seq<usize>, m: int, u: int)
    requires
        same_module_before(ex, ms, m, u) > 0,
    ensures
        exists|k: int|
            0 <= k < u && ex[ms[k] as int].0 == ex[ms[m] as int].0 && #[trigger] same_module_before(ex, ms, k, k)
                + 1 == same_module_before(ex, ms, m, u),
    decreases u,
{
    if u > 0 {
        if ex[ms[u - 1] as int].0 == ex[ms[m] as int].0 {
            lemma_same_module_count_agrees(ex, ms, u - 1, m, u - 1);
            assert(same_module_before(ex, ms, u - 1, u - 1) + 1 == same_module_before(ex, ms, m, u));
        } else {
            lemma_same_module_count_previous(ex, ms, m, u - 1);
            let k = choose|k: int|
                0 <= k < u - 1 && ex[ms[k] as int].0 == ex[ms[m] as int].0 && #[trigger] same_module_before(
                    ex,
                    ms,
                    k,
                    k,
                ) + 1 == same_module_before(ex, ms, m, u - 1);
            assert(same_module_before(ex, ms, k, k) + 1 == same_module_before(ex, ms, m, u));
        }
    }
}

/// In the `Iterable` impl of an exported type, each arm asks its module for
/// that module's exports of the type in turn: the first arm of a module asks
/// for export 0, a later arm of the same module asks for a later export than
/// any earlier arm of it, and for exactly the one after some earlier arm's.
pub proof fn law_iterable_arms_count_within_module(
    ex: Seq<(usize, Seq<char>, usize)>,
    f: int,
    e: ExportedType,
)
    requires
        0 <= f < ex.len(),
        exported_type_of(ex, f, e),
    ensures
        forall|m: int|
            0 <= m < e.arms@.len() && (forall|k: int| 0 <= k < m ==> arm_module(ex, f, k) != arm_module(ex, f, m))
                ==> (#[trigger] e.arms@[m]).module_index == 0,
        forall|m1: int, m2: int|
            0 <= m1 < m2 < e.arms@.len() && arm_module(ex, f, m1) == arm_module(ex, f, m2)
                ==> (#[trigger] e.arms@[m1]).module_index < (#[trigger] e.arms@[m2]).module_index,
        forall|m: int|
            0 <= m < e.arms@.len() && (#[trigger] e.arms@[m]).module_index > 0 ==> exists|k: int|
                0 <= k < m && arm_module(ex, f, k) == arm_module(ex, f, m) && #[trigger] e.arms@[k].module_index
                    + 1 == e.arms@[m].module_index,
{
    let ms = members(ex, ex[f].1);
    assert forall|m: int|
        0 <= m < e.arms@.len() && (forall|k: int| 0 <= k < m ==> arm_module(ex, f, k) != arm_module(ex, f, m))
            implies (#[trigger] e.arms@[m]).module_index == 0 by {
        assert forall|k: int| 0 <= k < m implies ex[ms[k] as int].0 != ex[ms[m] as int].0 by {
            assert(arm_module(ex, f, k) != arm_module(ex, f, m));
        }
        lemma_same_module_count_none(ex, ms, m, m);
    }
    assert forall|m1: int, m2: int|
        0 <= m1 < m2 < e.arms@.len() && arm_module(ex, f, m1) == arm_module(ex, f, m2)
            implies (#[trigger] e.arms@[m1]).module_index < (#[trigger] e.arms@[m2]).module_index by {
        lemma_same_module_count_agrees(ex, ms, m1, m2, m1);
        lemma_same_module_count_grows(ex, ms, m2, m1 + 1, m2);
    }
    assert forall|m: int|
        0 <= m < e.arms@.len() && (#[trigger] e.arms@[m]).module_index > 0 implies exists|k: int|
            0 <= k < m && arm_module(ex, f, k) == arm_module(ex, f, m) && #[trigger] e.arms@[k].module_index + 1
                == e.arms@[m].module_index by {
        lemma_same_module_count_previous(ex, ms, m, m);
        let k = choose|k: int|
            0 <= k < m && ex[ms[k] as int].0 == ex[ms[m] as int].0 && #[trigger] same_module_before(ex, ms, k, k) + 1
                == same_module_before(ex, ms, m, m);
        assert(e.arms@[k].module_index == same_module_before(ex, ms, k, k));
        assert(arm_module(ex, f, k) == arm_module(ex, f, m));
    }
}

/// The `Provider` impl of an exported type is served by the field of the last
/// export of that type; the `Iterable` impl has one arm per export of the
/// type, numbered in order, and every export of the type is reached by an arm
/// through the field that holds its module.
pub proof fn law_exported_type_serves_its_exports(
    ex: Seq<(usize, Seq<char>, usize)>,
    f: int,
    e: ExportedType,
)
    requires
        0 <= f < ex.len(),
        ex.len() <= usize::MAX,
        exported_type_of(ex, f, e),
    ensures
        e.ty@ == ex[f].1,
        exists|p: int|
            0 <= p < ex.len() && #[trigger] ex[p].1 == e.ty@ && ex[p].2 == e.provider_field && forall|q: int|
                p < q < ex.len() ==> (#[trigger] ex[q]).1 != e.ty@,
        forall|m: int| 0 <= m < e.arms@.len() ==> (#[trigger] e.arms@[m]).index == m,
        forall|p: int|
            0 <= p < ex.len() && (#[trigger] ex[p]).1 == e.ty@ ==> exists|m: int|
                0 <= m < e.arms@.len() && (#[trigger] e.arms@[m]).field == ex[p].2,
{
    let t = ex[f].1;
    let ms = members(ex, t);
    lemma_members_bounds(ex, t);
    lemma_members_last(ex, t);
    assert(ms.contains(f as usize));
    let p = ms.last() as int;
    assert(ms[ms.len() - 1] < ex.len());
    assert(ex[p].1 == t);
    assert forall|p: int| 0 <= p < ex.len() && (#[trigger] ex[p]).1 == e.ty@ implies exists|m: int|
        0 <= m < e.arms@.len() && (#[trigger] e.arms@[m]).field == ex[p].2 by {
        assert(ms.contains(p as usize));
        let m = choose|m: int| 0 <= m < ms.len() && ms[m] == p as usize;
        assert(e.arms@[m].field == ex[ms[m] as int].2);
    }
}

proof fn lemma_members_last(ex: Seq<(usize, Seq<char>, usize)>, t: Seq<char>)
    requires
        members(ex, t).len() > 0,
        ex.len() <= usize::MAX,
    ensures
        forall|q: int| members(ex, t).last() < q < ex.len() ==> (#[trigger] ex[q]).1 != t,
    decreases ex.len(),
{
    if ex.len() > 0 && ex.last().1 != t {
        lemma_members_last(ex.drop_last(), t);
        assert forall|q: int| members(ex, t).last() < q < ex.len() implies (#[trigger] ex[q]).1 != t by {
            if q < ex.len() - 1 {
                assert(ex[q] == ex.drop_last()[q]);
            }
        }
    } else if ex.len() > 0 {
        assert(members(ex, t).last() == ex.len() - 1);
    }
}

} // verus!

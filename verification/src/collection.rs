//! Grouping of items by an integer key.
use std::collections::HashMap;
use itertools::Itertools;
use vstd::prelude::*;
use crate::model::views;

verus! {

broadcast use vstd::std_specs::hash::group_hash_axioms;

/// The items of `items` whose key is `k`, in the order they come.
pub open spec fn group_of<T>(items: Seq<(usize, T)>, k: usize) -> Seq<(usize, T)> {
    items.filter(|p: (usize, T)| p.0 == k)
}

/// Whether some item of `items` has key `k`.
pub open spec fn has_key<T>(items: Seq<(usize, T)>, k: usize) -> bool {
    exists|i: int| 0 <= i < items.len() && #[trigger] items[i].0 == k
}

/// `Itertools::into_group_map_by` keyed by the first component. The crate's
/// source pushes every item, in iteration order, onto the vector of its key,
/// so the map holds exactly the keys that occur and, under each, the items
/// with that key in the order they come.
#[verifier::external_body]
fn into_group_map_by_first<T>(items: Vec<(usize, T)>) -> (m: HashMap<usize, Vec<(usize, T)>>)
    ensures
        forall|k: usize| #[trigger] m@.contains_key(k) <==> has_key(items@, k),
        forall|k: usize| #[trigger] m@.contains_key(k) ==> m@[k]@ == group_of(items@, k),
{
    items.into_iter().into_group_map_by(|p| p.0)
}

/// Groups items by key, preserving insertion order within groups. Each item
/// comes with its key; a key is present in the result exactly when some
/// item has it.
pub fn group_by<T>(items: Vec<(usize, T)>) -> (m: HashMap<usize, Vec<(usize, T)>>)
    ensures
        forall|k: usize| #[trigger] m@.contains_key(k) <==> has_key(items@, k),
        forall|k: usize| #[trigger] m@.contains_key(k) ==> m@[k]@ == group_of(items@, k),
{
    into_group_map_by_first(items)
}

/// The group of key `k` of a non-empty sequence, from that of all but its last item.
pub proof fn lemma_group_of_step<T>(items: Seq<(usize, T)>, k: usize)
    requires
        items.len() > 0,
    ensures
        group_of(items, k) == if items.last().0 == k {
            group_of(items.drop_last(), k).push(items.last())
        } else {
            group_of(items.drop_last(), k)
        },
{
    reveal_with_fuel(Seq::filter, 1);
}

/// The empty sequence has empty groups.
pub proof fn lemma_group_of_empty<T>(items: Seq<(usize, T)>, k: usize)
    requires
        items.len() == 0,
    ensures
        group_of(items, k).len() == 0,
{
    reveal_with_fuel(Seq::filter, 1);
}

// ---------------------------------------------------------------------------
// Grouping positions by a text key.

/// The positions whose key is `k`, in order.
pub open spec fn key_members(keys: Seq<Seq<char>>, k: Seq<char>) -> Seq<usize>
    decreases keys.len(),
{
    if keys.len() == 0 {
        Seq::empty()
    } else if keys.last() == k {
        key_members(keys.drop_last(), k).push((keys.len() - 1) as usize)
    } else {
        key_members(keys.drop_last(), k)
    }
}

/// Whether position `i` holds the first occurrence of its key.
pub open spec fn first_of_key(keys: Seq<Seq<char>>, i: int) -> bool {
    forall|j: int| 0 <= j < i ==> (#[trigger] keys[j]) != keys[i]
}

/// The positions of the first occurrence of each key, in order.
pub open spec fn key_firsts(keys: Seq<Seq<char>>) -> Seq<usize>
    decreases keys.len(),
{
    if keys.len() == 0 {
        Seq::empty()
    } else if first_of_key(keys, keys.len() - 1) {
        key_firsts(keys.drop_last()).push((keys.len() - 1) as usize)
    } else {
        key_firsts(keys.drop_last())
    }
}

/// Whether `groups` holds, for each key in the order it first occurs, the
/// positions that hold it, in order.
pub open spec fn grouped_by_key(keys: Seq<Seq<char>>, groups: Seq<Vec<usize>>) -> bool {
    &&& groups.len() == key_firsts(keys).len()
    &&& forall|g: int|
        0 <= g < groups.len() ==> (#[trigger] groups[g])@ == key_members(
            keys,
            keys[key_firsts(keys)[g] as int],
        )
}

/// The second components of a sequence of pairs.
pub open spec fn seconds(s: Seq<(usize, usize)>) -> Seq<usize> {
    Seq::new(s.len(), |i: int| s[i].1)
}

/// Whether `ids` gives, for each position, the first position with the same key.
pub open spec fn first_key_ids(keys: Seq<Seq<char>>, ids: Seq<usize>) -> bool {
    &&& ids.len() == keys.len()
    &&& forall|j: int| 0 <= j < keys.len() ==> #[trigger] ids[j] <= j && keys[ids[j] as int] == keys[j]
    &&& forall|j: int, k: int| 0 <= j < keys.len() && 0 <= k < ids[j] ==> (#[trigger] keys[k]) != (#[trigger] keys[j])
}

fn first_key_positions(keys: &Vec<String>) -> (ids: Vec<usize>)
    ensures
        first_key_ids(views(keys@), ids@),
{
    let ghost ks = views(keys@);
    let n = keys.len();
    let mut ids: Vec<usize> = Vec::new();
    let mut i: usize = 0;
    while i < n
        invariant
            n == keys@.len(),
            ks == views(keys@),
            i <= n,
            ids@.len() == i,
            forall|j: int| 0 <= j < i ==> #[trigger] ids@[j] <= j && ks[ids@[j] as int] == ks[j],
            forall|j: int, k: int| 0 <= j < i && 0 <= k < ids@[j] ==> (#[trigger] ks[k]) != (#[trigger] ks[j]),
        decreases n - i,
    {
        let mut j: usize = 0;
        while j < i && keys[j] != keys[i]
            invariant
                j <= i,
                i < n,
                n == keys@.len(),
                ks == views(keys@),
                forall|k: int| 0 <= k < j ==> (#[trigger] ks[k]) != ks[i as int],
            decreases i - j,
        {
            j = j + 1;
        }
        ids.push(j);
        i = i + 1;
    }
    ids
}

proof fn lemma_first_key_ids(keys: Seq<Seq<char>>, ids: Seq<usize>, f: int)
    requires
        first_key_ids(keys, ids),
        0 <= f < keys.len(),
    ensures
        first_of_key(keys, f) <==> ids[f] == f,
        first_of_key(keys, f) ==> forall|j: int|
            0 <= j < keys.len() ==> (#[trigger] ids[j] == f as usize <==> keys[j] == keys[f]),
{
    if ids[f] != f {
        assert(keys[ids[f] as int] == keys[f]);
    }
    if first_of_key(keys, f) {
        assert forall|j: int| 0 <= j < keys.len() implies (#[trigger] ids[j] == f as usize <==> keys[j] == keys[f]) by {
            if keys[j] == keys[f] {
                if ids[j] < f {
                    assert(keys[ids[j] as int] == keys[f]);
                } else if ids[j] > f {
                    assert(keys[f] != keys[j]);
                }
            }
        }
    }
}

proof fn lemma_group_is_key_members(
    keys: Seq<Seq<char>>,
    ids: Seq<usize>,
    pairs: Seq<(usize, usize)>,
    f: usize,
    n: int,
)
    requires
        0 <= n <= keys.len(),
        keys.len() <= usize::MAX,
        ids.len() == keys.len(),
        pairs.len() == n,
        forall|i: int| 0 <= i < n ==> (#[trigger] pairs[i]) == (ids[i], i as usize),
        forall|i: int| 0 <= i < keys.len() ==> (#[trigger] ids[i] == f <==> keys[i] == keys[f as int]),
        f < keys.len(),
    ensures
        seconds(group_of(pairs, f)) == key_members(keys.subrange(0, n), keys[f as int]),
    decreases n,
{
    if n > 0 {
        lemma_group_is_key_members(keys, ids, pairs.drop_last(), f, n - 1);
        assert(keys.subrange(0, n).drop_last() =~= keys.subrange(0, n - 1));
        lemma_group_of_step(pairs, f);
        assert(seconds(group_of(pairs, f)) =~= key_members(keys.subrange(0, n), keys[f as int]));
    } else {
        lemma_group_of_empty(pairs, f);
        assert(seconds(group_of(pairs, f)) =~= key_members(keys.subrange(0, n), keys[f as int]));
    }
}

proof fn lemma_key_firsts_step(keys: Seq<Seq<char>>, k: int)
    requires
        0 <= k < keys.len(),
        keys.len() <= usize::MAX,
    ensures
        key_firsts(keys.subrange(0, k + 1)) == if first_of_key(keys, k) {
            key_firsts(keys.subrange(0, k)).push(k as usize)
        } else {
            key_firsts(keys.subrange(0, k))
        },
{
    let pre = keys.subrange(0, k + 1);
    assert(pre.drop_last() =~= keys.subrange(0, k));
    assert(first_of_key(pre, k) == first_of_key(keys, k)) by {
        assert forall|j: int| 0 <= j < k implies pre[j] == keys[j] by {}
    }
}

fn group_positions(g: &Vec<(usize, usize)>) -> (r: Vec<usize>)
    ensures
        r@ == seconds(g@),
{
    let mut r: Vec<usize> = Vec::new();
    let mut i: usize = 0;
    while i < g.len()
        invariant
            i <= g@.len(),
            r@ == seconds(g@).subrange(0, i as int),
        decreases g@.len() - i,
    {
        r.push(g[i].1);
        i = i + 1;
        assert(r@ =~= seconds(g@).subrange(0, i as int));
    }
    assert(seconds(g@).subrange(0, g@.len() as int) =~= seconds(g@));
    r
}

/// Groups positions by their key: one group per key, in the order keys first
/// occur, each holding the positions of that key in order.
#[verifier::rlimit(40)]
pub fn group_positions_by_key(keys: &Vec<String>) -> (groups: Vec<Vec<usize>>)
    ensures
        grouped_by_key(views(keys@), groups@),
{
    let ghost ks = views(keys@);
    let n = keys.len();
    let ids = first_key_positions(keys);
    let ghost ids_v = ids@;
    let mut pairs: Vec<(usize, usize)> = Vec::new();
    let mut i: usize = 0;
    while i < n
        invariant
            n == keys@.len(),
            ids@ == ids_v,
            ids_v.len() == n,
            i <= n,
            pairs@.len() == i,
            forall|j: int| 0 <= j < i ==> #[trigger] pairs@[j] == (ids_v[j], j as usize),
        decreases n - i,
    {
        pairs.push((ids[i], i));
        i = i + 1;
    }
    let ghost pairs_v = pairs@;
    let map = group_by(pairs);
    let mut groups: Vec<Vec<usize>> = Vec::new();
    let mut f: usize = 0;
    while f < n
        invariant
            n == keys@.len(),
            ks == views(keys@),
            ks.len() == n,
            f <= n,
            ids@ == ids_v,
            first_key_ids(ks, ids_v),
            pairs_v.len() == n,
            forall|j: int| 0 <= j < n ==> #[trigger] pairs_v[j] == (ids_v[j], j as usize),
            forall|k: usize| #[trigger] map@.contains_key(k) <==> has_key(pairs_v, k),
            forall|k: usize| #[trigger] map@.contains_key(k) ==> map@[k]@ == group_of(pairs_v, k),
            groups@.len() == key_firsts(ks.subrange(0, f as int)).len(),
            forall|g: int|
                0 <= g < groups@.len() ==> (#[trigger] groups@[g])@ == key_members(
                    ks,
                    ks[key_firsts(ks.subrange(0, f as int))[g] as int],
                ),
        decreases n - f,
    {
        proof {
            lemma_key_firsts_step(ks, f as int);
            lemma_first_key_ids(ks, ids_v, f as int);
        }
        if ids[f] == f {
            assert(pairs_v[f as int].0 == f);
            assert(has_key(pairs_v, f));
            match map.get(&f) {
                Some(g) => {
                    proof {
                        lemma_group_is_key_members(ks, ids_v, pairs_v, f, n as int);
                        assert(ks.subrange(0, n as int) =~= ks);
                    }
                    groups.push(group_positions(g));
                },
                None => {
                    assert(false);
                },
            }
        }
        f = f + 1;
    }
    assert(ks.subrange(0, n as int) =~= ks);
    groups
}

proof fn lemma_key_members_char(keys: Seq<Seq<char>>, k: Seq<char>)
    requires
        keys.len() <= usize::MAX,
    ensures
        forall|m: int|
            0 <= m < key_members(keys, k).len() ==> #[trigger] key_members(keys, k)[m] < keys.len()
                && keys[key_members(keys, k)[m] as int] == k,
        forall|i: int| 0 <= i < keys.len() && keys[i] == k ==> #[trigger] key_members(keys, k).contains(i as usize),
    decreases keys.len(),
{
    if keys.len() > 0 {
        let prev = key_members(keys.drop_last(), k);
        lemma_key_members_char(keys.drop_last(), k);
        assert forall|m: int| 0 <= m < key_members(keys, k).len() implies #[trigger] key_members(keys, k)[m]
            < keys.len() && keys[key_members(keys, k)[m] as int] == k by {
            if m < prev.len() {
                assert(key_members(keys, k)[m] == prev[m]);
                assert(keys.drop_last()[prev[m] as int] == keys[prev[m] as int]);
            }
        }
        assert forall|i: int| 0 <= i < keys.len() && keys[i] == k implies #[trigger] key_members(keys, k).contains(
            i as usize,
        ) by {
            if i < keys.len() - 1 {
                assert(keys.drop_last()[i] == keys[i]);
                assert(prev.contains(i as usize));
                let j = choose|j: int| 0 <= j < prev.len() && prev[j] == i as usize;
                assert(key_members(keys, k)[j] == i as usize);
            } else {
                assert(key_members(keys, k) == prev.push(i as usize));
                assert(key_members(keys, k)[prev.len() as int] == i as usize);
            }
        }
    }
}

pub(crate) proof fn lemma_key_firsts_char(keys: Seq<Seq<char>>)
    requires
        keys.len() <= usize::MAX,
    ensures
        forall|g: int|
            0 <= g < key_firsts(keys).len() ==> #[trigger] key_firsts(keys)[g] < keys.len() && first_of_key(
                keys,
                key_firsts(keys)[g] as int,
            ),
        forall|i: int|
            #![trigger keys[i]]
            0 <= i < keys.len() ==> exists|g: int|
                0 <= g < key_firsts(keys).len() && keys[#[trigger] key_firsts(keys)[g] as int] == keys[i],
        forall|g1: int, g2: int|
            0 <= g1 < g2 < key_firsts(keys).len() ==> keys[#[trigger] key_firsts(keys)[g1] as int]
                != keys[#[trigger] key_firsts(keys)[g2] as int],
    decreases keys.len(),
{
    if keys.len() > 0 {
        let n = keys.len();
        let pre = keys.drop_last();
        let prev = key_firsts(pre);
        let fs = key_firsts(keys);
        lemma_key_firsts_char(pre);
        assert forall|f: int| 0 <= f < n - 1 implies first_of_key(pre, f) == first_of_key(keys, f) by {
            assert forall|j: int| 0 <= j < f implies pre[j] == keys[j] by {}
        }
        assert forall|g: int| 0 <= g < prev.len() implies fs[g] == prev[g] && #[trigger] prev[g] < n - 1 by {}
        assert forall|g: int| 0 <= g < fs.len() implies #[trigger] fs[g] < keys.len() && first_of_key(
            keys,
            fs[g] as int,
        ) by {
            if g < prev.len() {
                assert(fs[g] == prev[g]);
            }
        }
        assert forall|i: int|
            #![trigger keys[i]]
            0 <= i < keys.len() implies exists|g: int|
            0 <= g < fs.len() && keys[#[trigger] fs[g] as int] == keys[i] by {
            if i < n - 1 {
                assert(pre[i] == keys[i]);
                let g = choose|g: int| 0 <= g < prev.len() && pre[#[trigger] prev[g] as int] == pre[i];
                assert(fs[g] == prev[g]);
                assert(keys[fs[g] as int] == keys[i]);
            } else if first_of_key(keys, n - 1) {
                let g = prev.len() as int;
                assert(fs[g] == (n - 1) as usize);
                assert(keys[fs[g] as int] == keys[i]);
            } else {
                let j = choose|j: int| 0 <= j < n - 1 && !(#[trigger] keys[j] != keys[n - 1]);
                assert(pre[j] == keys[j]);
                let g = choose|g: int| 0 <= g < prev.len() && pre[#[trigger] prev[g] as int] == pre[j];
                assert(fs[g] == prev[g]);
                assert(keys[fs[g] as int] == keys[i]);
            }
        }
        assert forall|g1: int, g2: int| 0 <= g1 < g2 < fs.len() implies keys[#[trigger] fs[g1] as int]
            != keys[#[trigger] fs[g2] as int] by {
            if g2 < prev.len() {
                assert(fs[g1] == prev[g1]);
                assert(fs[g2] == prev[g2]);
                assert(pre[prev[g1] as int] != pre[prev[g2] as int]);
            } else {
                assert(fs[g2] == (n - 1) as usize);
                assert(fs[g1] == prev[g1]);
                assert(first_of_key(keys, n - 1));
            }
        }
    }
}

/// The group that position `i` falls in: the one of its key.
pub open spec fn key_group(keys: Seq<Seq<char>>, i: int) -> int {
    choose|g: int| 0 <= g < key_firsts(keys).len() && keys[#[trigger] key_firsts(keys)[g] as int] == keys[i]
}

proof fn lemma_group_covers(keys: Seq<Seq<char>>, groups: Seq<Vec<usize>>, i: int)
    requires
        keys.len() <= usize::MAX,
        grouped_by_key(keys, groups),
        0 <= i < keys.len(),
    ensures
        0 <= key_group(keys, i) < groups.len(),
        groups[key_group(keys, i)]@.contains(i as usize),
{
    let fs = key_firsts(keys);
    lemma_key_firsts_char(keys);
    assert(keys[i] == keys[i]);
    let g = key_group(keys, i);
    lemma_key_members_char(keys, keys[fs[g] as int]);
    assert(groups[g]@ == key_members(keys, keys[fs[g] as int]));
    assert(groups[g]@.contains(i as usize));
}

/// Grouping by key partitions the positions: no group is empty, each
/// position of a group holds the group's key, every position falls in some
/// group, and no position falls in two.
pub proof fn law_groups_partition(keys: Seq<Seq<char>>, groups: Seq<Vec<usize>>)
    requires
        keys.len() <= usize::MAX,
        grouped_by_key(keys, groups),
    ensures
        forall|g: int| 0 <= g < groups.len() ==> (#[trigger] groups[g])@.len() > 0,
        forall|g: int, m: int|
            0 <= g < groups.len() && 0 <= m < groups[g]@.len() ==> #[trigger] groups[g]@[m] < keys.len()
                && keys[groups[g]@[m] as int] == keys[key_firsts(keys)[g] as int],
        forall|i: int|
            0 <= i < keys.len() ==> 0 <= #[trigger] key_group(keys, i) < groups.len() && groups[key_group(
                keys,
                i,
            )]@.contains(i as usize),
        forall|g1: int, g2: int, m1: int, m2: int|
            0 <= g1 < groups.len() && 0 <= g2 < groups.len() && g1 != g2 && 0 <= m1 < groups[g1]@.len() && 0
                <= m2 < groups[g2]@.len() ==> #[trigger] groups[g1]@[m1] != #[trigger] groups[g2]@[m2],
{
    let fs = key_firsts(keys);
    lemma_key_firsts_char(keys);
    assert forall|g: int| 0 <= g < groups.len() implies (#[trigger] groups[g])@.len() > 0 by {
        let i = fs[g] as int;
        lemma_key_members_char(keys, keys[i]);
        assert(0 <= i < keys.len());
        assert(key_members(keys, keys[i]).contains(i as usize));
        assert(groups[g]@ == key_members(keys, keys[i]));
    }
    assert forall|g: int, m: int| 0 <= g < groups.len() && 0 <= m < groups[g]@.len() implies #[trigger] groups[g]@[m]
        < keys.len() && keys[groups[g]@[m] as int] == keys[fs[g] as int] by {
        lemma_key_members_char(keys, keys[fs[g] as int]);
    }
    assert forall|i: int| 0 <= i < keys.len() implies 0 <= #[trigger] key_group(keys, i) < groups.len() && groups[key_group(
        keys,
        i,
    )]@.contains(i as usize) by {
        lemma_group_covers(keys, groups, i);
    }
    assert forall|g1: int, g2: int, m1: int, m2: int|
        0 <= g1 < groups.len() && 0 <= g2 < groups.len() && g1 != g2 && 0 <= m1 < groups[g1]@.len() && 0 <= m2
            < groups[g2]@.len() implies #[trigger] groups[g1]@[m1] != #[trigger] groups[g2]@[m2] by {
        lemma_key_members_char(keys, keys[fs[g1] as int]);
        lemma_key_members_char(keys, keys[fs[g2] as int]);
        assert(groups[g1]@[m1] < keys.len() && keys[groups[g1]@[m1] as int] == keys[fs[g1] as int]);
        assert(groups[g2]@[m2] < keys.len() && keys[groups[g2]@[m2] as int] == keys[fs[g2] as int]);
        if g1 < g2 {
            assert(keys[fs[g1] as int] != keys[fs[g2] as int]);
        } else {
            assert(keys[fs[g2] as int] != keys[fs[g1] as int]);
        }
    }
}

} // verus!

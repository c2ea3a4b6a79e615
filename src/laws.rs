//! Properties that relate several functions of the library, proved over their specs.
use crate::categories::{
    category_ids, created_keys, last_index_of, lemma_last_index, lemma_stable_order_unique,
    sorted_groups,
};
use crate::mapping::{count_group, lemma_failure_persists, name_of, resolve_upto, survives};
use crate::model::{GroupView, IncidentView};
use crate::order::{before, is_stable_order};
use crate::stats::{descending_keys, ordered_entries};
use vstd::prelude::*;

verus! {

broadcast use vstd::seq_lib::group_to_multiset_ensures;

/// The first position from `k` on at which `i` comes before the entry of `o`.
pub open spec fn insert_position(keys: Seq<int>, o: Seq<int>, i: int, k: int) -> int
    decreases o.len() - k,
{
    if k >= o.len() || before(keys, i, o[k]) {
        k
    } else {
        insert_position(keys, o, i, k + 1)
    }
}

proof fn lemma_insert_position(keys: Seq<int>, o: Seq<int>, i: int, k: int)
    requires
        0 <= k <= o.len(),
    ensures
        k <= insert_position(keys, o, i, k) <= o.len(),
        forall|l: int| k <= l < insert_position(keys, o, i, k) ==> !before(keys, i, #[trigger] o[l]),
        insert_position(keys, o, i, k) < o.len() ==> before(
            keys,
            i,
            o[insert_position(keys, o, i, k)],
        ),
    decreases o.len() - k,
{
    if k < o.len() && !before(keys, i, o[k]) {
        lemma_insert_position(keys, o, i, k + 1);
    }
}

/// Every sequence of keys has a stable order.
pub proof fn lemma_stable_order_exists(keys: Seq<int>) -> (o: Seq<int>)
    ensures
        is_stable_order(keys, o),
    decreases keys.len(),
{
    if keys.len() == 0 {
        Seq::empty()
    } else {
        let n = keys.len() - 1;
        let prev_keys = keys.drop_last();
        let prev = lemma_stable_order_exists(prev_keys);
        assert forall|a: int, b: int| 0 <= a < n && 0 <= b < n implies before(prev_keys, a, b)
            == before(keys, a, b) by {};
        lemma_insert_position(keys, prev, n, 0);
        let p = insert_position(keys, prev, n, 0);
        let o = prev.insert(p, n);
        assert forall|k: int, l: int| 0 <= k < l < o.len() implies before(
            keys,
            #[trigger] o[k],
            #[trigger] o[l],
        ) by {
            if l < p {
                assert(before(prev_keys, prev[k], prev[l]));
            } else if l == p {
                assert(!before(keys, n, prev[k]));
            } else if k == p {
                if l - 1 > p {
                    assert(before(prev_keys, prev[p], prev[l - 1]));
                }
            } else if k < p {
                assert(before(prev_keys, prev[k], prev[l - 1]));
            } else {
                assert(before(prev_keys, prev[k - 1], prev[l - 1]));
            }
        };
        assert forall|j: int| 0 <= j < keys.len() implies #[trigger] o.contains(j) by {
            if j == n {
                assert(o[p] == n);
            } else {
                assert(prev.contains(j));
                let k = choose|k: int| 0 <= k < prev.len() && prev[k] == j;
                if k < p {
                    assert(o[k] == j);
                } else {
                    assert(o[k + 1] == j);
                }
            }
        };
        o
    }
}

/// In a stable order no index occurs twice.
pub proof fn lemma_stable_order_distinct(keys: Seq<int>, o: Seq<int>)
    requires
        is_stable_order(keys, o),
    ensures
        forall|k: int, l: int| 0 <= k < l < o.len() ==> o[k] != o[l],
{
    assert forall|k: int, l: int| 0 <= k < l < o.len() implies o[k] != o[l] by {
        assert(before(keys, o[k], o[l]));
    };
}

/// Picking the elements of `d` in the order of a permutation `o` of its indices keeps
/// the same elements.
pub proof fn lemma_permuted_multiset<A>(d: Seq<A>, o: Seq<int>)
    requires
        o.len() == d.len(),
        forall|k: int| 0 <= k < o.len() ==> 0 <= #[trigger] o[k] < d.len(),
        forall|k: int, l: int| 0 <= k < l < o.len() ==> o[k] != o[l],
        forall|j: int| 0 <= j < d.len() ==> #[trigger] o.contains(j),
    ensures
        o.map_values(|j: int| d[j]).to_multiset() == d.to_multiset(),
    decreases d.len(),
{
    let picked = o.map_values(|j: int| d[j]);
    if d.len() == 0 {
        assert(picked.len() == 0);
        assert(picked.to_multiset() =~= d.to_multiset());
    } else {
        let n = d.len() - 1;
        assert(o.contains(n));
        let i = choose|i: int| 0 <= i < o.len() && o[i] == n;
        let o2 = o.remove(i);
        let d2 = d.drop_last();
        assert forall|k: int| 0 <= k < o2.len() implies 0 <= #[trigger] o2[k] < d2.len() by {
            if k < i {
                assert(o2[k] == o[k] && o[k] != o[i]);
            } else {
                assert(o2[k] == o[k + 1] && o[k + 1] != o[i]);
            }
        };
        assert forall|k: int, l: int| 0 <= k < l < o2.len() implies o2[k] != o2[l] by {
            if l < i {
            } else if k < i {
                assert(o2[l] == o[l + 1]);
            } else {
                assert(o2[k] == o[k + 1] && o2[l] == o[l + 1]);
            }
        };
        assert forall|j: int| 0 <= j < d2.len() implies #[trigger] o2.contains(j) by {
            assert(o.contains(j));
            let k = choose|k: int| 0 <= k < o.len() && o[k] == j;
            if k < i {
                assert(o2[k] == j);
            } else {
                assert(k != i);
                assert(o2[k - 1] == j);
            }
        };
        lemma_permuted_multiset(d2, o2);
        let picked2 = o2.map_values(|j: int| d2[j]);
        assert(picked2 =~= picked.remove(i));
        assert(d =~= d2.push(d[n]));
        assert(picked[i] == d[n]);
        assert(picked.to_multiset().count(d[n]) > 0) by {
            assert(picked.contains(d[n]));
        };
        assert(picked.to_multiset() =~= picked.remove(i).to_multiset().insert(d[n]));
    }
}

/// The groups in category order are those of the collection, each once.
pub proof fn lemma_sorted_groups_permute(s: Seq<GroupView>) -> (o: Seq<int>)
    ensures
        is_stable_order(created_keys(s), o),
        sorted_groups(s) == o.map_values(|j: int| s[j]),
        sorted_groups(s).to_multiset() == s.to_multiset(),
{
    let e = lemma_stable_order_exists(created_keys(s));
    let o = choose|o: Seq<int>| is_stable_order(created_keys(s), o);
    lemma_stable_order_distinct(created_keys(s), o);
    lemma_permuted_multiset(s, o);
    o
}

/// Each group's creation time is its own.
pub open spec fn created_unique(s: Seq<GroupView>) -> bool {
    forall|i: int, j: int| 0 <= i < j < s.len() ==> #[trigger] s[i].created != #[trigger] s[j].created
}

proof fn lemma_same_sorted_prefix(
    s1: Seq<GroupView>,
    s2: Seq<GroupView>,
    o1: Seq<int>,
    o2: Seq<int>,
    n: int,
)
    requires
        s1.to_multiset() == s2.to_multiset(),
        created_unique(s1),
        created_unique(s2),
        is_stable_order(created_keys(s1), o1),
        is_stable_order(created_keys(s2), o2),
        0 <= n <= o1.len(),
    ensures
        forall|k: int| 0 <= k < n ==> s1[o1[k]] == s2[o2[k]],
    decreases n,
{
    if n > 0 {
        let k = n - 1;
        lemma_same_sorted_prefix(s1, s2, o1, o2, k);
        let t1 = o1.map_values(|j: int| s1[j]);
        let t2 = o2.map_values(|j: int| s2[j]);
        assert(s1.len() == s1.to_multiset().len());
        assert(s2.len() == s2.to_multiset().len());
        // an element standing earlier in a sorted sequence was created earlier
        assert forall|a: int, b: int| 0 <= a < b < o1.len() implies #[trigger] t1[a].created
            < #[trigger] t1[b].created by {
            assert(before(created_keys(s1), o1[a], o1[b]));
            assert(o1[a] != o1[b]) by {
                lemma_stable_order_distinct(created_keys(s1), o1);
            };
            if o1[a] < o1[b] {
                assert(s1[o1[a]].created != s1[o1[b]].created);
            } else {
                assert(s1[o1[b]].created != s1[o1[a]].created);
            }
        };
        assert forall|a: int, b: int| 0 <= a < b < o2.len() implies #[trigger] t2[a].created
            < #[trigger] t2[b].created by {
            assert(before(created_keys(s2), o2[a], o2[b]));
            assert(o2[a] != o2[b]) by {
                lemma_stable_order_distinct(created_keys(s2), o2);
            };
            if o2[a] < o2[b] {
                assert(s2[o2[a]].created != s2[o2[b]].created);
            } else {
                assert(s2[o2[b]].created != s2[o2[a]].created);
            }
        };
        if t1[k] != t2[k] {
            // t1[k] stands somewhere in t2, and t2[k] somewhere in t1
            assert(s1.contains(t1[k]));
            assert(s1.to_multiset().count(t1[k]) > 0);
            assert(s2.contains(t1[k]));
            let i2 = choose|i: int| 0 <= i < s2.len() && s2[i] == t1[k];
            assert(o2.contains(i2));
            let m = choose|m: int| 0 <= m < o2.len() && o2[m] == i2;
            assert(t2[m] == t1[k]);
            assert(s2.contains(t2[k]));
            assert(s2.to_multiset().count(t2[k]) > 0);
            assert(s1.contains(t2[k]));
            let i1 = choose|i: int| 0 <= i < s1.len() && s1[i] == t2[k];
            assert(o1.contains(i1));
            let m1 = choose|m: int| 0 <= m < o1.len() && o1[m] == i1;
            assert(t1[m1] == t2[k]);
            if m < k {
                assert(t1[m] == t2[m]);
            }
            if m1 < k {
                assert(t1[m1] == t2[m1]);
            }
        }
    }
}

/// Numbering the same groups in another input order gives the same categories, where
/// no two groups were created at the same time.
pub proof fn lemma_categories_independent_of_order(s1: Seq<GroupView>, s2: Seq<GroupView>)
    requires
        s1.to_multiset() == s2.to_multiset(),
        created_unique(s1),
        created_unique(s2),
    ensures
        sorted_groups(s1) == sorted_groups(s2),
        category_ids(s1) == category_ids(s2),
        forall|id: Seq<char>| last_index_of(category_ids(s1), id) == last_index_of(category_ids(s2), id),
{
    let o1 = lemma_sorted_groups_permute(s1);
    let o2 = lemma_sorted_groups_permute(s2);
    assert(s1.len() == s1.to_multiset().len());
    assert(s2.len() == s2.to_multiset().len());
    lemma_same_sorted_prefix(s1, s2, o1, o2, o1.len() as int);
    assert(sorted_groups(s1) =~= sorted_groups(s2));
}

/// Where no two groups share an identifier, the categories are exactly `0..n` for
/// `n` groups: every group has one, below `n`, and each number in `0..n` is the
/// category of one group.
pub proof fn lemma_categories_dense(s: Seq<GroupView>)
    requires
        forall|i: int, j: int| 0 <= i < j < s.len() ==> #[trigger] s[i].id != #[trigger] s[j].id,
    ensures
        category_ids(s).len() == s.len(),
        forall|i: int|
            0 <= i < s.len() ==> (last_index_of(category_ids(s), #[trigger] s[i].id) matches Some(
                c,
            ) && 0 <= c < s.len()),
        forall|id: Seq<char>|
            #[trigger] last_index_of(category_ids(s), id) is Some ==> 0 <= last_index_of(
                category_ids(s),
                id,
            )->0 < s.len(),
        forall|c: int|
            0 <= c < s.len() ==> last_index_of(category_ids(s), #[trigger] category_ids(s)[c])
                == Some(c),
{
    let o = lemma_sorted_groups_permute(s);
    lemma_stable_order_distinct(created_keys(s), o);
    let ids = category_ids(s);
    assert forall|a: int, b: int| 0 <= a < b < ids.len() implies ids[a] != ids[b] by {
        if o[a] < o[b] {
            assert(s[o[a]].id != s[o[b]].id);
        } else {
            assert(s[o[b]].id != s[o[a]].id);
        }
    };
    assert forall|c: int| 0 <= c < s.len() implies last_index_of(ids, #[trigger] ids[c]) == Some(
        c,
    ) by {
        lemma_last_index(ids, ids[c]);
        let r = last_index_of(ids, ids[c]);
        if r != Some(c) {
            let j = r->0;
            if j < c {
                assert(ids[j] != ids[c]);
            } else {
                assert(ids[c] != ids[j]);
            }
        }
    };
    assert forall|i: int| 0 <= i < s.len() implies (last_index_of(ids, #[trigger] s[i].id) matches Some(
        c,
    ) && 0 <= c < s.len()) by {
        assert(o.contains(i));
        let m = choose|m: int| 0 <= m < o.len() && o[m] == i;
        assert(ids[m] == s[i].id);
    };
    assert forall|id: Seq<char>| #[trigger] last_index_of(ids, id) is Some implies 0 <= last_index_of(
        ids,
        id,
    )->0 < s.len() by {
        lemma_last_index(ids, id);
    };
}

/// An incident that passes the cap and references an identifier that no group has
/// makes the whole mapping fail.
pub proof fn lemma_dangling_reference_fails(
    inc: Seq<IncidentView>,
    groups: Seq<GroupView>,
    trim: Option<usize>,
    i: int,
)
    requires
        0 <= i < inc.len(),
        survives(inc, trim, i),
        forall|j: int| 0 <= j < groups.len() ==> #[trigger] groups[j].id != inc[i].group,
    ensures
        resolve_upto(inc, category_ids(groups), sorted_groups(groups), trim, inc.len() as int).1 is Some,
{
    let o = lemma_sorted_groups_permute(groups);
    let sorted = sorted_groups(groups);
    let ids = sorted.map_values(|g: GroupView| g.id);
    lemma_last_index(ids, inc[i].group);
    if last_index_of(ids, inc[i].group) is Some {
        let k = last_index_of(ids, inc[i].group)->0;
        assert(sorted[k] == groups[o[k]]);
    }
    assert(name_of(sorted, inc[i].group) is None);
    lemma_failure_persists(inc, category_ids(groups), sorted, trim, i + 1, inc.len() as int);
}

/// How many of the first `m` incidents reference the group `g` and pass the cap.
pub open spec fn passed_count(inc: Seq<IncidentView>, trim: Option<usize>, g: Seq<char>, m: int) -> nat
    decreases m,
{
    if m <= 0 {
        0
    } else {
        passed_count(inc, trim, g, m - 1) + if inc[m - 1].group == g && survives(inc, trim, m - 1) {
            1nat
        } else {
            0nat
        }
    }
}

/// With a cap `t`, each group keeps `t` of its incidents, or all of them where it has
/// fewer: the first ones in input order.
pub proof fn lemma_trim_caps_each_group(inc: Seq<IncidentView>, t: usize, g: Seq<char>, m: int)
    requires
        0 <= m <= inc.len(),
    ensures
        passed_count(inc, Some(t), g, m) == if count_group(inc, g, m) < t {
            count_group(inc, g, m)
        } else {
            t as nat
        },
    decreases m,
{
    if m > 0 {
        lemma_trim_caps_each_group(inc, t, g, m - 1);
    }
}

/// The sum of the counts of a distribution.
pub open spec fn total(d: Seq<(Seq<char>, int)>) -> int {
    d.fold_left(0int, |acc: int, e: (Seq<char>, int)| acc + e.1)
}

/// The histogram shows every entry once: the counts of its lines add up to the sum of
/// the distribution's counts.
pub proof fn lemma_histogram_total(d: Seq<(Seq<char>, int)>)
    ensures
        ordered_entries(d).to_multiset() == d.to_multiset(),
        total(ordered_entries(d)) == total(d),
{
    lemma_stable_order_exists(descending_keys(d));
    let o = choose|o: Seq<int>| is_stable_order(descending_keys(d), o);
    lemma_stable_order_distinct(descending_keys(d), o);
    lemma_permuted_multiset(d, o);
    let f = |acc: int, e: (Seq<char>, int)| acc + e.1;
    assert(vstd::seq_lib::commutative_foldl(f));
    vstd::seq_lib::lemma_fold_left_permutation(ordered_entries(d), d, f, 0int);
}

} // verus!

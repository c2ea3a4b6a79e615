//! Stable category numbers for assignment groups.
use crate::model::{AssignmentGroup, GroupView};
use crate::tally::position_of;
use crate::order::{before, is_stable_order, stable_order};
use vstd::prelude::*;

verus! {

/// The creation times of a sequence of groups.
pub open spec fn created_keys(s: Seq<GroupView>) -> Seq<int> {
    s.map_values(|g: GroupView| g.created)
}

/// The views of a sequence of groups.
pub open spec fn group_views(v: Seq<AssignmentGroup>) -> Seq<GroupView> {
    v.map_values(|g: AssignmentGroup| g@)
}

/// `s` sorted by ascending creation time; groups created at the same time keep their
/// relative order.
pub open spec fn sorted_groups(s: Seq<GroupView>) -> Seq<GroupView> {
    let o = choose|o: Seq<int>| is_stable_order(created_keys(s), o);
    o.map_values(|j: int| s[j])
}

/// The group identifiers, indexed by category: the identifiers of `sorted_groups(s)`.
pub open spec fn category_ids(s: Seq<GroupView>) -> Seq<Seq<char>> {
    sorted_groups(s).map_values(|g: GroupView| g.id)
}

/// The last position at which `id` stands in `ids`: where an identifier occurs twice,
/// the later entry shadows the earlier one.
pub open spec fn last_index_of(ids: Seq<Seq<char>>, id: Seq<char>) -> Option<int>
    decreases ids.len(),
{
    if ids.len() == 0 {
        None
    } else if ids.last() == id {
        Some(ids.len() - 1)
    } else {
        last_index_of(ids.drop_last(), id)
    }
}

/// What the last position of an identifier is: a position that holds it, after which
/// it does not occur again; and where there is none, the identifier does not occur.
pub proof fn lemma_last_index(ids: Seq<Seq<char>>, id: Seq<char>)
    ensures
        last_index_of(ids, id) matches Some(i) ==> 0 <= i < ids.len() && ids[i] == id && forall|
            j: int,
        |
            i < j < ids.len() ==> ids[j] != id,
        last_index_of(ids, id) is None ==> forall|j: int| 0 <= j < ids.len() ==> ids[j] != id,
    decreases ids.len(),
{
    if ids.len() > 0 {
        lemma_last_index(ids.drop_last(), id);
        assert forall|j: int| 0 <= j < ids.len() - 1 implies ids.drop_last()[j] == ids[j] by {};
    }
}

/// A stable order of given keys is unique.
pub proof fn lemma_stable_order_unique(keys: Seq<int>, o1: Seq<int>, o2: Seq<int>)
    requires
        is_stable_order(keys, o1),
        is_stable_order(keys, o2),
    ensures
        o1 == o2,
{
    lemma_stable_order_prefix(keys, o1, o2, o1.len() as int);
    assert(o1 =~= o2);
}

proof fn lemma_stable_order_prefix(keys: Seq<int>, o1: Seq<int>, o2: Seq<int>, n: int)
    requires
        is_stable_order(keys, o1),
        is_stable_order(keys, o2),
        0 <= n <= o1.len(),
    ensures
        forall|i: int| 0 <= i < n ==> o1[i] == o2[i],
    decreases n,
{
    if n > 0 {
        let k = n - 1;
        lemma_stable_order_prefix(keys, o1, o2, k);
        if o1[k] != o2[k] {
            assert(o2.contains(o1[k]));
            let m = choose|m: int| 0 <= m < o2.len() && o2[m] == o1[k];
            assert(o1.contains(o2[k]));
            let m2 = choose|m: int| 0 <= m < o1.len() && o1[m] == o2[k];
            if m < k {
                assert(o1[m] == o2[m]);
                assert(before(keys, o1[m], o1[k]));
            }
            if m2 < k {
                assert(o1[m2] == o2[m2]);
                assert(before(keys, o2[m2], o2[k]));
            }
            assert(before(keys, o2[k], o2[m]));
            assert(before(keys, o1[k], o1[m2]));
        }
    }
}

/// Maps each assignment group identifier to its category.
pub struct CategoryMap {
    /// Identifiers indexed by category.
    pub ids: Vec<String>,
}

impl View for CategoryMap {
    type V = Seq<Seq<char>>;

    open spec fn view(&self) -> Seq<Seq<char>> {
        self.ids@.map_values(|s: String| s@)
    }
}

impl CategoryMap {
    /// The category of `id`, if it has one.
    pub fn get(&self, id: &String) -> (r: Option<usize>)
        ensures
            r matches Some(c) ==> last_index_of(self@, id@) == Some(c as int),
            r is None ==> last_index_of(self@, id@) is None,
    {
        position_of(&self.ids, id)
    }
}

/// Sorts the groups by creation time (stable) and numbers them by their position:
/// a group created earlier never gets a larger category than one created later.
/// The returned map gives each identifier its category; an identifier that occurs
/// twice gets the later position.
pub fn map_assignment_groups(assignment_groups: &mut Vec<AssignmentGroup>) -> (r: CategoryMap)
    ensures
        group_views(final(assignment_groups)@) == sorted_groups(group_views(old(assignment_groups)@)),
        r@ == category_ids(group_views(old(assignment_groups)@)),
{
    let ghost s = group_views(assignment_groups@);
    let mut keys: Vec<i128> = Vec::new();
    let mut i: usize = 0;
    while i < assignment_groups.len()
        invariant
            i <= assignment_groups@.len(),
            keys@.len() == i,
            forall|j: int| 0 <= j < i ==> keys@[j] as int == assignment_groups@[j].sys_created_on as int,
        decreases assignment_groups@.len() - i,
    {
        keys.push(assignment_groups[i].sys_created_on as i128);
        i = i + 1;
    }
    assert(keys@.map_values(|k: i128| k as int) =~= created_keys(s));
    let order = stable_order(&keys);
    let ghost o = order@.map_values(|i: usize| i as int);
    let mut sorted: Vec<AssignmentGroup> = Vec::new();
    let mut ids: Vec<String> = Vec::new();
    let mut k: usize = 0;
    while k < order.len()
        invariant
            s == group_views(assignment_groups@),
            is_stable_order(created_keys(s), o),
            o == order@.map_values(|i: usize| i as int),
            k <= order@.len(),
            sorted@.len() == k,
            ids@.len() == k,
            forall|j: int| 0 <= j < k ==> #[trigger] sorted@[j]@ == s[o[j]],
            forall|j: int| 0 <= j < k ==> #[trigger] ids@[j]@ == s[o[j]].id,
        decreases order@.len() - k,
    {
        assert(o[k as int] == order@[k as int] as int);
        assert(0 <= o[k as int] < s.len());
        let g = &assignment_groups[order[k]];
        let copy = AssignmentGroup {
            sys_id: g.sys_id.clone(),
            name: g.name.clone(),
            sys_created_on: g.sys_created_on,
        };
        ids.push(g.sys_id.clone());
        sorted.push(copy);
        k = k + 1;
    }
    proof {
        let c = choose|c: Seq<int>| is_stable_order(created_keys(s), c);
        lemma_stable_order_unique(created_keys(s), o, c);
        assert(group_views(sorted@) =~= sorted_groups(s));
        let m = CategoryMap { ids };
        assert(m@ =~= category_ids(s));
    }
    *assignment_groups = sorted;
    CategoryMap { ids }
}

} // verus!

//! Resolving incidents against the categories and group names, with the optional
//! cap on incidents per group.
use crate::categories::{group_views, last_index_of, lemma_last_index, CategoryMap};
use crate::model::{AssignmentGroup, EntryView, FineTuningEntry, GroupView, Incident, IncidentView};
use crate::stats::{display_key, Stats};
use crate::tally::Tally;
use crate::text::{decimal, decimal_string};
use vstd::prelude::*;
use vstd::string::*;

verus! {

/// The views of a sequence of incidents.
pub open spec fn incident_views(v: Seq<Incident>) -> Seq<IncidentView> {
    v.map_values(|i: Incident| i@)
}

/// How many of the first `m` incidents reference the group `g`.
pub open spec fn count_group(inc: Seq<IncidentView>, g: Seq<char>, m: int) -> nat
    decreases m,
{
    if m <= 0 {
        0
    } else {
        count_group(inc, g, m - 1) + if inc[m - 1].group == g {
            1nat
        } else {
            0nat
        }
    }
}

/// Incident `i` passes the cap: there is none, or fewer than the cap of the earlier
/// incidents reference the same group.
pub open spec fn survives(inc: Seq<IncidentView>, trim: Option<usize>, i: int) -> bool {
    match trim {
        None => true,
        Some(t) => count_group(inc, inc[i].group, i) < t,
    }
}

/// The name of the group with identifier `id`; where several groups share it, the last.
pub open spec fn name_of(groups: Seq<GroupView>, id: Seq<char>) -> Option<Seq<char>> {
    match last_index_of(groups.map_values(|g: GroupView| g.id), id) {
        Some(i) => Some(groups[i].name),
        None => None,
    }
}

/// An incident whose group was found: its title, category and group name.
pub struct Resolved {
    pub title: Seq<char>,
    pub category: int,
    pub name: Seq<char>,
}

/// Resolution of the first `m` incidents: the resolved incidents that passed the cap,
/// in input order, up to the first one whose group has no category or no name; and
/// that group's identifier, if there is such an incident.
pub open spec fn resolve_upto(
    inc: Seq<IncidentView>,
    cats: Seq<Seq<char>>,
    groups: Seq<GroupView>,
    trim: Option<usize>,
    m: int,
) -> (Seq<Resolved>, Option<Seq<char>>)
    decreases m,
{
    if m <= 0 {
        (Seq::empty(), None)
    } else {
        let prev = resolve_upto(inc, cats, groups, trim, m - 1);
        if prev.1 is Some || !survives(inc, trim, m - 1) {
            prev
        } else {
            let g = inc[m - 1].group;
            match (last_index_of(cats, g), name_of(groups, g)) {
                (Some(c), Some(n)) => (
                    prev.0.push(Resolved { title: inc[m - 1].title, category: c, name: n }),
                    None,
                ),
                _ => (prev.0, Some(g)),
            }
        }
    }
}

/// The prompt for an incident title: the title followed by `\n\n###\n\n`.
pub open spec fn prompt_of(title: Seq<char>) -> Seq<char> {
    title + seq!['\n', '\n', '#', '#', '#', '\n', '\n']
}

/// The completion for a category: a space followed by the category in decimal.
pub open spec fn completion_of(category: nat) -> Seq<char> {
    seq![' '] + decimal(category)
}

/// The training entry of a resolved incident.
pub open spec fn entry_of(r: Resolved) -> EntryView {
    EntryView { prompt: prompt_of(r.title), completion: completion_of(r.category as nat) }
}

/// The distribution keys that the resolved incidents count.
pub open spec fn resolved_keys(rs: Seq<Resolved>) -> Seq<Seq<char>> {
    rs.map_values(|r: Resolved| display_key(r.name, r.category as nat))
}

/// How often `k` occurs in `s`.
pub open spec fn occurrences(s: Seq<Seq<char>>, k: Seq<char>) -> nat
    decreases s.len(),
{
    if s.len() == 0 {
        0
    } else {
        occurrences(s.drop_last(), k) + if s.last() == k {
            1nat
        } else {
            0nat
        }
    }
}

/// The views of a sequence of training entries.
pub open spec fn entry_views(v: Seq<FineTuningEntry>) -> Seq<EntryView> {
    v.map_values(|e: FineTuningEntry| e@)
}

/// Why mapping failed.
pub enum MapError {
    /// An incident references this group, which has no category or no name.
    UnknownAssignmentGroup(String),
}

impl MapError {
    /// The error as text: `Unknown assignment group <id>`.
    pub fn message(&self) -> (r: String)
        ensures
            self matches MapError::UnknownAssignmentGroup(g) ==> r@ == "Unknown assignment group "@
                + g@,
    {
        match self {
            MapError::UnknownAssignmentGroup(g) => {
                let mut m = String::from_str("Unknown assignment group ");
                m.append(g.as_str());
                m
            },
        }
    }
}

/// Once resolution has failed, later incidents change nothing.
pub proof fn lemma_failure_persists(
    inc: Seq<IncidentView>,
    cats: Seq<Seq<char>>,
    groups: Seq<GroupView>,
    trim: Option<usize>,
    m: int,
    n: int,
)
    requires
        0 <= m <= n,
        resolve_upto(inc, cats, groups, trim, m).1 is Some,
    ensures
        resolve_upto(inc, cats, groups, trim, n) == resolve_upto(inc, cats, groups, trim, m),
    decreases n - m,
{
    if n > m {
        lemma_failure_persists(inc, cats, groups, trim, m, n - 1);
    }
}

/// The name of the group that `entry` references; an error naming the reference where
/// no group has that identifier.
pub fn get_group_name(entry: &Incident, assignment_groups: &Vec<AssignmentGroup>) -> (r: Result<
    String,
    MapError,
>)
    ensures
        name_of(group_views(assignment_groups@), entry@.group) matches Some(n) ==> (r matches Ok(s) && s@ == n),
        name_of(group_views(assignment_groups@), entry@.group) is None ==> (r matches Err(MapError::UnknownAssignmentGroup(g))
            && g@ == entry@.group),
{
    let ghost ids = group_views(assignment_groups@).map_values(|g: GroupView| g.id);
    let mut k: usize = assignment_groups.len();
    assert(ids.subrange(0, k as int) =~= ids);
    while k > 0
        invariant
            k <= assignment_groups@.len(),
            ids == group_views(assignment_groups@).map_values(|g: GroupView| g.id),
            last_index_of(ids, entry@.group) == last_index_of(ids.subrange(0, k as int), entry@.group),
        decreases k,
    {
        let ghost pre = ids.subrange(0, k as int);
        assert(pre.drop_last() =~= ids.subrange(0, k - 1));
        if assignment_groups[k - 1].sys_id == entry.assignment_group {
            return Ok(assignment_groups[k - 1].name.clone());
        }
        k = k - 1;
    }
    Err(MapError::UnknownAssignmentGroup(entry.assignment_group.clone()))
}

/// The prompt for an incident title.
fn build_prompt(title: &String) -> (r: String)
    ensures
        r@ == prompt_of(title@),
{
    let mut p = title.clone();
    proof {
        reveal_strlit("\n\n###\n\n");
    }
    p.append("\n\n###\n\n");
    assert(p@ =~= prompt_of(title@));
    p
}

/// The completion for a category.
fn build_completion(category: usize) -> (r: String)
    ensures
        r@ == completion_of(category as nat),
{
    proof {
        reveal_strlit(" ");
    }
    let mut c = String::from_str(" ");
    let digits = decimal_string(category);
    c.append(digits.as_str());
    assert(c@ =~= completion_of(category as nat));
    c
}

/// Maps the incidents to training entries, in input order.
///
/// With a cap `trim`, an incident is dropped when that many earlier incidents of the
/// same group passed. Each incident that passes must have a category in
/// `assignment_groups_indices` and a name in `assignment_groups`; the first that lacks
/// either fails the whole mapping with an error naming its group. Each entry produced
/// is counted in `stats` under its group's distribution key.
pub fn map_data(
    incidents: &Vec<Incident>,
    assignment_groups_indices: &CategoryMap,
    assignment_groups: &Vec<AssignmentGroup>,
    trim: &Option<usize>,
    stats: &mut Stats,
) -> (r: Result<Vec<FineTuningEntry>, MapError>)
    requires
        old(stats).wf(),
        forall|k: Seq<char>| #[trigger] old(stats).count(k) + incidents@.len() <= usize::MAX,
    ensures
        final(stats).wf(),
        ({
            let res = resolve_upto(
                incident_views(incidents@),
                assignment_groups_indices@,
                group_views(assignment_groups@),
                *trim,
                incidents@.len() as int,
            );
            &&& res.1 is None ==> (r matches Ok(es) && entry_views(es@) == res.0.map_values(
                |x: Resolved| entry_of(x),
            ))
            &&& res.1 matches Some(g) ==> (r matches Err(MapError::UnknownAssignmentGroup(e))
                && e@ == g)
            &&& forall|k: Seq<char>| #[trigger]
                final(stats).count(k) == old(stats).count(k) + occurrences(resolved_keys(res.0), k)
        }),
{
    let ghost inc = incident_views(incidents@);
    let ghost cats = assignment_groups_indices@;
    let ghost groups = group_views(assignment_groups@);
    let ghost n = incidents@.len() as int;
    let mut result: Vec<FineTuningEntry> = Vec::new();
    let mut trim_counts = Tally::new();
    let mut j: usize = 0;
    while j < incidents.len()
        invariant
            j <= incidents@.len(),
            n == incidents@.len(),
            inc == incident_views(incidents@),
            cats == assignment_groups_indices@,
            groups == group_views(assignment_groups@),
            stats.wf(),
            resolve_upto(inc, cats, groups, *trim, j as int).1 is None,
            entry_views(result@) == resolve_upto(inc, cats, groups, *trim, j as int).0.map_values(
                |x: Resolved| entry_of(x),
            ),
            forall|k: Seq<char>| #[trigger]
                stats.count(k) == old(stats).count(k) + occurrences(
                    resolved_keys(resolve_upto(inc, cats, groups, *trim, j as int).0),
                    k,
                ),
            forall|k: Seq<char>| #[trigger] stats.count(k) + (n - j) <= usize::MAX,
            trim_counts.wf(),
            *trim matches Some(t) ==> forall|g: Seq<char>| #[trigger]
                trim_counts.count(g) == if count_group(inc, g, j as int) < t {
                    count_group(inc, g, j as int) as int
                } else {
                    t as int
                },
        decreases incidents@.len() - j,
    {
        let ghost prev = resolve_upto(inc, cats, groups, *trim, j as int);
        let entry = &incidents[j];
        assert(inc[j as int] == entry@);
        let mut passes = true;
        if let Some(t) = trim {
            let count = trim_counts.get(&entry.assignment_group);
            if count == *t {
                passes = false;
            } else {
                trim_counts.increment(entry.assignment_group.clone());
            }
            assert forall|g: Seq<char>| #[trigger]
                trim_counts.count(g) == if count_group(inc, g, j + 1) < *t {
                    count_group(inc, g, j + 1) as int
                } else {
                    *t as int
                } by {
                assert(count_group(inc, g, j + 1) == count_group(inc, g, j as int) + if inc[j as int].group == g {
                    1nat
                } else {
                    0nat
                });
            };
        }
        assert(passes == survives(inc, *trim, j as int));
        if passes {
            let category = match assignment_groups_indices.get(&entry.assignment_group) {
                Some(c) => c,
                None => {
                    proof {
                        lemma_failure_persists(inc, cats, groups, *trim, j + 1, n);
                    }
                    return Err(MapError::UnknownAssignmentGroup(entry.assignment_group.clone()));
                },
            };
            let group_name = match get_group_name(entry, assignment_groups) {
                Ok(name) => name,
                Err(e) => {
                    proof {
                        lemma_failure_persists(inc, cats, groups, *trim, j + 1, n);
                    }
                    return Err(e);
                },
            };
            let ghost x = Resolved { title: entry@.title, category: category as int, name: group_name@ };
            assert(resolve_upto(inc, cats, groups, *trim, j + 1).0 == prev.0.push(x));
            proof {
                lemma_last_index(cats, entry@.group);
            }
            assert(stats.count(display_key(group_name@, category as nat)) + (n - j) <= usize::MAX);
            stats.inc_distribution(&group_name, category);
            let fte = FineTuningEntry {
                prompt: build_prompt(&entry.short_description),
                completion: build_completion(category),
            };
            assert(fte@ == entry_of(x));
            let ghost before_push = result@;
            result.push(fte);
            assert forall|i: int| 0 <= i < before_push.len() implies #[trigger] result@[i]@ == before_push[i]@ by {};
            assert(entry_views(before_push) == prev.0.map_values(|y: Resolved| entry_of(y)));
            let ghost pushed = prev.0.push(x);
            assert(entry_views(before_push).len() == before_push.len());
            assert(prev.0.map_values(|y: Resolved| entry_of(y)).len() == prev.0.len());
            assert(before_push.len() == prev.0.len());
            assert forall|i: int| 0 <= i < result@.len() implies #[trigger] entry_views(result@)[i]
                == pushed.map_values(|y: Resolved| entry_of(y))[i] by {
                if i < before_push.len() {
                    assert(entry_views(before_push)[i] == prev.0.map_values(|y: Resolved| entry_of(y))[i]);
                    assert(pushed[i] == prev.0[i]);
                }
            };
            assert(entry_views(result@) =~= pushed.map_values(|y: Resolved| entry_of(y)));
            assert(resolved_keys(prev.0.push(x)) =~= resolved_keys(prev.0).push(
                display_key(group_name@, category as nat),
            ));
            assert(resolved_keys(prev.0.push(x)).drop_last() =~= resolved_keys(prev.0));
        }
        j = j + 1;
    }
    assert(incident_views(incidents@).len() == n);
    Ok(result)
}

} // verus!

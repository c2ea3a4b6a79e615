//! The mapping pipeline: deduplication, category assignment and resolution in sequence.
use crate::categories::{category_ids, group_views, map_assignment_groups, sorted_groups};
use crate::dedup::{dedup_upto, deduped_incidents};
use crate::mapping::{
    entry_of, entry_views, incident_views, map_data, occurrences, resolve_upto, resolved_keys,
    MapError, Resolved,
};
use crate::model::{AssignmentGroup, FineTuningEntry, Incident};
use crate::stats::Stats;
use vstd::prelude::*;

verus! {

/// Deduplicates the incidents by title, numbers the groups by creation time (sorting
/// `assignment_groups` in place), and maps the remaining incidents to training
/// entries, counting each in `stats`. Fails with the first unresolvable group
/// reference.
pub fn map_records(
    incidents: Vec<Incident>,
    assignment_groups: &mut Vec<AssignmentGroup>,
    trim: Option<usize>,
    stats: &mut Stats,
) -> (r: Result<Vec<FineTuningEntry>, MapError>)
    requires
        old(stats).wf(),
        forall|k: Seq<char>| #[trigger] old(stats).count(k) + incidents@.len() <= usize::MAX,
    ensures
        final(stats).wf(),
        group_views(final(assignment_groups)@) == sorted_groups(group_views(old(assignment_groups)@)),
        ({
            let deduped = dedup_upto(incident_views(incidents@), incidents@.len() as int);
            let groups = group_views(old(assignment_groups)@);
            let res = resolve_upto(
                deduped,
                category_ids(groups),
                sorted_groups(groups),
                trim,
                deduped.len() as int,
            );
            &&& res.1 is None ==> (r matches Ok(es) && entry_views(es@) == res.0.map_values(
                |x: Resolved| entry_of(x),
            ))
            &&& res.1 matches Some(g) ==> (r matches Err(MapError::UnknownAssignmentGroup(e))
                && e@ == g)
            &&& forall|k: Seq<char>| #[trigger]
                final(stats).count(k) == old(stats).count(k) + occurrences(resolved_keys(res.0), k)
        }),
{
    let deduped = deduped_incidents(incidents);
    let indices = map_assignment_groups(assignment_groups);
    map_data(&deduped, &indices, assignment_groups, &trim, stats)
}

} // verus!

//! Turns an incident export and an assignment group export into categorised training
//! entries: incidents are deduplicated by title, groups get stable category numbers by
//! creation time, and every incident is resolved against its group, optionally capped
//! per group, while a distribution of the groups is collected.
pub mod categories;
pub mod dedup;
pub mod laws;
pub mod mapping;
pub mod model;
pub mod order;
pub mod pipeline;
pub mod stats;
pub mod tally;
pub mod text;

pub use categories::{map_assignment_groups, CategoryMap};
pub use dedup::deduped_incidents;
pub use mapping::{get_group_name, map_data, MapError};
pub use model::{
    Args, AssignmentGroup, AssignmentGroupExport, FineTuningEntry, Incident, IncidentExport,
    RunOptions,
};
pub use pipeline::map_records;
pub use stats::{get_max_values, Stats};
pub use tally::Tally;

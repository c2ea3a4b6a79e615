//! The records the pipeline reads and writes.
use vstd::prelude::*;

verus! {

/// What the pipeline reads of an incident: its title and the group it references.
pub struct IncidentView {
    pub title: Seq<char>,
    pub group: Seq<char>,
}

/// A single incident of the export.
pub struct Incident {
    /// Title of the incident; incidents with the same title are duplicates.
    pub short_description: String,
    /// Identifier of the group the incident was assigned to.
    pub assignment_group: String,
}

impl View for Incident {
    type V = IncidentView;

    open spec fn view(&self) -> IncidentView {
        IncidentView { title: self.short_description@, group: self.assignment_group@ }
    }
}

impl Clone for Incident {
    fn clone(&self) -> (r: Self)
        ensures
            r@ == self@,
    {
        Incident {
            short_description: self.short_description.clone(),
            assignment_group: self.assignment_group.clone(),
        }
    }
}

/// An incident export: the list of its incidents.
pub struct IncidentExport {
    pub records: Vec<Incident>,
}

/// What the pipeline reads of a group.
pub struct GroupView {
    pub id: Seq<char>,
    pub name: Seq<char>,
    pub created: int,
}

/// A single assignment group.
pub struct AssignmentGroup {
    /// Identifier that incidents reference.
    pub sys_id: String,
    /// Display name.
    pub name: String,
    /// Creation time, in seconds since 1970-01-01 00:00:00 (no time zone).
    pub sys_created_on: i64,
}

impl View for AssignmentGroup {
    type V = GroupView;

    open spec fn view(&self) -> GroupView {
        GroupView { id: self.sys_id@, name: self.name@, created: self.sys_created_on as int }
    }
}

/// An export of assignment groups.
pub struct AssignmentGroupExport {
    pub result: Vec<AssignmentGroup>,
}

/// The seconds since 1970-01-01 00:00:00 that a `YYYY-MM-DD HH:MM:SS` text denotes,
/// or `None` where the text is no such time.
pub uninterp spec fn timestamp_of(text: Seq<char>) -> Option<i64>;

/// Relies on chrono's `NaiveDateTime::parse_from_str` with the format `%Y-%m-%d %H:%M:%S`
/// and on `DateTime::<Utc>::timestamp` (through `and_utc`) for the seconds since the
/// epoch: the result depends on the text alone.
#[verifier::external_body]
fn parse_timestamp(text: &str) -> (r: Option<i64>)
    ensures
        r == timestamp_of(text@),
{
    match chrono::NaiveDateTime::parse_from_str(text, "%Y-%m-%d %H:%M:%S") {
        Ok(t) => Some(t.and_utc().timestamp()),
        Err(_) => None,
    }
}

impl AssignmentGroup {
    /// Builds a group from the fields of an export record; the creation time is
    /// given as text in the form `YYYY-MM-DD HH:MM:SS`. `None` where that text is no
    /// valid time.
    pub fn from_record(sys_id: String, name: String, sys_created_on: &str) -> (r: Option<
        AssignmentGroup,
    >)
        ensures
            timestamp_of(sys_created_on@) is None ==> r is None,
            timestamp_of(sys_created_on@) is Some ==> r is Some && r->0@ == (GroupView {
                id: sys_id@,
                name: name@,
                created: timestamp_of(sys_created_on@)->0 as int,
            }),
    {
        match parse_timestamp(sys_created_on) {
            Some(t) => Some(AssignmentGroup { sys_id, name, sys_created_on: t }),
            None => None,
        }
    }
}

/// What a training entry holds.
pub struct EntryView {
    pub prompt: Seq<char>,
    pub completion: Seq<char>,
}

/// One entry of the training data: a prompt and the expected completion.
pub struct FineTuningEntry {
    /// The incident's title followed by the prompt separator.
    pub prompt: String,
    /// A space followed by the category number.
    pub completion: String,
}

impl View for FineTuningEntry {
    type V = EntryView;

    open spec fn view(&self) -> EntryView {
        EntryView { prompt: self.prompt@, completion: self.completion@ }
    }
}

/// Options of one run of the pipeline.
pub struct RunOptions {
    /// Print progress information.
    pub verbose: bool,
    /// Print the distribution histogram at the end.
    pub print_stats: bool,
    /// Keep at most this many incidents per referenced group.
    pub trim: Option<usize>,
}

/// Command-line arguments.
pub struct Args {
    /// Path of the incident export.
    pub file_incidents: String,
    /// Path of the assignment group export.
    pub file_assignment_groups: String,
    /// Path the training data is written to.
    pub file_output: String,
    /// Verbose output.
    pub verbose: bool,
    /// Print statistics.
    pub stats: bool,
    /// Keep at most this many incidents per assignment group.
    pub trim: Option<usize>,
}

} // verus!

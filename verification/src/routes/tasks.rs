//! The filters of the task routes, and what the routes answer.

use vstd::prelude::*;
use vstd::string::StringSliceAdditionalSpecFns;
use crate::datetime::{
    calendar_date_julian_day, day_after, midnight_one_day_later, parse_calendar_date,
    parse_rfc3339, rfc3339_datetime, DateTime,
};
use crate::error::Error;
use crate::star_or::{OptionStarOr, OptionStarOrList};

verus! {

/// The number of tasks of a page when the request names none.
pub const DEFAULT_LIMIT: u32 = 20;

/// The identifier of a task.
pub type TaskId = u32;

/// The state of a task.
#[derive(Debug, Clone, Copy, PartialEq, Eq, Structural)]
pub enum Status {
    Enqueued,
    Processing,
    Succeeded,
    Failed,
    Canceled,
}

/// The kind of a task.
#[derive(Debug, Clone, Copy, PartialEq, Eq, Structural)]
pub enum Kind {
    DocumentAdditionOrUpdate,
    DocumentEdition,
    DocumentDeletion,
    SettingsUpdate,
    IndexCreation,
    IndexDeletion,
    IndexUpdate,
    IndexSwap,
    TaskCancelation,
    TaskDeletion,
    DumpCreation,
    SnapshotCreation,
}

/// The name of an index.
#[derive(Debug)]
pub struct IndexUid(pub String);

/// A value read from a parameter of the request.
#[derive(Debug)]
pub struct Param<T>(pub T);

/// The filter of the route that lists tasks.
#[derive(Debug)]
pub struct TasksFilterQuery {
    pub limit: Param<u32>,
    pub from: Option<Param<TaskId>>,
    pub reverse: Option<Param<bool>>,
    pub uids: OptionStarOrList<u32>,
    pub canceled_by: OptionStarOrList<u32>,
    pub types: OptionStarOrList<Kind>,
    pub statuses: OptionStarOrList<Status>,
    pub index_uids: OptionStarOrList<IndexUid>,
    pub after_enqueued_at: OptionStarOr<DateTime>,
    pub before_enqueued_at: OptionStarOr<DateTime>,
    pub after_started_at: OptionStarOr<DateTime>,
    pub before_started_at: OptionStarOr<DateTime>,
    pub after_finished_at: OptionStarOr<DateTime>,
    pub before_finished_at: OptionStarOr<DateTime>,
}

/// The filter of the routes that delete or cancel tasks.
#[derive(Debug)]
pub struct TaskDeletionOrCancelationQuery {
    pub uids: OptionStarOrList<u32>,
    pub canceled_by: OptionStarOrList<u32>,
    pub types: OptionStarOrList<Kind>,
    pub statuses: OptionStarOrList<Status>,
    pub index_uids: OptionStarOrList<IndexUid>,
    pub after_enqueued_at: OptionStarOr<DateTime>,
    pub before_enqueued_at: OptionStarOr<DateTime>,
    pub after_started_at: OptionStarOr<DateTime>,
    pub before_started_at: OptionStarOr<DateTime>,
    pub after_finished_at: OptionStarOr<DateTime>,
    pub before_finished_at: OptionStarOr<DateTime>,
}

/// What the scheduler is asked: for each criterion, the values that a task
/// may have, or `None` if the criterion restricts nothing.
#[derive(Debug)]
pub struct Query {
    pub limit: Option<u32>,
    pub from: Option<u32>,
    pub reverse: Option<bool>,
    pub statuses: Option<Vec<Status>>,
    pub types: Option<Vec<Kind>>,
    pub index_uids: Option<Vec<String>>,
    pub uids: Option<Vec<TaskId>>,
    pub canceled_by: Option<Vec<TaskId>>,
    pub before_enqueued_at: Option<DateTime>,
    pub after_enqueued_at: Option<DateTime>,
    pub before_started_at: Option<DateTime>,
    pub after_started_at: Option<DateTime>,
    pub before_finished_at: Option<DateTime>,
    pub after_finished_at: Option<DateTime>,
}

/// The names of the indexes of a filter, as the scheduler takes them.
pub open spec fn index_names(index_uids: OptionStarOrList<IndexUid>) -> Option<Seq<Seq<char>>> {
    match index_uids {
        OptionStarOrList::List(list) => Some(list@.map_values(|uid: IndexUid| uid.0@)),
        _ => None,
    }
}

/// The names of a list of strings.
pub open spec fn names_of(names: Option<Vec<String>>) -> Option<Seq<Seq<char>>> {
    match names {
        Some(list) => Some(list@.map_values(|name: String| name@)),
        None => None,
    }
}

fn index_uids_to_names(index_uids: OptionStarOrList<IndexUid>) -> (names: Option<Vec<String>>)
    ensures
        names_of(names) == index_names(index_uids),
{
    match index_uids {
        OptionStarOrList::List(list) => {
            let mut names: Vec<String> = Vec::new();
            let mut i: usize = 0;
            while i < list.len()
                invariant
                    i <= list@.len(),
                    names@.len() == i,
                    forall|k: int| 0 <= k < i ==> names@[k]@ == list@[k].0@,
                decreases list@.len() - i,
            {
                names.push(list[i].0.clone());
                i += 1;
            }
            assert(names@.map_values(|name: String| name@) =~= list@.map_values(
                |uid: IndexUid| uid.0@,
            ));
            Some(names)
        },
        OptionStarOrList::Star => None,
        OptionStarOrList::Absent => None,
    }
}

impl TasksFilterQuery {
    /// The query of the filter: the limit and the start as given, and each
    /// criterion with its values, a star restricting nothing.
    pub fn into_query(self) -> (query: Query)
        ensures
            query.limit == Some(self.limit.0),
            query.from == (match self.from {
                Some(from) => Some(from.0),
                None => None,
            }),
            query.reverse == (match self.reverse {
                Some(reverse) => Some(reverse.0),
                None => None,
            }),
            query.statuses == self.statuses.spec_merge_star_and_none(),
            query.types == self.types.spec_merge_star_and_none(),
            names_of(query.index_uids) == index_names(self.index_uids),
            query.uids == self.uids.spec_merge_star_and_none(),
            query.canceled_by == self.canceled_by.spec_merge_star_and_none(),
            query.before_enqueued_at == self.before_enqueued_at.spec_merge_star_and_none(),
            query.after_enqueued_at == self.after_enqueued_at.spec_merge_star_and_none(),
            query.before_started_at == self.before_started_at.spec_merge_star_and_none(),
            query.after_started_at == self.after_started_at.spec_merge_star_and_none(),
            query.before_finished_at == self.before_finished_at.spec_merge_star_and_none(),
            query.after_finished_at == self.after_finished_at.spec_merge_star_and_none(),
    {
        Query {
            limit: Some(self.limit.0),
            from: match self.from {
                Some(from) => Some(from.0),
                None => None,
            },
            reverse: match self.reverse {
                Some(reverse) => Some(reverse.0),
                None => None,
            },
            statuses: self.statuses.merge_star_and_none(),
            types: self.types.merge_star_and_none(),
            index_uids: index_uids_to_names(self.index_uids),
            uids: self.uids.merge_star_and_none(),
            canceled_by: self.canceled_by.merge_star_and_none(),
            before_enqueued_at: self.before_enqueued_at.merge_star_and_none(),
            after_enqueued_at: self.after_enqueued_at.merge_star_and_none(),
            before_started_at: self.before_started_at.merge_star_and_none(),
            after_started_at: self.after_started_at.merge_star_and_none(),
            before_finished_at: self.before_finished_at.merge_star_and_none(),
            after_finished_at: self.after_finished_at.merge_star_and_none(),
        }
    }
}

impl TaskDeletionOrCancelationQuery {
    /// Whether no filter was given at all; a star counts as given.
    pub open spec fn spec_is_empty(self) -> bool {
        &&& self.uids is Absent
        &&& self.canceled_by is Absent
        &&& self.types is Absent
        &&& self.statuses is Absent
        &&& self.index_uids is Absent
        &&& self.after_enqueued_at is Absent
        &&& self.before_enqueued_at is Absent
        &&& self.after_started_at is Absent
        &&& self.before_started_at is Absent
        &&& self.after_finished_at is Absent
        &&& self.before_finished_at is Absent
    }

    /// Tells whether no filter was given at all.
    pub fn is_empty(&self) -> (empty: bool)
        ensures
            empty == self.spec_is_empty(),
    {
        !self.uids.is_some() && !self.canceled_by.is_some() && !self.types.is_some()
            && !self.statuses.is_some() && !self.index_uids.is_some()
            && !self.after_enqueued_at.is_some() && !self.before_enqueued_at.is_some()
            && !self.after_started_at.is_some() && !self.before_started_at.is_some()
            && !self.after_finished_at.is_some() && !self.before_finished_at.is_some()
    }

    /// The query of the filter: no limit and no start, and each criterion
    /// with its values, a star restricting nothing.
    pub fn into_query(self) -> (query: Query)
        ensures
            query.limit is None,
            query.from is None,
            query.reverse is None,
            query.statuses == self.statuses.spec_merge_star_and_none(),
            query.types == self.types.spec_merge_star_and_none(),
            names_of(query.index_uids) == index_names(self.index_uids),
            query.uids == self.uids.spec_merge_star_and_none(),
            query.canceled_by == self.canceled_by.spec_merge_star_and_none(),
            query.before_enqueued_at == self.before_enqueued_at.spec_merge_star_and_none(),
            query.after_enqueued_at == self.after_enqueued_at.spec_merge_star_and_none(),
            query.before_started_at == self.before_started_at.spec_merge_star_and_none(),
            query.after_started_at == self.after_started_at.spec_merge_star_and_none(),
            query.before_finished_at == self.before_finished_at.spec_merge_star_and_none(),
            query.after_finished_at == self.after_finished_at.spec_merge_star_and_none(),
    {
        Query {
            limit: None,
            from: None,
            reverse: None,
            statuses: self.statuses.merge_star_and_none(),
            types: self.types.merge_star_and_none(),
            index_uids: index_uids_to_names(self.index_uids),
            uids: self.uids.merge_star_and_none(),
            canceled_by: self.canceled_by.merge_star_and_none(),
            before_enqueued_at: self.before_enqueued_at.merge_star_and_none(),
            after_enqueued_at: self.after_enqueued_at.merge_star_and_none(),
            before_started_at: self.before_started_at.merge_star_and_none(),
            after_started_at: self.after_started_at.merge_star_and_none(),
            before_finished_at: self.before_finished_at.merge_star_and_none(),
            after_finished_at: self.after_finished_at.merge_star_and_none(),
        }
    }
}

/// Which filters a request for deletion or cancelation used.
#[derive(Debug, Clone, Copy, PartialEq, Eq, Structural)]
pub struct TaskFilterAnalytics {
    pub filtered_by_uid: bool,
    pub filtered_by_index_uid: bool,
    pub filtered_by_type: bool,
    pub filtered_by_status: bool,
    pub filtered_by_canceled_by: bool,
    pub filtered_by_before_enqueued_at: bool,
    pub filtered_by_after_enqueued_at: bool,
    pub filtered_by_before_started_at: bool,
    pub filtered_by_after_started_at: bool,
    pub filtered_by_before_finished_at: bool,
    pub filtered_by_after_finished_at: bool,
}

impl TaskFilterAnalytics {
    /// The filters that the request used.
    pub open spec fn spec_of(params: TaskDeletionOrCancelationQuery) -> TaskFilterAnalytics {
        TaskFilterAnalytics {
            filtered_by_uid: params.uids.spec_is_some(),
            filtered_by_index_uid: params.index_uids.spec_is_some(),
            filtered_by_type: params.types.spec_is_some(),
            filtered_by_status: params.statuses.spec_is_some(),
            filtered_by_canceled_by: params.canceled_by.spec_is_some(),
            filtered_by_before_enqueued_at: params.before_enqueued_at.spec_is_some(),
            filtered_by_after_enqueued_at: params.after_enqueued_at.spec_is_some(),
            filtered_by_before_started_at: params.before_started_at.spec_is_some(),
            filtered_by_after_started_at: params.after_started_at.spec_is_some(),
            filtered_by_before_finished_at: params.before_finished_at.spec_is_some(),
            filtered_by_after_finished_at: params.after_finished_at.spec_is_some(),
        }
    }

    /// Notes which filters the request used.
    pub fn of(params: &TaskDeletionOrCancelationQuery) -> (used: TaskFilterAnalytics)
        ensures
            used == Self::spec_of(*params),
    {
        TaskFilterAnalytics {
            filtered_by_uid: params.uids.is_some(),
            filtered_by_index_uid: params.index_uids.is_some(),
            filtered_by_type: params.types.is_some(),
            filtered_by_status: params.statuses.is_some(),
            filtered_by_canceled_by: params.canceled_by.is_some(),
            filtered_by_before_enqueued_at: params.before_enqueued_at.is_some(),
            filtered_by_after_enqueued_at: params.after_enqueued_at.is_some(),
            filtered_by_before_started_at: params.before_started_at.is_some(),
            filtered_by_after_started_at: params.after_started_at.is_some(),
            filtered_by_before_finished_at: params.before_finished_at.is_some(),
            filtered_by_after_finished_at: params.after_finished_at.is_some(),
        }
    }

    /// The filters that either of two requests used.
    pub open spec fn spec_aggregate(self, new: TaskFilterAnalytics) -> TaskFilterAnalytics {
        TaskFilterAnalytics {
            filtered_by_uid: self.filtered_by_uid || new.filtered_by_uid,
            filtered_by_index_uid: self.filtered_by_index_uid || new.filtered_by_index_uid,
            filtered_by_type: self.filtered_by_type || new.filtered_by_type,
            filtered_by_status: self.filtered_by_status || new.filtered_by_status,
            filtered_by_canceled_by: self.filtered_by_canceled_by || new.filtered_by_canceled_by,
            filtered_by_before_enqueued_at: self.filtered_by_before_enqueued_at
                || new.filtered_by_before_enqueued_at,
            filtered_by_after_enqueued_at: self.filtered_by_after_enqueued_at
                || new.filtered_by_after_enqueued_at,
            filtered_by_before_started_at: self.filtered_by_before_started_at
                || new.filtered_by_before_started_at,
            filtered_by_after_started_at: self.filtered_by_after_started_at
                || new.filtered_by_after_started_at,
            filtered_by_before_finished_at: self.filtered_by_before_finished_at
                || new.filtered_by_before_finished_at,
            filtered_by_after_finished_at: self.filtered_by_after_finished_at
                || new.filtered_by_after_finished_at,
        }
    }

    /// Merges the notes of two requests: a filter counts as used if either
    /// request used it.
    pub fn aggregate(self, new: TaskFilterAnalytics) -> (both: TaskFilterAnalytics)
        ensures
            both == self.spec_aggregate(new),
    {
        TaskFilterAnalytics {
            filtered_by_uid: self.filtered_by_uid || new.filtered_by_uid,
            filtered_by_index_uid: self.filtered_by_index_uid || new.filtered_by_index_uid,
            filtered_by_type: self.filtered_by_type || new.filtered_by_type,
            filtered_by_status: self.filtered_by_status || new.filtered_by_status,
            filtered_by_canceled_by: self.filtered_by_canceled_by || new.filtered_by_canceled_by,
            filtered_by_before_enqueued_at: self.filtered_by_before_enqueued_at
                || new.filtered_by_before_enqueued_at,
            filtered_by_after_enqueued_at: self.filtered_by_after_enqueued_at
                || new.filtered_by_after_enqueued_at,
            filtered_by_before_started_at: self.filtered_by_before_started_at
                || new.filtered_by_before_started_at,
            filtered_by_after_started_at: self.filtered_by_after_started_at
                || new.filtered_by_after_started_at,
            filtered_by_before_finished_at: self.filtered_by_before_finished_at
                || new.filtered_by_before_finished_at,
            filtered_by_after_finished_at: self.filtered_by_after_finished_at
                || new.filtered_by_after_finished_at,
        }
    }
}

/// What a request for deletion or cancelation leads to, before the
/// scheduler is asked anything: a request without any filter is refused
/// with `EmptyFilter`; otherwise the note of the filters used and the
/// query for the scheduler.
pub fn prepare_deletion_or_cancelation(params: TaskDeletionOrCancelationQuery) -> (r: Result<
    (TaskFilterAnalytics, Query),
    Error,
>)
    ensures
        r is Ok <==> !params.spec_is_empty(),
        r matches Err(e) ==> e is EmptyFilter,
        r matches Ok(prepared) ==> {
            let query = prepared.1;
            &&& prepared.0 == TaskFilterAnalytics::spec_of(params)
            &&& query.limit is None
            &&& query.from is None
            &&& query.reverse is None
            &&& query.statuses == params.statuses.spec_merge_star_and_none()
            &&& query.types == params.types.spec_merge_star_and_none()
            &&& names_of(query.index_uids) == index_names(params.index_uids)
            &&& query.uids == params.uids.spec_merge_star_and_none()
            &&& query.canceled_by == params.canceled_by.spec_merge_star_and_none()
            &&& query.before_enqueued_at == params.before_enqueued_at.spec_merge_star_and_none()
            &&& query.after_enqueued_at == params.after_enqueued_at.spec_merge_star_and_none()
            &&& query.before_started_at == params.before_started_at.spec_merge_star_and_none()
            &&& query.after_started_at == params.after_started_at.spec_merge_star_and_none()
            &&& query.before_finished_at == params.before_finished_at.spec_merge_star_and_none()
            &&& query.after_finished_at == params.after_finished_at.spec_merge_star_and_none()
        },
{
    if params.is_empty() {
        return Err(Error::EmptyFilter);
    }
    let used = TaskFilterAnalytics::of(&params);
    Ok((used, params.into_query()))
}

/// The side of a date filter.
#[derive(Debug, Clone, Copy, PartialEq, Eq, Structural)]
pub enum DeserializeDateOption {
    Before,
    After,
}

/// The text of a date filter that could not be read.
#[derive(Debug)]
pub struct InvalidTaskDateError(pub String);

/// The bound that a date without time stands for: midnight UTC of the day
/// for a filter `Before`; for a filter `After`, midnight UTC of the day
/// that follows, so that the whole day lies before the bound, or of the
/// day itself if no day follows it.
pub open spec fn spec_date_bound(
    julian_day: i32,
    a_day_follows: bool,
    option: DeserializeDateOption,
) -> DateTime {
    match option {
        DeserializeDateOption::Before => DateTime::spec_midnight_utc(julian_day),
        DeserializeDateOption::After => if a_day_follows {
            DateTime::spec_midnight_utc((julian_day + 1) as i32)
        } else {
            DateTime::spec_midnight_utc(julian_day)
        },
    }
}

/// Returns the bound that a date without time stands for, given the day
/// and whether a day follows it.
pub fn date_bound(julian_day: i32, a_day_follows: bool, option: DeserializeDateOption) -> (bound:
    DateTime)
    requires
        a_day_follows ==> julian_day < i32::MAX,
    ensures
        bound == spec_date_bound(julian_day, a_day_follows, option),
{
    match option {
        DeserializeDateOption::Before => DateTime::midnight_utc(julian_day),
        DeserializeDateOption::After => if a_day_follows {
            DateTime::midnight_utc(julian_day + 1)
        } else {
            DateTime::midnight_utc(julian_day)
        },
    }
}

/// What a date filter reads in a text: the date and time if the text
/// gives them in full, else the bound of the day if the text is a date,
/// else nothing. A day follows the date unless it is the last one that
/// can be held.
pub open spec fn spec_deserialize_date(value: Seq<char>, option: DeserializeDateOption) -> Option<
    DateTime,
> {
    match rfc3339_datetime(value) {
        Some(datetime) => Some(datetime),
        None => match calendar_date_julian_day(value) {
            Some(day) => Some(spec_date_bound(day, day_after(day) is Some, option)),
            None => None,
        },
    }
}

/// For a date alone that a day follows, the bound of `After` comes 24
/// hours after the bound of `Before`; for the last date the two are the
/// same.
pub proof fn lemma_after_a_day_is_next_midnight(value: Seq<char>)
    requires
        rfc3339_datetime(value) is None,
        calendar_date_julian_day(value) matches Some(day) && day < i32::MAX,
    ensures
        ({
            let day = calendar_date_julian_day(value)->Some_0;
            let before = spec_deserialize_date(value, DeserializeDateOption::Before);
            let after = spec_deserialize_date(value, DeserializeDateOption::After);
            &&& before == Some(DateTime::spec_midnight_utc(day))
            &&& day_after(day) is Some ==> after == Some(
                DateTime::spec_midnight_utc((day + 1) as i32),
            ) && after->Some_0.instant() == before->Some_0.instant() + 86_400_000_000_000
            &&& day_after(day) is None ==> after == before
        }),
{
}

/// Reads the text of a date filter. A full date and time in the RFC 3339
/// format is taken as it is. A date alone, as year, month and day, stands
/// for midnight UTC of this day if the filter is `Before`, and of the next
/// day if the filter is `After`. Any other text is refused, and the error
/// holds the text.
pub fn deserialize_date(value: &str, option: DeserializeDateOption) -> (r: Result<
    DateTime,
    InvalidTaskDateError,
>)
    ensures
        match spec_deserialize_date(value@, option) {
            Some(datetime) => r == Ok::<DateTime, InvalidTaskDateError>(datetime),
            None => r matches Err(e) && e.0@ == value@,
        },
{
    if let Some(datetime) = parse_rfc3339(value) {
        Ok(datetime)
    } else if let Some(day) = parse_calendar_date(value) {
        let next_day = midnight_one_day_later(day);
        Ok(date_bound(day, next_day.is_some(), option))
    } else {
        Err(InvalidTaskDateError(value.to_owned()))
    }
}

/// Reads a date filter of the side `After`, which may be absent or a star.
pub fn deserialize_date_after(value: OptionStarOr<String>) -> (r: Result<
    OptionStarOr<DateTime>,
    InvalidTaskDateError,
>)
    ensures
        match value {
            OptionStarOr::Absent => r == Ok::<OptionStarOr<DateTime>, InvalidTaskDateError>(
                OptionStarOr::Absent,
            ),
            OptionStarOr::Star => r == Ok::<OptionStarOr<DateTime>, InvalidTaskDateError>(
                OptionStarOr::Star,
            ),
            OptionStarOr::Other(text) => match spec_deserialize_date(
                text@,
                DeserializeDateOption::After,
            ) {
                Some(datetime) => r == Ok::<OptionStarOr<DateTime>, InvalidTaskDateError>(
                    OptionStarOr::Other(datetime),
                ),
                None => r matches Err(e) && e.0@ == text@,
            },
        },
{
    deserialize_date_option(value, DeserializeDateOption::After)
}

/// Reads a date filter of the side `Before`, which may be absent or a
/// star.
pub fn deserialize_date_before(value: OptionStarOr<String>) -> (r: Result<
    OptionStarOr<DateTime>,
    InvalidTaskDateError,
>)
    ensures
        match value {
            OptionStarOr::Absent => r == Ok::<OptionStarOr<DateTime>, InvalidTaskDateError>(
                OptionStarOr::Absent,
            ),
            OptionStarOr::Star => r == Ok::<OptionStarOr<DateTime>, InvalidTaskDateError>(
                OptionStarOr::Star,
            ),
            OptionStarOr::Other(text) => match spec_deserialize_date(
                text@,
                DeserializeDateOption::Before,
            ) {
                Some(datetime) => r == Ok::<OptionStarOr<DateTime>, InvalidTaskDateError>(
                    OptionStarOr::Other(datetime),
                ),
                None => r matches Err(e) && e.0@ == text@,
            },
        },
{
    deserialize_date_option(value, DeserializeDateOption::Before)
}

fn deserialize_date_option(value: OptionStarOr<String>, option: DeserializeDateOption) -> (r:
    Result<OptionStarOr<DateTime>, InvalidTaskDateError>)
    ensures
        match value {
            OptionStarOr::Absent => r == Ok::<OptionStarOr<DateTime>, InvalidTaskDateError>(
                OptionStarOr::Absent,
            ),
            OptionStarOr::Star => r == Ok::<OptionStarOr<DateTime>, InvalidTaskDateError>(
                OptionStarOr::Star,
            ),
            OptionStarOr::Other(text) => match spec_deserialize_date(text@, option) {
                Some(datetime) => r == Ok::<OptionStarOr<DateTime>, InvalidTaskDateError>(
                    OptionStarOr::Other(datetime),
                ),
                None => r matches Err(e) && e.0@ == text@,
            },
        },
{
    match value {
        OptionStarOr::Absent => Ok(OptionStarOr::Absent),
        OptionStarOr::Star => Ok(OptionStarOr::Star),
        OptionStarOr::Other(text) => match deserialize_date(text.as_str(), option) {
            Ok(datetime) => Ok(OptionStarOr::Other(datetime)),
            Err(e) => Err(e),
        },
    }
}

/// What the route shows of a task.
#[derive(Debug)]
pub struct TaskView {
    pub uid: TaskId,
    pub index_uid: Option<String>,
    pub status: Status,
    pub kind: Kind,
    pub canceled_by: Option<TaskId>,
    pub enqueued_at: DateTime,
    pub started_at: Option<DateTime>,
    pub finished_at: Option<DateTime>,
}

/// One page of tasks: the tasks, how many tasks match in all, the size asked
/// for the page, the first task of the page and the first task of the next
/// page, if there is one.
#[derive(Debug)]
pub struct AllTasks {
    pub results: Vec<TaskView>,
    pub total: u64,
    pub limit: u32,
    pub from: Option<u32>,
    pub next: Option<u32>,
}

/// The number of tasks to ask of the scheduler for a page of `limit` tasks:
/// one more, which tells whether another page follows.
pub fn page_request(limit: u32) -> (asked: u32)
    ensures
        asked == if limit == u32::MAX {
            limit
        } else {
            (limit + 1) as u32
        },
{
    limit.saturating_add(1)
}

/// The page of at most `limit` tasks, made of the tasks that the scheduler
/// returned when asked for `page_request(limit)` of them.
///
/// The page reports the limit that was asked. If the scheduler returned
/// more than `limit` tasks, another page follows: the page keeps the first
/// `limit` tasks, and the identifier of the task after them becomes `next`.
pub fn tasks_page(results: Vec<TaskView>, total: u64, limit: u32) -> (page: AllTasks)
    ensures
        page.total == total,
        page.limit == limit,
        results@.len() > limit ==> page.results@ == results@.take(limit as int) && page.next
            == Some(results@[limit as int].uid),
        results@.len() <= limit ==> page.results@ == results@ && page.next is None,
        page.from == if page.results@.len() > 0 {
            Some(page.results@[0].uid)
        } else {
            None
        },
{
    let mut results = results;
    let next = if results.len() > limit as usize {
        let next = results[limit as usize].uid;
        results.truncate(limit as usize);
        Some(next)
    } else {
        None
    };
    let from = if results.len() > 0 {
        Some(results[0].uid)
    } else {
        None
    };
    AllTasks { results, limit, total, from, next }
}

/// Whether the byte is a decimal digit.
pub open spec fn is_digit(byte: u8) -> bool {
    48 <= byte <= 57
}

/// The number that a run of decimal digits writes.
pub open spec fn digits_value(digits: Seq<u8>) -> nat
    decreases digits.len(),
{
    if digits.len() == 0 {
        0
    } else {
        digits_value(digits.drop_last()) * 10 + (digits.last() - 48) as nat
    }
}

/// The text of an identifier without the plus sign that may begin it.
pub open spec fn task_uid_digits(bytes: Seq<u8>) -> Seq<u8> {
    if bytes.len() > 0 && bytes[0] == 43 {
        bytes.skip(1)
    } else {
        bytes
    }
}

/// The identifier that a text writes: decimal digits, at least one, with or
/// without a plus sign before them, for a number that 32 bits hold.
pub open spec fn spec_parse_task_uid(bytes: Seq<u8>) -> Option<u32> {
    let digits = task_uid_digits(bytes);
    if digits.len() > 0 && (forall|i: int| 0 <= i < digits.len() ==> is_digit(#[trigger] digits[i]))
        && digits_value(digits) <= u32::MAX {
        Some(digits_value(digits) as u32)
    } else {
        None
    }
}

/// A run of digits writes a number at least as large as any of its
/// beginnings.
proof fn lemma_digits_value_grows(digits: Seq<u8>, n: int)
    requires
        0 <= n <= digits.len(),
        forall|i: int| 0 <= i < digits.len() ==> is_digit(#[trigger] digits[i]),
    ensures
        digits_value(digits.take(n)) <= digits_value(digits),
    decreases digits.len() - n,
{
    if n < digits.len() {
        lemma_digits_value_grows(digits.drop_last(), n);
        assert(digits.drop_last().take(n) == digits.take(n));
        assert(is_digit(digits[digits.len() - 1]));
    } else {
        assert(digits.take(n) == digits);
    }
}

/// Reads the identifier of a task in a text. A text that does not write an
/// identifier is refused with `InvalidQuery`, which holds the text.
pub fn parse_task_uid(text: &str) -> (r: Result<TaskId, Error>)
    ensures
        match spec_parse_task_uid(text.spec_bytes()) {
            Some(uid) => r == Ok::<TaskId, Error>(uid),
            None => (r matches Err(
                Error::InvalidQuery { parameter: Some(parameter), field, value },
            ) && parameter@ == "taskUid"@ && field@ == "taskUid"@ && value@ == text@),
        },
{
    let bytes = text.as_bytes();
    let start: usize = if bytes.len() > 0 && bytes[0] == 43 {
        1
    } else {
        0
    };
    let ghost digits = task_uid_digits(bytes@);
    proof {
        assert(bytes@.skip(0) =~= bytes@);
        assert(digits == bytes@.skip(start as int));
        assert(digits.take(0) =~= Seq::<u8>::empty());
    }
    let mut value: u64 = 0;
    let mut i: usize = start;
    let mut valid = bytes.len() > start;
    while valid && i < bytes.len()
        invariant
            start <= i <= bytes@.len(),
            digits == bytes@.skip(start as int),
            digits == task_uid_digits(bytes@),
            valid ==> forall|k: int| 0 <= k < i - start ==> is_digit(#[trigger] digits[k]),
            valid ==> value == digits_value(digits.take(i - start)),
            valid ==> value <= u32::MAX,
            valid ==> digits.len() > 0,
            !valid ==> spec_parse_task_uid(bytes@) is None,
        decreases bytes@.len() - i + (if valid { 1int } else { 0int }),
    {
        let byte = bytes[i];
        assert(digits[i - start] == byte);
        if byte < 48 || byte > 57 {
            assert(!is_digit(digits[i - start]));
            assert(spec_parse_task_uid(bytes@) is None);
            valid = false;
        } else {
            let next = value * 10 + (byte - 48) as u64;
            proof {
                assert(digits.take(i - start + 1).drop_last() == digits.take(i - start));
                assert(digits.take(i - start + 1).last() == byte);
            }
            assert(next == digits_value(digits.take(i - start + 1)));
            if next > 0xFFFF_FFFF {
                proof {
                    if forall|k: int| 0 <= k < digits.len() ==> is_digit(#[trigger] digits[k]) {
                        lemma_digits_value_grows(digits, i - start + 1);
                    }
                    assert(spec_parse_task_uid(bytes@) is None);
                }
                valid = false;
            } else {
                value = next;
                i += 1;
            }
        }
    }
    if valid {
        assert(i == bytes@.len());
        assert(digits.take(digits.len() as int) == digits);
        assert(text.spec_bytes() == bytes@);
        Ok(value as u32)
    } else {
        Err(
            Error::InvalidQuery {
                parameter: Some("taskUid".to_owned()),
                field: "taskUid".to_owned(),
                value: text.to_owned(),
            },
        )
    }
}

/// The task that the route of one task shows: the first of the tasks that
/// the scheduler found for the identifier, or `NotFound` with the
/// identifier if it found none.
pub fn single_task(tasks: Vec<TaskView>, task_uid: TaskId) -> (r: Result<TaskView, Error>)
    ensures
        tasks@.len() > 0 ==> r == Ok::<TaskView, Error>(tasks@[0]),
        tasks@.len() == 0 ==> (r matches Err(Error::NotFound { id }) && id == task_uid),
{
    let mut tasks = tasks;
    if tasks.len() > 0 {
        Ok(tasks.swap_remove(0))
    } else {
        Err(Error::NotFound { id: task_uid as u64 })
    }
}

/// The query for one task: its identifier and nothing else.
pub fn single_task_query(task_uid: TaskId) -> (query: Query)
    ensures
        query.uids matches Some(uids) && uids@ == seq![task_uid],
        query.limit is None,
        query.from is None,
        query.reverse is None,
        query.statuses is None,
        query.types is None,
        query.index_uids is None,
        query.canceled_by is None,
        query.before_enqueued_at is None,
        query.after_enqueued_at is None,
        query.before_started_at is None,
        query.after_started_at is None,
        query.before_finished_at is None,
        query.after_finished_at is None,
{
    let mut uids: Vec<TaskId> = Vec::new();
    uids.push(task_uid);
    assert(uids@ =~= seq![task_uid]);
    Query {
        limit: None,
        from: None,
        reverse: None,
        statuses: None,
        types: None,
        index_uids: None,
        uids: Some(uids),
        canceled_by: None,
        before_enqueued_at: None,
        after_enqueued_at: None,
        before_started_at: None,
        after_started_at: None,
        before_finished_at: None,
        after_finished_at: None,
    }
}

} // verus!

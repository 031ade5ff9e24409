use search_core::datetime::DateTime;
use search_core::error::Error;
use search_core::routes::tasks::{
    deserialize_date, deserialize_date_after, deserialize_date_before, page_request,
    parse_task_uid, prepare_deletion_or_cancelation, single_task, single_task_query, tasks_page,
    DeserializeDateOption, IndexUid, Kind, Param, Status, TaskDeletionOrCancelationQuery,
    TaskFilterAnalytics, TaskView, TasksFilterQuery,
};
use search_core::star_or::{OptionStarOr, OptionStarOrList};
use time::{Date, OffsetDateTime, UtcOffset};

fn to_time(datetime: &DateTime) -> OffsetDateTime {
    Date::from_julian_day(datetime.julian_day)
        .unwrap()
        .with_hms_nano(datetime.hour, datetime.minute, datetime.second, datetime.nanosecond)
        .unwrap()
        .assume_offset(UtcOffset::from_whole_seconds(datetime.offset_seconds).unwrap())
}

fn shown(value: &OptionStarOr<DateTime>) -> String {
    match value {
        OptionStarOr::Absent => "None".to_string(),
        OptionStarOr::Star => "Star".to_string(),
        OptionStarOr::Other(datetime) => format!("Other({:?})", to_time(datetime)),
    }
}

fn empty_query() -> TaskDeletionOrCancelationQuery {
    TaskDeletionOrCancelationQuery {
        uids: OptionStarOrList::Absent,
        canceled_by: OptionStarOrList::Absent,
        types: OptionStarOrList::Absent,
        statuses: OptionStarOrList::Absent,
        index_uids: OptionStarOrList::Absent,
        after_enqueued_at: OptionStarOr::Absent,
        before_enqueued_at: OptionStarOr::Absent,
        after_started_at: OptionStarOr::Absent,
        before_started_at: OptionStarOr::Absent,
        after_finished_at: OptionStarOr::Absent,
        before_finished_at: OptionStarOr::Absent,
    }
}

/// Splits a query string into its pairs and decodes them.
fn pairs(query: &str) -> Vec<(String, String)> {
    fn decode(text: &str) -> String {
        let bytes = text.as_bytes();
        let mut out = Vec::new();
        let mut i = 0;
        while i < bytes.len() {
            if bytes[i] == b'%' && i + 2 < bytes.len() {
                let hex = std::str::from_utf8(&bytes[i + 1..i + 3]).unwrap();
                out.push(u8::from_str_radix(hex, 16).unwrap());
                i += 3;
            } else if bytes[i] == b'+' {
                out.push(b' ');
                i += 1;
            } else {
                out.push(bytes[i]);
                i += 1;
            }
        }
        String::from_utf8(out).unwrap()
    }
    query
        .split('&')
        .filter(|pair| !pair.is_empty())
        .map(|pair| {
            let (name, value) = pair.split_once('=').unwrap_or((pair, ""));
            (decode(name), decode(value))
        })
        .collect()
}

fn deletion(query: &str) -> Result<TaskDeletionOrCancelationQuery, Error> {
    TaskDeletionOrCancelationQuery::from_params(&pairs(query))
}

fn listing(query: &str) -> Result<TasksFilterQuery, Error> {
    TasksFilterQuery::from_params(&pairs(query))
}

/// The place and the text that an error tells.
fn refused<T: std::fmt::Debug>(outcome: Result<T, Error>) -> (String, String) {
    match outcome {
        Err(Error::InvalidQuery { field, value, .. }) => (field, value),
        other => panic!("{other:?}"),
    }
}

/// The code of the error of an outcome.
fn code<T: std::fmt::Debug>(outcome: Result<T, Error>) -> &'static str {
    match outcome {
        Err(e) => e.code(),
        other => panic!("{other:?}"),
    }
}

fn list<T: std::fmt::Debug>(value: &OptionStarOrList<T>) -> String {
    match value {
        OptionStarOrList::Absent => "None".to_string(),
        OptionStarOrList::Star => "Star".to_string(),
        OptionStarOrList::List(values) => format!("List({values:?})"),
    }
}

fn shown_deletion(query: &TaskDeletionOrCancelationQuery) -> String {
    format!(
        "TaskDeletionOrCancelationQuery {{ uids: {}, canceled_by: {}, types: {}, statuses: {}, index_uids: {}, after_enqueued_at: {}, before_enqueued_at: {}, after_started_at: {}, before_started_at: {}, after_finished_at: {}, before_finished_at: {} }}",
        list(&query.uids),
        list(&query.canceled_by),
        list(&query.types),
        list(&query.statuses),
        list(&query.index_uids),
        shown(&query.after_enqueued_at),
        shown(&query.before_enqueued_at),
        shown(&query.after_started_at),
        shown(&query.before_started_at),
        shown(&query.after_finished_at),
        shown(&query.before_finished_at),
    )
}

fn shown_listing(query: &TasksFilterQuery) -> String {
    format!(
        "TasksFilterQuery {{ limit: {:?}, from: {:?}, reverse: {:?}, uids: {}, canceled_by: {}, types: {}, statuses: {}, index_uids: {}, after_enqueued_at: {}, before_enqueued_at: {}, after_started_at: {}, before_started_at: {}, after_finished_at: {}, before_finished_at: {} }}",
        query.limit,
        query.from,
        query.reverse,
        list(&query.uids),
        list(&query.canceled_by),
        list(&query.types),
        list(&query.statuses),
        list(&query.index_uids),
        shown(&query.after_enqueued_at),
        shown(&query.before_enqueued_at),
        shown(&query.after_started_at),
        shown(&query.before_started_at),
        shown(&query.after_finished_at),
        shown(&query.before_finished_at),
    )
}

#[test]
fn deserialize_task_filter_dates() {
    {
        let params = "afterEnqueuedAt=2021-12-03&beforeEnqueuedAt=2021-12-03&afterStartedAt=2021-12-03&beforeStartedAt=2021-12-03&afterFinishedAt=2021-12-03&beforeFinishedAt=2021-12-03";
        let query = deletion(params).unwrap();

        assert_eq!(shown(&query.after_enqueued_at), "Other(2021-12-04 0:00:00.0 +00:00:00)");
        assert_eq!(shown(&query.before_enqueued_at), "Other(2021-12-03 0:00:00.0 +00:00:00)");
        assert_eq!(shown(&query.after_started_at), "Other(2021-12-04 0:00:00.0 +00:00:00)");
        assert_eq!(shown(&query.before_started_at), "Other(2021-12-03 0:00:00.0 +00:00:00)");
        assert_eq!(shown(&query.after_finished_at), "Other(2021-12-04 0:00:00.0 +00:00:00)");
        assert_eq!(shown(&query.before_finished_at), "Other(2021-12-03 0:00:00.0 +00:00:00)");
    }
    {
        let params = "afterEnqueuedAt=2021-12-03T23:45:23Z&beforeEnqueuedAt=2021-12-03T23:45:23Z";
        let query = deletion(params).unwrap();
        assert_eq!(shown(&query.after_enqueued_at), "Other(2021-12-03 23:45:23.0 +00:00:00)");
        assert_eq!(shown(&query.before_enqueued_at), "Other(2021-12-03 23:45:23.0 +00:00:00)");
    }
    {
        let params = "afterEnqueuedAt=1997-11-12T09:55:06-06:20";
        let query = deletion(params).unwrap();
        assert_eq!(shown(&query.after_enqueued_at), "Other(1997-11-12 9:55:06.0 -06:20:00)");
    }
    {
        let params = "afterEnqueuedAt=1997-11-12T09:55:06%2B00:00";
        let query = deletion(params).unwrap();
        assert_eq!(shown(&query.after_enqueued_at), "Other(1997-11-12 9:55:06.0 +00:00:00)");
    }
    {
        let params = "afterEnqueuedAt=1997-11-12T09:55:06.200000300Z";
        let query = deletion(params).unwrap();
        assert_eq!(shown(&query.after_enqueued_at), "Other(1997-11-12 9:55:06.2000003 +00:00:00)");
    }
    {
        // Stars are allowed in date fields as well
        let params = "afterEnqueuedAt=*&beforeStartedAt=*&afterFinishedAt=*&beforeFinishedAt=*&afterStartedAt=*&beforeEnqueuedAt=*";
        let query = deletion(params).unwrap();
        assert_eq!(shown_deletion(&query), "TaskDeletionOrCancelationQuery { uids: None, canceled_by: None, types: None, statuses: None, index_uids: None, after_enqueued_at: Star, before_enqueued_at: Star, after_started_at: Star, before_started_at: Star, after_finished_at: Star, before_finished_at: Star }");
    }
    {
        let params = "afterFinishedAt=2021";
        let err = refused(deletion(params));
        assert_eq!(code(deletion(params)), "invalid_task_after_finished_at");
        assert_eq!(err, ("afterFinishedAt".to_string(), "2021".to_string()));
    }
    {
        let params = "beforeFinishedAt=2021";
        let err = refused(deletion(params));
        assert_eq!(code(deletion(params)), "invalid_task_before_finished_at");
        assert_eq!(err, ("beforeFinishedAt".to_string(), "2021".to_string()));
    }
    {
        let params = "afterEnqueuedAt=2021-12";
        let err = refused(deletion(params));
        assert_eq!(code(deletion(params)), "invalid_task_after_enqueued_at");
        assert_eq!(err, ("afterEnqueuedAt".to_string(), "2021-12".to_string()));
    }
    {
        let params = "beforeEnqueuedAt=2021-12-03T23";
        let err = refused(deletion(params));
        assert_eq!(code(deletion(params)), "invalid_task_before_enqueued_at");
        assert_eq!(err, ("beforeEnqueuedAt".to_string(), "2021-12-03T23".to_string()));
    }
    {
        let params = "afterStartedAt=2021-12-03T23:45";
        let err = refused(deletion(params));
        assert_eq!(code(deletion(params)), "invalid_task_after_started_at");
        assert_eq!(err, ("afterStartedAt".to_string(), "2021-12-03T23:45".to_string()));
    }
    {
        let params = "beforeStartedAt=2021-12-03T23:45";
        let err = refused(deletion(params));
        assert_eq!(code(deletion(params)), "invalid_task_before_started_at");
        assert_eq!(err, ("beforeStartedAt".to_string(), "2021-12-03T23:45".to_string()));
    }
}

#[test]
fn deserialize_task_filter_uids() {
    {
        let params = "uids=78,1,12,73";
        let query = deletion(params).unwrap();
        assert_eq!(list(&query.uids), "List([78, 1, 12, 73])");
    }
    {
        let params = "uids=1";
        let query = deletion(params).unwrap();
        assert_eq!(list(&query.uids), "List([1])");
    }
    {
        let params = "uids=cat,*,dog";
        let err = refused(deletion(params));
        assert_eq!(code(deletion(params)), "invalid_task_uids");
        assert_eq!(err, ("uids[0]".to_string(), "cat".to_string()));
    }
    {
        let params = "uids=78,hello,world";
        let err = refused(deletion(params));
        assert_eq!(code(deletion(params)), "invalid_task_uids");
        assert_eq!(err, ("uids[1]".to_string(), "hello".to_string()));
    }
    {
        let params = "uids=cat";
        let err = refused(deletion(params));
        assert_eq!(code(deletion(params)), "invalid_task_uids");
        assert_eq!(err, ("uids".to_string(), "cat".to_string()));
    }
}

#[test]
fn deserialize_task_filter_status() {
    {
        let params = "statuses=succeeded,failed,enqueued,processing,canceled";
        let query = deletion(params).unwrap();
        assert_eq!(
            list(&query.statuses),
            "List([Succeeded, Failed, Enqueued, Processing, Canceled])"
        );
    }
    {
        let params = "statuses=enqueued";
        let query = deletion(params).unwrap();
        assert_eq!(list(&query.statuses), "List([Enqueued])");
    }
    {
        let params = "statuses=finished";
        let err = refused(deletion(params));
        assert_eq!(code(deletion(params)), "invalid_task_statuses");
        assert_eq!(err, ("statuses".to_string(), "finished".to_string()));
    }
}

#[test]
fn deserialize_task_filter_types() {
    {
        let params = "types=documentAdditionOrUpdate,documentDeletion,settingsUpdate,indexCreation,indexDeletion,indexUpdate,indexSwap,taskCancelation,taskDeletion,dumpCreation,snapshotCreation";
        let query = deletion(params).unwrap();
        assert_eq!(list(&query.types), "List([DocumentAdditionOrUpdate, DocumentDeletion, SettingsUpdate, IndexCreation, IndexDeletion, IndexUpdate, IndexSwap, TaskCancelation, TaskDeletion, DumpCreation, SnapshotCreation])");
    }
    {
        let params = "types=settingsUpdate";
        let query = deletion(params).unwrap();
        assert_eq!(list(&query.types), "List([SettingsUpdate])");
    }
    {
        let params = "types=createIndex";
        let err = refused(deletion(params));
        assert_eq!(code(deletion(params)), "invalid_task_types");
        assert_eq!(err, ("types".to_string(), "createIndex".to_string()));
    }
}

#[test]
fn deserialize_task_filter_index_uids() {
    {
        let params = "indexUids=toto,tata-78";
        let query = deletion(params).unwrap();
        assert_eq!(list(&query.index_uids), r###"List([IndexUid("toto"), IndexUid("tata-78")])"###);
    }
    {
        let params = "indexUids=index_a";
        let query = deletion(params).unwrap();
        assert_eq!(list(&query.index_uids), r###"List([IndexUid("index_a")])"###);
    }
    {
        let params = "indexUids=1,hé";
        let err = refused(deletion(params));
        assert_eq!(code(deletion(params)), "invalid_index_uid");
        assert_eq!(err, ("indexUids[1]".to_string(), "hé".to_string()));
    }
    {
        let params = "indexUids=hé";
        let err = refused(deletion(params));
        assert_eq!(code(deletion(params)), "invalid_index_uid");
        assert_eq!(err, ("indexUids".to_string(), "hé".to_string()));
    }
}

#[test]
fn deserialize_task_filter_general() {
    {
        let params = "from=12&limit=15&indexUids=toto,tata-78&statuses=succeeded,enqueued&afterEnqueuedAt=2012-04-23&uids=1,2,3";
        let query = listing(params).unwrap();
        assert_eq!(shown_listing(&query), r###"TasksFilterQuery { limit: Param(15), from: Some(Param(12)), reverse: None, uids: List([1, 2, 3]), canceled_by: None, types: None, statuses: List([Succeeded, Enqueued]), index_uids: List([IndexUid("toto"), IndexUid("tata-78")]), after_enqueued_at: Other(2012-04-24 0:00:00.0 +00:00:00), before_enqueued_at: None, after_started_at: None, before_started_at: None, after_finished_at: None, before_finished_at: None }"###);
    }
    {
        // Stars should become `None` in the query
        // Verify value of the default limit
        let params = "indexUids=*&statuses=succeeded,*&afterEnqueuedAt=2012-04-23&uids=1,2,3";
        let query = listing(params).unwrap();
        assert_eq!(shown_listing(&query), "TasksFilterQuery { limit: Param(20), from: None, reverse: None, uids: List([1, 2, 3]), canceled_by: None, types: None, statuses: Star, index_uids: Star, after_enqueued_at: Other(2012-04-24 0:00:00.0 +00:00:00), before_enqueued_at: None, after_started_at: None, before_started_at: None, after_finished_at: None, before_finished_at: None }");
    }
    {
        // Stars should also become `None` in task deletion/cancelation queries
        let params = "indexUids=*&statuses=succeeded,*&afterEnqueuedAt=2012-04-23&uids=1,2,3";
        let query = deletion(params).unwrap();
        assert_eq!(shown_deletion(&query), "TaskDeletionOrCancelationQuery { uids: List([1, 2, 3]), canceled_by: None, types: None, statuses: Star, index_uids: Star, after_enqueued_at: Other(2012-04-24 0:00:00.0 +00:00:00), before_enqueued_at: None, after_started_at: None, before_started_at: None, after_finished_at: None, before_finished_at: None }");
    }
    {
        // Star in from not allowed
        let params = "uids=*&from=*";
        let err = refused(listing(params));
        assert_eq!(code(listing(params)), "invalid_task_from");
        assert_eq!(err, ("from".to_string(), "*".to_string()));
    }
    {
        // From not allowed in task deletion/cancelation queries
        let params = "from=12";
        let err = refused(deletion(params));
        assert_eq!(code(deletion(params)), "bad_request");
        assert_eq!(err, ("from".to_string(), "12".to_string()));
    }
    {
        // Limit not allowed in task deletion/cancelation queries
        let params = "limit=12";
        let err = refused(deletion(params));
        assert_eq!(code(deletion(params)), "bad_request");
        assert_eq!(err, ("limit".to_string(), "12".to_string()));
    }
}

#[test]
fn deserialize_task_delete_or_cancel_empty() {
    {
        let params = "";
        let query = deletion(params).unwrap();
        assert!(query.is_empty());
    }
    {
        let params = "statuses=*";
        let query = deletion(params).unwrap();
        assert!(!query.is_empty());
        assert_eq!(shown_deletion(&query), "TaskDeletionOrCancelationQuery { uids: None, canceled_by: None, types: None, statuses: Star, index_uids: None, after_enqueued_at: None, before_enqueued_at: None, after_started_at: None, before_started_at: None, after_finished_at: None, before_finished_at: None }");
    }
}

#[test]
fn parameters_grammar_edges() {
    // an empty text is an empty list, which is a filter all the same
    let query = deletion("uids=").unwrap();
    assert_eq!(list(&query.uids), "List([])");
    assert!(!query.is_empty());
    // an empty value between commas is refused at its place
    assert_eq!(refused(deletion("uids=1,,3")), ("uids[1]".to_string(), "".to_string()));
    assert_eq!(refused(deletion("uids=1,2,")), ("uids[2]".to_string(), "".to_string()));
    // places are told in decimal
    let many = format!("uids={}x", "1,".repeat(123));
    assert_eq!(refused(deletion(&many)), ("uids[123]".to_string(), "x".to_string()));
    // of two pairs with one name the last counts
    let query = deletion("uids=cat&uids=4").unwrap();
    assert_eq!(list(&query.uids), "List([4])");
    // an unknown name is told before anything else
    assert_eq!(refused(deletion("uids=cat&color=red")), ("color".to_string(), "red".to_string()));
    assert_eq!(code(deletion("uids=cat&color=red")), "bad_request");
    assert_eq!(code(deletion("canceledBy=x")), "invalid_task_canceled_by");
    assert_eq!(code(listing("limit=-1")), "invalid_task_limit");
    assert_eq!(code(listing("reverse=yes")), "invalid_task_reverse");
    // then the parameters in their own order
    assert_eq!(refused(deletion("types=x&uids=y")), ("uids".to_string(), "y".to_string()));
    assert_eq!(
        refused(deletion("canceledBy=1,z&statuses=q")),
        ("canceledBy[1]".to_string(), "z".to_string())
    );
    let query = listing("reverse=true&canceledBy=3,4&limit=0").unwrap();
    assert_eq!(query.reverse.unwrap().0, true);
    assert_eq!(query.limit.0, 0);
    assert_eq!(list(&query.canceled_by), "List([3, 4])");
    assert_eq!(listing("reverse=false").unwrap().reverse.unwrap().0, false);
    assert_eq!(refused(listing("reverse=yes")), ("reverse".to_string(), "yes".to_string()));
    assert_eq!(refused(listing("limit=-1")), ("limit".to_string(), "-1".to_string()));
    // an index name holds at most 512 bytes
    assert!(deletion(&format!("indexUids={}", "a".repeat(512))).is_ok());
    assert!(deletion(&format!("indexUids={}", "a".repeat(513))).is_err());
}

#[test]
fn after_a_day_means_after_its_end() {
    let bound = deserialize_date("2021-12-03", DeserializeDateOption::After).unwrap();
    let next_midnight = deserialize_date("2021-12-04T00:00:00Z", DeserializeDateOption::After).unwrap();
    let last_second = deserialize_date("2021-12-03T23:59:59Z", DeserializeDateOption::After).unwrap();
    assert!(next_midnight.is_at_or_after(&bound));
    assert!(!last_second.is_at_or_after(&bound));

    let bound = deserialize_date("2021-12-03", DeserializeDateOption::Before).unwrap();
    let midnight = deserialize_date("2021-12-03T00:00:00Z", DeserializeDateOption::Before).unwrap();
    let later = deserialize_date("2021-12-03T00:00:01Z", DeserializeDateOption::Before).unwrap();
    assert!(midnight.is_at_or_before(&bound));
    assert!(!later.is_at_or_before(&bound));
}

#[test]
fn instants_respect_offsets() {
    let utc = deserialize_date("2021-12-03T10:00:00Z", DeserializeDateOption::Before).unwrap();
    let east = deserialize_date("2021-12-03T12:00:00+02:00", DeserializeDateOption::Before).unwrap();
    assert_eq!(utc.to_instant(), east.to_instant());
    assert_eq!(east.offset_seconds, 7200);
    assert_eq!(utc.julian_day, 2_459_552);
    assert_eq!(utc.to_instant(), 2_459_552i128 * 86_400_000_000_000 + 36_000_000_000_000);
}

#[test]
fn last_day_has_no_day_after() {
    // no date follows the last one that the `time` crate knows
    let bound = deserialize_date("9999-12-31", DeserializeDateOption::After).unwrap();
    assert_eq!(format!("{:?}", to_time(&bound)), "9999-12-31 0:00:00.0 +00:00:00");
}

#[test]
fn empty_filter_is_refused() {
    assert!(matches!(prepare_deletion_or_cancelation(empty_query()), Err(Error::EmptyFilter)));

    let mut query = empty_query();
    query.uids = OptionStarOrList::List(vec![1, 2, 3]);
    query.statuses = OptionStarOrList::Star;
    query.index_uids =
        OptionStarOrList::List(vec![IndexUid("toto".to_string()), IndexUid("tata-78".to_string())]);
    let (used, scheduler_query) = prepare_deletion_or_cancelation(query).unwrap();
    assert!(used.filtered_by_uid);
    assert!(used.filtered_by_status);
    assert!(used.filtered_by_index_uid);
    assert!(!used.filtered_by_type);
    assert_eq!(scheduler_query.uids, Some(vec![1, 2, 3]));
    // a star restricts nothing
    assert_eq!(scheduler_query.statuses, None);
    assert_eq!(scheduler_query.index_uids, Some(vec!["toto".to_string(), "tata-78".to_string()]));
    assert_eq!(scheduler_query.limit, None);
    assert_eq!(scheduler_query.from, None);
}

#[test]
fn list_filter_becomes_query() {
    let filter = TasksFilterQuery {
        limit: Param(15),
        from: Some(Param(12)),
        reverse: None,
        uids: OptionStarOrList::List(vec![1, 2, 3]),
        canceled_by: OptionStarOrList::Absent,
        types: OptionStarOrList::List(vec![Kind::SettingsUpdate]),
        statuses: OptionStarOrList::List(vec![Status::Succeeded, Status::Enqueued]),
        index_uids: OptionStarOrList::Star,
        after_enqueued_at: deserialize_date_after(OptionStarOr::Other("2012-04-23".to_string()))
            .unwrap(),
        before_enqueued_at: OptionStarOr::Absent,
        after_started_at: OptionStarOr::Star,
        before_started_at: OptionStarOr::Absent,
        after_finished_at: OptionStarOr::Absent,
        before_finished_at: OptionStarOr::Absent,
    };
    let query = filter.into_query();
    assert_eq!(query.limit, Some(15));
    assert_eq!(query.from, Some(12));
    assert_eq!(query.reverse, None);
    assert_eq!(query.uids, Some(vec![1, 2, 3]));
    assert_eq!(query.types, Some(vec![Kind::SettingsUpdate]));
    assert_eq!(query.statuses, Some(vec![Status::Succeeded, Status::Enqueued]));
    assert_eq!(query.index_uids, None);
    assert_eq!(query.after_started_at, None);
    let after = query.after_enqueued_at.unwrap();
    assert_eq!(format!("{:?}", to_time(&after)), "2012-04-24 0:00:00.0 +00:00:00");
}

#[test]
fn analytics_aggregate_is_a_union() {
    let none = TaskFilterAnalytics::of(&empty_query());
    let mut query = empty_query();
    query.types = OptionStarOrList::Star;
    let types = TaskFilterAnalytics::of(&query);
    let mut query = empty_query();
    query.before_finished_at = OptionStarOr::Star;
    let finished = TaskFilterAnalytics::of(&query);
    let both = types.aggregate(finished);
    assert!(both.filtered_by_type && both.filtered_by_before_finished_at);
    assert!(!both.filtered_by_uid && !both.filtered_by_after_finished_at);
    assert_eq!(none.aggregate(none), none);
    assert_eq!(types.aggregate(none), types);
}

fn task(uid: u32) -> TaskView {
    TaskView {
        uid,
        index_uid: None,
        status: Status::Succeeded,
        kind: Kind::IndexCreation,
        canceled_by: None,
        enqueued_at: DateTime::midnight_utc(2_459_552),
        started_at: None,
        finished_at: None,
    }
}

/// The tasks with the highest identifiers first, as the scheduler lists them.
fn scheduler(total: u32, from: Option<u32>, limit: u32) -> Vec<TaskView> {
    (0..total)
        .rev()
        .filter(|uid| from.map_or(true, |from| *uid <= from))
        .take(limit as usize)
        .map(task)
        .collect()
}

#[test]
fn pagination_round_trip() {
    let asked = page_request(20);
    assert_eq!(asked, 21);
    let page = tasks_page(scheduler(50, None, asked), 50, 20);
    assert_eq!(page.limit, 20);
    assert_eq!(page.total, 50);
    assert_eq!(page.results.len(), 20);
    assert_eq!(page.from, Some(49));
    assert_eq!(page.next, Some(29));

    let second = tasks_page(scheduler(50, page.next, asked), 50, 20);
    assert_eq!(second.from, Some(29));
    assert_eq!(second.next, Some(9));
    for task in &second.results {
        assert!(page.results.iter().all(|seen| seen.uid != task.uid));
    }

    let last = tasks_page(scheduler(50, second.next, asked), 50, 20);
    assert_eq!(last.results.len(), 10);
    assert_eq!(last.from, Some(9));
    assert_eq!(last.next, None);
}

#[test]
fn pagination_edges() {
    // exactly one page
    let page = tasks_page(scheduler(20, None, 21), 20, 20);
    assert_eq!(page.results.len(), 20);
    assert_eq!(page.next, None);
    // nothing at all
    let page = tasks_page(vec![], 0, 20);
    assert_eq!(page.from, None);
    assert_eq!(page.next, None);
    assert_eq!(page.limit, 20);
    // the largest limit cannot grow, and is reported as it was asked
    assert_eq!(page_request(u32::MAX), u32::MAX);
    let page = tasks_page(scheduler(3, None, u32::MAX), 3, u32::MAX);
    assert_eq!(page.limit, u32::MAX);
    assert_eq!(page.results.len(), 3);
    assert_eq!(page.next, None);
    // a limit of zero asks for one task, which only tells that a page follows
    let page = tasks_page(scheduler(5, None, page_request(0)), 5, 0);
    assert_eq!(page.limit, 0);
    assert!(page.results.is_empty());
    assert_eq!(page.next, Some(4));
    assert_eq!(page.from, None);
    // more tasks than asked are cut to the page
    let page = tasks_page(scheduler(9, None, 9), 9, 2);
    assert_eq!(page.limit, 2);
    assert_eq!(page.results.iter().map(|t| t.uid).collect::<Vec<_>>(), vec![8, 7]);
    assert_eq!(page.next, Some(6));
}

#[test]
fn task_uid_is_a_positive_integer() {
    assert_eq!(parse_task_uid("78").unwrap(), 78);
    assert_eq!(parse_task_uid("+12").unwrap(), 12);
    assert_eq!(parse_task_uid("007").unwrap(), 7);
    assert_eq!(parse_task_uid("4294967295").unwrap(), u32::MAX);
    for text in ["", "+", "cat", "*", "-1", "12a", " 12", "4294967296", "99999999999999999999"] {
        match parse_task_uid(text) {
            Err(Error::InvalidQuery { value, .. }) => assert_eq!(value, text),
            other => panic!("{text}: {other:?}"),
        }
    }
}

#[test]
fn single_task_or_not_found() {
    let query = single_task_query(12);
    assert_eq!(query.uids, Some(vec![12]));
    assert_eq!(query.limit, None);
    assert_eq!(single_task(vec![task(12), task(11)], 12).unwrap().uid, 12);
    match single_task(vec![], 12) {
        Err(e @ Error::NotFound { id: 12 }) => assert_eq!(e.code(), "not_found"),
        other => panic!("{other:?}"),
    }
}

#[test]
fn date_filters_keep_absent_and_star() {
    assert_eq!(shown(&deserialize_date_after(OptionStarOr::Star).unwrap()), "Star");
    assert_eq!(shown(&deserialize_date_before(OptionStarOr::Star).unwrap()), "Star");
    assert_eq!(shown(&deserialize_date_after(OptionStarOr::Absent).unwrap()), "None");
    assert_eq!(shown(&deserialize_date_before(OptionStarOr::Absent).unwrap()), "None");
    let err = deserialize_date_after(OptionStarOr::Other("2021".to_string())).unwrap_err();
    assert_eq!(err.0, "2021");
    let day = deserialize_date_before(OptionStarOr::Other("2021-12-03".to_string())).unwrap();
    assert_eq!(shown(&day), "Other(2021-12-03 0:00:00.0 +00:00:00)");
}

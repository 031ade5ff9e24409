//! The errors that the library reports.

use vstd::prelude::*;

verus! {

/// What went wrong. Every kind has a stable code string, see `Error::code`.
#[derive(Debug)]
pub enum Error {
    /// The input is malformed. `parameter` names the parameter whose value
    /// was refused, or is `None` if the parameter itself is not known;
    /// `field` tells the place of what was refused and `value` holds its
    /// text.
    InvalidQuery { parameter: Option<String>, field: String, value: String },
    /// No task or document has the requested identifier.
    NotFound { id: u64 },
    /// A deletion or cancelation was requested without any filter.
    EmptyFilter,
    /// The underlying index could not be read.
    StorageFailure { message: String },
    /// Stored data does not have the shape that the library wrote.
    Internal,
}

/// The code of a value refused for a parameter: each parameter has its
/// own.
pub open spec fn parameter_code(parameter: Seq<char>) -> Seq<char> {
    if parameter == "uids"@ {
        "invalid_task_uids"@
    } else if parameter == "canceledBy"@ {
        "invalid_task_canceled_by"@
    } else if parameter == "types"@ {
        "invalid_task_types"@
    } else if parameter == "statuses"@ {
        "invalid_task_statuses"@
    } else if parameter == "indexUids"@ {
        "invalid_index_uid"@
    } else if parameter == "afterEnqueuedAt"@ {
        "invalid_task_after_enqueued_at"@
    } else if parameter == "beforeEnqueuedAt"@ {
        "invalid_task_before_enqueued_at"@
    } else if parameter == "afterStartedAt"@ {
        "invalid_task_after_started_at"@
    } else if parameter == "beforeStartedAt"@ {
        "invalid_task_before_started_at"@
    } else if parameter == "afterFinishedAt"@ {
        "invalid_task_after_finished_at"@
    } else if parameter == "beforeFinishedAt"@ {
        "invalid_task_before_finished_at"@
    } else if parameter == "limit"@ {
        "invalid_task_limit"@
    } else if parameter == "from"@ {
        "invalid_task_from"@
    } else if parameter == "reverse"@ {
        "invalid_task_reverse"@
    } else if parameter == "taskUid"@ {
        "invalid_task_uids"@
    } else if parameter == "terms"@ {
        "invalid_search_q"@
    } else if parameter == "rankingRules"@ {
        "invalid_settings_ranking_rules"@
    } else {
        "invalid_query"@
    }
}

/// Returns the code of a value refused for a parameter.
pub fn code_of_parameter(parameter: &String) -> (code: &'static str)
    ensures
        code@ == parameter_code(parameter@),
{
    if *parameter == "uids".to_owned() {
        "invalid_task_uids"
    } else if *parameter == "canceledBy".to_owned() {
        "invalid_task_canceled_by"
    } else if *parameter == "types".to_owned() {
        "invalid_task_types"
    } else if *parameter == "statuses".to_owned() {
        "invalid_task_statuses"
    } else if *parameter == "indexUids".to_owned() {
        "invalid_index_uid"
    } else if *parameter == "afterEnqueuedAt".to_owned() {
        "invalid_task_after_enqueued_at"
    } else if *parameter == "beforeEnqueuedAt".to_owned() {
        "invalid_task_before_enqueued_at"
    } else if *parameter == "afterStartedAt".to_owned() {
        "invalid_task_after_started_at"
    } else if *parameter == "beforeStartedAt".to_owned() {
        "invalid_task_before_started_at"
    } else if *parameter == "afterFinishedAt".to_owned() {
        "invalid_task_after_finished_at"
    } else if *parameter == "beforeFinishedAt".to_owned() {
        "invalid_task_before_finished_at"
    } else if *parameter == "limit".to_owned() {
        "invalid_task_limit"
    } else if *parameter == "from".to_owned() {
        "invalid_task_from"
    } else if *parameter == "reverse".to_owned() {
        "invalid_task_reverse"
    } else if *parameter == "taskUid".to_owned() {
        "invalid_task_uids"
    } else if *parameter == "terms".to_owned() {
        "invalid_search_q"
    } else if *parameter == "rankingRules".to_owned() {
        "invalid_settings_ranking_rules"
    } else {
        "invalid_query"
    }
}

impl Error {
    /// The stable code of the error. A refused value has the code of its
    /// parameter; a parameter that is not known is a bad request.
    pub open spec fn spec_code(self) -> Seq<char> {
        match self {
            Error::InvalidQuery { parameter: Some(name), .. } => parameter_code(name@),
            Error::InvalidQuery { parameter: None, .. } => "bad_request"@,
            Error::NotFound { .. } => "not_found"@,
            Error::EmptyFilter => "empty_filter"@,
            Error::StorageFailure { .. } => "storage_failure"@,
            Error::Internal => "internal"@,
        }
    }

    /// Returns the stable code of the error.
    pub fn code(&self) -> (code: &'static str)
        ensures
            code@ == self.spec_code(),
    {
        match self {
            Error::InvalidQuery { parameter: Some(name), .. } => code_of_parameter(name),
            Error::InvalidQuery { parameter: None, .. } => "bad_request",
            Error::NotFound { .. } => "not_found",
            Error::EmptyFilter => "empty_filter",
            Error::StorageFailure { .. } => "storage_failure",
            Error::Internal => "internal",
        }
    }
}

} // verus!

//! The grammar of the parameters of the task routes.
//!
//! A request comes as pairs of a name and a text. A text is one value, a
//! star, or a list of values separated by commas.

use vstd::prelude::*;
use vstd::string::StringSliceAdditionalSpecFns;
use vstd::string::StrSliceExecFns;
use vstd::utf8::encode_utf8;
use vstd::string::StringExecFns;
use crate::datetime::DateTime;
use crate::error::Error;
use crate::star_or::{OptionStarOr, OptionStarOrList};
use crate::text::{decimal, push_decimal};
use crate::routes::tasks::{
    deserialize_date, parse_task_uid, spec_deserialize_date, spec_parse_task_uid,
    DeserializeDateOption, IndexUid, Kind, Param, Status, TaskDeletionOrCancelationQuery,
    TasksFilterQuery, DEFAULT_LIMIT,
};

verus! {

/// The pieces of a text between its separators: one more than there are
/// separators in the text.
pub open spec fn split_on(text: Seq<char>, separator: char) -> Seq<Seq<char>>
    decreases text.len(),
{
    if text.len() == 0 {
        seq![Seq::empty()]
    } else {
        let before = split_on(text.drop_last(), separator);
        if text.last() == separator {
            before.push(Seq::empty())
        } else {
            before.update(before.len() - 1, before.last().push(text.last()))
        }
    }
}

/// The values of a list written with commas; an empty text holds none.
pub open spec fn comma_separated(text: Seq<char>) -> Seq<Seq<char>> {
    if text.len() == 0 {
        Seq::empty()
    } else {
        split_on(text, ',')
    }
}

/// Splits a list written with commas into its values.
pub fn split_commas(text: &str) -> (parts: Vec<String>)
    ensures
        parts@.len() == comma_separated(text@).len(),
        forall|i: int| 0 <= i < parts@.len() ==> (#[trigger] parts@[i])@ == comma_separated(text@)[i],
{
    let len = text.unicode_len();
    let mut parts: Vec<String> = Vec::new();
    if len == 0 {
        return parts;
    }
    let mut start: usize = 0;
    let mut i: usize = 0;
    proof {
        assert(text@.take(0) =~= Seq::<char>::empty());
        assert(text@.subrange(0, 0) =~= Seq::<char>::empty());
    }
    while i < len
        invariant
            len == text@.len(),
            start <= i <= len,
            split_on(text@.take(i as int), ',').len() == parts@.len() + 1,
            forall|k: int|
                0 <= k < parts@.len() ==> (#[trigger] parts@[k])@ == split_on(
                    text@.take(i as int),
                    ',',
                )[k],
            split_on(text@.take(i as int), ',').last() == text@.subrange(start as int, i as int),
        decreases len - i,
    {
        let ghost before = split_on(text@.take(i as int), ',');
        let c = text.get_char(i);
        proof {
            assert(text@.take(i + 1).drop_last() == text@.take(i as int));
            assert(text@.take(i + 1).last() == c);
        }
        if c == ',' {
            parts.push(text.substring_char(start, i).to_owned());
            start = i + 1;
            proof {
                assert(text@.subrange(start as int, i + 1) =~= Seq::<char>::empty());
            }
        } else {
            proof {
                assert(text@.subrange(start as int, i + 1) =~= text@.subrange(
                    start as int,
                    i as int,
                ).push(c));
            }
        }
        i += 1;
    }
    parts.push(text.substring_char(start, len).to_owned());
    proof {
        assert(text@.take(len as int) == text@);
    }
    parts
}

/// A kind of value that a parameter can hold.
pub trait FromQueryParameter: Sized {
    /// Whether the text writes a value of this kind.
    spec fn accepted(text: Seq<char>) -> bool;

    /// Whether `value` is the value that the text writes.
    spec fn written_as(value: Self, text: Seq<char>) -> bool;

    /// Reads a value, if the text writes one.
    fn from_query_param(text: &str) -> (value: Option<Self>)
        ensures
            value is Some <==> Self::accepted(text@),
            value matches Some(v) ==> Self::written_as(v, text@),
    ;
}

impl FromQueryParameter for u32 {
    open spec fn accepted(text: Seq<char>) -> bool {
        spec_parse_task_uid(encode_utf8(text)) is Some
    }

    open spec fn written_as(value: u32, text: Seq<char>) -> bool {
        spec_parse_task_uid(encode_utf8(text)) == Some(value)
    }

    fn from_query_param(text: &str) -> (value: Option<u32>) {
        match parse_task_uid(text) {
            Ok(number) => Some(number),
            Err(_) => None,
        }
    }
}

impl FromQueryParameter for bool {
    open spec fn accepted(text: Seq<char>) -> bool {
        text == "true"@ || text == "false"@
    }

    open spec fn written_as(value: bool, text: Seq<char>) -> bool {
        value == (text == "true"@)
    }

    fn from_query_param(text: &str) -> (value: Option<bool>) {
        let text = text.to_owned();
        if text == "true".to_owned() {
            Some(true)
        } else if text == "false".to_owned() {
            Some(false)
        } else {
            None
        }
    }
}

impl Status {
    /// The status that a name stands for.
    pub open spec fn spec_from_name(name: Seq<char>) -> Option<Status> {
        if name == "enqueued"@ {
            Some(Status::Enqueued)
        } else if name == "processing"@ {
            Some(Status::Processing)
        } else if name == "succeeded"@ {
            Some(Status::Succeeded)
        } else if name == "failed"@ {
            Some(Status::Failed)
        } else if name == "canceled"@ {
            Some(Status::Canceled)
        } else {
            None
        }
    }
}

impl FromQueryParameter for Status {
    open spec fn accepted(text: Seq<char>) -> bool {
        Status::spec_from_name(text) is Some
    }

    open spec fn written_as(value: Status, text: Seq<char>) -> bool {
        Status::spec_from_name(text) == Some(value)
    }

    fn from_query_param(text: &str) -> (value: Option<Status>) {
        let text = text.to_owned();
        if text == "enqueued".to_owned() {
            Some(Status::Enqueued)
        } else if text == "processing".to_owned() {
            Some(Status::Processing)
        } else if text == "succeeded".to_owned() {
            Some(Status::Succeeded)
        } else if text == "failed".to_owned() {
            Some(Status::Failed)
        } else if text == "canceled".to_owned() {
            Some(Status::Canceled)
        } else {
            None
        }
    }
}

impl Kind {
    /// The kind of task that a name stands for.
    pub open spec fn spec_from_name(name: Seq<char>) -> Option<Kind> {
        if name == "documentAdditionOrUpdate"@ {
            Some(Kind::DocumentAdditionOrUpdate)
        } else if name == "documentEdition"@ {
            Some(Kind::DocumentEdition)
        } else if name == "documentDeletion"@ {
            Some(Kind::DocumentDeletion)
        } else if name == "settingsUpdate"@ {
            Some(Kind::SettingsUpdate)
        } else if name == "indexCreation"@ {
            Some(Kind::IndexCreation)
        } else if name == "indexDeletion"@ {
            Some(Kind::IndexDeletion)
        } else if name == "indexUpdate"@ {
            Some(Kind::IndexUpdate)
        } else if name == "indexSwap"@ {
            Some(Kind::IndexSwap)
        } else if name == "taskCancelation"@ {
            Some(Kind::TaskCancelation)
        } else if name == "taskDeletion"@ {
            Some(Kind::TaskDeletion)
        } else if name == "dumpCreation"@ {
            Some(Kind::DumpCreation)
        } else if name == "snapshotCreation"@ {
            Some(Kind::SnapshotCreation)
        } else {
            None
        }
    }
}

impl FromQueryParameter for Kind {
    open spec fn accepted(text: Seq<char>) -> bool {
        Kind::spec_from_name(text) is Some
    }

    open spec fn written_as(value: Kind, text: Seq<char>) -> bool {
        Kind::spec_from_name(text) == Some(value)
    }

    fn from_query_param(text: &str) -> (value: Option<Kind>) {
        let text = text.to_owned();
        if text == "documentAdditionOrUpdate".to_owned() {
            Some(Kind::DocumentAdditionOrUpdate)
        } else if text == "documentEdition".to_owned() {
            Some(Kind::DocumentEdition)
        } else if text == "documentDeletion".to_owned() {
            Some(Kind::DocumentDeletion)
        } else if text == "settingsUpdate".to_owned() {
            Some(Kind::SettingsUpdate)
        } else if text == "indexCreation".to_owned() {
            Some(Kind::IndexCreation)
        } else if text == "indexDeletion".to_owned() {
            Some(Kind::IndexDeletion)
        } else if text == "indexUpdate".to_owned() {
            Some(Kind::IndexUpdate)
        } else if text == "indexSwap".to_owned() {
            Some(Kind::IndexSwap)
        } else if text == "taskCancelation".to_owned() {
            Some(Kind::TaskCancelation)
        } else if text == "taskDeletion".to_owned() {
            Some(Kind::TaskDeletion)
        } else if text == "dumpCreation".to_owned() {
            Some(Kind::DumpCreation)
        } else if text == "snapshotCreation".to_owned() {
            Some(Kind::SnapshotCreation)
        } else {
            None
        }
    }
}

/// Whether the byte may stand in the name of an index: a letter or a digit
/// of ASCII, a hyphen or an underscore.
pub open spec fn is_index_uid_byte(byte: u8) -> bool {
    ||| 48 <= byte <= 57
    ||| 65 <= byte <= 90
    ||| 97 <= byte <= 122
    ||| byte == 45
    ||| byte == 95
}

/// Whether the text is the name of an index: from 1 to 512 bytes, each of
/// which may stand in such a name.
pub open spec fn is_index_uid(bytes: Seq<u8>) -> bool {
    &&& 1 <= bytes.len() <= 512
    &&& forall|i: int| 0 <= i < bytes.len() ==> is_index_uid_byte(#[trigger] bytes[i])
}

impl FromQueryParameter for IndexUid {
    open spec fn accepted(text: Seq<char>) -> bool {
        is_index_uid(encode_utf8(text))
    }

    open spec fn written_as(value: IndexUid, text: Seq<char>) -> bool {
        value.0@ == text
    }

    fn from_query_param(text: &str) -> (value: Option<IndexUid>) {
        let bytes = text.as_bytes();
        if bytes.len() == 0 || bytes.len() > 512 {
            return None;
        }
        let mut i: usize = 0;
        while i < bytes.len()
            invariant
                i <= bytes@.len(),
                bytes@ == encode_utf8(text@),
                forall|k: int| 0 <= k < i ==> is_index_uid_byte(#[trigger] bytes@[k]),
            decreases bytes@.len() - i,
        {
            let byte = bytes[i];
            let fits = (48 <= byte && byte <= 57) || (65 <= byte && byte <= 90) || (97 <= byte
                && byte <= 122) || byte == 45 || byte == 95;
            if !fits {
                assert(!is_index_uid_byte(bytes@[i as int]));
                return None;
            }
            i += 1;
        }
        Some(IndexUid(text.to_owned()))
    }
}

/// The name under which an error tells the place of a value: the name of
/// the parameter, followed by the index of the value between brackets if
/// the parameter holds several values.
pub open spec fn place_name(name: Seq<char>, index: int, count: int) -> Seq<char> {
    if count > 1 {
        name + seq!['['] + decimal(index as nat) + seq![']']
    } else {
        name
    }
}

fn place(name: &str, index: usize, count: usize) -> (field: String)
    ensures
        field@ == place_name(name@, index as int, count as int),
{
    let mut field = name.to_owned();
    if count > 1 {
        proof {
            reveal_strlit("[");
            reveal_strlit("]");
        }
        field.append("[");
        push_decimal(&mut field, index as u64);
        field.append("]");
        assert(field@ =~= name@ + seq!['['] + decimal(index as nat) + seq![']']);
    }
    field
}

/// Whether a value of a list is refused: it is no star and does not write
/// a value of the kind `T`.
pub open spec fn is_refused<T: FromQueryParameter>(part: Seq<char>) -> bool {
    part != seq!['*'] && !T::accepted(part)
}

/// The index of the first refused value among the first `n`, if any.
pub open spec fn first_refused<T: FromQueryParameter>(parts: Seq<Seq<char>>, n: int) -> Option<
    int,
>
    decreases n,
{
    if n <= 0 {
        None
    } else {
        match first_refused::<T>(parts, n - 1) {
            Some(i) => Some(i),
            None => if is_refused::<T>(parts[n - 1]) {
                Some(n - 1)
            } else {
                None
            },
        }
    }
}

/// Whether the list reads as `field`: a star if one of the values is a
/// star, else the values in their order.
pub open spec fn list_reads_as<T: FromQueryParameter>(
    parts: Seq<Seq<char>>,
    field: OptionStarOrList<T>,
) -> bool {
    if exists|i: int| 0 <= i < parts.len() && #[trigger] parts[i] == seq!['*'] {
        field is Star
    } else {
        &&& field matches OptionStarOrList::List(values)
        &&& values@.len() == parts.len()
        &&& forall|i: int| 0 <= i < parts.len() ==> T::written_as(#[trigger] values@[i], parts[i])
    }
}

/// Reads the text of a parameter that holds a list: values separated by
/// commas, each a star or a value of the kind `T`. The first value that is
/// neither is refused with `InvalidQuery`, which tells its place and holds
/// its text. A list with a star is a star. An empty text is an empty list.
pub fn parse_star_or_list<T: FromQueryParameter>(name: &str, text: &str) -> (r: Result<
    OptionStarOrList<T>,
    Error,
>)
    ensures
        match first_refused::<T>(comma_separated(text@), comma_separated(text@).len() as int) {
            Some(i) => (r matches Err(
                Error::InvalidQuery { parameter: Some(parameter), field, value },
            ) && parameter@ == name@ && value@ == comma_separated(text@)[i] && field@
                == place_name(name@, i, comma_separated(text@).len() as int)),
            None => (r matches Ok(field) && list_reads_as(comma_separated(text@), field)),
        },
{
    let parts = split_commas(text);
    let ghost wanted = comma_separated(text@);
    let count = parts.len();
    let mut values: Vec<T> = Vec::new();
    let mut is_star = false;
    let mut i: usize = 0;
    proof {
        reveal_strlit("*");
    }
    while i < count
        invariant
            i <= count,
            count == parts@.len(),
            wanted.len() == count,
            wanted == comma_separated(text@),
            forall|k: int| 0 <= k < count ==> (#[trigger] parts@[k])@ == wanted[k],
            first_refused::<T>(wanted, i as int) is None,
            is_star == exists|k: int| 0 <= k < i && #[trigger] wanted[k] == seq!['*'],
            !is_star ==> values@.len() == i,
            !is_star ==> forall|k: int| 0 <= k < i ==> T::written_as(#[trigger] values@[k], wanted[k]),
        decreases count - i,
    {
        assert(parts@[i as int]@ == wanted[i as int]);
        let ghost was_star = is_star;
        proof {
            reveal_strlit("*");
            assert("*"@ =~= seq!['*']);
        }
        if parts[i] == "*".to_owned() {
            is_star = true;
            assert(wanted[i as int] == seq!['*']);
        } else {
            assert("*"@ =~= seq!['*']);
            assert(wanted[i as int] != seq!['*']);
            match T::from_query_param(parts[i].as_str()) {
                Some(value) => {
                    values.push(value);
                },
                None => {
                    proof {
                        assert(is_refused::<T>(wanted[i as int]));
                        assert(first_refused::<T>(wanted, i + 1) == Some(i as int));
                        lemma_first_refused_stays::<T>(wanted, i + 1, count as int);
                    }
                    return Err(
                        Error::InvalidQuery {
                            parameter: Some(name.to_owned()),
                            field: place(name, i, count),
                            value: parts[i].clone(),
                        },
                    );
                },
            }
            proof {
                if was_star {
                    let k = choose|k: int| 0 <= k < i && #[trigger] wanted[k] == seq!['*'];
                    assert(wanted[k] == seq!['*']);
                }
            }
        }
        i += 1;
    }
    if is_star {
        Ok(OptionStarOrList::Star)
    } else {
        Ok(OptionStarOrList::List(values))
    }
}

/// The first refused value stays the first when more values are looked at.
proof fn lemma_first_refused_stays<T: FromQueryParameter>(parts: Seq<Seq<char>>, n: int, m: int)
    requires
        0 <= n <= m,
        first_refused::<T>(parts, n) is Some,
    ensures
        first_refused::<T>(parts, m) == first_refused::<T>(parts, n),
    decreases m - n,
{
    if n < m {
        lemma_first_refused_stays::<T>(parts, n, m - 1);
    }
}

/// Reads the text of a parameter that holds one value of the kind `T`. A
/// text that does not write such a value is refused with `InvalidQuery`,
/// which holds the name of the parameter and the text.
pub fn parse_param<T: FromQueryParameter>(name: &str, text: &str) -> (r: Result<T, Error>)
    ensures
        T::accepted(text@) ==> (r matches Ok(value) && T::written_as(value, text@)),
        !T::accepted(text@) ==> (r matches Err(
            Error::InvalidQuery { parameter: Some(parameter), field, value },
        ) && parameter@ == name@ && field@ == name@ && value@ == text@),
{
    match T::from_query_param(text) {
        Some(value) => Ok(value),
        None => Err(
            Error::InvalidQuery {
                parameter: Some(name.to_owned()),
                field: name.to_owned(),
                value: text.to_owned(),
            },
        ),
    }
}

/// What the text of a date parameter reads as: a star, or the date that
/// the side of the filter makes of it.
pub open spec fn date_reads_as(
    text: Seq<char>,
    option: DeserializeDateOption,
    field: OptionStarOr<DateTime>,
) -> bool {
    if text == seq!['*'] {
        field is Star
    } else {
        spec_deserialize_date(text, option) matches Some(datetime) && field == OptionStarOr::Other(
            datetime,
        )
    }
}

/// Reads the text of a date parameter: a star, a full date and time, or a
/// date alone. Any other text is refused with `InvalidQuery`, which holds
/// the name of the parameter and the text.
pub fn parse_date_param(name: &str, text: &str, option: DeserializeDateOption) -> (r: Result<
    OptionStarOr<DateTime>,
    Error,
>)
    ensures
        text@ == seq!['*'] || spec_deserialize_date(text@, option) is Some ==> (r matches Ok(field)
            && date_reads_as(text@, option, field)),
        !(text@ == seq!['*'] || spec_deserialize_date(text@, option) is Some) ==> (
        r matches Err(Error::InvalidQuery { parameter: Some(parameter), field, value })
            && parameter@ == name@ && field@ == name@ && value@ == text@),
{
    proof {
        reveal_strlit("*");
        assert("*"@ =~= seq!['*']);
    }
    if text.to_owned() == "*".to_owned() {
        Ok(OptionStarOr::Star)
    } else {
        match deserialize_date(text, option) {
            Ok(datetime) => Ok(OptionStarOr::Other(datetime)),
            Err(_) => Err(
                Error::InvalidQuery {
                    parameter: Some(name.to_owned()),
                    field: name.to_owned(),
                    value: text.to_owned(),
                },
            ),
        }
    }
}

/// What a refusal tells: the parameter whose value was refused, or `None`
/// if the parameter itself is not known; the place of the text that was
/// refused; and the text.
pub type Refusal = (Option<Seq<char>>, Seq<char>, Seq<char>);

/// The text given for a parameter: that of the last pair with its name.
pub open spec fn given(params: Seq<(String, String)>, name: Seq<char>) -> Option<Seq<char>>
    decreases params.len(),
{
    if params.len() == 0 {
        None
    } else if params.last().0@ == name {
        Some(params.last().1@)
    } else {
        given(params.drop_last(), name)
    }
}

fn find_param<'a>(params: &'a Vec<(String, String)>, name: &str) -> (text: Option<&'a String>)
    ensures
        match given(params@, name@) {
            Some(t) => text matches Some(found) && found@ == t,
            None => text is None,
        },
{
    let wanted = name.to_owned();
    let mut i: usize = params.len();
    proof {
        assert(params@.take(i as int) == params@);
    }
    while i > 0
        invariant
            i <= params@.len(),
            wanted@ == name@,
            given(params@, name@) == given(params@.take(i as int), name@),
        decreases i,
    {
        let ghost head = params@.take(i as int);
        proof {
            assert(head.last() == params@[i - 1]);
            assert(head.drop_last() == params@.take(i - 1));
        }
        if params[i - 1].0 == wanted {
            return Some(&params[i - 1].1);
        }
        i -= 1;
    }
    None
}

/// Why the text of a list parameter is refused, if it is.
pub open spec fn list_refusal<T: FromQueryParameter>(
    name: Seq<char>,
    text: Option<Seq<char>>,
) -> Option<Refusal> {
    match text {
        Some(t) => {
            let parts = comma_separated(t);
            match first_refused::<T>(parts, parts.len() as int) {
                Some(i) => Some((Some(name), place_name(name, i, parts.len() as int), parts[i])),
                None => None,
            }
        },
        None => None,
    }
}

/// Whether the field holds what the text of a list parameter reads as;
/// a parameter that was not given leaves the field absent.
pub open spec fn list_field_reads<T: FromQueryParameter>(
    text: Option<Seq<char>>,
    field: OptionStarOrList<T>,
) -> bool {
    match text {
        Some(t) => list_reads_as(comma_separated(t), field),
        None => field is Absent,
    }
}

/// Why the text of a date parameter is refused, if it is.
pub open spec fn date_refusal(
    name: Seq<char>,
    text: Option<Seq<char>>,
    option: DeserializeDateOption,
) -> Option<Refusal> {
    match text {
        Some(t) => if t == seq!['*'] || spec_deserialize_date(t, option) is Some {
            None
        } else {
            Some((Some(name), name, t))
        },
        None => None,
    }
}

/// Whether the field holds what the text of a date parameter reads as; a
/// parameter that was not given leaves the field absent.
pub open spec fn date_field_reads(
    text: Option<Seq<char>>,
    option: DeserializeDateOption,
    field: OptionStarOr<DateTime>,
) -> bool {
    match text {
        Some(t) => date_reads_as(t, option, field),
        None => field is Absent,
    }
}

/// Why the text of a parameter with one value is refused, if it is.
pub open spec fn value_refusal<T: FromQueryParameter>(
    name: Seq<char>,
    text: Option<Seq<char>>,
) -> Option<Refusal> {
    match text {
        Some(t) => if T::accepted(t) {
            None
        } else {
            Some((Some(name), name, t))
        },
        None => None,
    }
}

/// The error that tells a refusal.
pub open spec fn tells(e: Error, refusal: Refusal) -> bool {
    e matches Error::InvalidQuery { parameter, field, value } && (match refusal.0 {
        Some(name) => parameter matches Some(p) && p@ == name,
        None => parameter is None,
    }) && field@ == refusal.1 && value@ == refusal.2
}

fn list_field<T: FromQueryParameter>(params: &Vec<(String, String)>, name: &str) -> (r: Result<
    OptionStarOrList<T>,
    Error,
>)
    ensures
        match list_refusal::<T>(name@, given(params@, name@)) {
            Some(refusal) => r matches Err(e) && tells(e, refusal),
            None => r matches Ok(field) && list_field_reads(given(params@, name@), field),
        },
{
    match find_param(params, name) {
        Some(text) => parse_star_or_list::<T>(name, text.as_str()),
        None => Ok(OptionStarOrList::Absent),
    }
}

fn date_field(params: &Vec<(String, String)>, name: &str, option: DeserializeDateOption) -> (r:
    Result<OptionStarOr<DateTime>, Error>)
    ensures
        match date_refusal(name@, given(params@, name@), option) {
            Some(refusal) => r matches Err(e) && tells(e, refusal),
            None => r matches Ok(field) && date_field_reads(given(params@, name@), option, field),
        },
{
    match find_param(params, name) {
        Some(text) => parse_date_param(name, text.as_str(), option),
        None => Ok(OptionStarOr::Absent),
    }
}

/// The names of the parameters of a deletion or cancelation.
pub open spec fn is_filter_name(name: Seq<char>) -> bool {
    ||| name == "uids"@
    ||| name == "canceledBy"@
    ||| name == "types"@
    ||| name == "statuses"@
    ||| name == "indexUids"@
    ||| name == "afterEnqueuedAt"@
    ||| name == "beforeEnqueuedAt"@
    ||| name == "afterStartedAt"@
    ||| name == "beforeStartedAt"@
    ||| name == "afterFinishedAt"@
    ||| name == "beforeFinishedAt"@
}

/// The names of the parameters of a listing: those of a filter, and the
/// limit, the start and the direction.
pub open spec fn is_listing_name(name: Seq<char>) -> bool {
    ||| is_filter_name(name)
    ||| name == "limit"@
    ||| name == "from"@
    ||| name == "reverse"@
}

fn filter_name(name: &String) -> (known: bool)
    ensures
        known == is_filter_name(name@),
{
    *name == "uids".to_owned() || *name == "canceledBy".to_owned() || *name == "types".to_owned()
        || *name == "statuses".to_owned() || *name == "indexUids".to_owned() || *name
        == "afterEnqueuedAt".to_owned() || *name == "beforeEnqueuedAt".to_owned() || *name
        == "afterStartedAt".to_owned() || *name == "beforeStartedAt".to_owned() || *name
        == "afterFinishedAt".to_owned() || *name == "beforeFinishedAt".to_owned()
}

fn listing_name(name: &String) -> (known: bool)
    ensures
        known == is_listing_name(name@),
{
    filter_name(name) || *name == "limit".to_owned() || *name == "from".to_owned() || *name
        == "reverse".to_owned()
}

/// The first pair whose name is not known, among the first `n`.
pub open spec fn first_unknown(params: Seq<(String, String)>, listing: bool, n: int) -> Option<
    Refusal,
>
    decreases n,
{
    if n <= 0 {
        None
    } else {
        match first_unknown(params, listing, n - 1) {
            Some(refusal) => Some(refusal),
            None => {
                let name = params[n - 1].0@;
                if (listing && is_listing_name(name)) || (!listing && is_filter_name(name)) {
                    None
                } else {
                    Some((None, name, params[n - 1].1@))
                }
            },
        }
    }
}

fn check_names(params: &Vec<(String, String)>, listing: bool) -> (r: Result<(), Error>)
    ensures
        match first_unknown(params@, listing, params@.len() as int) {
            Some(refusal) => r matches Err(e) && tells(e, refusal),
            None => r is Ok,
        },
{
    let mut i: usize = 0;
    while i < params.len()
        invariant
            i <= params@.len(),
            first_unknown(params@, listing, i as int) is None,
        decreases params@.len() - i,
    {
        let known = if listing {
            listing_name(&params[i].0)
        } else {
            filter_name(&params[i].0)
        };
        if !known {
            proof {
                lemma_first_unknown_stays(params@, listing, i + 1, params@.len() as int);
            }
            return Err(
                Error::InvalidQuery {
                    parameter: None,
                    field: params[i].0.clone(),
                    value: params[i].1.clone(),
                },
            );
        }
        i += 1;
    }
    Ok(())
}

proof fn lemma_first_unknown_stays(params: Seq<(String, String)>, listing: bool, n: int, m: int)
    requires
        0 <= n <= m,
        first_unknown(params, listing, n) is Some,
    ensures
        first_unknown(params, listing, m) == first_unknown(params, listing, n),
    decreases m - n,
{
    if n < m {
        lemma_first_unknown_stays(params, listing, n, m - 1);
    }
}

/// The first of two refusals, if any.
pub open spec fn or_else(first: Option<Refusal>, second: Option<Refusal>) -> Option<Refusal> {
    match first {
        Some(refusal) => Some(refusal),
        None => second,
    }
}

/// Why the parameters of a filter are refused, if they are: the first
/// pair with an unknown name; or else the first of the parameters, in the
/// order uids, canceledBy, types, statuses, indexUids, then the dates,
/// whose text is refused.
pub open spec fn filter_refusal(params: Seq<(String, String)>, listing: bool) -> Option<Refusal> {
    let after = DeserializeDateOption::After;
    let before = DeserializeDateOption::Before;
    or_else(
        first_unknown(params, listing, params.len() as int),
        or_else(
            list_refusal::<u32>("uids"@, given(params, "uids"@)),
            or_else(
                list_refusal::<u32>("canceledBy"@, given(params, "canceledBy"@)),
                or_else(
                    list_refusal::<Kind>("types"@, given(params, "types"@)),
                    or_else(
                        list_refusal::<Status>("statuses"@, given(params, "statuses"@)),
                        or_else(
                            list_refusal::<IndexUid>("indexUids"@, given(params, "indexUids"@)),
                            or_else(
                                date_refusal(
                                    "afterEnqueuedAt"@,
                                    given(params, "afterEnqueuedAt"@),
                                    after,
                                ),
                                or_else(
                                    date_refusal(
                                        "beforeEnqueuedAt"@,
                                        given(params, "beforeEnqueuedAt"@),
                                        before,
                                    ),
                                    or_else(
                                        date_refusal(
                                            "afterStartedAt"@,
                                            given(params, "afterStartedAt"@),
                                            after,
                                        ),
                                        or_else(
                                            date_refusal(
                                                "beforeStartedAt"@,
                                                given(params, "beforeStartedAt"@),
                                                before,
                                            ),
                                            or_else(
                                                date_refusal(
                                                    "afterFinishedAt"@,
                                                    given(params, "afterFinishedAt"@),
                                                    after,
                                                ),
                                                date_refusal(
                                                    "beforeFinishedAt"@,
                                                    given(params, "beforeFinishedAt"@),
                                                    before,
                                                ),
                                            ),
                                        ),
                                    ),
                                ),
                            ),
                        ),
                    ),
                ),
            ),
        ),
    )
}

/// Whether the filter holds what the parameters read as.
pub open spec fn filter_reads(
    params: Seq<(String, String)>,
    query: TaskDeletionOrCancelationQuery,
) -> bool {
    let after = DeserializeDateOption::After;
    let before = DeserializeDateOption::Before;
    &&& list_field_reads(given(params, "uids"@), query.uids)
    &&& list_field_reads(given(params, "canceledBy"@), query.canceled_by)
    &&& list_field_reads(given(params, "types"@), query.types)
    &&& list_field_reads(given(params, "statuses"@), query.statuses)
    &&& list_field_reads(given(params, "indexUids"@), query.index_uids)
    &&& date_field_reads(given(params, "afterEnqueuedAt"@), after, query.after_enqueued_at)
    &&& date_field_reads(given(params, "beforeEnqueuedAt"@), before, query.before_enqueued_at)
    &&& date_field_reads(given(params, "afterStartedAt"@), after, query.after_started_at)
    &&& date_field_reads(given(params, "beforeStartedAt"@), before, query.before_started_at)
    &&& date_field_reads(given(params, "afterFinishedAt"@), after, query.after_finished_at)
    &&& date_field_reads(given(params, "beforeFinishedAt"@), before, query.before_finished_at)
}

fn read_filter(params: &Vec<(String, String)>, listing: bool) -> (r: Result<
    TaskDeletionOrCancelationQuery,
    Error,
>)
    ensures
        match filter_refusal(params@, listing) {
            Some(refusal) => r matches Err(e) && tells(e, refusal),
            None => r matches Ok(query) && filter_reads(params@, query),
        },
{
    match check_names(params, listing) {
        Ok(()) => {},
        Err(e) => {
            return Err(e);
        },
    }
    let uids = match list_field::<u32>(params, "uids") {
        Ok(field) => field,
        Err(e) => {
            return Err(e);
        },
    };
    let canceled_by = match list_field::<u32>(params, "canceledBy") {
        Ok(field) => field,
        Err(e) => {
            return Err(e);
        },
    };
    let types = match list_field::<Kind>(params, "types") {
        Ok(field) => field,
        Err(e) => {
            return Err(e);
        },
    };
    let statuses = match list_field::<Status>(params, "statuses") {
        Ok(field) => field,
        Err(e) => {
            return Err(e);
        },
    };
    let index_uids = match list_field::<IndexUid>(params, "indexUids") {
        Ok(field) => field,
        Err(e) => {
            return Err(e);
        },
    };
    let after_enqueued_at = match date_field(
        params,
        "afterEnqueuedAt",
        DeserializeDateOption::After,
    ) {
        Ok(field) => field,
        Err(e) => {
            return Err(e);
        },
    };
    let before_enqueued_at = match date_field(
        params,
        "beforeEnqueuedAt",
        DeserializeDateOption::Before,
    ) {
        Ok(field) => field,
        Err(e) => {
            return Err(e);
        },
    };
    let after_started_at = match date_field(params, "afterStartedAt", DeserializeDateOption::After) {
        Ok(field) => field,
        Err(e) => {
            return Err(e);
        },
    };
    let before_started_at = match date_field(
        params,
        "beforeStartedAt",
        DeserializeDateOption::Before,
    ) {
        Ok(field) => field,
        Err(e) => {
            return Err(e);
        },
    };
    let after_finished_at = match date_field(
        params,
        "afterFinishedAt",
        DeserializeDateOption::After,
    ) {
        Ok(field) => field,
        Err(e) => {
            return Err(e);
        },
    };
    let before_finished_at = match date_field(
        params,
        "beforeFinishedAt",
        DeserializeDateOption::Before,
    ) {
        Ok(field) => field,
        Err(e) => {
            return Err(e);
        },
    };
    Ok(
        TaskDeletionOrCancelationQuery {
            uids,
            canceled_by,
            types,
            statuses,
            index_uids,
            after_enqueued_at,
            before_enqueued_at,
            after_started_at,
            before_started_at,
            after_finished_at,
            before_finished_at,
        },
    )
}

impl TaskDeletionOrCancelationQuery {
    /// Reads the filter of a deletion or cancelation in the parameters of
    /// the request, each a name and a text.
    ///
    /// The names are `uids`, `canceledBy`, `types`, `statuses`,
    /// `indexUids`, and `afterEnqueuedAt`, `beforeEnqueuedAt`,
    /// `afterStartedAt`, `beforeStartedAt`, `afterFinishedAt`,
    /// `beforeFinishedAt`. Of two pairs with one name the last counts. The
    /// first five hold lists, the others dates. A parameter that is not
    /// given leaves its filter absent.
    ///
    /// The parameters are refused with `InvalidQuery` if a name is not
    /// known, which is told first, or if a text cannot be read; the error
    /// tells the place and holds the text.
    pub fn from_params(params: &Vec<(String, String)>) -> (r: Result<
        TaskDeletionOrCancelationQuery,
        Error,
    >)
        ensures
            match filter_refusal(params@, false) {
                Some(refusal) => r matches Err(e) && tells(e, refusal),
                None => r matches Ok(query) && filter_reads(params@, query),
            },
    {
        read_filter(params, false)
    }
}

/// Why the parameters of a listing are refused, if they are: as for a
/// filter, then the limit, the start and the direction.
pub open spec fn listing_refusal(params: Seq<(String, String)>) -> Option<Refusal> {
    or_else(
        filter_refusal(params, true),
        or_else(
            value_refusal::<u32>("limit"@, given(params, "limit"@)),
            or_else(
                value_refusal::<u32>("from"@, given(params, "from"@)),
                value_refusal::<bool>("reverse"@, given(params, "reverse"@)),
            ),
        ),
    )
}

/// Whether the listing holds what the parameters read as.
pub open spec fn listing_reads(params: Seq<(String, String)>, query: TasksFilterQuery) -> bool {
    let after = DeserializeDateOption::After;
    let before = DeserializeDateOption::Before;
    &&& match given(params, "limit"@) {
        Some(t) => u32::written_as(query.limit.0, t),
        None => query.limit.0 == DEFAULT_LIMIT,
    }
    &&& match given(params, "from"@) {
        Some(t) => query.from matches Some(from) && u32::written_as(from.0, t),
        None => query.from is None,
    }
    &&& match given(params, "reverse"@) {
        Some(t) => query.reverse matches Some(reverse) && bool::written_as(reverse.0, t),
        None => query.reverse is None,
    }
    &&& list_field_reads(given(params, "uids"@), query.uids)
    &&& list_field_reads(given(params, "canceledBy"@), query.canceled_by)
    &&& list_field_reads(given(params, "types"@), query.types)
    &&& list_field_reads(given(params, "statuses"@), query.statuses)
    &&& list_field_reads(given(params, "indexUids"@), query.index_uids)
    &&& date_field_reads(given(params, "afterEnqueuedAt"@), after, query.after_enqueued_at)
    &&& date_field_reads(given(params, "beforeEnqueuedAt"@), before, query.before_enqueued_at)
    &&& date_field_reads(given(params, "afterStartedAt"@), after, query.after_started_at)
    &&& date_field_reads(given(params, "beforeStartedAt"@), before, query.before_started_at)
    &&& date_field_reads(given(params, "afterFinishedAt"@), after, query.after_finished_at)
    &&& date_field_reads(given(params, "beforeFinishedAt"@), before, query.before_finished_at)
}

impl TasksFilterQuery {
    /// Reads the filter of a listing in the parameters of the request.
    ///
    /// The names are those of a deletion or cancelation, and `limit`,
    /// `from` and `reverse`, which hold one value each: a number, a
    /// number, and `true` or `false`. Without `limit` the page holds
    /// `DEFAULT_LIMIT` tasks.
    ///
    /// The parameters are refused with `InvalidQuery` if a name is not
    /// known, which is told first, or if a text cannot be read; the error
    /// tells the place and holds the text.
    pub fn from_params(params: &Vec<(String, String)>) -> (r: Result<TasksFilterQuery, Error>)
        ensures
            match listing_refusal(params@) {
                Some(refusal) => r matches Err(e) && tells(e, refusal),
                None => r matches Ok(query) && listing_reads(params@, query),
            },
    {
        let filter = match read_filter(params, true) {
            Ok(filter) => filter,
            Err(e) => {
                return Err(e);
            },
        };
        let limit = match find_param(params, "limit") {
            Some(text) => match parse_param::<u32>("limit", text.as_str()) {
                Ok(limit) => limit,
                Err(e) => {
                    return Err(e);
                },
            },
            None => DEFAULT_LIMIT,
        };
        let from = match find_param(params, "from") {
            Some(text) => match parse_param::<u32>("from", text.as_str()) {
                Ok(from) => Some(Param(from)),
                Err(e) => {
                    return Err(e);
                },
            },
            None => None,
        };
        let reverse = match find_param(params, "reverse") {
            Some(text) => match parse_param::<bool>("reverse", text.as_str()) {
                Ok(reverse) => Some(Param(reverse)),
                Err(e) => {
                    return Err(e);
                },
            },
            None => None,
        };
        Ok(
            TasksFilterQuery {
                limit: Param(limit),
                from,
                reverse,
                uids: filter.uids,
                canceled_by: filter.canceled_by,
                types: filter.types,
                statuses: filter.statuses,
                index_uids: filter.index_uids,
                after_enqueued_at: filter.after_enqueued_at,
                before_enqueued_at: filter.before_enqueued_at,
                after_started_at: filter.after_started_at,
                before_started_at: filter.before_started_at,
                after_finished_at: filter.after_finished_at,
                before_finished_at: filter.before_finished_at,
            },
        )
    }
}

} // verus!

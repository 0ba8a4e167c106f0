//! The functions that scripts can call, by name and number of arguments.

use crate::datastore::events_of;
use crate::datastore::find_bucket;
use crate::datastore::names_of;
use crate::datastore::texts_of;
use crate::datastore::within;
use crate::datastore::BucketValue;
use crate::datastore::Datastore;
use crate::datatype::values_of;
use crate::datatype::DataType;
use crate::datatype::Event;
use crate::datatype::EventValue;
use crate::datatype::Value;
use crate::error::outcome;
use crate::error::Failure;
use crate::error::QueryError;
use crate::text::same_text;
use crate::transform::clipped_all;
use crate::transform::filter_keyvals;
use crate::transform::filter_period_intersect;
use crate::transform::filtered_by_key;
use crate::transform::first_events;
use crate::transform::limit_events;
use crate::transform::merge_events_by_keys;
use crate::transform::merged;
use crate::transform::sort_by_timestamp;
use crate::transform::sorted_by_timestamp;
use crate::transform::sum_durations;
use crate::transform::total_duration;
use crate::varenv::peeked;
use crate::varenv::Store;
use crate::varenv::VarEnv;
use vstd::prelude::*;
use vstd::string::StrSliceExecFns;

verus! {

/// How many arguments the function `name` takes, where there is such a function.
pub open spec fn arity(name: Seq<char>) -> Option<nat> {
    if name == "query_bucket"@ {
        Some(1)
    } else if name == "query_bucket_names"@ {
        Some(0)
    } else if name == "filter_keyvals"@ {
        Some(3)
    } else if name == "filter_period_intersect"@ {
        Some(2)
    } else if name == "limit_events"@ {
        Some(2)
    } else if name == "merge_events_by_keys"@ {
        Some(2)
    } else if name == "sum_durations"@ {
        Some(1)
    } else if name == "sort_by_timestamp"@ {
        Some(1)
    } else if name == "length"@ {
        Some(1)
    } else if name == "max"@ {
        Some(2)
    } else if name == "min"@ {
        Some(2)
    } else {
        None
    }
}

/// Whether an integer is a number of the language.
pub open spec fn is_number(n: int) -> bool {
    i64::MIN <= n <= i64::MAX
}

/// The number `n`, or the failure of `name` where `n` is no number of the language.
pub open spec fn number_result(n: int, name: Seq<char>) -> Result<Value, Failure> {
    if is_number(n) {
        Ok(Value::Number(n))
    } else {
        Err(Failure::MathError(name))
    }
}

/// The events that a value holds, where it is a list of nothing but events.
pub open spec fn as_events(value: Value) -> Option<Seq<EventValue>> {
    match value {
        Value::List(items) => if forall|i: int| 0 <= i < items.len() ==> (#[trigger] items[i]) is Event {
            Some(items.map_values(|item: Value| item->Event_0))
        } else {
            None
        },
        _ => None,
    }
}

/// The texts that a value holds, where it is a list of nothing but texts.
pub open spec fn as_texts(value: Value) -> Option<Seq<Seq<char>>> {
    match value {
        Value::List(items) => if forall|i: int| 0 <= i < items.len() ==> (#[trigger] items[i]) is Text {
            Some(items.map_values(|item: Value| item->Text_0))
        } else {
            None
        },
        _ => None,
    }
}

/// The list of the events `events`.
pub open spec fn from_events(events: Seq<EventValue>) -> Value {
    Value::List(events.map_values(|event: EventValue| Value::Event(event)))
}

/// The list of the texts `texts`.
pub open spec fn from_texts(texts: Seq<Seq<char>>) -> Value {
    Value::List(texts.map_values(|text: Seq<char>| Value::Text(text)))
}

/// `query_bucket(name)`: the events of the bucket that begin inside the
/// window of this execution, which the store of variables holds under
/// `TIMEINTERVAL`.
pub open spec fn query_bucket_result(id: Value, env: Store, data: Seq<BucketValue>) -> Result<
    Value,
    Failure,
> {
    match id {
        Value::Text(id) => match peeked(env, "TIMEINTERVAL"@) {
            Ok(Value::TimeInterval(window)) => match find_bucket(data, id) {
                Some(bucket) => Ok(from_events(within(bucket.events, window))),
                None => Err(Failure::BucketNotFound(id)),
            },
            Ok(_) => Err(Failure::TypeError("query_bucket"@)),
            Err(failure) => Err(failure),
        },
        _ => Err(Failure::TypeError("query_bucket"@)),
    }
}

/// `filter_keyvals(events, key, values)`.
pub open spec fn filter_keyvals_result(events: Value, key: Value, vals: Value) -> Result<
    Value,
    Failure,
> {
    match (as_events(events), key, vals) {
        (Some(events), Value::Text(key), Value::List(vals)) => Ok(
            from_events(filtered_by_key(events, key, vals)),
        ),
        _ => Err(Failure::TypeError("filter_keyvals"@)),
    }
}

/// `filter_period_intersect(events, interval)`.
pub open spec fn filter_period_intersect_result(events: Value, interval: Value) -> Result<
    Value,
    Failure,
> {
    match (as_events(events), interval) {
        (Some(events), Value::TimeInterval(window)) => Ok(from_events(clipped_all(events, window))),
        _ => Err(Failure::TypeError("filter_period_intersect"@)),
    }
}

/// `limit_events(events, count)`.
pub open spec fn limit_events_result(events: Value, count: Value) -> Result<Value, Failure> {
    match (as_events(events), count) {
        (Some(events), Value::Number(count)) => Ok(from_events(first_events(events, count))),
        _ => Err(Failure::TypeError("limit_events"@)),
    }
}

/// `merge_events_by_keys(events, keys)`.
pub open spec fn merge_events_by_keys_result(events: Value, keys: Value) -> Result<Value, Failure> {
    match (as_events(events), as_texts(keys)) {
        (Some(events), Some(keys)) => match merged(events, keys) {
            Some(all) => Ok(from_events(all)),
            None => Err(Failure::MathError("merge_events_by_keys"@)),
        },
        _ => Err(Failure::TypeError("merge_events_by_keys"@)),
    }
}

/// `sum_durations(events)`.
pub open spec fn sum_durations_result(events: Value) -> Result<Value, Failure> {
    match as_events(events) {
        Some(events) => number_result(total_duration(events), "sum_durations"@),
        None => Err(Failure::TypeError("sum_durations"@)),
    }
}

/// `sort_by_timestamp(events)`.
pub open spec fn sort_by_timestamp_result(events: Value) -> Result<Value, Failure> {
    match as_events(events) {
        Some(events) => Ok(from_events(sorted_by_timestamp(events))),
        None => Err(Failure::TypeError("sort_by_timestamp"@)),
    }
}

/// `length(value)`: the number of characters of a text, of items of a list.
pub open spec fn length_result(value: Value) -> Result<Value, Failure> {
    match value {
        Value::Text(text) => number_result(text.len() as int, "length"@),
        Value::List(items) => number_result(items.len() as int, "length"@),
        _ => Err(Failure::TypeError("length"@)),
    }
}

/// `max(a, b)`: the larger of two numbers.
pub open spec fn max_result(a: Value, b: Value) -> Result<Value, Failure> {
    match (a, b) {
        (Value::Number(a), Value::Number(b)) => Ok(
            Value::Number(
                if a >= b {
                    a
                } else {
                    b
                },
            ),
        ),
        _ => Err(Failure::TypeError("max"@)),
    }
}

/// `min(a, b)`: the smaller of two numbers.
pub open spec fn min_result(a: Value, b: Value) -> Result<Value, Failure> {
    match (a, b) {
        (Value::Number(a), Value::Number(b)) => Ok(
            Value::Number(
                if a <= b {
                    a
                } else {
                    b
                },
            ),
        ),
        _ => Err(Failure::TypeError("min"@)),
    }
}

/// What a call of the function `name` on the arguments `args` comes to. A
/// name that is no function is undefined; a wrong number of arguments is
/// reported before any of them is looked at.
pub open spec fn applied(name: Seq<char>, args: Seq<Value>, env: Store, data: Seq<BucketValue>) -> Result<
    Value,
    Failure,
> {
    match arity(name) {
        None => Err(Failure::VariableNotDefined(name)),
        Some(expected) => if args.len() != expected {
            Err(Failure::ArgCountError(name, expected, args.len()))
        } else if name == "query_bucket"@ {
            query_bucket_result(args[0], env, data)
        } else if name == "query_bucket_names"@ {
            Ok(from_texts(names_of(data)))
        } else if name == "filter_keyvals"@ {
            filter_keyvals_result(args[0], args[1], args[2])
        } else if name == "filter_period_intersect"@ {
            filter_period_intersect_result(args[0], args[1])
        } else if name == "limit_events"@ {
            limit_events_result(args[0], args[1])
        } else if name == "merge_events_by_keys"@ {
            merge_events_by_keys_result(args[0], args[1])
        } else if name == "sum_durations"@ {
            sum_durations_result(args[0])
        } else if name == "sort_by_timestamp"@ {
            sort_by_timestamp_result(args[0])
        } else if name == "length"@ {
            length_result(args[0])
        } else if name == "max"@ {
            max_result(args[0], args[1])
        } else {
            min_result(args[0], args[1])
        },
    }
}

/// How many arguments the function `name` takes, where there is such a function.
pub fn expected_args(name: &str) -> (r: Option<usize>)
    ensures
        match r {
            Some(n) => arity(name@) == Some(n as nat),
            None => arity(name@) is None,
        },
{
    if same_text(name, "query_bucket") {
        Some(1)
    } else if same_text(name, "query_bucket_names") {
        Some(0)
    } else if same_text(name, "filter_keyvals") {
        Some(3)
    } else if same_text(name, "filter_period_intersect") {
        Some(2)
    } else if same_text(name, "limit_events") {
        Some(2)
    } else if same_text(name, "merge_events_by_keys") {
        Some(2)
    } else if same_text(name, "sum_durations") {
        Some(1)
    } else if same_text(name, "sort_by_timestamp") {
        Some(1)
    } else if same_text(name, "length") {
        Some(1)
    } else if same_text(name, "max") {
        Some(2)
    } else if same_text(name, "min") {
        Some(2)
    } else {
        None
    }
}

/// The events of a list of nothing but events; nothing of any other value.
pub fn into_events(value: DataType) -> (r: Option<Vec<Event>>)
    ensures
        match as_events(value@) {
            Some(events) => r matches Some(out) && events_of(out@) == events,
            None => r is None,
        },
{
    match value {
        DataType::List(items) => events_among(items),
        _ => None,
    }
}

/// The events that `items` holds, where it holds nothing else.
fn events_among(items: Vec<DataType>) -> (r: Option<Vec<Event>>)
    ensures
        match as_events(Value::List(values_of(items@))) {
            Some(events) => r matches Some(out) && events_of(out@) == events,
            None => r is None,
        },
{
    let ghost given = values_of(items@);
    let mut out: Vec<Event> = Vec::new();
    for item in it: items
        invariant
            it.seq() == items@,
            given == values_of(items@),
            out.len() == it.index(),
            forall|j: int| 0 <= j < out.len() ==> given[j] == Value::Event((#[trigger] out[j])@),
    {
        assert(given[it.index() as int] == item@);
        match item {
            DataType::Event(event) => {
                out.push(event);
            },
            _ => {
                return None;
            },
        }
    }
    assert forall|i: int| 0 <= i < given.len() implies (#[trigger] given[i]) is Event by {
        assert(given[i] == Value::Event(out[i]@));
    }
    assert(events_of(out@) =~= given.map_values(|item: Value| item->Event_0));
    Some(out)
}

/// The texts of a list of nothing but texts; nothing of any other value.
pub fn into_texts(value: DataType) -> (r: Option<Vec<String>>)
    ensures
        match as_texts(value@) {
            Some(texts) => r matches Some(out) && texts_of(out@) == texts,
            None => r is None,
        },
{
    match value {
        DataType::List(items) => texts_among(items),
        _ => None,
    }
}

/// The texts that `items` holds, where it holds nothing else.
fn texts_among(items: Vec<DataType>) -> (r: Option<Vec<String>>)
    ensures
        match as_texts(Value::List(values_of(items@))) {
            Some(texts) => r matches Some(out) && texts_of(out@) == texts,
            None => r is None,
        },
{
    let ghost given = values_of(items@);
    let mut out: Vec<String> = Vec::new();
    for item in it: items
        invariant
            it.seq() == items@,
            given == values_of(items@),
            out.len() == it.index(),
            forall|j: int| 0 <= j < out.len() ==> given[j] == Value::Text((#[trigger] out[j])@),
    {
        assert(given[it.index() as int] == item@);
        match item {
            DataType::Text(text) => {
                out.push(text);
            },
            _ => {
                return None;
            },
        }
    }
    assert forall|i: int| 0 <= i < given.len() implies (#[trigger] given[i]) is Text by {
        assert(given[i] == Value::Text(out[i]@));
    }
    assert(texts_of(out@) =~= given.map_values(|item: Value| item->Text_0));
    Some(out)
}

/// The list of the events `events`.
pub fn list_of_events(events: Vec<Event>) -> (r: DataType)
    ensures
        r@ == from_events(events_of(events@)),
{
    let mut out: Vec<DataType> = Vec::new();
    for event in it: events
        invariant
            it.seq() == events@,
            out.len() == it.index(),
            forall|j: int| 0 <= j < out.len() ==> (#[trigger] out[j])@ == Value::Event(events[j]@),
    {
        out.push(DataType::Event(event));
    }
    assert(values_of(out@) =~= events_of(events@).map_values(
        |event: EventValue| Value::Event(event),
    ));
    DataType::List(out)
}

/// The list of the texts `texts`.
pub fn list_of_texts(texts: Vec<String>) -> (r: DataType)
    ensures
        r@ == from_texts(texts_of(texts@)),
{
    let mut out: Vec<DataType> = Vec::new();
    for text in it: texts
        invariant
            it.seq() == texts@,
            out.len() == it.index(),
            forall|j: int| 0 <= j < out.len() ==> (#[trigger] out[j])@ == Value::Text(texts[j]@),
    {
        out.push(DataType::Text(text));
    }
    assert(values_of(out@) =~= texts_of(texts@).map_values(|text: Seq<char>| Value::Text(text)));
    DataType::List(out)
}

/// The number that counts `n` things, where it is a number of the language.
fn number_of(n: usize, name: &str) -> (r: Result<DataType, QueryError>)
    ensures
        outcome(r) == number_result(n as int, name@),
{
    if n as u64 > 0x7FFF_FFFF_FFFF_FFFF {
        Err(QueryError::MathError(name.to_owned()))
    } else {
        Ok(DataType::Number(n as i64))
    }
}

/// Takes the last of the arguments that are left.
fn last_arg(args: &mut Vec<DataType>) -> (r: DataType)
    requires
        old(args).len() > 0,
    ensures
        r == old(args)@.last(),
        final(args)@ == old(args)@.drop_last(),
{
    match args.pop() {
        Some(value) => value,
        None => DataType::Null,
    }
}

/// `query_bucket(name)`.
pub fn query_bucket(id: DataType, env: &VarEnv, data: &Datastore) -> (r: Result<
    DataType,
    QueryError,
>)
    ensures
        outcome(r) == query_bucket_result(id@, env@, data@),
{
    let id = match id {
        DataType::Text(id) => id,
        _ => {
            return Err(QueryError::TypeError("query_bucket".to_owned()));
        },
    };
    let window = match env.deprecated_get("TIMEINTERVAL") {
        Ok(DataType::TimeInterval(window)) => window,
        Ok(_) => {
            return Err(QueryError::TypeError("query_bucket".to_owned()));
        },
        Err(e) => {
            return Err(e);
        },
    };
    match data.get_events(id.as_str(), &window, None) {
        Ok(events) => Ok(list_of_events(events)),
        Err(e) => Err(e),
    }
}

/// `length(value)`.
pub fn length(value: DataType) -> (r: Result<DataType, QueryError>)
    ensures
        outcome(r) == length_result(value@),
{
    match value {
        DataType::Text(text) => number_of(text.as_str().unicode_len(), "length"),
        DataType::List(items) => number_of(items.len(), "length"),
        _ => Err(QueryError::TypeError("length".to_owned())),
    }
}

/// Calls the function `name` on the arguments `args`. A function that reads
/// events reads them from `data`, inside the window that `env` holds.
pub fn call_function(name: &str, args: Vec<DataType>, env: &VarEnv, data: &Datastore) -> (r: Result<
    DataType,
    QueryError,
>)
    ensures
        outcome(r) == applied(name@, values_of(args@), env@, data@),
{
    let expected = match expected_args(name) {
        Some(n) => n,
        None => {
            return Err(QueryError::VariableNotDefined(name.to_owned()));
        },
    };
    if args.len() != expected {
        return Err(QueryError::ArgCountError(name.to_owned(), expected, args.len()));
    }
    let ghost given = values_of(args@);
    let mut rest = args;
    if same_text(name, "query_bucket") {
        let id = last_arg(&mut rest);
        assert(id@ == given[0]);
        query_bucket(id, env, data)
    } else if same_text(name, "query_bucket_names") {
        Ok(list_of_texts(data.bucket_names()))
    } else if same_text(name, "filter_keyvals") {
        let vals = last_arg(&mut rest);
        let key = last_arg(&mut rest);
        let events = last_arg(&mut rest);
        assert(events@ == given[0] && key@ == given[1] && vals@ == given[2]);
        match (into_events(events), key, vals) {
            (Some(events), DataType::Text(key), DataType::List(vals)) => Ok(
                list_of_events(filter_keyvals(events, key.as_str(), &vals)),
            ),
            _ => Err(QueryError::TypeError("filter_keyvals".to_owned())),
        }
    } else if same_text(name, "filter_period_intersect") {
        let interval = last_arg(&mut rest);
        let events = last_arg(&mut rest);
        assert(events@ == given[0] && interval@ == given[1]);
        match (into_events(events), interval) {
            (Some(events), DataType::TimeInterval(window)) => Ok(
                list_of_events(filter_period_intersect(events, &window)),
            ),
            _ => Err(QueryError::TypeError("filter_period_intersect".to_owned())),
        }
    } else if same_text(name, "limit_events") {
        let count = last_arg(&mut rest);
        let events = last_arg(&mut rest);
        assert(events@ == given[0] && count@ == given[1]);
        match (into_events(events), count) {
            (Some(events), DataType::Number(count)) => Ok(
                list_of_events(limit_events(events, count)),
            ),
            _ => Err(QueryError::TypeError("limit_events".to_owned())),
        }
    } else if same_text(name, "merge_events_by_keys") {
        let keys = last_arg(&mut rest);
        let events = last_arg(&mut rest);
        assert(events@ == given[0] && keys@ == given[1]);
        match (into_events(events), into_texts(keys)) {
            (Some(events), Some(keys)) => match merge_events_by_keys(events, &keys) {
                Some(all) => Ok(list_of_events(all)),
                None => Err(QueryError::MathError("merge_events_by_keys".to_owned())),
            },
            _ => Err(QueryError::TypeError("merge_events_by_keys".to_owned())),
        }
    } else if same_text(name, "sum_durations") {
        let events = last_arg(&mut rest);
        assert(events@ == given[0]);
        match into_events(events) {
            Some(events) => match sum_durations(&events) {
                Some(total) => Ok(DataType::Number(total)),
                None => Err(QueryError::MathError("sum_durations".to_owned())),
            },
            None => Err(QueryError::TypeError("sum_durations".to_owned())),
        }
    } else if same_text(name, "sort_by_timestamp") {
        let events = last_arg(&mut rest);
        assert(events@ == given[0]);
        match into_events(events) {
            Some(events) => Ok(list_of_events(sort_by_timestamp(events))),
            None => Err(QueryError::TypeError("sort_by_timestamp".to_owned())),
        }
    } else if same_text(name, "length") {
        let value = last_arg(&mut rest);
        assert(value@ == given[0]);
        length(value)
    } else if same_text(name, "max") {
        let b = last_arg(&mut rest);
        let a = last_arg(&mut rest);
        assert(a@ == given[0] && b@ == given[1]);
        match (a, b) {
            (DataType::Number(a), DataType::Number(b)) => Ok(
                DataType::Number(
                    if a >= b {
                        a
                    } else {
                        b
                    },
                ),
            ),
            _ => Err(QueryError::TypeError("max".to_owned())),
        }
    } else {
        let b = last_arg(&mut rest);
        let a = last_arg(&mut rest);
        assert(a@ == given[0] && b@ == given[1]);
        match (a, b) {
            (DataType::Number(a), DataType::Number(b)) => Ok(
                DataType::Number(
                    if a <= b {
                        a
                    } else {
                        b
                    },
                ),
            ),
            _ => Err(QueryError::TypeError("min".to_owned())),
        }
    }
}

} // verus!

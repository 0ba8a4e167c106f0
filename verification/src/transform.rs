//! What scripts can do to a list of events: select, clip, cut short, merge, add up, put in order.

use crate::datastore::events_of;
use crate::datastore::lemma_events_push;
use crate::datastore::lemma_take_step;
use crate::datastore::texts_of;
use crate::datatype::values_of;
use crate::datatype::DataType;
use crate::datatype::Dict;
use crate::datatype::Event;
use crate::datatype::EventValue;
use crate::datatype::IntervalValue;
use crate::datatype::TimeInterval;
use crate::datatype::Value;
use vstd::prelude::*;

verus! {

/// Whether an event says of `key` one of the values `vals`.
pub open spec fn says_one_of(event: EventValue, key: Seq<char>, vals: Seq<Value>) -> bool {
    event.data.contains_key(key) && vals.contains(event.data[key])
}

/// The events that say of `key` one of the values `vals`, in the order they had.
pub open spec fn filtered_by_key(events: Seq<EventValue>, key: Seq<char>, vals: Seq<Value>) -> Seq<
    EventValue,
>
    decreases events.len(),
{
    if events.len() == 0 {
        Seq::empty()
    } else {
        let rest = filtered_by_key(events.drop_last(), key, vals);
        if says_one_of(events.last(), key, vals) {
            rest.push(events.last())
        } else {
            rest
        }
    }
}

/// Every event that is kept says of the key one of the values, and no more are kept than there were.
pub proof fn lemma_filtered_by_key(events: Seq<EventValue>, key: Seq<char>, vals: Seq<Value>)
    ensures
        filtered_by_key(events, key, vals).len() <= events.len(),
        forall|i: int|
            0 <= i < filtered_by_key(events, key, vals).len() ==> says_one_of(
                #[trigger] filtered_by_key(events, key, vals)[i],
                key,
                vals,
            ),
    decreases events.len(),
{
    if events.len() > 0 {
        lemma_filtered_by_key(events.drop_last(), key, vals);
    }
}

/// Whether `value` equals one of `vals`.
pub fn value_among(value: &DataType, vals: &Vec<DataType>) -> (r: bool)
    ensures
        r == values_of(vals@).contains(value@),
{
    let mut i: usize = 0;
    while i < vals.len()
        invariant
            i <= vals.len(),
            forall|j: int| 0 <= j < i ==> values_of(vals@)[j] != value@,
        decreases vals.len() - i,
    {
        if value.equals(&vals[i]) {
            assert(values_of(vals@)[i as int] == value@);
            return true;
        }
        i += 1;
    }
    false
}

/// Keeps the events that say of `key` one of the values `vals`.
pub fn filter_keyvals(events: Vec<Event>, key: &str, vals: &Vec<DataType>) -> (r: Vec<Event>)
    ensures
        events_of(r@) == filtered_by_key(events_of(events@), key@, values_of(vals@)),
{
    let ghost all = events_of(events@);
    let mut out: Vec<Event> = Vec::new();
    assert(events_of(out@) =~= filtered_by_key(all.take(0), key@, values_of(vals@)));
    for event in it: events
        invariant
            it.seq() == events@,
            all == events_of(events@),
            events_of(out@) == filtered_by_key(
                all.take(it.index() as int),
                key@,
                values_of(vals@),
            ),
    {
        proof {
            lemma_take_step(all, it.index() as int);
        }
        let keep = match event.data.get(key) {
            Some(value) => value_among(value, vals),
            None => false,
        };
        if keep {
            proof {
                lemma_events_push(out@, event);
            }
            out.push(event);
        }
    }
    assert(all.take(all.len() as int) =~= all);
    out
}

/// The part of an event that lies inside a window, if any part does: it
/// begins where the later of the two begins, ends where the earlier of the
/// two ends, and says what the event said.
pub open spec fn clipped(event: EventValue, window: IntervalValue) -> Option<EventValue> {
    let start = if event.timestamp > window.start {
        event.timestamp
    } else {
        window.start
    };
    let stop = if event.timestamp + event.duration < window.end {
        event.timestamp + event.duration
    } else {
        window.end
    };
    if start < stop {
        Some(EventValue { timestamp: start, duration: stop - start, data: event.data })
    } else {
        None
    }
}

/// The parts of the events that lie inside a window, in the order the events had.
pub open spec fn clipped_all(events: Seq<EventValue>, window: IntervalValue) -> Seq<EventValue>
    decreases events.len(),
{
    if events.len() == 0 {
        Seq::empty()
    } else {
        let rest = clipped_all(events.drop_last(), window);
        match clipped(events.last(), window) {
            Some(part) => rest.push(part),
            None => rest,
        }
    }
}

/// Every part that is kept lasts, and lies inside the window.
pub proof fn lemma_clipped_all(events: Seq<EventValue>, window: IntervalValue)
    ensures
        clipped_all(events, window).len() <= events.len(),
        forall|i: int|
            0 <= i < clipped_all(events, window).len() ==> {
                let part = #[trigger] clipped_all(events, window)[i];
                &&& part.duration > 0
                &&& window.start <= part.timestamp
                &&& part.timestamp + part.duration <= window.end
            },
    decreases events.len(),
{
    if events.len() > 0 {
        lemma_clipped_all(events.drop_last(), window);
    }
}

/// Cuts each event down to the part of it that lies inside `window`, and
/// drops those of which no part does.
pub fn filter_period_intersect(events: Vec<Event>, window: &TimeInterval) -> (r: Vec<Event>)
    ensures
        events_of(r@) == clipped_all(events_of(events@), window@),
{
    let ghost all = events_of(events@);
    let mut out: Vec<Event> = Vec::new();
    assert(events_of(out@) =~= clipped_all(all.take(0), window@));
    for event in it: events
        invariant
            it.seq() == events@,
            all == events_of(events@),
            events_of(out@) == clipped_all(all.take(it.index() as int), window@),
    {
        proof {
            lemma_take_step(all, it.index() as int);
        }
        let start: i64 = if event.timestamp > window.start {
            event.timestamp
        } else {
            window.start
        };
        let end: i128 = event.timestamp as i128 + event.duration as i128;
        let stop: i128 = if end < window.end as i128 {
            end
        } else {
            window.end as i128
        };
        if (start as i128) < stop {
            let duration: i64 = (stop - start as i128) as i64;
            let part = Event { timestamp: start, duration, data: event.data };
            proof {
                lemma_events_push(out@, part);
            }
            out.push(part);
        }
    }
    assert(all.take(all.len() as int) =~= all);
    out
}

/// The first `count` events, or all of them where there are no more; none for a count below one.
pub open spec fn first_events(events: Seq<EventValue>, count: int) -> Seq<EventValue> {
    if count <= 0 {
        Seq::empty()
    } else if count >= events.len() {
        events
    } else {
        events.take(count)
    }
}

/// Keeps the first `count` events.
pub fn limit_events(events: Vec<Event>, count: i64) -> (r: Vec<Event>)
    ensures
        events_of(r@) == first_events(events_of(events@), count as int),
{
    let mut out = events;
    if count <= 0 {
        out.truncate(0);
        assert(events_of(out@) =~= Seq::empty());
    } else if (count as u64) < (out.len() as u64) {
        out.truncate(count as usize);
        assert(events_of(out@) =~= events_of(events@).take(count as int));
    }
    out
}

/// The durations of the events, added up.
pub open spec fn total_duration(events: Seq<EventValue>) -> int
    decreases events.len(),
{
    if events.len() == 0 {
        0
    } else {
        total_duration(events.drop_last()) + events.last().duration
    }
}

/// Adds up the durations of the events. There is no sum where it is not a
/// number of the language.
pub fn sum_durations(events: &Vec<Event>) -> (r: Option<i64>)
    ensures
        match r {
            Some(total) => total == total_duration(events_of(events@)),
            None => !(i64::MIN <= total_duration(events_of(events@)) <= i64::MAX),
        },
{
    let ghost all = events_of(events@);
    let mut total: i128 = 0;
    let mut i: usize = 0;
    while i < events.len()
        invariant
            i <= events.len(),
            all == events_of(events@),
            total == total_duration(all.take(i as int)),
            -(i * 0x8000_0000_0000_0000) <= total <= i * 0x8000_0000_0000_0000,
        decreases events.len() - i,
    {
        proof {
            lemma_take_step(all, i as int);
        }
        total = total + events[i].duration as i128;
        i += 1;
    }
    assert(all.take(i as int) =~= all);
    if total < i64::MIN as i128 || total > i64::MAX as i128 {
        None
    } else {
        Some(total as i64)
    }
}

/// What a dictionary says of the keys `keys`, and nothing else.
pub open spec fn projected(data: Map<Seq<char>, Value>, keys: Seq<Seq<char>>) -> Map<
    Seq<char>,
    Value,
>
    decreases keys.len(),
{
    if keys.len() == 0 {
        Map::empty()
    } else {
        let rest = projected(data, keys.drop_last());
        if data.contains_key(keys.last()) {
            rest.insert(keys.last(), data[keys.last()])
        } else {
            rest
        }
    }
}

/// What a dictionary says of the keys is the dictionary, narrowed to those keys.
pub proof fn lemma_projected_restricts(data: Map<Seq<char>, Value>, keys: Seq<Seq<char>>)
    ensures
        projected(data, keys) == data.restrict(keys.to_set()),
    decreases keys.len(),
{
    if keys.len() == 0 {
        assert(projected(data, keys) =~= data.restrict(keys.to_set()));
    } else {
        lemma_projected_restricts(data, keys.drop_last());
        assert forall|key: Seq<char>| keys.to_set().contains(key) <==> (keys.drop_last().to_set().contains(
            key,
        ) || key == keys.last()) by {
            if keys.to_set().contains(key) {
                let i = choose|i: int| 0 <= i < keys.len() && keys[i] == key;
                if i < keys.len() - 1 {
                    assert(keys.drop_last()[i] == key);
                }
            }
            if keys.drop_last().to_set().contains(key) {
                let i = choose|i: int| 0 <= i < keys.drop_last().len() && keys.drop_last()[i] == key;
                assert(keys[i] == key);
            }
            if key == keys.last() {
                assert(keys[keys.len() - 1] == key);
            }
        }
        assert(projected(data, keys) =~= data.restrict(keys.to_set()));
    }
}

/// Copies out of `data` what it says of the keys `keys`.
pub fn project(data: &Dict, keys: &Vec<String>) -> (r: Dict)
    ensures
        r@ == projected(data@, texts_of(keys@)),
{
    let ghost all = texts_of(keys@);
    let mut out = Dict::new();
    let mut i: usize = 0;
    while i < keys.len()
        invariant
            i <= keys.len(),
            all == texts_of(keys@),
            out@ == projected(data@, all.take(i as int)),
        decreases keys.len() - i,
    {
        proof {
            lemma_take_step(all, i as int);
        }
        match data.get(keys[i].as_str()) {
            Some(value) => {
                out.insert(keys[i].clone(), value.duplicate());
            },
            None => {},
        }
        i += 1;
    }
    assert(all.take(i as int) =~= all);
    out
}

/// The place of the earliest event that says exactly `data`, or -1 where none does.
pub open spec fn merge_index(events: Seq<EventValue>, data: Map<Seq<char>, Value>) -> int
    decreases events.len(),
{
    if events.len() == 0 {
        -1
    } else {
        let before = merge_index(events.drop_last(), data);
        if before >= 0 {
            before
        } else if events.last().data == data {
            events.len() - 1
        } else {
            -1
        }
    }
}

/// One event merged into those merged so far: it is added to the earliest of
/// them that says the same of the keys, or comes behind them as a new one
/// that says only that. There is no result where a duration leaves the range
/// of the numbers.
pub open spec fn merged_one(so_far: Seq<EventValue>, event: EventValue, keys: Seq<Seq<char>>) -> Option<
    Seq<EventValue>,
> {
    let data = projected(event.data, keys);
    let at = merge_index(so_far, data);
    if at < 0 {
        Some(so_far.push(EventValue { timestamp: event.timestamp, duration: event.duration, data }))
    } else {
        let total = so_far[at].duration + event.duration;
        if i64::MIN <= total <= i64::MAX {
            Some(
                so_far.update(
                    at,
                    EventValue {
                        timestamp: so_far[at].timestamp,
                        duration: total,
                        data: so_far[at].data,
                    },
                ),
            )
        } else {
            None
        }
    }
}

/// The events merged by what they say of the keys `keys`, taken in order.
pub open spec fn merged(events: Seq<EventValue>, keys: Seq<Seq<char>>) -> Option<Seq<EventValue>>
    decreases events.len(),
{
    if events.len() == 0 {
        Some(Seq::empty())
    } else {
        match merged(events.drop_last(), keys) {
            Some(so_far) => merged_one(so_far, events.last(), keys),
            None => None,
        }
    }
}

/// To change the duration of one event changes the sum by as much.
pub proof fn lemma_total_duration_update(events: Seq<EventValue>, at: int, event: EventValue)
    requires
        0 <= at < events.len(),
    ensures
        total_duration(events.update(at, event)) == total_duration(events) - events[at].duration
            + event.duration,
    decreases events.len(),
{
    let changed = events.update(at, event);
    if at == events.len() - 1 {
        assert(changed.drop_last() =~= events.drop_last());
    } else {
        assert(changed.drop_last() =~= events.drop_last().update(at, event));
        lemma_total_duration_update(events.drop_last(), at, event);
    }
}

/// The place of the earliest event that says exactly `data` is a place among the events.
pub proof fn lemma_merge_index(events: Seq<EventValue>, data: Map<Seq<char>, Value>)
    ensures
        -1 <= merge_index(events, data) < events.len(),
        merge_index(events, data) >= 0 ==> events[merge_index(events, data)].data == data,
    decreases events.len(),
{
    if events.len() > 0 {
        lemma_merge_index(events.drop_last(), data);
    }
}

/// Merged events last as long, all together, as the events they were merged from.
pub proof fn lemma_merged_keeps_total(events: Seq<EventValue>, keys: Seq<Seq<char>>)
    ensures
        merged(events, keys) matches Some(all) ==> total_duration(all) == total_duration(events)
            && all.len() <= events.len(),
    decreases events.len(),
{
    if events.len() > 0 {
        lemma_merged_keeps_total(events.drop_last(), keys);
        match merged(events.drop_last(), keys) {
            Some(so_far) => {
                let event = events.last();
                let data = projected(event.data, keys);
                lemma_merge_index(so_far, data);
                let at = merge_index(so_far, data);
                if at < 0 {
                    let fresh = EventValue {
                        timestamp: event.timestamp,
                        duration: event.duration,
                        data,
                    };
                    assert(so_far.push(fresh).drop_last() =~= so_far);
                } else {
                    let total = so_far[at].duration + event.duration;
                    lemma_total_duration_update(
                        so_far,
                        at,
                        EventValue {
                            timestamp: so_far[at].timestamp,
                            duration: total,
                            data: so_far[at].data,
                        },
                    );
                }
            },
            None => {},
        }
    }
}

/// Where the merge of some first events has no result, the merge of all has none.
pub proof fn lemma_merged_prefix(events: Seq<EventValue>, keys: Seq<Seq<char>>, n: int)
    requires
        0 <= n <= events.len(),
        merged(events.take(n), keys) is None,
    ensures
        merged(events, keys) is None,
    decreases events.len(),
{
    if n < events.len() {
        assert(events.drop_last().take(n) =~= events.take(n));
        lemma_merged_prefix(events.drop_last(), keys, n);
    } else {
        assert(events.take(n) =~= events);
    }
}

/// The place of the earliest of `events` that says exactly `data`.
pub fn merge_position(events: &Vec<Event>, data: &Dict) -> (r: Option<usize>)
    ensures
        match r {
            Some(i) => i < events.len() && i == merge_index(events_of(events@), data@),
            None => merge_index(events_of(events@), data@) < 0,
        },
{
    let ghost all = events_of(events@);
    let mut found: Option<usize> = None;
    let mut i: usize = 0;
    while i < events.len()
        invariant
            i <= events.len(),
            all == events_of(events@),
            match found {
                Some(j) => j < i && j == merge_index(all.take(i as int), data@),
                None => merge_index(all.take(i as int), data@) < 0,
            },
        decreases events.len() - i,
    {
        proof {
            lemma_take_step(all, i as int);
        }
        if found.is_none() && events[i].data.equals(data) {
            found = Some(i);
        }
        i += 1;
    }
    assert(all.take(i as int) =~= all);
    found
}

/// Merges the events by what they say of the keys `keys`: events that say the
/// same of them become one, which begins where the earliest of them began and
/// lasts as long as all of them together. There is no result where such a sum
/// leaves the range of the numbers.
pub fn merge_events_by_keys(events: Vec<Event>, keys: &Vec<String>) -> (r: Option<Vec<Event>>)
    ensures
        match merged(events_of(events@), texts_of(keys@)) {
            Some(all) => r matches Some(out) && events_of(out@) == all,
            None => r is None,
        },
{
    let ghost all = events_of(events@);
    let mut out: Vec<Event> = Vec::new();
    assert(events_of(out@) =~= Seq::empty());
    for event in it: events
        invariant
            it.seq() == events@,
            all == events_of(events@),
            merged(all.take(it.index() as int), texts_of(keys@)) == Some(events_of(out@)),
    {
        proof {
            lemma_take_step(all, it.index() as int);
        }
        let ghost so_far = events_of(out@);
        let data = project(&event.data, keys);
        match merge_position(&out, &data) {
            Some(at) => {
                let total: i128 = out[at].duration as i128 + event.duration as i128;
                if total < i64::MIN as i128 || total > i64::MAX as i128 {
                    proof {
                        lemma_merged_prefix(all, texts_of(keys@), it.index() as int + 1);
                    }
                    return None;
                }
                out[at].duration = total as i64;
                assert(events_of(out@) =~= so_far.update(
                    at as int,
                    EventValue {
                        timestamp: so_far[at as int].timestamp,
                        duration: total as int,
                        data: so_far[at as int].data,
                    },
                ));
            },
            None => {
                let fresh = Event { timestamp: event.timestamp, duration: event.duration, data };
                proof {
                    lemma_events_push(out@, fresh);
                }
                out.push(fresh);
            },
        }
    }
    assert(all.take(all.len() as int) =~= all);
    Some(out)
}

/// Where an event that begins at `timestamp` goes among events in order:
/// behind the last that begins no later.
pub open spec fn insert_position(events: Seq<EventValue>, timestamp: int) -> int
    decreases events.len(),
{
    if events.len() == 0 {
        0
    } else if events.last().timestamp <= timestamp {
        events.len() as int
    } else {
        insert_position(events.drop_last(), timestamp)
    }
}

/// The events in the order of their beginning; events that begin together
/// keep the order they had.
pub open spec fn sorted_by_timestamp(events: Seq<EventValue>) -> Seq<EventValue>
    decreases events.len(),
{
    if events.len() == 0 {
        Seq::empty()
    } else {
        let rest = sorted_by_timestamp(events.drop_last());
        rest.insert(insert_position(rest, events.last().timestamp), events.last())
    }
}

/// Whether no event begins before one that comes before it.
pub open spec fn in_order(events: Seq<EventValue>) -> bool {
    forall|i: int, j: int|
        0 <= i <= j < events.len() ==> events[i].timestamp <= events[j].timestamp
}

/// Among events in order, the place for a new one parts those that begin no
/// later from those that begin later.
pub proof fn lemma_insert_position(events: Seq<EventValue>, timestamp: int)
    requires
        in_order(events),
    ensures
        0 <= insert_position(events, timestamp) <= events.len(),
        forall|i: int|
            0 <= i < insert_position(events, timestamp) ==> events[i].timestamp <= timestamp,
        forall|i: int|
            insert_position(events, timestamp) <= i < events.len() ==> events[i].timestamp
                > timestamp,
    decreases events.len(),
{
    if events.len() > 0 && events.last().timestamp > timestamp {
        let before = events.drop_last();
        assert forall|i: int, j: int| 0 <= i <= j < before.len() implies before[i].timestamp
            <= before[j].timestamp by {
            assert(before[i] == events[i] && before[j] == events[j]);
        }
        lemma_insert_position(before, timestamp);
        assert forall|i: int| 0 <= i < before.len() implies before[i] == events[i] by {}
    }
}

/// Sorted events are in the order of their beginning, and as many as before.
pub proof fn lemma_sorted_in_order(events: Seq<EventValue>)
    ensures
        in_order(sorted_by_timestamp(events)),
        sorted_by_timestamp(events).len() == events.len(),
    decreases events.len(),
{
    if events.len() > 0 {
        let rest = sorted_by_timestamp(events.drop_last());
        let event = events.last();
        lemma_sorted_in_order(events.drop_last());
        lemma_insert_position(rest, event.timestamp);
        let at = insert_position(rest, event.timestamp);
        let all = rest.insert(at, event);
        assert forall|i: int, j: int| 0 <= i <= j < all.len() implies all[i].timestamp
            <= all[j].timestamp by {
            if i < at {
                assert(all[i] == rest[i]);
            } else if i > at {
                assert(all[i] == rest[i - 1]);
            }
            if j < at {
                assert(all[j] == rest[j]);
            } else if j > at {
                assert(all[j] == rest[j - 1]);
            }
        }
    }
}

/// Sorting neither adds an event nor loses one.
pub proof fn lemma_sorted_permutes(events: Seq<EventValue>)
    ensures
        sorted_by_timestamp(events).to_multiset() == events.to_multiset(),
    decreases events.len(),
{
    if events.len() > 0 {
        let before = events.drop_last();
        let rest = sorted_by_timestamp(before);
        let event = events.last();
        lemma_sorted_permutes(before);
        lemma_sorted_in_order(before);
        lemma_insert_position(rest, event.timestamp);
        let at = insert_position(rest, event.timestamp);
        let all = rest.insert(at, event);
        assert(all.remove(at) =~= rest);
        vstd::seq_lib::to_multiset_remove(all, at);
        assert(all[at] == event);
        assert(all.to_multiset() =~= rest.to_multiset().insert(event)) by {
            all.to_multiset_ensures();
            assert(all.contains(event));
        }
        assert(before.push(event) =~= events);
        vstd::seq_lib::to_multiset_build(before, event);
    } else {
        assert(sorted_by_timestamp(events) =~= events);
    }
}

/// Puts the events in the order of their beginning.
pub fn sort_by_timestamp(events: Vec<Event>) -> (r: Vec<Event>)
    ensures
        events_of(r@) == sorted_by_timestamp(events_of(events@)),
{
    let ghost all = events_of(events@);
    let mut out: Vec<Event> = Vec::new();
    assert(events_of(out@) =~= Seq::empty());
    for event in it: events
        invariant
            it.seq() == events@,
            all == events_of(events@),
            events_of(out@) == sorted_by_timestamp(all.take(it.index() as int)),
    {
        proof {
            lemma_take_step(all, it.index() as int);
        }
        let ghost so_far = events_of(out@);
        let mut at: usize = out.len();
        assert(so_far.take(at as int) =~= so_far);
        while at > 0 && out[at - 1].timestamp > event.timestamp
            invariant
                at <= out.len(),
                so_far == events_of(out@),
                insert_position(so_far, event.timestamp as int) == insert_position(
                    so_far.take(at as int),
                    event.timestamp as int,
                ),
            decreases at,
        {
            proof {
                lemma_take_step(so_far, at as int - 1);
            }
            at -= 1;
        }
        proof {
            if at > 0 {
                lemma_take_step(so_far, at as int - 1);
            }
        }
        out.insert(at, event);
        assert(events_of(out@) =~= so_far.insert(at as int, event@));
    }
    assert(all.take(all.len() as int) =~= all);
    out
}

} // verus!

//! The recorded events that scripts read: buckets of events, held in memory.

use crate::datatype::Event;
use crate::datatype::EventValue;
use crate::datatype::IntervalValue;
use crate::datatype::TimeInterval;
use crate::error::Failure;
use crate::error::QueryError;
use crate::text::same_text;
use vstd::prelude::*;

verus! {

/// A named collection of events from one source.
#[derive(Debug)]
pub struct Bucket {
    pub id: String,
    pub events: Vec<Event>,
}

/// The model of a [`Bucket`].
pub struct BucketValue {
    pub id: Seq<char>,
    pub events: Seq<EventValue>,
}

/// The buckets that an execution can read. Of two buckets with one name only
/// the earlier is ever found.
#[derive(Debug)]
pub struct Datastore {
    pub buckets: Vec<Bucket>,
}

/// The models of a sequence of events, in order.
pub open spec fn events_of(events: Seq<Event>) -> Seq<EventValue> {
    events.map_values(|e: Event| e@)
}

impl View for Bucket {
    type V = BucketValue;

    open spec fn view(&self) -> BucketValue {
        BucketValue { id: self.id@, events: events_of(self.events@) }
    }
}

impl View for Datastore {
    type V = Seq<BucketValue>;

    open spec fn view(&self) -> Seq<BucketValue> {
        self.buckets@.map_values(|b: Bucket| b@)
    }
}

/// The earliest bucket of the name `id`, if there is one.
pub open spec fn find_bucket(buckets: Seq<BucketValue>, id: Seq<char>) -> Option<BucketValue>
    decreases buckets.len(),
{
    if buckets.len() == 0 {
        None
    } else if buckets[0].id == id {
        Some(buckets[0])
    } else {
        find_bucket(buckets.drop_first(), id)
    }
}

/// Whether an event begins inside a window.
pub open spec fn in_window(event: EventValue, window: IntervalValue) -> bool {
    window.start <= event.timestamp < window.end
}

/// The events that begin inside a window, in the order they had.
pub open spec fn within(events: Seq<EventValue>, window: IntervalValue) -> Seq<EventValue>
    decreases events.len(),
{
    if events.len() == 0 {
        Seq::empty()
    } else {
        let rest = within(events.drop_last(), window);
        if in_window(events.last(), window) {
            rest.push(events.last())
        } else {
            rest
        }
    }
}

/// Every event that is kept begins inside the window, and no more are kept than there were.
pub proof fn lemma_within(events: Seq<EventValue>, window: IntervalValue)
    ensures
        within(events, window).len() <= events.len(),
        forall|i: int|
            0 <= i < within(events, window).len() ==> in_window(
                #[trigger] within(events, window)[i],
                window,
            ),
    decreases events.len(),
{
    if events.len() > 0 {
        lemma_within(events.drop_last(), window);
    }
}

/// The first `limit` of a sequence of events, or all of them where there is
/// no limit or the limit is not reached.
pub open spec fn limited(events: Seq<EventValue>, limit: Option<usize>) -> Seq<EventValue> {
    match limit {
        Some(n) => if n < events.len() {
            events.take(n as int)
        } else {
            events
        },
        None => events,
    }
}

/// The names of a sequence of buckets, in order.
pub open spec fn names_of(buckets: Seq<BucketValue>) -> Seq<Seq<char>> {
    buckets.map_values(|b: BucketValue| b.id)
}

/// The models of a sequence of texts, in order.
pub open spec fn texts_of(texts: Seq<String>) -> Seq<Seq<char>> {
    texts.map_values(|t: String| t@)
}

/// A prefix that is one longer ends in the next item.
pub proof fn lemma_take_step<T>(s: Seq<T>, i: int)
    requires
        0 <= i < s.len(),
    ensures
        s.take(i + 1).drop_last() == s.take(i),
        s.take(i + 1).last() == s[i],
        s.take(i + 1).len() == i + 1,
{
    assert(s.take(i + 1).drop_last() =~= s.take(i));
}

/// The models of the events, once one more is added at the end.
pub proof fn lemma_events_push(events: Seq<Event>, event: Event)
    ensures
        events_of(events.push(event)) == events_of(events).push(event@),
{
    assert(events_of(events.push(event)) =~= events_of(events).push(event@));
}

impl Datastore {
    /// A store without buckets.
    pub fn new() -> (r: Datastore)
        ensures
            r@ == Seq::<BucketValue>::empty(),
    {
        let r = Datastore { buckets: Vec::new() };
        assert(r@ =~= Seq::<BucketValue>::empty());
        r
    }

    /// The earliest bucket of the name `id`.
    pub fn get_bucket(&self, id: &str) -> (r: Result<&Bucket, QueryError>)
        ensures
            match find_bucket(self@, id@) {
                Some(bucket) => r matches Ok(found) && found@ == bucket,
                None => r matches Err(e) && e@ == Failure::BucketNotFound(id@),
            },
    {
        let mut i: usize = 0;
        assert(self@.skip(0) =~= self@);
        while i < self.buckets.len()
            invariant
                i <= self.buckets.len(),
                find_bucket(self@, id@) == find_bucket(self@.skip(i as int), id@),
            decreases self.buckets.len() - i,
        {
            proof {
                assert(self@.skip(i as int).drop_first() =~= self@.skip(i as int + 1));
                assert(self@.skip(i as int)[0] == self.buckets[i as int]@);
            }
            if same_text(self.buckets[i].id.as_str(), id) {
                return Ok(&self.buckets[i]);
            }
            i += 1;
        }
        Err(QueryError::BucketNotFound(id.to_owned()))
    }

    /// The events of the bucket `id` that begin inside `window`, in the order
    /// the bucket holds them, and no more than `limit` of them.
    pub fn get_events(&self, id: &str, window: &TimeInterval, limit: Option<usize>) -> (r: Result<
        Vec<Event>,
        QueryError,
    >)
        ensures
            match find_bucket(self@, id@) {
                Some(bucket) => r matches Ok(events) && events_of(events@) == limited(
                    within(bucket.events, window@),
                    limit,
                ),
                None => r matches Err(e) && e@ == Failure::BucketNotFound(id@),
            },
    {
        let bucket = match self.get_bucket(id) {
            Ok(bucket) => bucket,
            Err(e) => {
                return Err(e);
            },
        };
        let ghost all = events_of(bucket.events@);
        let mut out: Vec<Event> = Vec::new();
        let mut i: usize = 0;
        assert(events_of(out@) =~= within(all.take(0), window@));
        while i < bucket.events.len()
            invariant
                i <= bucket.events.len(),
                all == events_of(bucket.events@),
                events_of(out@) == within(all.take(i as int), window@),
            decreases bucket.events.len() - i,
        {
            let event = &bucket.events[i];
            proof {
                lemma_take_step(all, i as int);
            }
            if window.start <= event.timestamp && event.timestamp < window.end {
                let copy = event.duplicate();
                proof {
                    lemma_events_push(out@, copy);
                }
                out.push(copy);
            }
            i += 1;
        }
        assert(all.take(i as int) =~= all);
        match limit {
            Some(n) => {
                if n < out.len() {
                    out.truncate(n);
                    assert(events_of(out@) =~= within(all, window@).take(n as int));
                }
            },
            None => {},
        }
        Ok(out)
    }

    /// The names of all buckets, in the order the store holds them.
    pub fn bucket_names(&self) -> (r: Vec<String>)
        ensures
            texts_of(r@) == names_of(self@),
    {
        let mut out: Vec<String> = Vec::new();
        let mut i: usize = 0;
        while i < self.buckets.len()
            invariant
                i <= self.buckets.len(),
                out.len() == i,
                forall|j: int| 0 <= j < i ==> out[j]@ == self.buckets[j].id@,
            decreases self.buckets.len() - i,
        {
            out.push(self.buckets[i].id.clone());
            i += 1;
        }
        assert(texts_of(out@) =~= names_of(self@));
        out
    }
}

} // verus!

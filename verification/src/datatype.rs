//! The values that scripts compute with, and their mathematical models.

use crate::text::same_text;
use vstd::prelude::*;

verus! {

/// The model of a [`DataType`]: texts are sequences of characters, lists are
/// sequences, dictionaries are maps, numbers and times are integers.
pub enum Value {
    Null,
    Boolean(bool),
    Number(int),
    Text(Seq<char>),
    List(Seq<Value>),
    Dict(Map<Seq<char>, Value>),
    Event(EventValue),
    TimeInterval(IntervalValue),
}

/// The model of an [`Event`].
pub struct EventValue {
    pub timestamp: int,
    pub duration: int,
    pub data: Map<Seq<char>, Value>,
}

/// The model of a [`TimeInterval`]: the instants from `start` up to, not including, `end`.
pub struct IntervalValue {
    pub start: int,
    pub end: int,
}

/// A dictionary from texts to values, kept as a list of entries.
/// Of two entries with one key only the earlier counts.
#[derive(Debug)]
pub struct Dict {
    pub entries: Vec<(String, DataType)>,
}

/// A record of activity: when it began, how long it lasted, and what is known of it.
/// Instants and durations are counted in nanoseconds, instants from the Unix epoch.
#[derive(Debug)]
pub struct Event {
    pub timestamp: i64,
    pub duration: i64,
    pub data: Dict,
}

/// The instants from `start` up to, not including, `end`.
#[derive(Clone, Copy, Debug, PartialEq, Eq, Structural)]
pub struct TimeInterval {
    pub start: i64,
    pub end: i64,
}

/// A value of the query language.
#[derive(Debug)]
pub enum DataType {
    Null,
    Boolean(bool),
    Number(i64),
    Text(String),
    List(Vec<DataType>),
    Dict(Dict),
    Event(Event),
    TimeInterval(TimeInterval),
}

/// The map that a list of entries stands for: the earliest entry of a key gives its value.
pub open spec fn assoc_map(pairs: Seq<(Seq<char>, Value)>) -> Map<Seq<char>, Value>
    decreases pairs.len(),
{
    if pairs.len() == 0 {
        Map::empty()
    } else {
        assoc_map(pairs.drop_first()).insert(pairs[0].0, pairs[0].1)
    }
}

/// The models of the items of a list, in order.
pub open spec fn values_of(items: Seq<DataType>) -> Seq<Value>
    decreases items, 0int,
{
    Seq::new(
        items.len(),
        |i: int|
            if 0 <= i < items.len() {
                items[i].view()
            } else {
                Value::Null
            },
    )
}

/// The keys and the models of the values of a list of entries, in order.
pub open spec fn pairs_of(entries: Seq<(String, DataType)>) -> Seq<(Seq<char>, Value)>
    decreases entries, 0int,
{
    Seq::new(
        entries.len(),
        |i: int|
            if 0 <= i < entries.len() {
                (entries[i].0@, entries[i].1.view())
            } else {
                (Seq::empty(), Value::Null)
            },
    )
}

impl View for Dict {
    type V = Map<Seq<char>, Value>;

    open spec fn view(&self) -> Map<Seq<char>, Value>
        decreases self, 1int,
    {
        assoc_map(pairs_of(self.entries@))
    }
}

impl View for Event {
    type V = EventValue;

    open spec fn view(&self) -> EventValue
        decreases self, 1int,
    {
        EventValue {
            timestamp: self.timestamp as int,
            duration: self.duration as int,
            data: self.data.view(),
        }
    }
}

impl View for TimeInterval {
    type V = IntervalValue;

    open spec fn view(&self) -> IntervalValue {
        IntervalValue { start: self.start as int, end: self.end as int }
    }
}

impl View for DataType {
    type V = Value;

    open spec fn view(&self) -> Value
        decreases self, 1int,
    {
        match self {
            DataType::Null => Value::Null,
            DataType::Boolean(b) => Value::Boolean(*b),
            DataType::Number(n) => Value::Number(*n as int),
            DataType::Text(s) => Value::Text(s@),
            DataType::List(items) => Value::List(values_of(items@)),
            DataType::Dict(d) => Value::Dict(d.view()),
            DataType::Event(e) => Value::Event(e.view()),
            DataType::TimeInterval(t) => Value::TimeInterval(t.view()),
        }
    }
}

/// A copy of a list of values, item by item.
pub fn duplicate_items(items: &Vec<DataType>) -> (r: Vec<DataType>)
    ensures
        values_of(r@) == values_of(items@),
    decreases items, 0int,
{
    let mut out: Vec<DataType> = Vec::new();
    let mut i: usize = 0;
    while i < items.len()
        invariant
            i <= items.len(),
            out.len() == i,
            forall|j: int| 0 <= j < i ==> out[j]@ == items[j]@,
        decreases items.len() - i,
    {
        let item = items[i].duplicate();
        out.push(item);
        i += 1;
    }
    assert(values_of(out@) =~= values_of(items@));
    out
}

/// A copy of a list of entries, entry by entry.
pub fn duplicate_entries(entries: &Vec<(String, DataType)>) -> (r: Vec<(String, DataType)>)
    ensures
        pairs_of(r@) == pairs_of(entries@),
    decreases entries, 0int,
{
    let mut out: Vec<(String, DataType)> = Vec::new();
    let mut i: usize = 0;
    while i < entries.len()
        invariant
            i <= entries.len(),
            out.len() == i,
            forall|j: int| 0 <= j < i ==> out[j].0@ == entries[j].0@ && out[j].1@ == entries[j].1@,
        decreases entries.len() - i,
    {
        let key = entries[i].0.clone();
        let value = entries[i].1.duplicate();
        out.push((key, value));
        i += 1;
    }
    assert(pairs_of(out@) =~= pairs_of(entries@));
    out
}

/// The place of the earliest entry of `key` among `pairs`, or -1 where it has none.
pub open spec fn first_index(pairs: Seq<(Seq<char>, Value)>, key: Seq<char>) -> int
    decreases pairs.len(),
{
    if pairs.len() == 0 {
        -1
    } else if pairs[0].0 == key {
        0
    } else {
        let rest = first_index(pairs.drop_first(), key);
        if rest < 0 {
            -1
        } else {
            rest + 1
        }
    }
}

/// A key is in the map of a list of entries where it has an earliest entry,
/// and that entry gives its value.
pub proof fn lemma_assoc_map(pairs: Seq<(Seq<char>, Value)>, key: Seq<char>)
    ensures
        -1 <= first_index(pairs, key) < pairs.len(),
        assoc_map(pairs).contains_key(key) <==> first_index(pairs, key) >= 0,
        first_index(pairs, key) >= 0 ==> pairs[first_index(pairs, key)].0 == key && assoc_map(
            pairs,
        )[key] == pairs[first_index(pairs, key)].1,
        forall|j: int|
            0 <= j < pairs.len() && (first_index(pairs, key) < 0 || j < first_index(pairs, key))
                ==> (#[trigger] pairs[j]).0 != key,
    decreases pairs.len(),
{
    if pairs.len() > 0 {
        let rest = pairs.drop_first();
        lemma_assoc_map(rest, key);
        assert forall|j: int|
            0 <= j < pairs.len() && (first_index(pairs, key) < 0 || j < first_index(
                pairs,
                key,
            )) implies (#[trigger] pairs[j]).0 != key by {
            if j > 0 {
                assert(rest[j - 1] == pairs[j]);
            }
        }
    }
}

/// The earliest entry of a key is the one before which no entry has the key.
pub proof fn lemma_first_index_is(pairs: Seq<(Seq<char>, Value)>, key: Seq<char>, i: int)
    requires
        0 <= i < pairs.len(),
        pairs[i].0 == key,
        forall|j: int| 0 <= j < i ==> (#[trigger] pairs[j]).0 != key,
    ensures
        first_index(pairs, key) == i,
{
    lemma_assoc_map(pairs, key);
    let at = first_index(pairs, key);
    if at < 0 || i < at {
        assert(pairs[i].0 != key);
    }
}

/// A key that no entry has is not in the map.
pub proof fn lemma_first_index_none(pairs: Seq<(Seq<char>, Value)>, key: Seq<char>)
    requires
        forall|j: int| 0 <= j < pairs.len() ==> (#[trigger] pairs[j]).0 != key,
    ensures
        first_index(pairs, key) < 0,
        !assoc_map(pairs).contains_key(key),
{
    lemma_assoc_map(pairs, key);
}

/// An entry added behind all others, under a key that none of them has, is a new key of the map.
pub proof fn lemma_assoc_push(pairs: Seq<(Seq<char>, Value)>, pair: (Seq<char>, Value))
    requires
        first_index(pairs, pair.0) < 0,
    ensures
        assoc_map(pairs.push(pair)) == assoc_map(pairs).insert(pair.0, pair.1),
{
    let more = pairs.push(pair);
    let left = assoc_map(more);
    let right = assoc_map(pairs).insert(pair.0, pair.1);
    assert forall|key: Seq<char>|
        left.contains_key(key) == #[trigger] right.contains_key(key) && (left.contains_key(key)
            ==> left[key] == right[key]) by {
        lemma_assoc_map(pairs, key);
        lemma_assoc_map(pairs, pair.0);
        let at = first_index(pairs, key);
        if at >= 0 {
            assert forall|j: int| 0 <= j < at implies (#[trigger] more[j]).0 != key by {
                assert(more[j] == pairs[j]);
            }
            assert(more[at] == pairs[at]);
            lemma_first_index_is(more, key, at);
        } else if key == pair.0 {
            assert forall|j: int| 0 <= j < pairs.len() implies (#[trigger] more[j]).0 != key by {
                assert(more[j] == pairs[j]);
            }
            lemma_first_index_is(more, key, pairs.len() as int);
        } else {
            assert forall|j: int| 0 <= j < more.len() implies (#[trigger] more[j]).0 != key by {
                if j < pairs.len() {
                    assert(more[j] == pairs[j]);
                }
            }
            lemma_first_index_none(more, key);
        }
        lemma_assoc_map(more, key);
    }
    assert(left.dom() =~= right.dom());
    assert(left =~= right);
}

/// To replace the earliest entry of a key by another of the same key is to give the key a new value.
pub proof fn lemma_assoc_update(pairs: Seq<(Seq<char>, Value)>, at: int, pair: (Seq<char>, Value))
    requires
        0 <= at == first_index(pairs, pair.0),
    ensures
        assoc_map(pairs.update(at, pair)) == assoc_map(pairs).insert(pair.0, pair.1),
{
    lemma_assoc_map(pairs, pair.0);
    let more = pairs.update(at, pair);
    let left = assoc_map(more);
    let right = assoc_map(pairs).insert(pair.0, pair.1);
    assert forall|j: int| 0 <= j < more.len() implies (#[trigger] more[j]).0 == pairs[j].0 by {}
    assert forall|key: Seq<char>|
        left.contains_key(key) == #[trigger] right.contains_key(key) && (left.contains_key(key)
            ==> left[key] == right[key]) by {
        lemma_assoc_map(pairs, key);
        let old_at = first_index(pairs, key);
        if old_at >= 0 {
            assert forall|j: int| 0 <= j < old_at implies (#[trigger] more[j]).0 != key by {
                assert(more[j].0 == pairs[j].0);
                assert(pairs[j].0 != key);
            }
            assert(more[old_at].0 == pairs[old_at].0);
            lemma_first_index_is(more, key, old_at);
        } else {
            assert forall|j: int| 0 <= j < more.len() implies (#[trigger] more[j]).0 != key by {
                assert(more[j].0 == pairs[j].0);
                assert(pairs[j].0 != key);
            }
            lemma_first_index_none(more, key);
        }
        lemma_assoc_map(more, key);
    }
    assert(left.dom() =~= right.dom());
    assert(left =~= right);
}

/// The place of the earliest entry of `key`, if it has one.
pub fn entry_position(entries: &Vec<(String, DataType)>, key: &str) -> (r: Option<usize>)
    ensures
        match r {
            Some(i) => i == first_index(pairs_of(entries@), key@),
            None => first_index(pairs_of(entries@), key@) < 0,
        },
        r is Some <==> assoc_map(pairs_of(entries@)).contains_key(key@),
        r matches Some(i) ==> i < entries.len() && entries[i as int].0@ == key@ && assoc_map(
            pairs_of(entries@),
        )[key@] == entries[i as int].1@,
{
    let ghost pairs = pairs_of(entries@);
    let mut i: usize = 0;
    while i < entries.len()
        invariant
            i <= entries.len(),
            pairs == pairs_of(entries@),
            forall|j: int| 0 <= j < i ==> (#[trigger] pairs[j]).0 != key@,
        decreases entries.len() - i,
    {
        if same_text(entries[i].0.as_str(), key) {
            proof {
                lemma_first_index_is(pairs, key@, i as int);
                lemma_assoc_map(pairs, key@);
            }
            return Some(i);
        }
        i += 1;
    }
    proof {
        lemma_first_index_none(pairs, key@);
    }
    None
}

/// Whether two lists hold equal values at each place.
pub fn same_items(a: &Vec<DataType>, b: &Vec<DataType>) -> (r: bool)
    ensures
        r == (values_of(a@) == values_of(b@)),
    decreases a, 0int,
{
    if a.len() != b.len() {
        assert(values_of(a@).len() != values_of(b@).len());
        return false;
    }
    let mut i: usize = 0;
    while i < a.len()
        invariant
            i <= a.len(),
            a.len() == b.len(),
            forall|j: int| 0 <= j < i ==> a[j]@ == b[j]@,
        decreases a.len() - i,
    {
        if !a[i].equals(&b[i]) {
            assert(values_of(a@)[i as int] != values_of(b@)[i as int]);
            return false;
        }
        i += 1;
    }
    assert(values_of(a@) =~= values_of(b@));
    true
}

/// Whether two lists of entries stand for the same map.
pub fn same_entries(a: &Vec<(String, DataType)>, b: &Vec<(String, DataType)>) -> (r: bool)
    ensures
        r == (assoc_map(pairs_of(a@)) == assoc_map(pairs_of(b@))),
    decreases a, 0int,
{
    let ghost left = assoc_map(pairs_of(a@));
    let ghost right = assoc_map(pairs_of(b@));
    let mut i: usize = 0;
    while i < a.len()
        invariant
            i <= a.len(),
            left == assoc_map(pairs_of(a@)),
            right == assoc_map(pairs_of(b@)),
            forall|j: int|
                0 <= j < i ==> right.contains_key((#[trigger] a[j]).0@) && left[a[j].0@]
                    == right[a[j].0@],
        decreases a.len() - i,
    {
        let ghost key = a[i as int].0@;
        let here = entry_position(a, a[i].0.as_str());
        let there = entry_position(b, a[i].0.as_str());
        proof {
            lemma_assoc_map(pairs_of(a@), key);
            if first_index(pairs_of(a@), key) < 0 {
                assert(pairs_of(a@)[i as int].0 != key);
            }
        }
        match here {
            Some(x) => {
                match there {
                    Some(y) => {
                        if !a[x].1.equals(&b[y].1) {
                            assert(left[key] != right[key]);
                            return false;
                        }
                    },
                    None => {
                        assert(left.contains_key(key) && !right.contains_key(key));
                        return false;
                    },
                }
            },
            None => {
                return false;
            },
        }
        i += 1;
    }
    let mut j: usize = 0;
    while j < b.len()
        invariant
            j <= b.len(),
            left == assoc_map(pairs_of(a@)),
            right == assoc_map(pairs_of(b@)),
            forall|t: int| 0 <= t < j ==> left.contains_key((#[trigger] b[t]).0@),
        decreases b.len() - j,
    {
        let ghost key = b[j as int].0@;
        if entry_position(a, b[j].0.as_str()).is_none() {
            proof {
                lemma_assoc_map(pairs_of(b@), key);
                if first_index(pairs_of(b@), key) < 0 {
                    assert(pairs_of(b@)[j as int].0 != key);
                }
                assert(right.contains_key(key) && !left.contains_key(key));
            }
            return false;
        }
        j += 1;
    }
    proof {
        assert forall|key: Seq<char>|
            left.contains_key(key) == #[trigger] right.contains_key(key) && (left.contains_key(key)
                ==> left[key] == right[key]) by {
            lemma_assoc_map(pairs_of(a@), key);
            lemma_assoc_map(pairs_of(b@), key);
            let x = first_index(pairs_of(a@), key);
            let y = first_index(pairs_of(b@), key);
            if x >= 0 {
                assert(a[x].0@ == pairs_of(a@)[x].0);
            }
            if y >= 0 {
                assert(b[y].0@ == pairs_of(b@)[y].0);
            }
        }
        assert(left.dom() =~= right.dom());
        assert(left =~= right);
    }
    true
}

impl Dict {
    /// A dictionary without entries.
    pub fn new() -> (r: Dict)
        ensures
            r@ == Map::<Seq<char>, Value>::empty(),
    {
        let r = Dict { entries: Vec::new() };
        assert(pairs_of(r.entries@) =~= Seq::empty());
        r
    }

    /// The value of `key`, if it has one.
    pub fn get(&self, key: &str) -> (r: Option<&DataType>)
        ensures
            match r {
                Some(value) => self@.contains_key(key@) && value@ == self@[key@],
                None => !self@.contains_key(key@),
            },
    {
        match entry_position(&self.entries, key) {
            Some(i) => Some(&self.entries[i].1),
            None => None,
        }
    }

    /// Gives `key` the value `value`, whether or not it had one.
    pub fn insert(&mut self, key: String, value: DataType)
        ensures
            final(self)@ == old(self)@.insert(key@, value@),
    {
        let ghost pairs = pairs_of(self.entries@);
        let ghost pair = (key@, value@);
        match entry_position(&self.entries, key.as_str()) {
            Some(i) => {
                self.entries.set(i, (key, value));
                proof {
                    assert(pairs_of(self.entries@) =~= pairs.update(i as int, pair));
                    lemma_assoc_update(pairs, i as int, pair);
                }
            },
            None => {
                self.entries.push((key, value));
                proof {
                    assert(pairs_of(self.entries@) =~= pairs.push(pair));
                    lemma_assoc_push(pairs, pair);
                }
            },
        }
    }

    /// Whether two dictionaries give the same keys the same values.
    pub fn equals(&self, other: &Dict) -> (r: bool)
        ensures
            r == (self@ == other@),
        decreases self, 1int,
    {
        same_entries(&self.entries, &other.entries)
    }

    /// A copy that shares nothing with the value it was made of.
    pub fn duplicate(&self) -> (r: Dict)
        ensures
            r@ == self@,
        decreases self, 1int,
    {
        Dict { entries: duplicate_entries(&self.entries) }
    }
}

impl Event {
    /// Whether two events begin at one instant, last equally long and say the same.
    pub fn equals(&self, other: &Event) -> (r: bool)
        ensures
            r == (self@ == other@),
        decreases self, 1int,
    {
        self.timestamp == other.timestamp && self.duration == other.duration && self.data.equals(
            &other.data,
        )
    }

    /// A copy that shares nothing with the value it was made of.
    pub fn duplicate(&self) -> (r: Event)
        ensures
            r@ == self@,
        decreases self, 1int,
    {
        Event { timestamp: self.timestamp, duration: self.duration, data: self.data.duplicate() }
    }
}

impl DataType {
    /// Whether two values are equal: of one variant, and equal in what they hold.
    /// The order of the entries of a dictionary does not count.
    pub fn equals(&self, other: &DataType) -> (r: bool)
        ensures
            r == (self@ == other@),
        decreases self, 1int,
    {
        match self {
            DataType::Null => match other {
                DataType::Null => true,
                _ => false,
            },
            DataType::Boolean(a) => match other {
                DataType::Boolean(b) => *a == *b,
                _ => false,
            },
            DataType::Number(a) => match other {
                DataType::Number(b) => *a == *b,
                _ => false,
            },
            DataType::Text(a) => match other {
                DataType::Text(b) => same_text(a.as_str(), b.as_str()),
                _ => false,
            },
            DataType::List(a) => match other {
                DataType::List(b) => same_items(a, b),
                _ => false,
            },
            DataType::Dict(a) => match other {
                DataType::Dict(b) => a.equals(b),
                _ => false,
            },
            DataType::Event(a) => match other {
                DataType::Event(b) => a.equals(b),
                _ => false,
            },
            DataType::TimeInterval(a) => match other {
                DataType::TimeInterval(b) => a.start == b.start && a.end == b.end,
                _ => false,
            },
        }
    }

    /// A copy that shares nothing with the value it was made of.
    pub fn duplicate(&self) -> (r: DataType)
        ensures
            r@ == self@,
        decreases self, 1int,
    {
        match self {
            DataType::Null => DataType::Null,
            DataType::Boolean(b) => DataType::Boolean(*b),
            DataType::Number(n) => DataType::Number(*n),
            DataType::Text(s) => DataType::Text(s.clone()),
            DataType::List(items) => DataType::List(duplicate_items(items)),
            DataType::Dict(d) => DataType::Dict(d.duplicate()),
            DataType::Event(e) => DataType::Event(e.duplicate()),
            DataType::TimeInterval(t) => DataType::TimeInterval(*t),
        }
    }
}

} // verus!

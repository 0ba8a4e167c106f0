use aw_query::datastore::Bucket;
use aw_query::datastore::Datastore;
use aw_query::transform::filter_keyvals;
use aw_query::transform::filter_period_intersect;
use aw_query::transform::limit_events;
use aw_query::transform::merge_events_by_keys;
use aw_query::transform::project;
use aw_query::transform::sort_by_timestamp;
use aw_query::transform::sum_durations;
use aw_query::DataType;
use aw_query::Dict;
use aw_query::Event;
use aw_query::QueryError;
use aw_query::TimeInterval;

fn text(s: &str) -> DataType {
    DataType::Text(s.to_string())
}

fn dict(entries: Vec<(&str, DataType)>) -> Dict {
    Dict { entries: entries.into_iter().map(|(k, v)| (k.to_string(), v)).collect() }
}

fn event(timestamp: i64, duration: i64, app: &str) -> Event {
    Event { timestamp, duration, data: dict(vec![("app", text(app))]) }
}

fn same(a: &Vec<Event>, b: &Vec<Event>) -> bool {
    a.len() == b.len() && a.iter().zip(b.iter()).all(|(x, y)| x.equals(y))
}

fn store() -> Datastore {
    Datastore {
        buckets: vec![
            Bucket { id: "window".to_string(), events: vec![event(5, 1, "a"), event(10, 1, "b"), event(19, 1, "c"), event(20, 1, "d")] },
            Bucket { id: "afk".to_string(), events: vec![] },
            Bucket { id: "window".to_string(), events: vec![event(11, 1, "shadowed")] },
        ],
    }
}

#[test]
fn events_inside_the_window() {
    let s = store();
    let got = s.get_events("window", &TimeInterval { start: 10, end: 20 }, None).unwrap();
    assert!(same(&got, &vec![event(10, 1, "b"), event(19, 1, "c")]));
    let all = s.get_events("window", &TimeInterval { start: 0, end: 100 }, None).unwrap();
    assert_eq!(all.len(), 4);
    let none = s.get_events("window", &TimeInterval { start: 20, end: 10 }, None).unwrap();
    assert!(none.is_empty());
    assert!(s.get_events("afk", &TimeInterval { start: 0, end: 100 }, None).unwrap().is_empty());
}

#[test]
fn events_up_to_a_limit() {
    let s = store();
    let w = TimeInterval { start: 0, end: 100 };
    assert!(same(&s.get_events("window", &w, Some(2)).unwrap(), &vec![event(5, 1, "a"), event(10, 1, "b")]));
    assert!(s.get_events("window", &w, Some(0)).unwrap().is_empty());
    assert_eq!(s.get_events("window", &w, Some(4)).unwrap().len(), 4);
    assert_eq!(s.get_events("window", &w, Some(9)).unwrap().len(), 4);
}

#[test]
fn missing_bucket_is_named() {
    let s = store();
    let r = s.get_events("nope", &TimeInterval { start: 0, end: 1 }, None);
    assert!(matches!(r, Err(QueryError::BucketNotFound(n)) if n == "nope"));
    assert!(matches!(s.get_bucket("nope"), Err(QueryError::BucketNotFound(n)) if n == "nope"));
    assert_eq!(s.get_bucket("window").unwrap().events.len(), 4);
    assert!(matches!(Datastore::new().get_bucket("window"), Err(QueryError::BucketNotFound(_))));
}

#[test]
fn names_of_all_buckets() {
    assert_eq!(store().bucket_names(), vec!["window".to_string(), "afk".to_string(), "window".to_string()]);
    assert!(Datastore::new().bucket_names().is_empty());
}

#[test]
fn filter_by_key_and_values() {
    let events = vec![event(1, 1, "vim"), event(2, 1, "firefox"), event(3, 1, "vim"), event(4, 1, "emacs")];
    let got = filter_keyvals(events, "app", &vec![text("vim"), text("emacs")]);
    assert!(same(&got, &vec![event(1, 1, "vim"), event(3, 1, "vim"), event(4, 1, "emacs")]));
    let events = vec![event(1, 1, "vim")];
    assert!(filter_keyvals(events, "title", &vec![text("vim")]).is_empty());
    let events = vec![event(1, 1, "vim")];
    assert!(filter_keyvals(events, "app", &vec![]).is_empty());
    let events = vec![event(1, 1, "1")];
    assert!(filter_keyvals(events, "app", &vec![DataType::Number(1)]).is_empty());
}

#[test]
fn clip_to_a_window() {
    let w = TimeInterval { start: 10, end: 20 };
    let events = vec![
        event(0, 5, "before"),
        event(5, 10, "head"),
        event(12, 3, "inside"),
        event(18, 10, "tail"),
        event(0, 100, "around"),
        event(20, 5, "after"),
        event(5, 5, "touching"),
        event(15, 0, "empty"),
        event(15, -3, "backwards"),
    ];
    let got = filter_period_intersect(events, &w);
    let want = vec![event(10, 5, "head"), event(12, 3, "inside"), event(18, 2, "tail"), event(10, 10, "around")];
    assert!(same(&got, &want));
}

#[test]
fn clip_at_the_ends_of_time() {
    let w = TimeInterval { start: i64::MIN, end: i64::MAX };
    let got = filter_period_intersect(vec![event(i64::MAX - 1, i64::MAX, "x"), event(i64::MIN, i64::MAX, "y")], &w);
    assert!(same(&got, &vec![event(i64::MAX - 1, 1, "x"), event(i64::MIN, i64::MAX, "y")]));
}

#[test]
fn first_events_only() {
    let make = || vec![event(1, 1, "a"), event(2, 1, "b"), event(3, 1, "c")];
    assert!(same(&limit_events(make(), 2), &vec![event(1, 1, "a"), event(2, 1, "b")]));
    assert!(same(&limit_events(make(), 3), &make()));
    assert!(same(&limit_events(make(), i64::MAX), &make()));
    assert!(limit_events(make(), 0).is_empty());
    assert!(limit_events(make(), -1).is_empty());
    assert!(limit_events(vec![], 5).is_empty());
}

#[test]
fn durations_added_up() {
    assert_eq!(sum_durations(&vec![]), Some(0));
    assert_eq!(sum_durations(&vec![event(1, 3, "a"), event(2, 4, "b"), event(3, -2, "c")]), Some(5));
    assert_eq!(sum_durations(&vec![event(1, i64::MAX, "a"), event(2, 1, "b")]), None);
    assert_eq!(sum_durations(&vec![event(1, i64::MIN, "a"), event(2, -1, "b")]), None);
    assert_eq!(sum_durations(&vec![event(1, i64::MAX, "a"), event(2, 1, "b"), event(3, -1, "c")]), Some(i64::MAX));
}

#[test]
fn projection_keeps_the_named_keys() {
    let data = dict(vec![("app", text("vim")), ("title", text("a.rs")), ("n", DataType::Number(1))]);
    let got = project(&data, &vec!["title".to_string(), "missing".to_string(), "app".to_string()]);
    assert!(got.equals(&dict(vec![("app", text("vim")), ("title", text("a.rs"))])));
    assert!(project(&data, &vec![]).equals(&Dict::new()));
}

#[test]
fn merge_by_keys() {
    let e = |t: i64, d: i64, app: &str, title: &str| Event {
        timestamp: t,
        duration: d,
        data: dict(vec![("app", text(app)), ("title", text(title))]),
    };
    let events = vec![e(1, 10, "vim", "a"), e(2, 20, "firefox", "b"), e(3, 30, "vim", "c"), e(4, 40, "firefox", "d"), e(5, 50, "emacs", "e")];
    let got = merge_events_by_keys(events, &vec!["app".to_string()]).unwrap();
    assert!(same(&got, &vec![event(1, 40, "vim"), event(2, 60, "firefox"), event(5, 50, "emacs")]));
}

#[test]
fn merge_without_keys_makes_one_event() {
    let got = merge_events_by_keys(vec![event(3, 1, "a"), event(1, 2, "b")], &vec![]).unwrap();
    assert_eq!(got.len(), 1);
    assert!(got[0].equals(&Event { timestamp: 3, duration: 3, data: Dict::new() }));
    assert!(merge_events_by_keys(vec![], &vec!["app".to_string()]).unwrap().is_empty());
}

#[test]
fn merge_beyond_the_numbers() {
    let r = merge_events_by_keys(vec![event(1, i64::MAX, "a"), event(2, 1, "a"), event(3, -1, "a")], &vec!["app".to_string()]);
    assert!(r.is_none());
    let r = merge_events_by_keys(vec![event(1, i64::MAX, "a"), event(2, 1, "b")], &vec!["app".to_string()]);
    assert_eq!(r.unwrap().len(), 2);
}

#[test]
fn sort_by_beginning_keeps_ties_in_order() {
    let got = sort_by_timestamp(vec![event(3, 1, "c"), event(1, 1, "a1"), event(2, 1, "b"), event(1, 1, "a2"), event(-5, 1, "z"), event(1, 1, "a3")]);
    let want = vec![event(-5, 1, "z"), event(1, 1, "a1"), event(1, 1, "a2"), event(1, 1, "a3"), event(2, 1, "b"), event(3, 1, "c")];
    assert!(same(&got, &want));
    assert!(sort_by_timestamp(vec![]).is_empty());
}

#[test]
fn sorted_events_are_in_order_and_all_there() {
    let mut seed: u64 = 7;
    let mut events = Vec::new();
    for i in 0..200u64 {
        seed = seed.wrapping_mul(6364136223846793005).wrapping_add(1442695040888963407);
        events.push(event((seed >> 40) as i64 % 50, i as i64, "x"));
    }
    let got = sort_by_timestamp(events);
    assert_eq!(got.len(), 200);
    for pair in got.windows(2) {
        assert!(pair[0].timestamp < pair[1].timestamp || (pair[0].timestamp == pair[1].timestamp && pair[0].duration < pair[1].duration));
    }
    let mut seen: Vec<i64> = got.iter().map(|e| e.duration).collect();
    seen.sort();
    assert_eq!(seen, (0..200).collect::<Vec<i64>>());
}

use aw_query::DataType;
use aw_query::Dict;
use aw_query::Event;
use aw_query::TimeInterval;

fn text(s: &str) -> DataType {
    DataType::Text(s.to_string())
}

fn dict(entries: Vec<(&str, DataType)>) -> Dict {
    Dict { entries: entries.into_iter().map(|(k, v)| (k.to_string(), v)).collect() }
}

#[test]
fn equal_values_of_each_variant() {
    assert!(DataType::Null.equals(&DataType::Null));
    assert!(DataType::Boolean(true).equals(&DataType::Boolean(true)));
    assert!(DataType::Number(-3).equals(&DataType::Number(-3)));
    assert!(text("a").equals(&text("a")));
    assert!(DataType::List(vec![DataType::Number(1), text("b")])
        .equals(&DataType::List(vec![DataType::Number(1), text("b")])));
    let t = TimeInterval { start: 1, end: 2 };
    assert!(DataType::TimeInterval(t).equals(&DataType::TimeInterval(TimeInterval { start: 1, end: 2 })));
}

#[test]
fn unequal_values() {
    assert!(!DataType::Null.equals(&DataType::Boolean(false)));
    assert!(!DataType::Boolean(true).equals(&DataType::Boolean(false)));
    assert!(!DataType::Number(1).equals(&DataType::Number(2)));
    assert!(!DataType::Number(1).equals(&text("1")));
    assert!(!text("a").equals(&text("ab")));
    assert!(!text("ab").equals(&text("ac")));
    assert!(!DataType::List(vec![DataType::Number(1)]).equals(&DataType::List(vec![])));
    assert!(!DataType::List(vec![DataType::Number(1)]).equals(&DataType::List(vec![DataType::Number(2)])));
    let a = DataType::TimeInterval(TimeInterval { start: 1, end: 2 });
    let b = DataType::TimeInterval(TimeInterval { start: 1, end: 3 });
    assert!(!a.equals(&b));
}

#[test]
fn text_equality_beyond_ascii() {
    assert!(text("größe").equals(&text("größe")));
    assert!(!text("größe").equals(&text("grosse")));
    assert!(!text("é").equals(&text("e\u{301}")));
}

#[test]
fn dictionaries_ignore_the_order_of_entries() {
    let a = dict(vec![("app", text("vim")), ("n", DataType::Number(1))]);
    let b = dict(vec![("n", DataType::Number(1)), ("app", text("vim"))]);
    assert!(a.equals(&b));
    assert!(DataType::Dict(a).equals(&DataType::Dict(b)));
}

#[test]
fn dictionaries_differ_by_key_or_value() {
    let a = dict(vec![("app", text("vim"))]);
    let b = dict(vec![("app", text("emacs"))]);
    let c = dict(vec![("title", text("vim"))]);
    let d = dict(vec![("app", text("vim")), ("n", DataType::Number(1))]);
    assert!(!a.equals(&b));
    assert!(!a.equals(&c));
    assert!(!a.equals(&d));
    assert!(!d.equals(&a));
}

#[test]
fn earlier_entry_of_a_key_counts() {
    let a = dict(vec![("k", DataType::Number(1)), ("k", DataType::Number(2))]);
    let b = dict(vec![("k", DataType::Number(1))]);
    let c = dict(vec![("k", DataType::Number(2))]);
    assert!(matches!(a.get("k"), Some(DataType::Number(1))));
    assert!(a.equals(&b));
    assert!(b.equals(&a));
    assert!(!a.equals(&c));
}

#[test]
fn dict_get_and_insert() {
    let mut d = Dict::new();
    assert!(d.get("a").is_none());
    d.insert("a".to_string(), DataType::Number(1));
    d.insert("b".to_string(), DataType::Number(2));
    assert!(matches!(d.get("a"), Some(DataType::Number(1))));
    assert!(matches!(d.get("b"), Some(DataType::Number(2))));
    d.insert("a".to_string(), DataType::Number(3));
    assert!(matches!(d.get("a"), Some(DataType::Number(3))));
    assert!(matches!(d.get("b"), Some(DataType::Number(2))));
    assert_eq!(d.entries.len(), 2);
    assert!(d.get("c").is_none());
}

#[test]
fn events_compare_by_all_three_parts() {
    let e = Event { timestamp: 10, duration: 5, data: dict(vec![("app", text("vim"))]) };
    let same = Event { timestamp: 10, duration: 5, data: dict(vec![("app", text("vim"))]) };
    let later = Event { timestamp: 11, duration: 5, data: dict(vec![("app", text("vim"))]) };
    let longer = Event { timestamp: 10, duration: 6, data: dict(vec![("app", text("vim"))]) };
    let other = Event { timestamp: 10, duration: 5, data: dict(vec![("app", text("vi"))]) };
    assert!(e.equals(&same));
    assert!(!e.equals(&later));
    assert!(!e.equals(&longer));
    assert!(!e.equals(&other));
    assert!(DataType::Event(e).equals(&DataType::Event(same)));
}

#[test]
fn duplicate_is_equal_and_apart() {
    let first = DataType::List(vec![
        DataType::Dict(dict(vec![("k", DataType::List(vec![DataType::Number(1)]))])),
        DataType::Event(Event { timestamp: 1, duration: 2, data: dict(vec![("a", text("b"))]) }),
        text("t"),
        DataType::Null,
    ]);
    let mut copy = first.duplicate();
    assert!(copy.equals(&first));
    if let DataType::List(items) = &mut copy {
        items.push(DataType::Null);
    }
    assert!(!copy.equals(&first));
}

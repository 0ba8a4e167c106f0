use aw_query::DataType;
use aw_query::QueryError;
use aw_query::VarEnv;

fn number(r: Result<DataType, QueryError>) -> i64 {
    match r {
        Ok(DataType::Number(n)) => n,
        other => panic!("not a number: {:?}", other),
    }
}

#[test]
fn two_counted_reads_then_gone() {
    let mut env = VarEnv::new();
    env.declare("a".to_string());
    env.add_ref("a").unwrap();
    env.add_ref("a").unwrap();
    env.insert("a".to_string(), DataType::Number(5)).unwrap();
    assert_eq!(number(env.take("a")), 5);
    assert_eq!(number(env.deprecated_get("a")), 5);
    assert_eq!(number(env.take("a")), 5);
    assert!(matches!(env.deprecated_get("a"), Err(QueryError::VariableNotDefined(n)) if n == "a"));
    assert!(matches!(env.take("a"), Err(QueryError::VariableNotDefined(n)) if n == "a"));
}

#[test]
fn second_declare_keeps_value_and_count() {
    let mut env = VarEnv::new();
    env.declare("x".to_string());
    env.add_ref("x").unwrap();
    env.add_ref("x").unwrap();
    env.insert("x".to_string(), DataType::Number(7)).unwrap();
    env.declare("x".to_string());
    assert_eq!(number(env.deprecated_get("x")), 7);
    assert_eq!(number(env.take("x")), 7);
    assert_eq!(number(env.take("x")), 7);
    assert!(matches!(env.take("x"), Err(QueryError::VariableNotDefined(_))));
}

#[test]
fn pinned_entry_outlasts_reads() {
    let mut env = VarEnv::new();
    env.declare_static("v".to_string(), DataType::Text("x".to_string()));
    for _ in 0..100 {
        assert!(matches!(env.deprecated_get("v"), Ok(DataType::Text(t)) if t == "x"));
        assert!(matches!(env.take("v"), Ok(DataType::Text(t)) if t == "x"));
    }
    env.add_ref("v").unwrap();
    assert!(matches!(env.take("v"), Ok(DataType::Text(t)) if t == "x"));
    assert!(matches!(env.deprecated_get("v"), Ok(DataType::Text(t)) if t == "x"));
}

#[test]
fn pinning_replaces_an_entry() {
    let mut env = VarEnv::new();
    env.declare("v".to_string());
    env.add_ref("v").unwrap();
    env.insert("v".to_string(), DataType::Number(1)).unwrap();
    env.declare_static("v".to_string(), DataType::Number(2));
    assert_eq!(number(env.take("v")), 2);
    assert_eq!(number(env.take("v")), 2);
}

#[test]
fn n_reads_for_n_references() {
    for n in 1..20 {
        let mut env = VarEnv::new();
        env.declare("k".to_string());
        for _ in 0..n {
            env.add_ref("k").unwrap();
        }
        env.insert("k".to_string(), DataType::Number(n)).unwrap();
        for _ in 0..n {
            assert_eq!(number(env.deprecated_get("k")), n);
            assert_eq!(number(env.take("k")), n);
        }
        assert!(matches!(env.take("k"), Err(QueryError::VariableNotDefined(s)) if s == "k"));
        assert!(matches!(env.deprecated_get("k"), Err(QueryError::VariableNotDefined(s)) if s == "k"));
    }
}

#[test]
fn assignment_needs_a_declaration() {
    let mut env = VarEnv::new();
    let r = env.insert("u".to_string(), DataType::Number(1));
    assert!(matches!(r, Err(QueryError::InternalError(n)) if n == "u"));
    assert!(matches!(env.deprecated_get("u"), Err(QueryError::VariableNotDefined(_))));
}

#[test]
fn reference_needs_a_declaration() {
    let mut env = VarEnv::new();
    assert!(matches!(env.add_ref("u"), Err(QueryError::VariableNotDefined(n)) if n == "u"));
}

#[test]
fn read_before_assignment_is_internal() {
    let mut env = VarEnv::new();
    env.declare("e".to_string());
    env.add_ref("e").unwrap();
    assert!(matches!(env.deprecated_get("e"), Err(QueryError::InternalError(n)) if n == "e"));
    assert!(matches!(env.take("e"), Err(QueryError::InternalError(n)) if n == "e"));
    env.insert("e".to_string(), DataType::Boolean(true)).unwrap();
    assert!(matches!(env.take("e"), Ok(DataType::Boolean(true))));
}

#[test]
fn read_without_reference_is_internal() {
    let mut env = VarEnv::new();
    env.declare("z".to_string());
    env.insert("z".to_string(), DataType::Number(3)).unwrap();
    assert!(matches!(env.take("z"), Err(QueryError::InternalError(n)) if n == "z"));
    assert_eq!(number(env.deprecated_get("z")), 3);
}

#[test]
fn assignment_keeps_the_count() {
    let mut env = VarEnv::new();
    env.declare("c".to_string());
    env.add_ref("c").unwrap();
    env.add_ref("c").unwrap();
    env.insert("c".to_string(), DataType::Number(1)).unwrap();
    assert_eq!(number(env.take("c")), 1);
    env.insert("c".to_string(), DataType::Number(2)).unwrap();
    assert_eq!(number(env.take("c")), 2);
    assert!(matches!(env.take("c"), Err(QueryError::VariableNotDefined(_))));
}

#[test]
fn names_are_kept_apart() {
    let mut env = VarEnv::new();
    env.declare("a".to_string());
    env.declare("b".to_string());
    env.add_ref("a").unwrap();
    env.add_ref("b").unwrap();
    env.insert("a".to_string(), DataType::Number(1)).unwrap();
    env.insert("b".to_string(), DataType::Number(2)).unwrap();
    assert_eq!(number(env.take("a")), 1);
    assert_eq!(number(env.take("b")), 2);
    assert!(matches!(env.take("a"), Err(QueryError::VariableNotDefined(_))));
}

#[test]
fn stores_of_several_windows_stay_apart() {
    let k = 7;
    let mut stores: Vec<VarEnv> = Vec::new();
    for i in 0..k {
        let mut env = VarEnv::new();
        env.declare_static("TIMEINTERVAL".to_string(), DataType::Number(i));
        stores.push(env);
    }
    let mut seed: u64 = 11;
    for _ in 0..500 {
        seed = seed.wrapping_mul(6364136223846793005).wrapping_add(1442695040888963407);
        let i = ((seed >> 33) % (k as u64)) as usize;
        if (seed >> 20) & 1 == 1 {
            assert_eq!(number(stores[i].take("TIMEINTERVAL")), i as i64);
        } else {
            assert_eq!(number(stores[i].deprecated_get("TIMEINTERVAL")), i as i64);
        }
    }
    for i in 0..k as usize {
        assert_eq!(number(stores[i].deprecated_get("TIMEINTERVAL")), i as i64);
    }
}

#[test]
fn counting_leaves_a_pinned_entry_pinned_and_a_counted_one_counted() {
    let mut env = VarEnv::new();
    env.declare_static("p".to_string(), DataType::Number(1));
    env.declare("c".to_string());
    for _ in 0..1000 {
        env.add_ref("p").unwrap();
        env.add_ref("c").unwrap();
    }
    env.insert("c".to_string(), DataType::Number(2)).unwrap();
    for _ in 0..1000 {
        assert_eq!(number(env.take("c")), 2);
    }
    assert!(matches!(env.take("c"), Err(QueryError::VariableNotDefined(_))));
    for _ in 0..2000 {
        assert_eq!(number(env.take("p")), 1);
    }
}

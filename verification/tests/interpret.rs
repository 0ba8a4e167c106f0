use aw_query::ast::BinaryOp;
use aw_query::ast::Expr;
use aw_query::ast::Statement;
use aw_query::ast::UnaryOp;
use aw_query::datastore::Bucket;
use aw_query::datastore::Datastore;
use aw_query::functions::call_function;
use aw_query::functions::expected_args;
use aw_query::interpret::count_script;
use aw_query::interpret::eval_expr;
use aw_query::interpret::run;
use aw_query::interpret::run_batch;
use aw_query::operators::apply_binary;
use aw_query::operators::apply_unary;
use aw_query::DataType;
use aw_query::Dict;
use aw_query::Event;
use aw_query::QueryError;
use aw_query::TimeInterval;
use aw_query::VarEnv;

fn text(s: &str) -> DataType {
    DataType::Text(s.to_string())
}

fn num(n: i64) -> Expr {
    Expr::Literal(DataType::Number(n))
}

fn lit(s: &str) -> Expr {
    Expr::Literal(text(s))
}

fn var(name: &str) -> Expr {
    Expr::Variable(name.to_string())
}

fn bin(op: BinaryOp, a: Expr, b: Expr) -> Expr {
    Expr::Binary(op, Box::new(a), Box::new(b))
}

fn call(name: &str, args: Vec<Expr>) -> Expr {
    Expr::Call(name.to_string(), args)
}

fn assign(name: &str, e: Expr) -> Statement {
    Statement::Assign(name.to_string(), e)
}

fn dict(entries: Vec<(&str, DataType)>) -> Dict {
    Dict { entries: entries.into_iter().map(|(k, v)| (k.to_string(), v)).collect() }
}

fn event(timestamp: i64, duration: i64, app: &str) -> Event {
    Event { timestamp, duration, data: dict(vec![("app", text(app))]) }
}

fn events(list: Vec<Event>) -> DataType {
    DataType::List(list.into_iter().map(DataType::Event).collect())
}

fn store() -> Datastore {
    Datastore {
        buckets: vec![Bucket {
            id: "window".to_string(),
            events: vec![event(5, 1, "vim"), event(10, 2, "firefox"), event(15, 4, "vim"), event(25, 8, "vim")],
        }],
    }
}

fn window() -> TimeInterval {
    TimeInterval { start: 0, end: 20 }
}

fn is(r: Result<DataType, QueryError>, want: DataType) -> bool {
    match r {
        Ok(got) => got.equals(&want),
        Err(_) => false,
    }
}

#[test]
fn sum_of_two_variables() {
    let script = vec![assign("x", num(2)), assign("y", num(3)), Statement::Expression(bin(BinaryOp::Add, var("x"), var("y")))];
    let r = run(&script, &window(), &store());
    assert!(matches!(r, Ok(DataType::Number(5))));
}

#[test]
fn read_of_an_unassigned_variable() {
    let script = vec![Statement::Expression(bin(BinaryOp::Add, var("z"), num(1)))];
    let r = run(&script, &window(), &store());
    assert!(matches!(r, Err(QueryError::VariableNotDefined(n)) if n == "z"));
}

#[test]
fn read_before_the_assignment() {
    let script = vec![Statement::Expression(var("x")), assign("x", num(1))];
    assert!(matches!(run(&script, &window(), &store()), Err(QueryError::VariableNotDefined(n)) if n == "x"));
    let script = vec![assign("x", bin(BinaryOp::Add, var("x"), num(1)))];
    assert!(matches!(run(&script, &window(), &store()), Err(QueryError::VariableNotDefined(n)) if n == "x"));
}

#[test]
fn too_few_arguments() {
    let script = vec![Statement::Expression(call("limit_events", vec![Expr::List(vec![])]))];
    let r = run(&script, &window(), &store());
    assert!(matches!(r, Err(QueryError::ArgCountError(f, 2, 1)) if f == "limit_events"));
}

#[test]
fn bucket_that_is_not_there() {
    let script = vec![Statement::Expression(call("query_bucket", vec![lit("does-not-exist")]))];
    let r = run(&script, &window(), &store());
    assert!(matches!(r, Err(QueryError::BucketNotFound(n)) if n == "does-not-exist"));
}

#[test]
fn windows_are_run_apart() {
    let script = vec![
        assign("events", call("query_bucket", vec![lit("window")])),
        assign("n", call("length", vec![var("events")])),
        Statement::Expression(bin(BinaryOp::Add, var("n"), call("sum_durations", vec![var("events")]))),
    ];
    let windows = vec![
        TimeInterval { start: 0, end: 20 },
        TimeInterval { start: 10, end: 11 },
        TimeInterval { start: 100, end: 200 },
        TimeInterval { start: 0, end: 100 },
    ];
    let got = run_batch(&script, &windows, &store());
    assert_eq!(got.len(), 4);
    let want = [10, 3, 0, 19];
    for (i, r) in got.iter().enumerate() {
        assert!(matches!(r, Ok(DataType::Number(n)) if *n == want[i]));
        assert!(is(run(&script, &windows[i], &store()), DataType::Number(want[i])));
    }
    assert!(run_batch(&script, &vec![], &store()).is_empty());
}

#[test]
fn one_window_fails_the_others_do_not() {
    let script = vec![
        assign("events", call("query_bucket", vec![lit("window")])),
        Statement::Expression(bin(BinaryOp::Div, num(100), call("length", vec![var("events")]))),
    ];
    let windows = vec![TimeInterval { start: 0, end: 20 }, TimeInterval { start: 100, end: 200 }, TimeInterval { start: 0, end: 6 }];
    let got = run_batch(&script, &windows, &store());
    assert!(matches!(got[0], Ok(DataType::Number(33))));
    assert!(matches!(&got[1], Err(QueryError::MathError(op)) if op == "/"));
    assert!(matches!(got[2], Ok(DataType::Number(100))));
}

#[test]
fn script_without_a_last_value() {
    assert!(matches!(run(&vec![], &window(), &store()), Ok(DataType::Null)));
    assert!(matches!(run(&vec![assign("x", num(1))], &window(), &store()), Ok(DataType::Null)));
    let script = vec![Statement::Expression(num(1)), Statement::Expression(num(2))];
    assert!(matches!(run(&script, &window(), &store()), Ok(DataType::Number(2))));
}

#[test]
fn variable_read_many_times() {
    let script = vec![
        assign("x", num(7)),
        assign("y", bin(BinaryOp::Mul, var("x"), var("x"))),
        assign("x", bin(BinaryOp::Add, var("x"), var("y"))),
        Statement::Expression(bin(BinaryOp::Sub, var("x"), var("y"))),
    ];
    assert!(matches!(run(&script, &window(), &store()), Ok(DataType::Number(7))));
}

#[test]
fn assignment_after_the_last_read() {
    let script = vec![assign("x", num(1)), Statement::Expression(var("x")), assign("x", num(2))];
    assert!(matches!(run(&script, &window(), &store()), Ok(DataType::Null)));
}

#[test]
fn first_failure_ends_the_run() {
    let script = vec![
        assign("x", bin(BinaryOp::Div, num(1), num(0))),
        Statement::Expression(call("query_bucket", vec![lit("does-not-exist")])),
    ];
    assert!(matches!(run(&script, &window(), &store()), Err(QueryError::MathError(op)) if op == "/"));
    let script = vec![Statement::Expression(bin(BinaryOp::Add, call("nothing", vec![]), bin(BinaryOp::Div, num(1), num(0))))];
    assert!(matches!(run(&script, &window(), &store()), Err(QueryError::VariableNotDefined(n)) if n == "nothing"));
}

#[test]
fn counting_pass_counts_and_declares() {
    let script = vec![assign("x", num(1)), Statement::Expression(Expr::List(vec![var("x"), var("x"), var("TIMEINTERVAL")]))];
    let mut env = VarEnv::new();
    env.declare_static("TIMEINTERVAL".to_string(), DataType::TimeInterval(window()));
    count_script(&script, &mut env).unwrap();
    env.insert("x".to_string(), DataType::Number(4)).unwrap();
    assert!(matches!(env.take("x"), Ok(DataType::Number(4))));
    assert!(matches!(env.take("x"), Ok(DataType::Number(4))));
    assert!(matches!(env.take("x"), Err(QueryError::VariableNotDefined(_))));
    assert!(matches!(env.take("TIMEINTERVAL"), Ok(DataType::TimeInterval(_))));
}

#[test]
fn window_can_be_read_by_name() {
    let script = vec![Statement::Expression(var("TIMEINTERVAL"))];
    let r = run(&script, &TimeInterval { start: 3, end: 9 }, &store());
    assert!(matches!(r, Ok(DataType::TimeInterval(TimeInterval { start: 3, end: 9 }))));
}

#[test]
fn query_then_transform() {
    let script = vec![
        assign("events", call("query_bucket", vec![lit("window")])),
        assign("events", call("filter_keyvals", vec![var("events"), lit("app"), Expr::List(vec![lit("vim")])])),
        assign("events", call("filter_period_intersect", vec![var("events"), var("TIMEINTERVAL")])),
        Statement::Expression(call("merge_events_by_keys", vec![var("events"), Expr::List(vec![lit("app")])])),
    ];
    let r = run(&script, &TimeInterval { start: 0, end: 17 }, &store());
    assert!(is(r, events(vec![event(5, 3, "vim")])));
}

#[test]
fn arithmetic() {
    let n = DataType::Number;
    assert!(matches!(apply_binary(BinaryOp::Add, n(2), n(3)), Ok(DataType::Number(5))));
    assert!(matches!(apply_binary(BinaryOp::Sub, n(2), n(3)), Ok(DataType::Number(-1))));
    assert!(matches!(apply_binary(BinaryOp::Mul, n(-4), n(3)), Ok(DataType::Number(-12))));
    assert!(matches!(apply_binary(BinaryOp::Div, n(7), n(2)), Ok(DataType::Number(3))));
    assert!(matches!(apply_binary(BinaryOp::Div, n(-7), n(2)), Ok(DataType::Number(-3))));
    assert!(matches!(apply_binary(BinaryOp::Div, n(7), n(-2)), Ok(DataType::Number(-3))));
    assert!(matches!(apply_binary(BinaryOp::Div, n(-7), n(-2)), Ok(DataType::Number(3))));
    assert!(matches!(apply_binary(BinaryOp::Div, n(0), n(-2)), Ok(DataType::Number(0))));
    assert!(matches!(apply_unary(UnaryOp::Neg, n(5)), Ok(DataType::Number(-5))));
    assert!(matches!(apply_unary(UnaryOp::Not, DataType::Boolean(true)), Ok(DataType::Boolean(false))));
}

#[test]
fn arithmetic_beyond_the_numbers() {
    let n = DataType::Number;
    assert!(matches!(apply_binary(BinaryOp::Add, n(i64::MAX), n(1)), Err(QueryError::MathError(op)) if op == "+"));
    assert!(matches!(apply_binary(BinaryOp::Sub, n(i64::MIN), n(1)), Err(QueryError::MathError(op)) if op == "-"));
    assert!(matches!(apply_binary(BinaryOp::Mul, n(i64::MAX), n(2)), Err(QueryError::MathError(op)) if op == "*"));
    assert!(matches!(apply_binary(BinaryOp::Div, n(1), n(0)), Err(QueryError::MathError(op)) if op == "/"));
    assert!(matches!(apply_binary(BinaryOp::Div, n(i64::MIN), n(-1)), Err(QueryError::MathError(op)) if op == "/"));
    assert!(matches!(apply_unary(UnaryOp::Neg, n(i64::MIN)), Err(QueryError::MathError(op)) if op == "-"));
    assert!(matches!(apply_binary(BinaryOp::Add, n(i64::MAX), n(0)), Ok(DataType::Number(i64::MAX))));
}

#[test]
fn operands_of_the_wrong_variant() {
    let n = DataType::Number;
    assert!(matches!(apply_binary(BinaryOp::Add, n(1), text("a")), Err(QueryError::TypeError(op)) if op == "+"));
    assert!(matches!(apply_binary(BinaryOp::Sub, text("a"), text("b")), Err(QueryError::TypeError(op)) if op == "-"));
    assert!(matches!(apply_binary(BinaryOp::Mul, DataType::Null, n(1)), Err(QueryError::TypeError(op)) if op == "*"));
    assert!(matches!(apply_binary(BinaryOp::Div, n(1), DataType::Boolean(true)), Err(QueryError::TypeError(op)) if op == "/"));
    assert!(matches!(apply_binary(BinaryOp::Less, n(1), text("2")), Err(QueryError::TypeError(op)) if op == "<"));
    assert!(matches!(apply_binary(BinaryOp::Index, n(1), n(0)), Err(QueryError::TypeError(op)) if op == "[]"));
    assert!(matches!(apply_binary(BinaryOp::Index, DataType::List(vec![]), text("k")), Err(QueryError::TypeError(op)) if op == "[]"));
    assert!(matches!(apply_unary(UnaryOp::Neg, text("a")), Err(QueryError::TypeError(op)) if op == "-"));
    assert!(matches!(apply_unary(UnaryOp::Not, n(1)), Err(QueryError::TypeError(op)) if op == "!"));
}

#[test]
fn texts_and_lists_join() {
    assert!(is(apply_binary(BinaryOp::Add, text("ab"), text("cd")), text("abcd")));
    assert!(is(apply_binary(BinaryOp::Add, text(""), text("")), text("")));
    let a = DataType::List(vec![DataType::Number(1)]);
    let b = DataType::List(vec![text("x"), DataType::Null]);
    assert!(is(apply_binary(BinaryOp::Add, a, b), DataType::List(vec![DataType::Number(1), text("x"), DataType::Null])));
}

#[test]
fn comparison() {
    let n = DataType::Number;
    assert!(matches!(apply_binary(BinaryOp::Less, n(1), n(2)), Ok(DataType::Boolean(true))));
    assert!(matches!(apply_binary(BinaryOp::Less, n(2), n(2)), Ok(DataType::Boolean(false))));
    assert!(matches!(apply_binary(BinaryOp::Equal, n(2), n(2)), Ok(DataType::Boolean(true))));
    assert!(matches!(apply_binary(BinaryOp::Equal, n(2), text("2")), Ok(DataType::Boolean(false))));
    assert!(matches!(apply_binary(BinaryOp::Equal, DataType::Null, DataType::Null), Ok(DataType::Boolean(true))));
}

#[test]
fn indexing() {
    let list = || DataType::List(vec![text("a"), text("b"), text("c")]);
    assert!(is(apply_binary(BinaryOp::Index, list(), DataType::Number(0)), text("a")));
    assert!(is(apply_binary(BinaryOp::Index, list(), DataType::Number(1)), text("b")));
    assert!(is(apply_binary(BinaryOp::Index, list(), DataType::Number(2)), text("c")));
    assert!(is(apply_binary(BinaryOp::Index, list(), DataType::Number(3)), DataType::Null));
    assert!(is(apply_binary(BinaryOp::Index, list(), DataType::Number(-1)), DataType::Null));
    let d = || DataType::Dict(dict(vec![("k", DataType::Number(1)), ("l", DataType::Number(2)), ("k", DataType::Number(3))]));
    assert!(is(apply_binary(BinaryOp::Index, d(), text("k")), DataType::Number(1)));
    assert!(is(apply_binary(BinaryOp::Index, d(), text("l")), DataType::Number(2)));
    assert!(is(apply_binary(BinaryOp::Index, d(), text("m")), DataType::Null));
}

#[test]
fn table_of_functions() {
    assert_eq!(expected_args("query_bucket"), Some(1));
    assert_eq!(expected_args("query_bucket_names"), Some(0));
    assert_eq!(expected_args("filter_keyvals"), Some(3));
    assert_eq!(expected_args("filter_period_intersect"), Some(2));
    assert_eq!(expected_args("limit_events"), Some(2));
    assert_eq!(expected_args("merge_events_by_keys"), Some(2));
    assert_eq!(expected_args("sum_durations"), Some(1));
    assert_eq!(expected_args("sort_by_timestamp"), Some(1));
    assert_eq!(expected_args("length"), Some(1));
    assert_eq!(expected_args("max"), Some(2));
    assert_eq!(expected_args("min"), Some(2));
    assert_eq!(expected_args("print"), None);
    assert_eq!(expected_args(""), None);
}

fn env_with_window() -> VarEnv {
    let mut env = VarEnv::new();
    env.declare_static("TIMEINTERVAL".to_string(), DataType::TimeInterval(window()));
    env
}

#[test]
fn every_function_checks_its_argument_count() {
    let env = env_with_window();
    let s = store();
    let names = [
        ("query_bucket", 1usize),
        ("query_bucket_names", 0),
        ("filter_keyvals", 3),
        ("filter_period_intersect", 2),
        ("limit_events", 2),
        ("merge_events_by_keys", 2),
        ("sum_durations", 1),
        ("sort_by_timestamp", 1),
        ("length", 1),
        ("max", 2),
        ("min", 2),
    ];
    for (name, expected) in names {
        for got in 0..5usize {
            if got == expected {
                continue;
            }
            let args = (0..got).map(|_| DataType::Null).collect();
            let r = call_function(name, args, &env, &s);
            assert!(matches!(r, Err(QueryError::ArgCountError(f, e, g)) if f == name && e == expected && g == got));
        }
    }
}

#[test]
fn every_function_checks_its_argument_types() {
    let env = env_with_window();
    let s = store();
    let bad: Vec<(&str, Vec<DataType>)> = vec![
        ("query_bucket", vec![DataType::Number(1)]),
        ("filter_keyvals", vec![text("x"), text("app"), DataType::List(vec![])]),
        ("filter_keyvals", vec![DataType::List(vec![]), DataType::Number(1), DataType::List(vec![])]),
        ("filter_keyvals", vec![DataType::List(vec![]), text("app"), text("vim")]),
        ("filter_keyvals", vec![DataType::List(vec![DataType::Number(1)]), text("app"), DataType::List(vec![])]),
        ("filter_period_intersect", vec![DataType::List(vec![]), DataType::Number(1)]),
        ("filter_period_intersect", vec![DataType::Null, DataType::TimeInterval(window())]),
        ("limit_events", vec![DataType::List(vec![]), text("1")]),
        ("limit_events", vec![DataType::Number(1), DataType::Number(1)]),
        ("merge_events_by_keys", vec![DataType::List(vec![]), DataType::List(vec![DataType::Number(1)])]),
        ("merge_events_by_keys", vec![DataType::List(vec![text("e")]), DataType::List(vec![])]),
        ("sum_durations", vec![DataType::Number(1)]),
        ("sort_by_timestamp", vec![DataType::List(vec![events(vec![])])]),
        ("length", vec![DataType::Number(1)]),
        ("max", vec![DataType::Number(1), text("2")]),
        ("min", vec![DataType::Null, DataType::Number(2)]),
    ];
    for (name, args) in bad {
        let r = call_function(name, args, &env, &s);
        assert!(matches!(r, Err(QueryError::TypeError(f)) if f == name), "{}", name);
    }
}

#[test]
fn functions_by_name() {
    let env = env_with_window();
    let s = store();
    let all = || events(vec![event(5, 1, "vim"), event(10, 2, "firefox"), event(15, 4, "vim")]);
    assert!(is(call_function("query_bucket", vec![text("window")], &env, &s), all()));
    assert!(is(call_function("query_bucket_names", vec![], &env, &s), DataType::List(vec![text("window")])));
    assert!(is(
        call_function("filter_keyvals", vec![all(), text("app"), DataType::List(vec![text("firefox")])], &env, &s),
        events(vec![event(10, 2, "firefox")])
    ));
    assert!(is(
        call_function("filter_period_intersect", vec![all(), DataType::TimeInterval(TimeInterval { start: 11, end: 16 })], &env, &s),
        events(vec![event(11, 1, "firefox"), event(15, 1, "vim")])
    ));
    assert!(is(call_function("limit_events", vec![all(), DataType::Number(1)], &env, &s), events(vec![event(5, 1, "vim")])));
    assert!(is(
        call_function("merge_events_by_keys", vec![all(), DataType::List(vec![text("app")])], &env, &s),
        events(vec![event(5, 5, "vim"), event(10, 2, "firefox")])
    ));
    assert!(is(call_function("sum_durations", vec![all()], &env, &s), DataType::Number(7)));
    assert!(is(
        call_function("sort_by_timestamp", vec![events(vec![event(2, 1, "b"), event(1, 1, "a")])], &env, &s),
        events(vec![event(1, 1, "a"), event(2, 1, "b")])
    ));
    assert!(is(call_function("length", vec![text("größe")], &env, &s), DataType::Number(5)));
    assert!(is(call_function("length", vec![all()], &env, &s), DataType::Number(3)));
    assert!(is(call_function("max", vec![DataType::Number(-1), DataType::Number(4)], &env, &s), DataType::Number(4)));
    assert!(is(call_function("min", vec![DataType::Number(-1), DataType::Number(4)], &env, &s), DataType::Number(-1)));
    assert!(matches!(call_function("nop", vec![], &env, &s), Err(QueryError::VariableNotDefined(n)) if n == "nop"));
}

#[test]
fn sums_beyond_the_numbers_are_failures() {
    let env = env_with_window();
    let s = store();
    let big = || events(vec![event(1, i64::MAX, "a"), event(2, 1, "a")]);
    assert!(matches!(call_function("sum_durations", vec![big()], &env, &s), Err(QueryError::MathError(f)) if f == "sum_durations"));
    let r = call_function("merge_events_by_keys", vec![big(), DataType::List(vec![])], &env, &s);
    assert!(matches!(r, Err(QueryError::MathError(f)) if f == "merge_events_by_keys"));
}

#[test]
fn query_needs_the_window() {
    let s = store();
    let env = VarEnv::new();
    let r = call_function("query_bucket", vec![text("window")], &env, &s);
    assert!(matches!(r, Err(QueryError::VariableNotDefined(n)) if n == "TIMEINTERVAL"));
    let mut env = VarEnv::new();
    env.declare_static("TIMEINTERVAL".to_string(), DataType::Number(1));
    let r = call_function("query_bucket", vec![text("window")], &env, &s);
    assert!(matches!(r, Err(QueryError::TypeError(f)) if f == "query_bucket"));
}

#[test]
fn expression_consumes_its_variables() {
    let mut env = VarEnv::new();
    env.declare("x".to_string());
    env.add_ref("x").unwrap();
    env.insert("x".to_string(), DataType::Number(2)).unwrap();
    let e = bin(BinaryOp::Mul, var("x"), num(21));
    assert!(matches!(eval_expr(&e, &mut env, &store()), Ok(DataType::Number(42))));
    assert!(matches!(eval_expr(&e, &mut env, &store()), Err(QueryError::VariableNotDefined(n)) if n == "x"));
}

#[test]
fn failures_carry_a_name() {
    assert_eq!(QueryError::VariableNotDefined("z".to_string()).name(), "z");
    assert_eq!(QueryError::TypeError("+".to_string()).name(), "+");
    assert_eq!(QueryError::ArgCountError("max".to_string(), 2, 1).name(), "max");
    assert_eq!(QueryError::BucketNotFound("b".to_string()).name(), "b");
    assert_eq!(QueryError::InternalError("x".to_string()).name(), "x");
    assert_eq!(QueryError::MathError("/".to_string()).name(), "/");
}

#[test]
fn no_script_fails_inside_the_store() {
    let scripts: Vec<Vec<Statement>> = vec![
        vec![assign("x", num(1)), Statement::Expression(var("x")), Statement::Expression(var("x"))],
        vec![assign("x", num(1)), assign("y", var("x")), assign("x", num(2)), Statement::Expression(var("y"))],
        vec![assign("TIMEINTERVAL", num(1)), Statement::Expression(call("query_bucket", vec![lit("window")]))],
        vec![assign("x", bin(BinaryOp::Div, num(1), num(0))), Statement::Expression(var("x"))],
        vec![assign("x", num(1)), assign("x", bin(BinaryOp::Add, var("x"), var("x"))), Statement::Expression(Expr::List(vec![var("x"), var("x"), var("x")]))],
    ];
    for script in &scripts {
        let r = run(script, &window(), &store());
        assert!(!matches!(r, Err(QueryError::InternalError(_))), "{:?}", r);
    }
    assert!(is(run(&scripts[4], &window(), &store()), DataType::List(vec![DataType::Number(2), DataType::Number(2), DataType::Number(2)])));
    assert!(is(run(&scripts[1], &window(), &store()), DataType::Number(1)));
}

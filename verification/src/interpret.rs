//! Running a script: a pass that counts the reads of each variable, then a
//! pass that runs the statements in order and stops at the first failure.

use crate::ast::Expr;
use crate::ast::Statement;
use crate::datastore::BucketValue;
use crate::datastore::Datastore;
use crate::datatype::values_of;
use crate::datatype::DataType;
use crate::datatype::IntervalValue;
use crate::datatype::TimeInterval;
use crate::datatype::Value;
use crate::error::outcome;
use crate::error::status;
use crate::error::Failure;
use crate::error::QueryError;
use crate::functions::applied;
use crate::functions::call_function;
use crate::operators::apply_binary;
use crate::operators::apply_unary;
use crate::operators::binary_result;
use crate::operators::unary_result;
use crate::soundness::internal;
use crate::soundness::lemma_run_has_no_internal_failure;
use crate::varenv::after_take;
use crate::varenv::assigned;
use crate::varenv::declared;
use crate::varenv::pinned_to;
use crate::varenv::reference_status;
use crate::varenv::referenced;
use crate::varenv::taken;
use crate::varenv::Slot;
use crate::varenv::Store;
use crate::varenv::VarEnv;
use vstd::prelude::*;

verus! {

/// The counting pass over an expression: each read of a variable is counted,
/// from left to right, and the first read of a name that nothing has
/// declared, or that can count no more, ends the pass. The result is whether
/// the pass got through, and the store as the pass left it.
pub open spec fn counted(expr: Expr, env: Store) -> (Result<(), Failure>, Store)
    decreases expr, 0nat,
{
    match expr {
        Expr::Literal(_) => (Ok(()), env),
        Expr::Variable(name) => (reference_status(env, name@), referenced(env, name@)),
        Expr::Unary(_, inner) => counted(*inner, env),
        Expr::Binary(_, left, right) => {
            let first = counted(*left, env);
            if first.0 is Err {
                first
            } else {
                counted(*right, first.1)
            }
        },
        Expr::Call(_, args) => counted_all(args@, args@.len(), env),
        Expr::List(items) => counted_all(items@, items@.len(), env),
    }
}

/// The counting pass over the first `n` of some expressions.
pub open spec fn counted_all(exprs: Seq<Expr>, n: nat, env: Store) -> (Result<(), Failure>, Store)
    decreases exprs, n,
{
    if n == 0 || n > exprs.len() {
        (Ok(()), env)
    } else {
        let before = counted_all(exprs, (n - 1) as nat, env);
        if before.0 is Err {
            before
        } else {
            counted(exprs[n - 1], before.1)
        }
    }
}

/// The counting pass over a statement: the reads of its expression are
/// counted, then the variable it assigns to is declared.
pub open spec fn counted_statement(statement: Statement, env: Store) -> (
    Result<(), Failure>,
    Store,
) {
    match statement {
        Statement::Assign(name, expr) => {
            let reads = counted(expr, env);
            if reads.0 is Err {
                reads
            } else {
                (Ok(()), declared(reads.1, name@))
            }
        },
        Statement::Expression(expr) => counted(expr, env),
    }
}

/// The counting pass over the first `n` statements of a script.
pub open spec fn counted_script(script: Seq<Statement>, n: nat, env: Store) -> (
    Result<(), Failure>,
    Store,
)
    decreases n,
{
    if n == 0 || n > script.len() {
        (Ok(()), env)
    } else {
        let before = counted_script(script, (n - 1) as nat, env);
        if before.0 is Err {
            before
        } else {
            counted_statement(script[n - 1], before.1)
        }
    }
}

/// The value of an expression, and the store as its evaluation left it.
/// Operands and arguments come before what is applied to them, the left
/// before the right; the first failure is the result.
pub open spec fn evaluated(expr: Expr, env: Store, data: Seq<BucketValue>) -> (
    Result<Value, Failure>,
    Store,
)
    decreases expr, 0nat,
{
    match expr {
        Expr::Literal(value) => (Ok(value@), env),
        Expr::Variable(name) => (taken(env, name@), after_take(env, name@)),
        Expr::Unary(op, inner) => {
            let operand = evaluated(*inner, env, data);
            match operand.0 {
                Ok(value) => (unary_result(op, value), operand.1),
                Err(failure) => (Err(failure), operand.1),
            }
        },
        Expr::Binary(op, left, right) => {
            let first = evaluated(*left, env, data);
            match first.0 {
                Ok(a) => {
                    let second = evaluated(*right, first.1, data);
                    match second.0 {
                        Ok(b) => (binary_result(op, a, b), second.1),
                        Err(failure) => (Err(failure), second.1),
                    }
                },
                Err(failure) => (Err(failure), first.1),
            }
        },
        Expr::Call(name, args) => {
            let given = evaluated_all(args@, args@.len(), env, data);
            match given.0 {
                Ok(values) => (applied(name@, values, given.1, data), given.1),
                Err(failure) => (Err(failure), given.1),
            }
        },
        Expr::List(items) => {
            let given = evaluated_all(items@, items@.len(), env, data);
            match given.0 {
                Ok(values) => (Ok(Value::List(values)), given.1),
                Err(failure) => (Err(failure), given.1),
            }
        },
    }
}

/// The values of the first `n` of some expressions, from left to right.
pub open spec fn evaluated_all(exprs: Seq<Expr>, n: nat, env: Store, data: Seq<BucketValue>) -> (
    Result<Seq<Value>, Failure>,
    Store,
)
    decreases exprs, n,
{
    if n == 0 || n > exprs.len() {
        (Ok(Seq::empty()), env)
    } else {
        let before = evaluated_all(exprs, (n - 1) as nat, env, data);
        match before.0 {
            Ok(values) => {
                let next = evaluated(exprs[n - 1], before.1, data);
                match next.0 {
                    Ok(value) => (Ok(values.push(value)), next.1),
                    Err(failure) => (Err(failure), next.1),
                }
            },
            Err(failure) => (Err(failure), before.1),
        }
    }
}

/// What a statement comes to: an assignment declares its variable if need
/// be, gives it the value of the expression and comes to `Null`; an
/// expression comes to its value.
pub open spec fn executed_statement(statement: Statement, env: Store, data: Seq<BucketValue>) -> (
    Result<Value, Failure>,
    Store,
) {
    match statement {
        Statement::Assign(name, expr) => {
            let right = evaluated(expr, env, data);
            match right.0 {
                Ok(value) => (Ok(Value::Null), assigned(declared(right.1, name@), name@, value)),
                Err(failure) => (Err(failure), right.1),
            }
        },
        Statement::Expression(expr) => evaluated(expr, env, data),
    }
}

/// What the first `n` statements of a script come to: the first failure, or
/// what the last of them came to; `Null` where there is none.
pub open spec fn executed_script(script: Seq<Statement>, n: nat, env: Store, data: Seq<BucketValue>) -> (
    Result<Value, Failure>,
    Store,
)
    decreases n,
{
    if n == 0 || n > script.len() {
        (Ok(Value::Null), env)
    } else {
        let before = executed_script(script, (n - 1) as nat, env, data);
        if before.0 is Err {
            before
        } else {
            executed_statement(script[n - 1], before.1, data)
        }
    }
}

/// The store that an execution over `window` begins with: the window, pinned
/// under the name `TIMEINTERVAL`.
pub open spec fn initial_store(window: IntervalValue) -> Store {
    pinned_to(Map::<Seq<char>, Slot>::empty(), "TIMEINTERVAL"@, Value::TimeInterval(window))
}

/// What a script comes to over one window: both passes over a store of its
/// own, the counting pass first.
pub open spec fn ran(script: Seq<Statement>, window: IntervalValue, data: Seq<BucketValue>) -> Result<
    Value,
    Failure,
> {
    let count = counted_script(script, script.len(), initial_store(window));
    match count.0 {
        Ok(_) => executed_script(script, script.len(), count.1, data).0,
        Err(failure) => Err(failure),
    }
}

/// A counting pass that has failed goes no further.
pub proof fn lemma_counted_all_stops(exprs: Seq<Expr>, n: nat, m: nat, env: Store)
    requires
        n <= m <= exprs.len(),
        counted_all(exprs, n, env).0 is Err,
    ensures
        counted_all(exprs, m, env) == counted_all(exprs, n, env),
    decreases m,
{
    if n < m {
        lemma_counted_all_stops(exprs, n, (m - 1) as nat, env);
    }
}

/// A counting pass over a script that has failed goes no further.
pub proof fn lemma_counted_script_stops(script: Seq<Statement>, n: nat, m: nat, env: Store)
    requires
        n <= m <= script.len(),
        counted_script(script, n, env).0 is Err,
    ensures
        counted_script(script, m, env) == counted_script(script, n, env),
    decreases m,
{
    if n < m {
        lemma_counted_script_stops(script, n, (m - 1) as nat, env);
    }
}

/// An evaluation of arguments that has failed goes no further.
pub proof fn lemma_evaluated_all_stops(
    exprs: Seq<Expr>,
    n: nat,
    m: nat,
    env: Store,
    data: Seq<BucketValue>,
)
    requires
        n <= m <= exprs.len(),
        evaluated_all(exprs, n, env, data).0 is Err,
    ensures
        evaluated_all(exprs, m, env, data) == evaluated_all(exprs, n, env, data),
    decreases m,
{
    if n < m {
        lemma_evaluated_all_stops(exprs, n, (m - 1) as nat, env, data);
    }
}

/// An execution that has failed goes no further.
pub proof fn lemma_executed_script_stops(
    script: Seq<Statement>,
    n: nat,
    m: nat,
    env: Store,
    data: Seq<BucketValue>,
)
    requires
        n <= m <= script.len(),
        executed_script(script, n, env, data).0 is Err,
    ensures
        executed_script(script, m, env, data) == executed_script(script, n, env, data),
    decreases m,
{
    if n < m {
        lemma_executed_script_stops(script, n, (m - 1) as nat, env, data);
    }
}

/// Counts the reads of the variables of `expr` in `env`.
pub fn count_expr(expr: &Expr, env: &mut VarEnv) -> (r: Result<(), QueryError>)
    ensures
        status(r) == counted(*expr, old(env)@).0,
        final(env)@ == counted(*expr, old(env)@).1,
    decreases expr, 0nat,
{
    match expr {
        Expr::Literal(_) => Ok(()),
        Expr::Variable(name) => env.add_ref(name.as_str()),
        Expr::Unary(_, inner) => count_expr(inner, env),
        Expr::Binary(_, left, right) => {
            match count_expr(left, env) {
                Ok(_) => count_expr(right, env),
                Err(e) => Err(e),
            }
        },
        Expr::Call(_, args) => count_all(args, env),
        Expr::List(items) => count_all(items, env),
    }
}

/// Counts the reads of the variables of `exprs` in `env`, from left to right.
pub fn count_all(exprs: &Vec<Expr>, env: &mut VarEnv) -> (r: Result<(), QueryError>)
    ensures
        status(r) == counted_all(exprs@, exprs@.len(), old(env)@).0,
        final(env)@ == counted_all(exprs@, exprs@.len(), old(env)@).1,
    decreases exprs, 0nat,
{
    let ghost start = env@;
    let mut i: usize = 0;
    while i < exprs.len()
        invariant
            i <= exprs.len(),
            start == old(env)@,
            counted_all(exprs@, i as nat, start).0 == Ok::<(), Failure>(()),
            counted_all(exprs@, i as nat, start).1 == env@,
        decreases exprs.len() - i,
    {
        match count_expr(&exprs[i], env) {
            Ok(_) => {},
            Err(e) => {
                proof {
                    lemma_counted_all_stops(exprs@, (i + 1) as nat, exprs@.len(), start);
                }
                return Err(e);
            },
        }
        i += 1;
    }
    Ok(())
}

/// The counting pass over a script: counts the reads of every variable and
/// declares every variable that is assigned to, statement by statement.
pub fn count_script(script: &Vec<Statement>, env: &mut VarEnv) -> (r: Result<(), QueryError>)
    ensures
        status(r) == counted_script(script@, script@.len(), old(env)@).0,
        final(env)@ == counted_script(script@, script@.len(), old(env)@).1,
{
    let ghost start = env@;
    let mut i: usize = 0;
    while i < script.len()
        invariant
            i <= script.len(),
            start == old(env)@,
            counted_script(script@, i as nat, start).0 == Ok::<(), Failure>(()),
            counted_script(script@, i as nat, start).1 == env@,
        decreases script.len() - i,
    {
        let counted = match &script[i] {
            Statement::Assign(name, expr) => {
                match count_expr(expr, env) {
                    Ok(_) => {
                        env.declare(name.clone());
                        Ok(())
                    },
                    Err(e) => Err(e),
                }
            },
            Statement::Expression(expr) => count_expr(expr, env),
        };
        match counted {
            Ok(_) => {},
            Err(e) => {
                proof {
                    lemma_counted_script_stops(script@, (i + 1) as nat, script@.len(), start);
                }
                return Err(e);
            },
        }
        i += 1;
    }
    Ok(())
}

/// Evaluates `expr`. A read of a variable is a counted read of `env`; a call
/// of a function may read events from `data`.
pub fn eval_expr(expr: &Expr, env: &mut VarEnv, data: &Datastore) -> (r: Result<
    DataType,
    QueryError,
>)
    ensures
        outcome(r) == evaluated(*expr, old(env)@, data@).0,
        final(env)@ == evaluated(*expr, old(env)@, data@).1,
    decreases expr, 0nat,
{
    match expr {
        Expr::Literal(value) => Ok(value.duplicate()),
        Expr::Variable(name) => env.take(name.as_str()),
        Expr::Unary(op, inner) => {
            match eval_expr(inner, env, data) {
                Ok(value) => apply_unary(*op, value),
                Err(e) => Err(e),
            }
        },
        Expr::Binary(op, left, right) => {
            match eval_expr(left, env, data) {
                Ok(a) => match eval_expr(right, env, data) {
                    Ok(b) => apply_binary(*op, a, b),
                    Err(e) => Err(e),
                },
                Err(e) => Err(e),
            }
        },
        Expr::Call(name, args) => {
            match eval_all(args, env, data) {
                Ok(values) => call_function(name.as_str(), values, env, data),
                Err(e) => Err(e),
            }
        },
        Expr::List(items) => {
            match eval_all(items, env, data) {
                Ok(values) => Ok(DataType::List(values)),
                Err(e) => Err(e),
            }
        },
    }
}

/// Evaluates `exprs` from left to right, up to the first failure.
pub fn eval_all(exprs: &Vec<Expr>, env: &mut VarEnv, data: &Datastore) -> (r: Result<
    Vec<DataType>,
    QueryError,
>)
    ensures
        match r {
            Ok(values) => evaluated_all(exprs@, exprs@.len(), old(env)@, data@).0 == Ok::<
                Seq<Value>,
                Failure,
            >(values_of(values@)),
            Err(e) => evaluated_all(exprs@, exprs@.len(), old(env)@, data@).0 == Err::<
                Seq<Value>,
                Failure,
            >(e@),
        },
        final(env)@ == evaluated_all(exprs@, exprs@.len(), old(env)@, data@).1,
    decreases exprs, 0nat,
{
    let ghost start = env@;
    let mut out: Vec<DataType> = Vec::new();
    let mut i: usize = 0;
    assert(values_of(out@) =~= Seq::<Value>::empty());
    while i < exprs.len()
        invariant
            i <= exprs.len(),
            start == old(env)@,
            evaluated_all(exprs@, i as nat, start, data@).0 == Ok::<Seq<Value>, Failure>(
                values_of(out@),
            ),
            evaluated_all(exprs@, i as nat, start, data@).1 == env@,
        decreases exprs.len() - i,
    {
        match eval_expr(&exprs[i], env, data) {
            Ok(value) => {
                let ghost before = values_of(out@);
                out.push(value);
                assert(values_of(out@) =~= before.push(value@));
            },
            Err(e) => {
                proof {
                    lemma_evaluated_all_stops(exprs@, (i + 1) as nat, exprs@.len(), start, data@);
                }
                return Err(e);
            },
        }
        i += 1;
    }
    Ok(out)
}

/// Runs the statements of `script` in order on `env`, up to the first
/// failure. The script comes to what its last statement came to.
pub fn exec_script(script: &Vec<Statement>, env: &mut VarEnv, data: &Datastore) -> (r: Result<
    DataType,
    QueryError,
>)
    ensures
        outcome(r) == executed_script(script@, script@.len(), old(env)@, data@).0,
        final(env)@ == executed_script(script@, script@.len(), old(env)@, data@).1,
{
    let ghost start = env@;
    let mut last = DataType::Null;
    let mut i: usize = 0;
    while i < script.len()
        invariant
            i <= script.len(),
            start == old(env)@,
            executed_script(script@, i as nat, start, data@).0 == Ok::<Value, Failure>(last@),
            executed_script(script@, i as nat, start, data@).1 == env@,
        decreases script.len() - i,
    {
        let step = match &script[i] {
            Statement::Assign(name, expr) => {
                match eval_expr(expr, env, data) {
                    Ok(value) => {
                        env.declare(name.clone());
                        match env.insert(name.clone(), value) {
                            Ok(_) => Ok(DataType::Null),
                            Err(e) => Err(e),
                        }
                    },
                    Err(e) => Err(e),
                }
            },
            Statement::Expression(expr) => eval_expr(expr, env, data),
        };
        match step {
            Ok(value) => {
                last = value;
            },
            Err(e) => {
                proof {
                    lemma_executed_script_stops(
                        script@,
                        (i + 1) as nat,
                        script@.len(),
                        start,
                        data@,
                    );
                }
                return Err(e);
            },
        }
        i += 1;
    }
    Ok(last)
}

/// Runs `script` over one window: a store of its own that holds the window,
/// the counting pass, then the statements in order. Whatever the script, the
/// run has no failure of the store's own.
pub fn run(script: &Vec<Statement>, window: &TimeInterval, data: &Datastore) -> (r: Result<
    DataType,
    QueryError,
>)
    ensures
        outcome(r) == ran(script@, window@, data@),
        !internal(outcome(r)),
{
    proof {
        lemma_run_has_no_internal_failure(script@, window@, data@);
    }
    let mut env = VarEnv::new();
    env.declare_static("TIMEINTERVAL".to_owned(), DataType::TimeInterval(*window));
    match count_script(script, &mut env) {
        Ok(_) => exec_script(script, &mut env, data),
        Err(e) => Err(e),
    }
}

/// Runs `script` once over each of `windows`. Each run has a store of its
/// own, so what one window comes to, value or failure, is what a run over
/// that window alone comes to.
pub fn run_batch(script: &Vec<Statement>, windows: &Vec<TimeInterval>, data: &Datastore) -> (r: Vec<
    Result<DataType, QueryError>,
>)
    ensures
        r.len() == windows.len(),
        forall|i: int|
            0 <= i < windows.len() ==> outcome(#[trigger] r[i]) == ran(
                script@,
                windows[i]@,
                data@,
            ),
        forall|i: int| 0 <= i < windows.len() ==> !internal(outcome(#[trigger] r[i])),
{
    let mut out: Vec<Result<DataType, QueryError>> = Vec::new();
    let mut i: usize = 0;
    while i < windows.len()
        invariant
            i <= windows.len(),
            out.len() == i,
            forall|j: int|
                0 <= j < i ==> outcome(#[trigger] out[j]) == ran(script@, windows[j]@, data@),
            forall|j: int| 0 <= j < i ==> !internal(outcome(#[trigger] out[j])),
        decreases windows.len() - i,
    {
        let one = run(script, &windows[i], data);
        out.push(one);
        i += 1;
    }
    out
}

} // verus!

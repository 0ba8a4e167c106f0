//! Why the counting pass is enough: a script that gets through it never
//! fails for want of a declaration, a count or a value in the store.

use crate::ast::Expr;
use crate::ast::Statement;
use crate::datastore::BucketValue;
use crate::datatype::IntervalValue;
use crate::datatype::Value;
use crate::error::Failure;
use crate::functions::applied;
use crate::interpret::counted;
use crate::interpret::counted_all;
use crate::interpret::counted_script;
use crate::interpret::evaluated;
use crate::interpret::evaluated_all;
use crate::interpret::executed_script;
use crate::interpret::executed_statement;
use crate::interpret::initial_store;
use crate::interpret::ran;
use crate::operators::binary_result;
use crate::operators::unary_result;
use crate::varenv::Slot;
use crate::varenv::Store;
use crate::varenv::Uses;
use crate::varenv::MOST_READS;
use vstd::prelude::*;

verus! {

/// How often an expression reads the variable `name`.
pub open spec fn reads(expr: Expr, name: Seq<char>) -> nat
    decreases expr, 0nat,
{
    match expr {
        Expr::Literal(_) => 0,
        Expr::Variable(read) => if read@ == name {
            1
        } else {
            0
        },
        Expr::Unary(_, inner) => reads(*inner, name),
        Expr::Binary(_, left, right) => reads(*left, name) + reads(*right, name),
        Expr::Call(_, args) => reads_all(args@, args@.len(), name),
        Expr::List(items) => reads_all(items@, items@.len(), name),
    }
}

/// How often the first `n` of some expressions read the variable `name`.
pub open spec fn reads_all(exprs: Seq<Expr>, n: nat, name: Seq<char>) -> nat
    decreases exprs, n,
{
    if n == 0 || n > exprs.len() {
        0
    } else {
        reads_all(exprs, (n - 1) as nat, name) + reads(exprs[n - 1], name)
    }
}

/// The entry of `name` in a store, if it has one.
pub open spec fn slot_of(store: Store, name: Seq<char>) -> Option<Slot> {
    if store.contains_key(name) {
        Some(store[name])
    } else {
        None
    }
}

/// An entry after `k` more reads are counted for it.
pub open spec fn counted_up(slot: Option<Slot>, k: nat) -> Option<Slot> {
    match slot {
        Some(s) => match s.uses {
            Uses::Counted(n) => Some(Slot { uses: Uses::Counted((n + k) as u32), val: s.val }),
            Uses::Pinned => Some(s),
        },
        None => None,
    }
}

/// Whether an entry can count `k` more reads.
pub open spec fn fits(slot: Option<Slot>, k: nat) -> bool {
    match slot {
        Some(s) => match s.uses {
            Uses::Counted(n) => n + k <= MOST_READS,
            Uses::Pinned => true,
        },
        None => true,
    }
}

/// Whether `after` is the entry `before` with `k` more reads counted, none of them lost.
pub open spec fn counts_up(before: Option<Slot>, k: nat, after: Option<Slot>) -> bool {
    fits(before, k) && after == counted_up(before, k)
}

/// An entry after `k` counted reads of it.
pub open spec fn counted_down(slot: Option<Slot>, k: nat) -> Option<Slot> {
    match slot {
        Some(s) => match s.uses {
            Uses::Counted(n) => if k == 0 {
                Some(s)
            } else if n > k {
                Some(Slot { uses: Uses::Counted((n - k) as u32), val: s.val })
            } else {
                None
            },
            Uses::Pinned => Some(s),
        },
        None => None,
    }
}

/// Whether there is an entry, and it is pinned or has `k` reads left.
pub open spec fn has_reads(slot: Option<Slot>, k: int) -> bool {
    match slot {
        Some(s) => match s.uses {
            Uses::Counted(n) => n >= k,
            Uses::Pinned => true,
        },
        None => false,
    }
}

/// Whether there is an entry, and it has no value.
pub open spec fn lacks_value(slot: Option<Slot>) -> bool {
    slot matches Some(s) && s.val is None
}

/// Whether an entry can serve `k` counted reads: it has a value, and is
/// pinned or has that many reads left.
pub open spec fn serves(slot: Option<Slot>, k: nat) -> bool {
    k > 0 ==> has_reads(slot, k as int) && !lacks_value(slot)
}

/// Whether a failure is one of the store's own.
pub open spec fn internal<T>(r: Result<T, Failure>) -> bool {
    r matches Err(Failure::InternalError(_))
}

/// The counting pass over an expression counts each variable up by its
/// reads, finds every variable it reads in the store, and has no failure of
/// the store's own.
pub proof fn lemma_counted(expr: Expr, env: Store)
    ensures
        !internal(counted(expr, env).0),
        counted(expr, env).0 is Ok ==> forall|name: Seq<char>|
            counts_up(
                slot_of(env, name),
                reads(expr, name),
                #[trigger] slot_of(counted(expr, env).1, name),
            ),
        counted(expr, env).0 is Ok ==> forall|name: Seq<char>|
            reads(expr, name) > 0 ==> #[trigger] env.contains_key(name),
    decreases expr, 0nat,
{
    match expr {
        Expr::Literal(_) => {},
        Expr::Variable(read) => {},
        Expr::Unary(_, inner) => {
            lemma_counted(*inner, env);
        },
        Expr::Binary(_, left, right) => {
            lemma_counted(*left, env);
            let first = counted(*left, env);
            if first.0 is Ok {
                lemma_counted(*right, first.1);
                let second = counted(*right, first.1);
                if second.0 is Ok {
                    assert forall|name: Seq<char>|
                        counts_up(
                            slot_of(env, name),
                            reads(expr, name),
                            #[trigger] slot_of(second.1, name),
                        ) by {
                        assert(counts_up(
                            slot_of(env, name),
                            reads(*left, name),
                            slot_of(first.1, name),
                        ));
                    }
                    assert forall|name: Seq<char>| reads(expr, name) > 0 implies #[trigger]
                        env.contains_key(name) by {
                        assert(counts_up(
                            slot_of(env, name),
                            reads(*left, name),
                            slot_of(first.1, name),
                        ));
                        if reads(*right, name) > 0 {
                            assert(first.1.contains_key(name));
                        }
                    }
                }
            }
        },
        Expr::Call(_, args) => {
            lemma_counted_all(args@, args@.len(), env);
        },
        Expr::List(items) => {
            lemma_counted_all(items@, items@.len(), env);
        },
    }
}

/// The counting pass over the first `n` of some expressions, likewise.
pub proof fn lemma_counted_all(exprs: Seq<Expr>, n: nat, env: Store)
    ensures
        !internal(counted_all(exprs, n, env).0),
        counted_all(exprs, n, env).0 is Ok ==> forall|name: Seq<char>|
            counts_up(
                slot_of(env, name),
                reads_all(exprs, n, name),
                #[trigger] slot_of(counted_all(exprs, n, env).1, name),
            ),
        counted_all(exprs, n, env).0 is Ok ==> forall|name: Seq<char>|
            reads_all(exprs, n, name) > 0 ==> #[trigger] env.contains_key(name),
    decreases exprs, n,
{
    if n == 0 || n > exprs.len() {
    } else {
        lemma_counted_all(exprs, (n - 1) as nat, env);
        let before = counted_all(exprs, (n - 1) as nat, env);
        if before.0 is Ok {
            lemma_counted(exprs[n - 1], before.1);
            let next = counted(exprs[n - 1], before.1);
            if next.0 is Ok {
                assert forall|name: Seq<char>|
                    counts_up(
                        slot_of(env, name),
                        reads_all(exprs, n, name),
                        #[trigger] slot_of(next.1, name),
                    ) by {
                    assert(counts_up(
                        slot_of(env, name),
                        reads_all(exprs, (n - 1) as nat, name),
                        slot_of(before.1, name),
                    ));
                }
                assert forall|name: Seq<char>| reads_all(exprs, n, name) > 0 implies #[trigger]
                    env.contains_key(name) by {
                    assert(counts_up(
                        slot_of(env, name),
                        reads_all(exprs, (n - 1) as nat, name),
                        slot_of(before.1, name),
                    ));
                    if reads(exprs[n - 1], name) > 0 {
                        assert(before.1.contains_key(name));
                    }
                }
            }
        }
    }
}

/// Whether the window of the execution, if the store holds one, has a value.
pub open spec fn window_has_value(env: Store) -> bool {
    env.contains_key("TIMEINTERVAL"@) ==> env["TIMEINTERVAL"@].val is Some
}

/// No operator has a failure of the store's own.
pub proof fn lemma_operators(
    binary: crate::ast::BinaryOp,
    unary: crate::ast::UnaryOp,
    a: Value,
    b: Value,
)
    ensures
        !internal(binary_result(binary, a, b)),
        !internal(unary_result(unary, a)),
{
}

/// No function has a failure of the store's own, as long as the window has a value.
pub proof fn lemma_applied(name: Seq<char>, args: Seq<Value>, env: Store, data: Seq<BucketValue>)
    requires
        window_has_value(env),
    ensures
        !internal(applied(name, args, env, data)),
{
}

/// An expression whose reads the store can serve has no failure of the
/// store's own, and counts each variable down by its reads.
pub proof fn lemma_evaluated(expr: Expr, env: Store, data: Seq<BucketValue>)
    requires
        forall|name: Seq<char>| serves(#[trigger] slot_of(env, name), reads(expr, name)),
        window_has_value(env),
    ensures
        !internal(evaluated(expr, env, data).0),
        evaluated(expr, env, data).0 is Ok ==> forall|name: Seq<char>| #[trigger]
            slot_of(evaluated(expr, env, data).1, name) == counted_down(
                slot_of(env, name),
                reads(expr, name),
            ),
        evaluated(expr, env, data).0 is Ok ==> window_has_value(evaluated(expr, env, data).1),
    decreases expr, 0nat,
{
    match expr {
        Expr::Literal(_) => {},
        Expr::Variable(read) => {
            assert(serves(slot_of(env, read@), reads(expr, read@)));
            let after = evaluated(expr, env, data).1;
            assert forall|name: Seq<char>| #[trigger]
                slot_of(after, name) == counted_down(slot_of(env, name), reads(expr, name)) by {
                assert(serves(slot_of(env, name), reads(expr, name)));
            }
            assert(slot_of(after, "TIMEINTERVAL"@) == counted_down(
                slot_of(env, "TIMEINTERVAL"@),
                reads(expr, "TIMEINTERVAL"@),
            ));
        },
        Expr::Unary(op, inner) => {
            lemma_evaluated(*inner, env, data);
            let operand = evaluated(*inner, env, data);
            if operand.0 is Ok {
                let value = operand.0->Ok_0;
                lemma_operators(crate::ast::BinaryOp::Add, op, value, value);
            }
        },
        Expr::Binary(op, left, right) => {
            assert forall|name: Seq<char>|
                serves(#[trigger] slot_of(env, name), reads(*left, name)) by {
                assert(serves(slot_of(env, name), reads(expr, name)));
            }
            lemma_evaluated(*left, env, data);
            let first = evaluated(*left, env, data);
            if first.0 is Ok {
                let a = first.0->Ok_0;
                assert forall|name: Seq<char>|
                    serves(#[trigger] slot_of(first.1, name), reads(*right, name)) by {
                    assert(serves(slot_of(env, name), reads(expr, name)));
                    assert(slot_of(first.1, name) == counted_down(
                        slot_of(env, name),
                        reads(*left, name),
                    ));
                }
                lemma_evaluated(*right, first.1, data);
                let second = evaluated(*right, first.1, data);
                if second.0 is Ok {
                    let b = second.0->Ok_0;
                    lemma_operators(op, crate::ast::UnaryOp::Neg, a, b);
                    assert forall|name: Seq<char>| #[trigger]
                        slot_of(second.1, name) == counted_down(
                            slot_of(env, name),
                            reads(expr, name),
                        ) by {
                        assert(serves(slot_of(env, name), reads(expr, name)));
                        assert(slot_of(first.1, name) == counted_down(
                            slot_of(env, name),
                            reads(*left, name),
                        ));
                    }
                }
            }
        },
        Expr::Call(name, args) => {
            lemma_evaluated_all(args@, args@.len(), env, data);
            let given = evaluated_all(args@, args@.len(), env, data);
            if given.0 is Ok {
                let values = given.0->Ok_0;
                lemma_applied(name@, values, given.1, data);
            }
        },
        Expr::List(items) => {
            lemma_evaluated_all(items@, items@.len(), env, data);
        },
    }
}

/// The first `n` of some expressions, likewise.
pub proof fn lemma_evaluated_all(exprs: Seq<Expr>, n: nat, env: Store, data: Seq<BucketValue>)
    requires
        forall|name: Seq<char>| serves(#[trigger] slot_of(env, name), reads_all(exprs, n, name)),
        window_has_value(env),
    ensures
        !internal(evaluated_all(exprs, n, env, data).0),
        evaluated_all(exprs, n, env, data).0 is Ok ==> forall|name: Seq<char>| #[trigger]
            slot_of(evaluated_all(exprs, n, env, data).1, name) == counted_down(
                slot_of(env, name),
                reads_all(exprs, n, name),
            ),
        evaluated_all(exprs, n, env, data).0 is Ok ==> window_has_value(
            evaluated_all(exprs, n, env, data).1,
        ),
    decreases exprs, n,
{
    if n == 0 || n > exprs.len() {
    } else {
        assert forall|name: Seq<char>|
            serves(#[trigger] slot_of(env, name), reads_all(exprs, (n - 1) as nat, name)) by {
            assert(serves(slot_of(env, name), reads_all(exprs, n, name)));
        }
        lemma_evaluated_all(exprs, (n - 1) as nat, env, data);
        let before = evaluated_all(exprs, (n - 1) as nat, env, data);
        if before.0 is Ok {
            assert forall|name: Seq<char>|
                serves(#[trigger] slot_of(before.1, name), reads(exprs[n - 1], name)) by {
                assert(serves(slot_of(env, name), reads_all(exprs, n, name)));
                assert(slot_of(before.1, name) == counted_down(
                    slot_of(env, name),
                    reads_all(exprs, (n - 1) as nat, name),
                ));
            }
            lemma_evaluated(exprs[n - 1], before.1, data);
            let next = evaluated(exprs[n - 1], before.1, data);
            if next.0 is Ok {
                assert forall|name: Seq<char>| #[trigger]
                    slot_of(next.1, name) == counted_down(
                        slot_of(env, name),
                        reads_all(exprs, n, name),
                    ) by {
                    assert(serves(slot_of(env, name), reads_all(exprs, n, name)));
                    assert(slot_of(before.1, name) == counted_down(
                        slot_of(env, name),
                        reads_all(exprs, (n - 1) as nat, name),
                    ));
                }
            }
        }
    }
}

/// The expression of a statement.
pub open spec fn expression_of(statement: Statement) -> Expr {
    match statement {
        Statement::Assign(_, expr) => expr,
        Statement::Expression(expr) => expr,
    }
}

/// Whether a statement assigns to the variable `name`.
pub open spec fn assigns_to(statement: Statement, name: Seq<char>) -> bool {
    statement matches Statement::Assign(target, _) && target@ == name
}

/// Whether one of the first `n` statements of a script assigns to the variable `name`.
pub open spec fn assigned_before(script: Seq<Statement>, n: nat, name: Seq<char>) -> bool {
    exists|i: int| 0 <= i < n && i < script.len() && assigns_to(#[trigger] script[i], name)
}

/// How often the first `n` statements of a script read the variable `name`.
pub open spec fn reads_before(script: Seq<Statement>, n: nat, name: Seq<char>) -> nat
    decreases n,
{
    if n == 0 || n > script.len() {
        0
    } else {
        reads_before(script, (n - 1) as nat, name) + reads(expression_of(script[n - 1]), name)
    }
}

/// More statements read a variable no less often.
pub proof fn lemma_reads_before_grows(script: Seq<Statement>, a: nat, b: nat, name: Seq<char>)
    requires
        a <= b <= script.len(),
    ensures
        reads_before(script, a, name) <= reads_before(script, b, name),
    decreases b,
{
    if a < b {
        lemma_reads_before_grows(script, a, (b - 1) as nat, name);
    }
}

/// The entry of a variable without a value that has counted no read.
pub open spec fn fresh() -> Slot {
    Slot { uses: Uses::Counted(0), val: None }
}

/// The entry of `name` that the counting pass over the first `n` statements
/// counts up: one of the store it began with, or one that an assignment declared.
pub open spec fn base_slot(script: Seq<Statement>, n: nat, start: Store, name: Seq<char>) -> Option<
    Slot,
> {
    if start.contains_key(name) {
        slot_of(start, name)
    } else if assigned_before(script, n, name) {
        Some(fresh())
    } else {
        None
    }
}

/// Whether `slot` is what the counting pass over the first `n` statements
/// makes of the entry of `name`: its entry, counted up by the reads of these
/// statements.
pub open spec fn counted_slot(
    script: Seq<Statement>,
    n: nat,
    start: Store,
    name: Seq<char>,
    slot: Option<Slot>,
) -> bool {
    counts_up(base_slot(script, n, start, name), reads_before(script, n, name), slot)
}

/// The counting pass over a script has no failure of the store's own. Where
/// it gets through, each entry has counted the reads of its variable, and
/// each statement reads only what the store held at first or an earlier
/// statement assigns to.
pub proof fn lemma_counted_script(script: Seq<Statement>, n: nat, start: Store)
    requires
        n <= script.len(),
    ensures
        !internal(counted_script(script, n, start).0),
        counted_script(script, n, start).0 is Ok ==> forall|name: Seq<char>|
            counted_slot(
                script,
                n,
                start,
                name,
                #[trigger] slot_of(counted_script(script, n, start).1, name),
            ),
        counted_script(script, n, start).0 is Ok ==> forall|name: Seq<char>|
            !start.contains_key(name) && !assigned_before(script, n, name) ==> #[trigger]
            reads_before(script, n, name) == 0,
        counted_script(script, n, start).0 is Ok ==> forall|i: int, name: Seq<char>|
            0 <= i < n && #[trigger] reads(expression_of(script[i]), name) > 0
                ==> start.contains_key(name) || assigned_before(script, i as nat, name),
    decreases n,
{
    if n > 0 {
        let m = (n - 1) as nat;
        lemma_counted_script(script, m, start);
        let before = counted_script(script, m, start);
        if before.0 is Ok {
            let statement = script[n - 1];
            let expr = expression_of(statement);
            lemma_counted(expr, before.1);
            let reads_done = counted(expr, before.1);
            if reads_done.0 is Ok {
                let end = counted_script(script, n, start).1;
                assert forall|name: Seq<char>|
                    assigned_before(script, n, name) == (assigned_before(script, m, name)
                        || assigns_to(statement, name)) by {
                    if assigned_before(script, n, name) {
                        let i = choose|i: int|
                            0 <= i < n && i < script.len() && assigns_to(#[trigger] script[i], name);
                        if i < m {
                            assert(assigned_before(script, m, name));
                        }
                    }
                    if assigned_before(script, m, name) {
                        let i = choose|i: int|
                            0 <= i < m && i < script.len() && assigns_to(#[trigger] script[i], name);
                        assert(assigns_to(script[i], name));
                    }
                    if assigns_to(statement, name) {
                        assert(assigns_to(script[n - 1], name));
                    }
                }
assert forall|name: Seq<char>| counted_slot(
                    script,
                    n,
                    start,
                    name,
                    #[trigger] slot_of(end, name),
                ) by {
                    assert(counted_slot(script, m, start, name, slot_of(before.1, name)));
                    assert(counts_up(
                        slot_of(before.1, name),
                        reads(expr, name),
                        slot_of(reads_done.1, name),
                    ));
                    if reads(expr, name) > 0 {
                        assert(before.1.contains_key(name));
                    }
                    assert(assigned_before(script, n, name) == (assigned_before(script, m, name)
                        || assigns_to(statement, name)));
                }
                assert forall|name: Seq<char>|
                    !start.contains_key(name) && !assigned_before(
                        script,
                        n,
                        name,
                    ) implies #[trigger] reads_before(script, n, name) == 0 by {
                    assert(assigned_before(script, n, name) == (assigned_before(script, m, name)
                        || assigns_to(statement, name)));
                    assert(counted_slot(script, m, start, name, slot_of(before.1, name)));
                    assert(reads_before(script, m, name) == 0);
                    if reads(expr, name) > 0 {
                        assert(before.1.contains_key(name));
                    }
                }
                assert forall|i: int, name: Seq<char>|
                    0 <= i < n && #[trigger] reads(expression_of(script[i]), name)
                        > 0 implies start.contains_key(name) || assigned_before(
                    script,
                    i as nat,
                    name,
                ) by {
                    if i == n - 1 {
                        assert(before.1.contains_key(name));
                        assert(counted_slot(script, m, start, name, slot_of(before.1, name)));
                    }
                }
            }
        }
    }
}

/// One statement more may assign to a variable, and nothing else changes what is assigned to.
pub proof fn lemma_assigned_before_step(script: Seq<Statement>, n: nat, name: Seq<char>)
    requires
        0 < n <= script.len(),
    ensures
        assigned_before(script, n, name) == (assigned_before(script, (n - 1) as nat, name)
            || assigns_to(script[n - 1], name)),
{
    let m = (n - 1) as nat;
    if assigned_before(script, n, name) {
        let i = choose|i: int|
            0 <= i < n && i < script.len() && assigns_to(#[trigger] script[i], name);
        if i < m {
            assert(assigned_before(script, m, name));
        }
    }
    if assigned_before(script, m, name) {
        let i = choose|i: int|
            0 <= i < m && i < script.len() && assigns_to(#[trigger] script[i], name);
        assert(assigns_to(script[i], name));
    }
    if assigns_to(script[n - 1], name) {
        assert(assigned_before(script, n, name));
    }
}

/// How often the statements of a script from the place `n` on read the variable `name`.
pub open spec fn reads_left(script: Seq<Statement>, n: nat, name: Seq<char>) -> int {
    reads_before(script, script.len(), name) - reads_before(script, n, name)
}

/// Whether a store is ready for the statements of a script from the place
/// `n` on, after an execution that began with the store `start`: the window
/// has a value; an entry without a value is one that `start` held without a
/// value and that nothing has assigned to; and every variable that is still
/// read has an entry that is pinned or has that many reads left.
pub open spec fn ready(script: Seq<Statement>, n: nat, start: Store, now: Store) -> bool {
    &&& window_has_value(now)
    &&& forall|name: Seq<char>|
        lacks_value(#[trigger] slot_of(now, name)) ==> start.contains_key(
            name,
        ) && start[name].val is None && !assigned_before(script, n, name)
    &&& forall|name: Seq<char>|
        reads_left(script, n, name) > 0 ==> has_reads(
            #[trigger] slot_of(now, name),
            reads_left(script, n, name),
        )
}

/// Whether each statement of a script reads only variables that `start`
/// holds with a value or that an earlier statement assigns to.
pub open spec fn reads_follow_assignments(script: Seq<Statement>, start: Store) -> bool {
    forall|i: int, name: Seq<char>|
        0 <= i < script.len() && #[trigger] reads(expression_of(script[i]), name) > 0 ==> (
        start.contains_key(name) && start[name].val is Some) || assigned_before(
            script,
            i as nat,
            name,
        )
}

/// An execution that begins ready stays ready, and has no failure of the store's own.
pub proof fn lemma_executed_script(
    script: Seq<Statement>,
    n: nat,
    start: Store,
    data: Seq<BucketValue>,
)
    requires
        n <= script.len(),
        ready(script, 0, start, start),
        reads_follow_assignments(script, start),
    ensures
        !internal(executed_script(script, n, start, data).0),
        executed_script(script, n, start, data).0 is Ok ==> ready(
            script,
            n,
            start,
            executed_script(script, n, start, data).1,
        ),
    decreases n,
{
    if n > 0 {
        let m = (n - 1) as nat;
        lemma_executed_script(script, m, start, data);
        let before = executed_script(script, m, start, data);
        if before.0 is Ok {
            let now = before.1;
            let statement = script[n - 1];
            let expr = expression_of(statement);
            assert forall|name: Seq<char>|
                serves(#[trigger] slot_of(now, name), reads(expr, name)) by {
                if reads(expr, name) > 0 {
                    lemma_reads_before_grows(script, n, script.len(), name);
                    assert(reads_left(script, m, name) >= reads(expr, name));
                    assert(reads(expression_of(script[n - 1]), name) > 0);
                }
            }
            lemma_evaluated(expr, now, data);
            let value = evaluated(expr, now, data);
            if value.0 is Ok {
                let end = executed_statement(statement, now, data).1;
                assert forall|name: Seq<char>|
                    lacks_value(#[trigger] slot_of(end, name)) implies start.contains_key(name)
                    && start[name].val is None && !assigned_before(script, n, name) by {
                    lemma_assigned_before_step(script, n, name);
                    assert(slot_of(value.1, name) == counted_down(
                        slot_of(now, name),
                        reads(expr, name),
                    ));
                }
                assert forall|name: Seq<char>| reads_left(script, n, name) > 0 implies has_reads(
                    #[trigger] slot_of(end, name),
                    reads_left(script, n, name),
                ) by {
                    assert(reads_left(script, m, name) == reads_left(script, n, name) + reads(
                        expr,
                        name,
                    ));
                    assert(slot_of(value.1, name) == counted_down(
                        slot_of(now, name),
                        reads(expr, name),
                    ));
                }
                assert(window_has_value(end));
            }
        }
    }
}

/// A run has no failure of the store's own: no read of a variable that has
/// no value or no read left, no assignment to a variable that has no entry.
/// The counting pass rules them out.
pub proof fn lemma_run_has_no_internal_failure(
    script: Seq<Statement>,
    window: IntervalValue,
    data: Seq<BucketValue>,
)
    ensures
        !internal(ran(script, window, data)),
{
    let first = initial_store(window);
    let n = script.len();
    lemma_counted_script(script, n, first);
    let count = counted_script(script, n, first);
    if count.0 is Ok {
        let start = count.1;
        assert forall|name: Seq<char>|
            counted_slot(script, n, first, name, #[trigger] slot_of(start, name)) by {}
        assert(ready(script, 0, start, start)) by {
            assert(counted_slot(
                script,
                n,
                first,
                "TIMEINTERVAL"@,
                slot_of(start, "TIMEINTERVAL"@),
            ));
            assert forall|name: Seq<char>| reads_left(script, 0, name) > 0 implies has_reads(
                #[trigger] slot_of(start, name),
                reads_left(script, 0, name),
            ) by {
                assert(counted_slot(script, n, first, name, slot_of(start, name)));
                if !first.contains_key(name) && !assigned_before(script, n, name) {
                    assert(reads_before(script, n, name) == 0);
                }
            }
            assert forall|name: Seq<char>|
                lacks_value(#[trigger] slot_of(start, name)) implies start.contains_key(name)
                && start[name].val is None && !assigned_before(script, 0, name) by {}
        }
        assert(reads_follow_assignments(script, start)) by {
            assert forall|i: int, name: Seq<char>|
                0 <= i < script.len() && #[trigger] reads(expression_of(script[i]), name)
                    > 0 implies (start.contains_key(name) && start[name].val is Some)
                || assigned_before(script, i as nat, name) by {
                assert(first.contains_key(name) || assigned_before(script, i as nat, name));
                assert(counted_slot(script, n, first, name, slot_of(start, name)));
            }
        }
        lemma_executed_script(script, n, start, data);
    }
}

} // verus!

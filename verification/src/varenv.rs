//! The store of variables of one execution.
//!
//! Each entry counts the reads of its variable that are still to come, so that
//! the last read can hand the value out and every earlier one hands out a copy.

use crate::datatype::DataType;
use crate::datatype::Value;
use crate::error::outcome;
use crate::error::status;
use crate::error::Failure;
use crate::error::QueryError;
use crate::text::same_text;
use vstd::prelude::*;

verus! {

/// The largest number of reads an entry can count.
pub const MOST_READS: u32 = 0xFFFF_FFFF;

/// How the reads of an entry are kept: counted, or not at all.
#[derive(Clone, Copy, Debug, PartialEq, Eq, Structural)]
pub enum Uses {
    /// So many counted reads are still to come.
    Counted(u32),
    /// The entry is exempt from counting: no read counts it down or removes it.
    Pinned,
}

/// The model of one entry: how its reads are kept, and the value once one is assigned.
pub struct Slot {
    pub uses: Uses,
    pub val: Option<Value>,
}

impl Slot {
    /// Whether the entry is exempt from counting.
    pub open spec fn pinned(self) -> bool {
        self.uses is Pinned
    }
}

/// The model of a store: its entries by name.
pub type Store = Map<Seq<char>, Slot>;

/// The store after `name` is declared: a new entry with no reads and no value,
/// unless the name has an entry already.
pub open spec fn declared(store: Store, name: Seq<char>) -> Store {
    if store.contains_key(name) {
        store
    } else {
        store.insert(name, Slot { uses: Uses::Counted(0), val: None })
    }
}

/// The store after `name` is pinned to `val`.
pub open spec fn pinned_to(store: Store, name: Seq<char>, val: Value) -> Store {
    store.insert(name, Slot { uses: Uses::Pinned, val: Some(val) })
}

/// The store after `val` is assigned to `name`: the value of a declared entry
/// is replaced and its count kept; nothing else changes.
pub open spec fn assigned(store: Store, name: Seq<char>, val: Value) -> Store {
    if store.contains_key(name) {
        store.insert(name, Slot { uses: store[name].uses, val: Some(val) })
    } else {
        store
    }
}

/// Whether an assignment to `name` is in order.
pub open spec fn assign_status(store: Store, name: Seq<char>) -> Result<(), Failure> {
    if store.contains_key(name) {
        Ok(())
    } else {
        Err(Failure::InternalError(name))
    }
}

/// Whether a read of `name` can be counted: the name must have an entry, and
/// a counted entry must not hold [`MOST_READS`] already. A pinned entry takes
/// any number of reads, since it counts none.
pub open spec fn reference_status(store: Store, name: Seq<char>) -> Result<(), Failure> {
    if !store.contains_key(name) {
        Err(Failure::VariableNotDefined(name))
    } else if store[name].uses == Uses::Counted(MOST_READS) {
        Err(Failure::MathError(name))
    } else {
        Ok(())
    }
}

/// The store after one more read of `name` is to be counted: a counted entry
/// counts one more. A pinned entry stays as it is, and so does the store
/// where the read cannot be counted.
pub open spec fn referenced(store: Store, name: Seq<char>) -> Store {
    if reference_status(store, name) is Ok {
        match store[name].uses {
            Uses::Counted(n) => store.insert(
                name,
                Slot { uses: Uses::Counted((n + 1) as u32), val: store[name].val },
            ),
            Uses::Pinned => store,
        }
    } else {
        store
    }
}

/// What a read of `name` that leaves the store alone gives.
pub open spec fn peeked(store: Store, name: Seq<char>) -> Result<Value, Failure> {
    if !store.contains_key(name) {
        Err(Failure::VariableNotDefined(name))
    } else {
        match store[name].val {
            Some(val) => Ok(val),
            None => Err(Failure::InternalError(name)),
        }
    }
}

/// What a counted read of `name` gives: the value, unless the name has no
/// entry, the entry no value, or the entry no read left.
pub open spec fn taken(store: Store, name: Seq<char>) -> Result<Value, Failure> {
    if store.contains_key(name) && store[name].uses == Uses::Counted(0) {
        Err(Failure::InternalError(name))
    } else {
        peeked(store, name)
    }
}

/// The store after a counted read of `name`: a failed read and a read of a
/// pinned entry leave it alone, the last read removes the entry, any other
/// read counts it down.
pub open spec fn after_take(store: Store, name: Seq<char>) -> Store {
    if taken(store, name) is Err {
        store
    } else {
        match store[name].uses {
            Uses::Pinned => store,
            Uses::Counted(n) => if n > 1 {
                store.insert(
                    name,
                    Slot { uses: Uses::Counted((n - 1) as u32), val: store[name].val },
                )
            } else {
                store.remove(name)
            },
        }
    }
}

/// The store after `n` more reads of `name` are to be counted, one after another.
pub open spec fn referenced_times(store: Store, name: Seq<char>, n: nat) -> Store
    decreases n,
{
    if n == 0 {
        store
    } else {
        referenced(referenced_times(store, name, (n - 1) as nat), name)
    }
}

/// Whether each of `n` reads of `name`, one after another, can be counted.
pub open spec fn all_referenced(store: Store, name: Seq<char>, n: nat) -> bool {
    forall|i: nat|
        i < n ==> reference_status(#[trigger] referenced_times(store, name, i), name) is Ok
}

/// The store after `n` counted reads of `name`, one after another.
pub open spec fn taken_times(store: Store, name: Seq<char>, n: nat) -> Store
    decreases n,
{
    if n == 0 {
        store
    } else {
        after_take(taken_times(store, name, (n - 1) as nat), name)
    }
}

/// To declare a name that has an entry changes nothing, neither its value nor
/// its count; so to declare a name twice is to declare it once.
pub proof fn lemma_declare_idempotent(store: Store, name: Seq<char>)
    ensures
        store.contains_key(name) ==> declared(store, name) == store,
        declared(declared(store, name), name) == declared(store, name),
{
}

/// A read that cannot be counted leaves the store as it is, and no read
/// turns a counted entry into a pinned one or a pinned one into a counted.
pub proof fn lemma_referenced_keeps_kind(store: Store, name: Seq<char>)
    ensures
        reference_status(store, name) is Err ==> referenced(store, name) == store,
        store.contains_key(name) ==> referenced(store, name).contains_key(name) && referenced(
            store,
            name,
        )[name].pinned() == store[name].pinned(),
{
}

/// A pinned entry outlasts any number of reads: each read, counted or not,
/// gives the value it is pinned to, and the store stays as it is.
pub proof fn lemma_pinned_outlasts_reads(store: Store, name: Seq<char>, val: Value, n: nat)
    requires
        store.contains_key(name),
        store[name].pinned(),
        store[name].val == Some(val),
    ensures
        peeked(store, name) == Ok::<Value, Failure>(val),
        taken_times(store, name, n) == store,
        taken(taken_times(store, name, n), name) == Ok::<Value, Failure>(val),
    decreases n,
{
    if n > 0 {
        lemma_pinned_outlasts_reads(store, name, val, (n - 1) as nat);
    }
}

/// Where each of `n` reads of an entry without reads could be counted, the
/// entry has the count `n`, and the value it had.
pub proof fn lemma_referenced_times(store: Store, name: Seq<char>, n: nat)
    requires
        store.contains_key(name),
        store[name].uses == Uses::Counted(0),
        all_referenced(store, name, n),
    ensures
        n <= MOST_READS,
        referenced_times(store, name, n) == store.insert(
            name,
            Slot { uses: Uses::Counted(n as u32), val: store[name].val },
        ),
    decreases n,
{
    if n == 0 {
        assert(store.insert(name, Slot { uses: Uses::Counted(0), val: store[name].val })
            =~= store);
    } else {
        let m = (n - 1) as nat;
        assert(all_referenced(store, name, m));
        lemma_referenced_times(store, name, m);
        let before = referenced_times(store, name, m);
        assert(reference_status(before, name) is Ok);
        assert(referenced(before, name) =~= store.insert(
            name,
            Slot { uses: Uses::Counted(n as u32), val: store[name].val },
        ));
    }
}

/// While reads are left, each counted read gives the value and counts the entry down.
pub proof fn lemma_taken_times(store: Store, name: Seq<char>, val: Value, n: nat, k: nat)
    requires
        store.contains_key(name),
        store[name] == (Slot { uses: Uses::Counted(n as u32), val: Some(val) }),
        k < n <= MOST_READS,
    ensures
        taken_times(store, name, k) == store.insert(
            name,
            Slot { uses: Uses::Counted((n - k) as u32), val: Some(val) },
        ),
        taken(taken_times(store, name, k), name) == Ok::<Value, Failure>(val),
    decreases k,
{
    if k == 0 {
        assert(store.insert(name, Slot { uses: Uses::Counted(n as u32), val: Some(val) })
            =~= store);
    } else {
        lemma_taken_times(store, name, val, n, (k - 1) as nat);
        let before = taken_times(store, name, (k - 1) as nat);
        assert(after_take(before, name) =~= store.insert(
            name,
            Slot { uses: Uses::Counted((n - k) as u32), val: Some(val) },
        ));
    }
}

/// An entry with a value and `n` reads left serves exactly `n` counted
/// reads: each of them gives the value, the entry is there before each of
/// them and gone after the last, and any read after that, counted or not,
/// finds the variable undefined and leaves the store as it is.
pub proof fn lemma_counted_reads(store: Store, name: Seq<char>, val: Value, n: nat, k: nat)
    requires
        store.contains_key(name),
        store[name] == (Slot { uses: Uses::Counted(n as u32), val: Some(val) }),
        k < n <= MOST_READS,
    ensures
        taken_times(store, name, k).contains_key(name),
        taken(taken_times(store, name, k), name) == Ok::<Value, Failure>(val),
        !taken_times(store, name, n).contains_key(name),
        taken(taken_times(store, name, n), name) == Err::<Value, Failure>(
            Failure::VariableNotDefined(name),
        ),
        peeked(taken_times(store, name, n), name) == Err::<Value, Failure>(
            Failure::VariableNotDefined(name),
        ),
        after_take(taken_times(store, name, n), name) == taken_times(store, name, n),
{
    lemma_taken_times(store, name, val, n, k);
    lemma_taken_times(store, name, val, n, (n - 1) as nat);
}

/// The count of reads is kept exactly. Let a declared entry without reads
/// count `n` reads, one at least and each of them counted without failure,
/// and then be assigned `val`. Then each of the next `n` counted reads gives
/// `val`; the entry is there before each of them and gone after the last;
/// and any read after that, counted or not, finds the variable undefined and
/// leaves the store as it is.
pub proof fn lemma_reads_match_count(store: Store, name: Seq<char>, val: Value, n: nat, k: nat)
    requires
        store.contains_key(name),
        store[name].uses == Uses::Counted(0),
        all_referenced(store, name, n),
        k < n,
    ensures
        ({
            let counted = assigned(referenced_times(store, name, n), name, val);
            &&& taken_times(counted, name, k).contains_key(name)
            &&& taken(taken_times(counted, name, k), name) == Ok::<Value, Failure>(val)
            &&& !taken_times(counted, name, n).contains_key(name)
            &&& taken(taken_times(counted, name, n), name) == Err::<Value, Failure>(
                Failure::VariableNotDefined(name),
            )
            &&& peeked(taken_times(counted, name, n), name) == Err::<Value, Failure>(
                Failure::VariableNotDefined(name),
            )
            &&& after_take(taken_times(counted, name, n), name) == taken_times(counted, name, n)
        }),
{
    lemma_referenced_times(store, name, n);
    let counted = assigned(referenced_times(store, name, n), name, val);
    assert(counted[name] == Slot { uses: Uses::Counted(n as u32), val: Some(val) });
    lemma_counted_reads(counted, name, val, n, k);
}

/// The same where the value is assigned first and the reads are counted after.
pub proof fn lemma_reads_match_count_assigned_first(
    store: Store,
    name: Seq<char>,
    val: Value,
    n: nat,
    k: nat,
)
    requires
        store.contains_key(name),
        store[name].uses == Uses::Counted(0),
        all_referenced(assigned(store, name, val), name, n),
        k < n,
    ensures
        ({
            let counted = referenced_times(assigned(store, name, val), name, n);
            &&& taken_times(counted, name, k).contains_key(name)
            &&& taken(taken_times(counted, name, k), name) == Ok::<Value, Failure>(val)
            &&& !taken_times(counted, name, n).contains_key(name)
            &&& taken(taken_times(counted, name, n), name) == Err::<Value, Failure>(
                Failure::VariableNotDefined(name),
            )
            &&& peeked(taken_times(counted, name, n), name) == Err::<Value, Failure>(
                Failure::VariableNotDefined(name),
            )
            &&& after_take(taken_times(counted, name, n), name) == taken_times(counted, name, n)
        }),
{
    let first = assigned(store, name, val);
    lemma_referenced_times(first, name, n);
    let counted = referenced_times(first, name, n);
    assert(counted[name] == Slot { uses: Uses::Counted(n as u32), val: Some(val) });
    lemma_counted_reads(counted, name, val, n, k);
}

/// One read in a history of reads of several stores: of which store, and
/// whether it is counted.
pub struct Read {
    pub store: int,
    pub counted: bool,
}

/// Several stores after a history of reads of `name`, each read of one of them.
pub open spec fn after_reads(stores: Seq<Store>, name: Seq<char>, history: Seq<Read>) -> Seq<Store>
    decreases history.len(),
{
    if history.len() == 0 {
        stores
    } else {
        let before = after_reads(stores, name, history.drop_last());
        let read = history.last();
        if 0 <= read.store < before.len() && read.counted {
            before.update(read.store, after_take(before[read.store], name))
        } else {
            before
        }
    }
}

/// Stores that each pin one name to a value of their own stay apart:
/// whatever reads are made of them, in whatever order, each store stays as
/// it was and gives its own value.
pub proof fn lemma_pinned_stores_stay_apart(
    stores: Seq<Store>,
    name: Seq<char>,
    vals: Seq<Value>,
    history: Seq<Read>,
    i: int,
)
    requires
        stores.len() == vals.len(),
        forall|j: int|
            0 <= j < stores.len() ==> #[trigger] stores[j] == pinned_to(
                Map::<Seq<char>, Slot>::empty(),
                name,
                vals[j],
            ),
        0 <= i < stores.len(),
    ensures
        after_reads(stores, name, history) == stores,
        peeked(after_reads(stores, name, history)[i], name) == Ok::<Value, Failure>(vals[i]),
        taken(after_reads(stores, name, history)[i], name) == Ok::<Value, Failure>(vals[i]),
    decreases history.len(),
{
    if history.len() > 0 {
        lemma_pinned_stores_stay_apart(stores, name, vals, history.drop_last(), i);
        let read = history.last();
        if 0 <= read.store < stores.len() && read.counted {
            assert(after_take(stores[read.store], name) == stores[read.store]);
            assert(stores.update(read.store, stores[read.store]) =~= stores);
        }
    }
}

struct Var {
    name: String,
    uses: Uses,
    val: Option<DataType>,
}

impl Var {
    spec fn slot(&self) -> Slot {
        Slot {
            uses: self.uses,
            val: match self.val {
                Some(val) => Some(val@),
                None => None,
            },
        }
    }
}

spec fn distinct(vars: Seq<Var>) -> bool {
    forall|i: int, j: int| 0 <= i < j < vars.len() ==> vars[i].name@ != vars[j].name@
}

spec fn has_name(vars: Seq<Var>, name: Seq<char>) -> bool {
    exists|i: int| 0 <= i < vars.len() && (#[trigger] vars[i]).name@ == name
}

spec fn index_of(vars: Seq<Var>, name: Seq<char>) -> int {
    choose|i: int| 0 <= i < vars.len() && (#[trigger] vars[i]).name@ == name
}

spec fn entries_map(vars: Seq<Var>) -> Store {
    Map::new(
        |name: Seq<char>| has_name(vars, name),
        |name: Seq<char>| vars[index_of(vars, name)].slot(),
    )
}

proof fn lemma_entry(vars: Seq<Var>, name: Seq<char>, i: int)
    requires
        distinct(vars),
        0 <= i < vars.len(),
        vars[i].name@ == name,
    ensures
        has_name(vars, name),
        entries_map(vars).contains_key(name),
        entries_map(vars)[name] == vars[i].slot(),
{
    let j = index_of(vars, name);
    assert(0 <= j < vars.len() && vars[j].name@ == name);
    assert(i == j);
}

proof fn lemma_pushed(vars: Seq<Var>, var: Var)
    requires
        distinct(vars),
        !has_name(vars, var.name@),
    ensures
        distinct(vars.push(var)),
        entries_map(vars.push(var)) == entries_map(vars).insert(var.name@, var.slot()),
{
    let more = vars.push(var);
    assert forall|i: int, j: int| 0 <= i < j < more.len() implies more[i].name@ != more[j].name@ by {
        if j == vars.len() {
            assert(more[i] == vars[i]);
        }
    }
    let left = entries_map(more);
    let right = entries_map(vars).insert(var.name@, var.slot());
    assert forall|name: Seq<char>|
        left.contains_key(name) == #[trigger] right.contains_key(name) && (left.contains_key(name)
            ==> left[name] == right[name]) by {
        if name == var.name@ {
            lemma_entry(more, name, vars.len() as int);
        } else if has_name(vars, name) {
            let i = index_of(vars, name);
            lemma_entry(vars, name, i);
            assert(more[i] == vars[i]);
            lemma_entry(more, name, i);
        } else if has_name(more, name) {
            let j = index_of(more, name);
            assert(more[j] == vars[j]);
        }
    }
    assert(left.dom() =~= right.dom());
    assert(left =~= right);
}

proof fn lemma_replaced(vars: Seq<Var>, at: int, var: Var)
    requires
        distinct(vars),
        0 <= at < vars.len(),
        vars[at].name@ == var.name@,
    ensures
        distinct(vars.update(at, var)),
        entries_map(vars.update(at, var)) == entries_map(vars).insert(var.name@, var.slot()),
{
    let more = vars.update(at, var);
    assert forall|i: int| 0 <= i < more.len() implies (#[trigger] more[i]).name@ == vars[i].name@ by {}
    assert forall|i: int, j: int| 0 <= i < j < more.len() implies more[i].name@ != more[j].name@ by {
        assert(more[i].name@ == vars[i].name@);
        assert(more[j].name@ == vars[j].name@);
    }
    let left = entries_map(more);
    let right = entries_map(vars).insert(var.name@, var.slot());
    assert forall|name: Seq<char>|
        left.contains_key(name) == #[trigger] right.contains_key(name) && (left.contains_key(name)
            ==> left[name] == right[name]) by {
        if name == var.name@ {
            assert(more[at] == var);
            lemma_entry(more, name, at);
        } else if has_name(vars, name) {
            let i = index_of(vars, name);
            lemma_entry(vars, name, i);
            assert(more[i] == vars[i]);
            lemma_entry(more, name, i);
        } else if has_name(more, name) {
            let j = index_of(more, name);
            assert(more[j].name@ == vars[j].name@);
        }
    }
    assert(left.dom() =~= right.dom());
    assert(left =~= right);
}

proof fn lemma_removed(vars: Seq<Var>, at: int)
    requires
        distinct(vars),
        0 <= at < vars.len(),
    ensures
        distinct(vars.remove(at)),
        entries_map(vars.remove(at)) == entries_map(vars).remove(vars[at].name@),
{
    let less = vars.remove(at);
    assert forall|i: int| 0 <= i < less.len() implies #[trigger] less[i] == vars[if i < at {
        i
    } else {
        i + 1
    }] by {}
    assert forall|i: int, j: int| 0 <= i < j < less.len() implies less[i].name@ != less[j].name@ by {
        let a = if i < at { i } else { i + 1 };
        let b = if j < at { j } else { j + 1 };
        assert(less[i] == vars[a]);
        assert(less[j] == vars[b]);
    }
    let left = entries_map(less);
    let right = entries_map(vars).remove(vars[at].name@);
    assert forall|name: Seq<char>|
        left.contains_key(name) == #[trigger] right.contains_key(name) && (left.contains_key(name)
            ==> left[name] == right[name]) by {
        if has_name(less, name) {
            let i = index_of(less, name);
            let a = if i < at { i } else { i + 1 };
            assert(less[i] == vars[a]);
            lemma_entry(less, name, i);
            lemma_entry(vars, name, a);
        } else if has_name(vars, name) {
            let a = index_of(vars, name);
            if a != at {
                let i = if a < at { a } else { a - 1 };
                assert(less[i] == vars[a]);
                assert(false);
            }
        }
    }
    assert(left.dom() =~= right.dom());
    assert(left =~= right);
}

/// The place of the entry of `name`, if it has one.
fn find(vars: &Vec<Var>, name: &str) -> (r: Option<usize>)
    requires
        distinct(vars@),
    ensures
        match r {
            Some(i) => i < vars.len() && vars[i as int].name@ == name@,
            None => !has_name(vars@, name@),
        },
        r is Some <==> entries_map(vars@).contains_key(name@),
        r matches Some(i) ==> entries_map(vars@)[name@] == vars[i as int].slot(),
{
    let mut i: usize = 0;
    while i < vars.len()
        invariant
            i <= vars.len(),
            distinct(vars@),
            forall|j: int| 0 <= j < i ==> vars[j].name@ != name@,
        decreases vars.len() - i,
    {
        if same_text(vars[i].name.as_str(), name) {
            proof {
                lemma_entry(vars@, name@, i as int);
            }
            return Some(i);
        }
        i += 1;
    }
    None
}

/// Declares `name` among `vars`.
fn declare_in(vars: &mut Vec<Var>, name: String)
    requires
        distinct(old(vars)@),
    ensures
        distinct(final(vars)@),
        entries_map(final(vars)@) == declared(entries_map(old(vars)@), name@),
{
    if find(vars, name.as_str()).is_none() {
        let var = Var { name, uses: Uses::Counted(0), val: None };
        proof {
            lemma_pushed(vars@, var);
        }
        vars.push(var);
    }
}

/// Pins `name` to `val` among `vars`.
fn pin_in(vars: &mut Vec<Var>, name: String, val: DataType)
    requires
        distinct(old(vars)@),
    ensures
        distinct(final(vars)@),
        entries_map(final(vars)@) == pinned_to(entries_map(old(vars)@), name@, val@),
{
    let at = find(vars, name.as_str());
    let var = Var { name, uses: Uses::Pinned, val: Some(val) };
    match at {
        Some(i) => {
            proof {
                lemma_replaced(vars@, i as int, var);
            }
            vars.set(i, var);
        },
        None => {
            proof {
                lemma_pushed(vars@, var);
            }
            vars.push(var);
        },
    }
}

/// Assigns `val` to `name` among `vars`.
fn assign_in(vars: &mut Vec<Var>, name: String, val: DataType) -> (r: Result<(), QueryError>)
    requires
        distinct(old(vars)@),
    ensures
        distinct(final(vars)@),
        status(r) == assign_status(entries_map(old(vars)@), name@),
        entries_map(final(vars)@) == assigned(entries_map(old(vars)@), name@, val@),
{
    match find(vars, name.as_str()) {
        Some(i) => {
            let var = Var { name, uses: vars[i].uses, val: Some(val) };
            proof {
                lemma_replaced(vars@, i as int, var);
            }
            vars.set(i, var);
            Ok(())
        },
        None => Err(QueryError::InternalError(name)),
    }
}

/// Counts one more read of `name` among `vars`.
fn reference_in(vars: &mut Vec<Var>, name: &str) -> (r: Result<(), QueryError>)
    requires
        distinct(old(vars)@),
    ensures
        distinct(final(vars)@),
        status(r) == reference_status(entries_map(old(vars)@), name@),
        entries_map(final(vars)@) == referenced(entries_map(old(vars)@), name@),
{
    match find(vars, name) {
        Some(i) => match vars[i].uses {
            Uses::Pinned => Ok(()),
            Uses::Counted(n) => {
                if n == MOST_READS {
                    Err(QueryError::MathError(name.to_owned()))
                } else {
                    let ghost before = vars@;
                    vars[i].uses = Uses::Counted(n + 1);
                    proof {
                        assert(vars@ =~= before.update(i as int, vars@[i as int]));
                        lemma_replaced(before, i as int, vars@[i as int]);
                    }
                    Ok(())
                }
            },
        },
        None => Err(QueryError::VariableNotDefined(name.to_owned())),
    }
}

/// Reads `name` among `vars` and counts the read.
fn take_in(vars: &mut Vec<Var>, name: &str) -> (r: Result<DataType, QueryError>)
    requires
        distinct(old(vars)@),
    ensures
        distinct(final(vars)@),
        outcome(r) == taken(entries_map(old(vars)@), name@),
        entries_map(final(vars)@) == after_take(entries_map(old(vars)@), name@),
{
    match find(vars, name) {
        None => Err(QueryError::VariableNotDefined(name.to_owned())),
        Some(i) => {
            if vars[i].val.is_none() {
                return Err(QueryError::InternalError(name.to_owned()));
            }
            match vars[i].uses {
                Uses::Pinned => read_at(vars, i, name),
                Uses::Counted(n) => {
                    if n == 0 {
                        Err(QueryError::InternalError(name.to_owned()))
                    } else if n > 1 {
                        let ghost before = vars@;
                        vars[i].uses = Uses::Counted(n - 1);
                        proof {
                            assert(vars@ =~= before.update(i as int, vars@[i as int]));
                            lemma_replaced(before, i as int, vars@[i as int]);
                        }
                        read_at(vars, i, name)
                    } else {
                        proof {
                            lemma_removed(vars@, i as int);
                        }
                        let var = vars.remove(i);
                        match var.val {
                            Some(val) => Ok(val),
                            None => Err(QueryError::InternalError(name.to_owned())),
                        }
                    }
                },
            }
        },
    }
}

/// A copy of the value of the entry at place `i`, which is that of `name`.
fn read_at(vars: &Vec<Var>, i: usize, name: &str) -> (r: Result<DataType, QueryError>)
    requires
        i < vars.len(),
    ensures
        outcome(r) == match vars[i as int].slot().val {
            Some(val) => Ok::<Value, Failure>(val),
            None => Err(Failure::InternalError(name@)),
        },
{
    match &vars[i].val {
        Some(val) => Ok(val.duplicate()),
        None => Err(QueryError::InternalError(name.to_owned())),
    }
}

/// The variables of one execution, by name.
pub struct VarEnv {
    vars: Vec<Var>,
}

impl View for VarEnv {
    type V = Store;

    closed spec fn view(&self) -> Store {
        entries_map(self.vars@)
    }
}

impl VarEnv {
    #[verifier::type_invariant]
    spec fn inv(&self) -> bool {
        distinct(self.vars@)
    }

    /// A store without entries.
    pub fn new() -> (env: VarEnv)
        ensures
            env@ == Map::<Seq<char>, Slot>::empty(),
    {
        let env = VarEnv { vars: Vec::new() };
        assert(env@ =~= Map::<Seq<char>, Slot>::empty());
        env
    }

    /// Declares `name`. An entry that is there already is left as it is.
    pub fn declare(&mut self, name: String)
        ensures
            final(self)@ == declared(old(self)@, name@),
    {
        proof {
            use_type_invariant(&*self);
        }
        let mut vars: Vec<Var> = Vec::new();
        std::mem::swap(&mut vars, &mut self.vars);
        declare_in(&mut vars, name);
        self.vars = vars;
    }

    /// Pins `name` to `val`, whatever entry the name had before.
    pub fn declare_static(&mut self, name: String, val: DataType)
        ensures
            final(self)@ == pinned_to(old(self)@, name@, val@),
    {
        proof {
            use_type_invariant(&*self);
        }
        let mut vars: Vec<Var> = Vec::new();
        std::mem::swap(&mut vars, &mut self.vars);
        pin_in(&mut vars, name, val);
        self.vars = vars;
    }

    /// Assigns `val` to `name`, which must have been declared: if it was not,
    /// the store is left as it is and the failure names the variable.
    pub fn insert(&mut self, name: String, val: DataType) -> (r: Result<(), QueryError>)
        ensures
            status(r) == assign_status(old(self)@, name@),
            final(self)@ == assigned(old(self)@, name@, val@),
    {
        proof {
            use_type_invariant(&*self);
        }
        let mut vars: Vec<Var> = Vec::new();
        std::mem::swap(&mut vars, &mut self.vars);
        let r = assign_in(&mut vars, name, val);
        self.vars = vars;
        r
    }

    /// Counts one more read of `name`. A pinned entry is not counted. A name
    /// without an entry is a failure, and so is a count that cannot grow;
    /// both leave the store as it is.
    pub fn add_ref(&mut self, name: &str) -> (r: Result<(), QueryError>)
        ensures
            status(r) == reference_status(old(self)@, name@),
            final(self)@ == referenced(old(self)@, name@),
    {
        proof {
            use_type_invariant(&*self);
        }
        let mut vars: Vec<Var> = Vec::new();
        std::mem::swap(&mut vars, &mut self.vars);
        let r = reference_in(&mut vars, name);
        self.vars = vars;
        r
    }

    /// Reads `name` and counts the read. The last read that was counted for
    /// the name removes its entry and hands the value itself out; an earlier
    /// one, and any read of a pinned entry, hands out a copy.
    pub fn take(&mut self, name: &str) -> (r: Result<DataType, QueryError>)
        ensures
            outcome(r) == taken(old(self)@, name@),
            final(self)@ == after_take(old(self)@, name@),
    {
        proof {
            use_type_invariant(&*self);
        }
        let mut vars: Vec<Var> = Vec::new();
        std::mem::swap(&mut vars, &mut self.vars);
        let r = take_in(&mut vars, name);
        self.vars = vars;
        r
    }

    /// Reads `var` and leaves the store as it is, whatever the entry's count.
    pub fn deprecated_get(&self, var: &str) -> (r: Result<DataType, QueryError>)
        ensures
            outcome(r) == peeked(self@, var@),
    {
        proof {
            use_type_invariant(self);
        }
        match find(&self.vars, var) {
            None => Err(QueryError::VariableNotDefined(var.to_owned())),
            Some(i) => read_at(&self.vars, i, var),
        }
    }
}

} // verus!

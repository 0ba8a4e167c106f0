//! What the operators of the language do to values.

use crate::ast::BinaryOp;
use crate::ast::UnaryOp;
use crate::datatype::entry_position;
use crate::datatype::values_of;
use crate::datatype::DataType;
use crate::datatype::Value;
use crate::error::outcome;
use crate::error::Failure;
use crate::error::QueryError;
use crate::functions::number_result;
use vstd::prelude::*;
use vstd::string::StringExecFns;

verus! {

/// The quotient of two integers, rounded toward zero.
pub open spec fn quotient(a: int, b: int) -> int {
    if a == 0 {
        0
    } else if a > 0 && b > 0 {
        a / b
    } else if a < 0 && b < 0 {
        (a * -1) / (b * -1)
    } else if a < 0 {
        ((a * -1) / b) * -1
    } else {
        (a / (b * -1)) * -1
    }
}

/// What an operator between two values comes to. Arithmetic asks for numbers
/// and fails where the result is none of the language; to divide by zero
/// fails likewise. What is not there to be indexed is `Null`.
pub open spec fn binary_result(op: BinaryOp, left: Value, right: Value) -> Result<Value, Failure> {
    match op {
        BinaryOp::Add => match (left, right) {
            (Value::Number(a), Value::Number(b)) => number_result(a + b, "+"@),
            (Value::Text(a), Value::Text(b)) => Ok(Value::Text(a + b)),
            (Value::List(a), Value::List(b)) => Ok(Value::List(a + b)),
            _ => Err(Failure::TypeError("+"@)),
        },
        BinaryOp::Sub => match (left, right) {
            (Value::Number(a), Value::Number(b)) => number_result(a - b, "-"@),
            _ => Err(Failure::TypeError("-"@)),
        },
        BinaryOp::Mul => match (left, right) {
            (Value::Number(a), Value::Number(b)) => number_result(a * b, "*"@),
            _ => Err(Failure::TypeError("*"@)),
        },
        BinaryOp::Div => match (left, right) {
            (Value::Number(a), Value::Number(b)) => if b == 0 {
                Err(Failure::MathError("/"@))
            } else {
                number_result(quotient(a, b), "/"@)
            },
            _ => Err(Failure::TypeError("/"@)),
        },
        BinaryOp::Equal => Ok(Value::Boolean(left == right)),
        BinaryOp::Less => match (left, right) {
            (Value::Number(a), Value::Number(b)) => Ok(Value::Boolean(a < b)),
            _ => Err(Failure::TypeError("<"@)),
        },
        BinaryOp::Index => match (left, right) {
            (Value::List(items), Value::Number(at)) => Ok(
                if 0 <= at < items.len() {
                    items[at]
                } else {
                    Value::Null
                },
            ),
            (Value::Dict(entries), Value::Text(key)) => Ok(
                if entries.contains_key(key) {
                    entries[key]
                } else {
                    Value::Null
                },
            ),
            _ => Err(Failure::TypeError("[]"@)),
        },
    }
}

/// What an operator before a value comes to.
pub open spec fn unary_result(op: UnaryOp, value: Value) -> Result<Value, Failure> {
    match op {
        UnaryOp::Neg => match value {
            Value::Number(a) => number_result(-a, "-"@),
            _ => Err(Failure::TypeError("-"@)),
        },
        UnaryOp::Not => match value {
            Value::Boolean(b) => Ok(Value::Boolean(!b)),
            _ => Err(Failure::TypeError("!"@)),
        },
    }
}

/// The number that checked arithmetic came to, or the failure of `name`.
fn checked(result: Option<i64>, name: &str) -> (r: Result<DataType, QueryError>)
    ensures
        outcome(r) == match result {
            Some(n) => Ok::<Value, Failure>(Value::Number(n as int)),
            None => Err(Failure::MathError(name@)),
        },
{
    match result {
        Some(n) => Ok(DataType::Number(n)),
        None => Err(QueryError::MathError(name.to_owned())),
    }
}

/// Applies an operator between two values.
pub fn apply_binary(op: BinaryOp, left: DataType, right: DataType) -> (r: Result<
    DataType,
    QueryError,
>)
    ensures
        outcome(r) == binary_result(op, left@, right@),
{
    match op {
        BinaryOp::Add => match (left, right) {
            (DataType::Number(a), DataType::Number(b)) => checked(a.checked_add(b), "+"),
            (DataType::Text(a), DataType::Text(b)) => Ok(DataType::Text(a.concat(b.as_str()))),
            (DataType::List(a), DataType::List(b)) => {
                let mut both = a;
                let mut more = b;
                both.append(&mut more);
                assert(values_of(both@) =~= values_of(a@) + values_of(b@));
                Ok(DataType::List(both))
            },
            _ => Err(QueryError::TypeError("+".to_owned())),
        },
        BinaryOp::Sub => match (left, right) {
            (DataType::Number(a), DataType::Number(b)) => checked(a.checked_sub(b), "-"),
            _ => Err(QueryError::TypeError("-".to_owned())),
        },
        BinaryOp::Mul => match (left, right) {
            (DataType::Number(a), DataType::Number(b)) => checked(a.checked_mul(b), "*"),
            _ => Err(QueryError::TypeError("*".to_owned())),
        },
        BinaryOp::Div => match (left, right) {
            (DataType::Number(a), DataType::Number(b)) => checked(a.checked_div(b), "/"),
            _ => Err(QueryError::TypeError("/".to_owned())),
        },
        BinaryOp::Equal => Ok(DataType::Boolean(left.equals(&right))),
        BinaryOp::Less => match (left, right) {
            (DataType::Number(a), DataType::Number(b)) => Ok(DataType::Boolean(a < b)),
            _ => Err(QueryError::TypeError("<".to_owned())),
        },
        BinaryOp::Index => match (left, right) {
            (DataType::List(items), DataType::Number(at)) => {
                let mut items = items;
                if at >= 0 && (at as u64) < (items.len() as u64) {
                    Ok(items.swap_remove(at as usize))
                } else {
                    Ok(DataType::Null)
                }
            },
            (DataType::Dict(dict), DataType::Text(key)) => {
                let mut entries = dict.entries;
                match entry_position(&entries, key.as_str()) {
                    Some(at) => {
                        let entry = entries.swap_remove(at);
                        Ok(entry.1)
                    },
                    None => Ok(DataType::Null),
                }
            },
            _ => Err(QueryError::TypeError("[]".to_owned())),
        },
    }
}

/// Applies an operator before a value.
pub fn apply_unary(op: UnaryOp, value: DataType) -> (r: Result<DataType, QueryError>)
    ensures
        outcome(r) == unary_result(op, value@),
{
    match op {
        UnaryOp::Neg => match value {
            DataType::Number(a) => checked(0i64.checked_sub(a), "-"),
            _ => Err(QueryError::TypeError("-".to_owned())),
        },
        UnaryOp::Not => match value {
            DataType::Boolean(b) => Ok(DataType::Boolean(!b)),
            _ => Err(QueryError::TypeError("!".to_owned())),
        },
    }
}

} // verus!

//! The failures that an execution can end in.

use crate::datatype::DataType;
use crate::datatype::Value;
use vstd::prelude::*;

verus! {

/// A failure of one execution. Each kind carries the name of what caused it.
#[derive(Debug)]
pub enum QueryError {
    /// A name was read that no declaration reaches.
    VariableNotDefined(String),
    /// The named operator or function was applied to a value of the wrong variant.
    TypeError(String),
    /// The named function was called with the wrong number of arguments:
    /// the function, the number it expects, the number it got.
    ArgCountError(String, usize, usize),
    /// The store of events holds no bucket of this name.
    BucketNotFound(String),
    /// The variable store was used in a way that the counting pass rules out;
    /// the name is that of the variable concerned.
    InternalError(String),
    /// A number left the range of the numbers: the result of the named operator
    /// or function, or the count of the reads of the named variable.
    MathError(String),
}

/// What a [`QueryError`] says, with its texts as sequences of characters.
pub enum Failure {
    VariableNotDefined(Seq<char>),
    TypeError(Seq<char>),
    ArgCountError(Seq<char>, nat, nat),
    BucketNotFound(Seq<char>),
    InternalError(Seq<char>),
    MathError(Seq<char>),
}

impl View for QueryError {
    type V = Failure;

    open spec fn view(&self) -> Failure {
        match self {
            QueryError::VariableNotDefined(name) => Failure::VariableNotDefined(name@),
            QueryError::TypeError(name) => Failure::TypeError(name@),
            QueryError::ArgCountError(name, expected, got) => Failure::ArgCountError(
                name@,
                *expected as nat,
                *got as nat,
            ),
            QueryError::BucketNotFound(name) => Failure::BucketNotFound(name@),
            QueryError::InternalError(name) => Failure::InternalError(name@),
            QueryError::MathError(name) => Failure::MathError(name@),
        }
    }
}

impl Failure {
    /// The name that the failure carries: that of a variable, an operator, a function or a bucket.
    pub open spec fn name(self) -> Seq<char> {
        match self {
            Failure::VariableNotDefined(name) => name,
            Failure::TypeError(name) => name,
            Failure::ArgCountError(name, _, _) => name,
            Failure::BucketNotFound(name) => name,
            Failure::InternalError(name) => name,
            Failure::MathError(name) => name,
        }
    }
}

impl QueryError {
    /// The name that the failure carries: that of a variable, an operator, a function or a bucket.
    pub fn name(&self) -> (r: &str)
        ensures
            r@ == self@.name(),
    {
        match self {
            QueryError::VariableNotDefined(name) => name.as_str(),
            QueryError::TypeError(name) => name.as_str(),
            QueryError::ArgCountError(name, _, _) => name.as_str(),
            QueryError::BucketNotFound(name) => name.as_str(),
            QueryError::InternalError(name) => name.as_str(),
            QueryError::MathError(name) => name.as_str(),
        }
    }
}

/// What an evaluation came to, over the models: a value or a failure.
pub open spec fn outcome(r: Result<DataType, QueryError>) -> Result<Value, Failure> {
    match r {
        Ok(value) => Ok(value@),
        Err(error) => Err(error@),
    }
}

/// What a step without a result came to, over the models.
pub open spec fn status(r: Result<(), QueryError>) -> Result<(), Failure> {
    match r {
        Ok(_) => Ok(()),
        Err(error) => Err(error@),
    }
}

} // verus!

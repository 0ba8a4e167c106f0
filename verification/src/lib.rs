//! The execution engine of a small query language over recorded activity:
//! its values, its store of variables, and what stands around them.

pub mod ast;
pub mod client;
pub mod datastore;
pub mod datatype;
pub mod error;
pub mod functions;
pub mod interpret;
pub mod operators;
pub mod soundness;
pub mod text;
pub mod transform;
pub mod varenv;

pub use crate::client::AwClient;
pub use crate::client::ClientError;
pub use crate::client::Info;
pub use crate::datatype::DataType;
pub use crate::datatype::Dict;
pub use crate::datatype::Event;
pub use crate::datatype::TimeInterval;
pub use crate::error::QueryError;
pub use crate::varenv::VarEnv;

//! A read-only query API whose shape is discovered from a relational
//! database at startup: introspection walks the database's catalog,
//! a field registry is built from the discovered relations, and a
//! dynamic query type dispatches incoming field requests through the
//! registry.

pub mod schema;

pub use schema::build;

use vstd::prelude::*;

verus! {

/// Process configuration consumed at startup: the database connection
/// string, supplied by the environment.
pub struct Config {
    pub db_url: String,
}

} // verus!

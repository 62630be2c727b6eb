//! The databases that a statement can be written for.

use vstd::prelude::*;

verus! {

/// PostgreSQL.
#[derive(Debug, Clone, Copy, PartialEq, Eq)]
pub struct Postgres;

/// MySQL.
#[derive(Debug, Clone, Copy, PartialEq, Eq)]
pub struct MySql;

/// SQLite.
#[derive(Debug, Clone, Copy, PartialEq, Eq)]
pub struct Sqlite;

} // verus!

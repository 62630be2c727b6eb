//! How a driver spells its placeholders.

use vstd::prelude::*;

use crate::driver::{MySql, Postgres, Sqlite};

verus! {

/// Names the driver and whether its placeholders carry a number. Only those that do can be
/// shifted.
pub trait QueryDialect: Sized {
    /// Whether placeholders carry a number.
    spec fn numbers() -> bool;

    /// Whether placeholders carry a number.
    fn positional() -> (b: bool)
        ensures
            b == Self::numbers(),
    ;
}

impl QueryDialect for Postgres {
    open spec fn numbers() -> bool {
        true
    }

    fn positional() -> (b: bool) {
        true
    }
}

impl QueryDialect for MySql {
    open spec fn numbers() -> bool {
        false
    }

    fn positional() -> (b: bool) {
        false
    }
}

impl QueryDialect for Sqlite {
    open spec fn numbers() -> bool {
        false
    }

    fn positional() -> (b: bool) {
        false
    }
}

/// Only PostgreSQL numbers its placeholders.
pub proof fn law_only_numbered_placeholders_are_shifted()
    ensures
        Postgres::numbers(),
        !MySql::numbers(),
        !Sqlite::numbers(),
{
}

} // verus!

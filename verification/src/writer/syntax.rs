//! What rewriting has to know about the database that will run the query.

use vstd::prelude::*;
use vstd::string::StringExecFns;

use crate::driver::{MySql, Postgres, Sqlite};
use crate::text::{copy_of, decimal_of};
#[allow(unused_imports)]
use crate::text::{decimal, lemma_decimal_reads_back, number};
use crate::writer::tree::Grammar;

verus! {

/// A database: how its SQL is read, and how a placeholder is written back out.
pub trait Syntax: Sized {
    /// The grammar that a query and its fragments are read with.
    spec fn reads() -> Grammar;

    /// The placeholder that binds the `index`th value, counting from zero.
    spec fn spelled(index: nat) -> Seq<char>;

    /// Whether a placeholder is bound by its position in the text alone, so that it cannot
    /// name a value.
    spec fn by_position() -> bool;

    /// The grammar that a query and its fragments are read with.
    fn grammar() -> (r: Grammar)
        ensures
            r == Self::reads(),
    ;

    /// Writes the placeholder that binds the `index`th value, counting from zero.
    fn placeholder(index: usize) -> (r: String)
        ensures
            r@ == Self::spelled(index as nat),
    ;

    /// Whether a placeholder is bound by its position in the text alone.
    fn positional() -> (b: bool)
        ensures
            b == Self::by_position(),
    ;
}

impl Syntax for Postgres {
    open spec fn reads() -> Grammar {
        Grammar::Postgres
    }

    open spec fn spelled(index: nat) -> Seq<char> {
        "$"@ + decimal(index + 1)
    }

    open spec fn by_position() -> bool {
        false
    }

    fn grammar() -> (r: Grammar) {
        Grammar::Postgres
    }

    fn placeholder(index: usize) -> (r: String) {
        copy_of("$").concat(decimal_of(index as u128 + 1).as_str())
    }

    fn positional() -> (b: bool) {
        false
    }
}

impl Syntax for MySql {
    open spec fn reads() -> Grammar {
        Grammar::MySql
    }

    open spec fn spelled(index: nat) -> Seq<char> {
        "?"@
    }

    open spec fn by_position() -> bool {
        true
    }

    fn grammar() -> (r: Grammar) {
        Grammar::MySql
    }

    fn placeholder(index: usize) -> (r: String) {
        copy_of("?")
    }

    fn positional() -> (b: bool) {
        true
    }
}

impl Syntax for Sqlite {
    open spec fn reads() -> Grammar {
        Grammar::Sqlite
    }

    open spec fn spelled(index: nat) -> Seq<char> {
        "?"@ + decimal(index + 1)
    }

    open spec fn by_position() -> bool {
        false
    }

    fn grammar() -> (r: Grammar) {
        Grammar::Sqlite
    }

    fn placeholder(index: usize) -> (r: String) {
        copy_of("?").concat(decimal_of(index as u128 + 1).as_str())
    }

    fn positional() -> (b: bool) {
        false
    }
}

/// Each database is read with its own grammar. A placeholder of PostgreSQL or SQLite spells the
/// value that it takes, counting from one, and reads back as it; one of MySQL is told by its
/// position alone.
pub proof fn law_a_placeholder_spells_its_value(index: nat)
    ensures
        Postgres::reads() == Grammar::Postgres && MySql::reads() == Grammar::MySql
            && Sqlite::reads() == Grammar::Sqlite,
        !Postgres::by_position() && MySql::by_position() && !Sqlite::by_position(),
        Postgres::spelled(index)[0] == '$',
        number(Postgres::spelled(index).skip(1)) == index + 1,
        Sqlite::spelled(index)[0] == '?',
        number(Sqlite::spelled(index).skip(1)) == index + 1,
        MySql::spelled(index) == seq!['?'],
{
    reveal_strlit("$");
    reveal_strlit("?");
    lemma_decimal_reads_back(index + 1);
    assert(Postgres::spelled(index).skip(1) =~= decimal(index + 1));
    assert(Sqlite::spelled(index).skip(1) =~= decimal(index + 1));
    assert(MySql::spelled(index) =~= seq!['?']);
}

} // verus!

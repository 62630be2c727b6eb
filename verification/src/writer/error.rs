//! Why a rewrite is refused.

use vstd::prelude::*;
use vstd::string::StringExecFns;

use crate::text::{copy_of, decimal_of};
#[allow(unused_imports)]
use crate::text::decimal;

verus! {

/// What can go wrong between a query that was written and the one that runs. All of it is
/// found before the database is touched.
#[derive(Debug, PartialEq, Eq)]
pub enum Error {
    /// The query did not parse.
    Query(String),
    /// A fragment did not parse.
    Fragment { fragment: String, source: String },
    /// A fragment parsed, but only a prefix of it was an expression.
    Trailing { fragment: String, rest: String },
    /// The SQL was not a query.
    NotQuery,
    /// The query's outermost level has no single `SELECT` to filter.
    SetOperation,
    /// The query has a `GROUP BY`, so a filter is ambiguous.
    Grouped,
    /// A bound value could not be encoded.
    Encode(String),
    /// An ordering did not parse.
    Sort(String),
    /// A filter did not parse, or has no meaning as a condition.
    Filter(String),
    /// A field that the columns do not offer.
    Field(String),
    /// An ordering or a filter whose fields were not resolved to columns.
    Unresolved,
    /// The statement wants a different number of values than were bound.
    Arity { wanted: usize, given: usize },
    /// Some value has no placeholder left to bind to.
    Orphaned,
    /// One value is wanted by two placeholders, which the driver cannot express.
    Positional,
}

/// An error, as contracts speak of it.
pub enum ErrorView {
    Query(Seq<char>),
    Fragment { fragment: Seq<char>, source: Seq<char> },
    Trailing { fragment: Seq<char>, rest: Seq<char> },
    NotQuery,
    SetOperation,
    Grouped,
    Encode(Seq<char>),
    Sort(Seq<char>),
    Filter(Seq<char>),
    Field(Seq<char>),
    Unresolved,
    Arity { wanted: nat, given: nat },
    Orphaned,
    Positional,
}

impl View for Error {
    type V = ErrorView;

    open spec fn view(&self) -> ErrorView {
        match self {
            Error::Query(source) => ErrorView::Query(source@),
            Error::Fragment { fragment, source } => ErrorView::Fragment {
                fragment: fragment@,
                source: source@,
            },
            Error::Trailing { fragment, rest } => ErrorView::Trailing {
                fragment: fragment@,
                rest: rest@,
            },
            Error::NotQuery => ErrorView::NotQuery,
            Error::SetOperation => ErrorView::SetOperation,
            Error::Grouped => ErrorView::Grouped,
            Error::Encode(text) => ErrorView::Encode(text@),
            Error::Sort(text) => ErrorView::Sort(text@),
            Error::Filter(text) => ErrorView::Filter(text@),
            Error::Field(field) => ErrorView::Field(field@),
            Error::Unresolved => ErrorView::Unresolved,
            Error::Arity { wanted, given } => ErrorView::Arity {
                wanted: *wanted as nat,
                given: *given as nat,
            },
            Error::Orphaned => ErrorView::Orphaned,
            Error::Positional => ErrorView::Positional,
        }
    }
}

impl Clone for Error {
    fn clone(&self) -> (r: Error)
        ensures
            r@ == self@,
    {
        match self {
            Error::Query(source) => Error::Query(source.clone()),
            Error::Fragment { fragment, source } => Error::Fragment {
                fragment: fragment.clone(),
                source: source.clone(),
            },
            Error::Trailing { fragment, rest } => Error::Trailing {
                fragment: fragment.clone(),
                rest: rest.clone(),
            },
            Error::NotQuery => Error::NotQuery,
            Error::SetOperation => Error::SetOperation,
            Error::Grouped => Error::Grouped,
            Error::Encode(text) => Error::Encode(text.clone()),
            Error::Sort(text) => Error::Sort(text.clone()),
            Error::Filter(text) => Error::Filter(text.clone()),
            Error::Field(field) => Error::Field(field.clone()),
            Error::Unresolved => Error::Unresolved,
            Error::Arity { wanted, given } => Error::Arity { wanted: *wanted, given: *given },
            Error::Orphaned => Error::Orphaned,
            Error::Positional => Error::Positional,
        }
    }
}

impl ErrorView {
    /// The text that describes an error.
    pub open spec fn text(self) -> Seq<char> {
        match self {
            ErrorView::Query(source) => "the query did not parse: "@ + source,
            ErrorView::Fragment { fragment, source } => "the fragment `"@ + fragment
                + "` did not parse: "@ + source,
            ErrorView::Trailing { fragment, rest } => "the fragment `"@ + fragment
                + "` is an expression followed by `"@ + rest
                + "`; a fragment has to be one complete expression and nothing else"@,
            ErrorView::NotQuery => "the SQL is not a query, so it has no WHERE to add to"@,
            ErrorView::SetOperation => "the query's outermost level is a set operation, which has no single SELECT to filter; wrap it in `SELECT * FROM (...) AS t` and rewrite that instead"@,
            ErrorView::Grouped => "the query has a GROUP BY, so a filter could mean WHERE or HAVING; put the predicate in the query itself"@,
            ErrorView::Encode(text) => "a bound value could not be encoded: "@ + text,
            ErrorView::Sort(text) => "the ordering did not parse: "@ + text,
            ErrorView::Filter(text) => "the filter did not parse: "@ + text,
            ErrorView::Field(field) => "`"@ + field
                + "` is not a field this query offers; only the ones named in its column map can be ordered or filtered by"@,
            ErrorView::Unresolved => "this ordering still holds the field names a request sent; call `Sort::resolve` so they are checked against the column map and turned into columns"@,
            ErrorView::Arity { wanted, given } => "the statement has "@ + decimal(wanted)
                + " placeholders but "@ + decimal(given)
                + " values were bound; values are given in the order the placeholders claim them, the base query's first and then each fragment's"@,
            ErrorView::Orphaned => "a value this statement asks for has no placeholder to bind to: either the base query skips a number, as `WHERE a = $2` does with no `$1`, or `limit()` replaced a `LIMIT` that held one"@,
            ErrorView::Positional => "one value is wanted by two placeholders, and this driver's `?` takes a value per placeholder with no way to name an earlier one; bind it twice, or use PostgreSQL, whose `$1` can repeat"@,
        }
    }
}

impl Error {
    /// Describes this error.
    pub fn message(&self) -> (r: String)
        ensures
            r@ == self@.text(),
    {
        match self {
            Error::Query(source) => copy_of("the query did not parse: ").concat(source.as_str()),
            Error::Fragment { fragment, source } => copy_of("the fragment `").concat(
                fragment.as_str(),
            ).concat("` did not parse: ").concat(source.as_str()),
            Error::Trailing { fragment, rest } => copy_of("the fragment `").concat(
                fragment.as_str(),
            ).concat("` is an expression followed by `").concat(rest.as_str()).concat(
                "`; a fragment has to be one complete expression and nothing else",
            ),
            Error::NotQuery => copy_of("the SQL is not a query, so it has no WHERE to add to"),
            Error::SetOperation => copy_of(
                "the query's outermost level is a set operation, which has no single SELECT to filter; wrap it in `SELECT * FROM (...) AS t` and rewrite that instead",
            ),
            Error::Grouped => copy_of(
                "the query has a GROUP BY, so a filter could mean WHERE or HAVING; put the predicate in the query itself",
            ),
            Error::Encode(text) => copy_of("a bound value could not be encoded: ").concat(
                text.as_str(),
            ),
            Error::Sort(text) => copy_of("the ordering did not parse: ").concat(text.as_str()),
            Error::Filter(text) => copy_of("the filter did not parse: ").concat(text.as_str()),
            Error::Field(field) => copy_of("`").concat(field.as_str()).concat(
                "` is not a field this query offers; only the ones named in its column map can be ordered or filtered by",
            ),
            Error::Unresolved => copy_of(
                "this ordering still holds the field names a request sent; call `Sort::resolve` so they are checked against the column map and turned into columns",
            ),
            Error::Arity { wanted, given } => copy_of("the statement has ").concat(
                decimal_of(*wanted as u128).as_str(),
            ).concat(" placeholders but ").concat(decimal_of(*given as u128).as_str()).concat(
                " values were bound; values are given in the order the placeholders claim them, the base query's first and then each fragment's",
            ),
            Error::Orphaned => copy_of(
                "a value this statement asks for has no placeholder to bind to: either the base query skips a number, as `WHERE a = $2` does with no `$1`, or `limit()` replaced a `LIMIT` that held one",
            ),
            Error::Positional => copy_of(
                "one value is wanted by two placeholders, and this driver's `?` takes a value per placeholder with no way to name an earlier one; bind it twice, or use PostgreSQL, whose `$1` can repeat",
            ),
        }
    }
}

/// An error tells how many values a statement wants before how many were given, and what did not
/// parse, what follows it or which field is not offered.
pub proof fn law_an_error_tells_what_is_wrong(
    wanted: nat,
    given: nat,
    text: Seq<char>,
    source: Seq<char>,
)
    ensures
        (ErrorView::Arity { wanted, given }).text() == "the statement has "@ + (decimal(wanted)
            + (" placeholders but "@ + (decimal(given)
            + " values were bound; values are given in the order the placeholders claim them, the base query's first and then each fragment's"@))),
        (ErrorView::Fragment { fragment: text, source }).text() == "the fragment `"@ + (text
            + ("` did not parse: "@ + source)),
        (ErrorView::Trailing { fragment: text, rest: source }).text() == "the fragment `"@ + (text
            + ("` is an expression followed by `"@ + (source
            + "`; a fragment has to be one complete expression and nothing else"@))),
        ErrorView::Field(text).text() == "`"@ + (text
            + "` is not a field this query offers; only the ones named in its column map can be ordered or filtered by"@),
{
    assert((ErrorView::Arity { wanted, given }).text() =~= "the statement has "@ + (decimal(wanted) + (
    " placeholders but "@ + (decimal(given)
        + " values were bound; values are given in the order the placeholders claim them, the base query's first and then each fragment's"@))));
    assert((ErrorView::Fragment { fragment: text, source }).text() =~= "the fragment `"@ + (text + (
    "` did not parse: "@ + source)));
    assert((ErrorView::Trailing { fragment: text, rest: source }).text() =~= "the fragment `"@ + (text
        + ("` is an expression followed by `"@ + (source
        + "`; a fragment has to be one complete expression and nothing else"@))));
    assert(ErrorView::Field(text).text() =~= "`"@ + (text
        + "` is not a field this query offers; only the ones named in its column map can be ordered or filtered by"@));
}

} // verus!

//! What can go wrong while composing a query.

use vstd::prelude::*;
use vstd::string::StringExecFns;

use crate::composer::cursor::CursorError;
#[allow(unused_imports)]
use crate::composer::cursor::CursorFault;
use crate::composer::lexer::PlaceholderError;
use crate::composer::order::OrderClauseError;
#[allow(unused_imports)]
use crate::composer::order::OrderFault;
use crate::text::{copy_of, decimal_of};
#[allow(unused_imports)]
use crate::text::decimal;

verus! {

/// What can go wrong while splicing, as opposed to what can go wrong with a clause.
#[derive(Debug, PartialEq, Eq)]
pub enum QueryComposerError {
    /// A query references more or fewer placeholders than there are values.
    BindMismatch { required: usize, bound: usize },
    /// A clause was set, but the base query has no slot for it.
    MissingSlot { name: &'static str },
}

/// Why there is no statement.
#[derive(Debug, PartialEq, Eq)]
pub enum Error {
    /// The placeholders and the arguments do not correspond.
    BindMismatch { placeholders: usize, arguments: usize },
    /// A clause without a slot.
    MissingSlot { name: &'static str },
    /// A cursor that was cut for another ordering than the one that is asked for.
    CursorMismatch,
    /// A numbered placeholder in a dialect that has none.
    UnsupportedPlaceholder { number: usize },
    /// A cursor could not be built.
    Cursor(CursorError),
    /// An ordering could not be read.
    OrderBy(OrderClauseError),
}

/// Why there is no statement, as contracts speak of it.
pub enum Fault {
    BindMismatch { placeholders: nat, arguments: nat },
    MissingSlot { name: Seq<char> },
    CursorMismatch,
    UnsupportedPlaceholder { number: nat },
    Cursor(CursorFault),
    OrderBy(OrderFault),
}

impl View for Error {
    type V = Fault;

    open spec fn view(&self) -> Fault {
        match self {
            Error::BindMismatch { placeholders, arguments } => Fault::BindMismatch {
                placeholders: *placeholders as nat,
                arguments: *arguments as nat,
            },
            Error::MissingSlot { name } => Fault::MissingSlot { name: name@ },
            Error::CursorMismatch => Fault::CursorMismatch,
            Error::UnsupportedPlaceholder { number } => Fault::UnsupportedPlaceholder {
                number: *number as nat,
            },
            Error::Cursor(error) => Fault::Cursor(error@),
            Error::OrderBy(error) => Fault::OrderBy(error@),
        }
    }
}

impl Fault {
    /// The text that describes an error.
    pub open spec fn text(self) -> Seq<char> {
        match self {
            Fault::BindMismatch { placeholders, arguments } => "query requires "@ + decimal(
                placeholders,
            ) + " value(s), but "@ + decimal(arguments) + " are bound"@,
            Fault::MissingSlot { name } => "a "@ + name
                + " clause was set, but the base query has no /* query."@ + name + " */ slot"@,
            Fault::CursorMismatch => "the cursor was cut against another order_by"@,
            Fault::UnsupportedPlaceholder { number } => "base query uses the numbered placeholder $"@
                + decimal(number) + ", but this dialect's is `?`"@,
            Fault::Cursor(fault) => fault.text(),
            Fault::OrderBy(fault) => fault.text(),
        }
    }
}

impl Error {
    /// Describes this error.
    pub fn message(&self) -> (r: String)
        ensures
            r@ == self@.text(),
    {
        match self {
            Error::BindMismatch { placeholders, arguments } => copy_of("query requires ").concat(
                decimal_of(*placeholders as u128).as_str(),
            ).concat(" value(s), but ").concat(decimal_of(*arguments as u128).as_str()).concat(
                " are bound",
            ),
            Error::MissingSlot { name } => copy_of("a ").concat(name).concat(
                " clause was set, but the base query has no /* query.",
            ).concat(name).concat(" */ slot"),
            Error::CursorMismatch => copy_of("the cursor was cut against another order_by"),
            Error::UnsupportedPlaceholder { number } => copy_of(
                "base query uses the numbered placeholder $",
            ).concat(decimal_of(*number as u128).as_str()).concat(", but this dialect's is `?`"),
            Error::Cursor(error) => error.message(),
            Error::OrderBy(error) => error.message(),
        }
    }
}

impl From<QueryComposerError> for Error {
    fn from(error: QueryComposerError) -> (r: Error) {
        match error {
            QueryComposerError::BindMismatch { required, bound } => Error::BindMismatch {
                placeholders: required,
                arguments: bound,
            },
            QueryComposerError::MissingSlot { name } => Error::MissingSlot { name },
        }
    }
}

impl vstd::std_specs::convert::FromSpecImpl<QueryComposerError> for Error {
    open spec fn obeys_from_spec() -> bool {
        true
    }

    open spec fn from_spec(error: QueryComposerError) -> Error {
        match error {
            QueryComposerError::BindMismatch { required, bound } => Error::BindMismatch {
                placeholders: required,
                arguments: bound,
            },
            QueryComposerError::MissingSlot { name } => Error::MissingSlot { name },
        }
    }
}

impl From<PlaceholderError> for Error {
    fn from(error: PlaceholderError) -> (r: Error) {
        match error {
            PlaceholderError::Unsupported { number } => Error::UnsupportedPlaceholder { number },
        }
    }
}

impl vstd::std_specs::convert::FromSpecImpl<PlaceholderError> for Error {
    open spec fn obeys_from_spec() -> bool {
        true
    }

    open spec fn from_spec(error: PlaceholderError) -> Error {
        match error {
            PlaceholderError::Unsupported { number } => Error::UnsupportedPlaceholder { number },
        }
    }
}

impl From<CursorError> for Error {
    fn from(error: CursorError) -> (r: Error) {
        Error::Cursor(error)
    }
}

impl vstd::std_specs::convert::FromSpecImpl<CursorError> for Error {
    open spec fn obeys_from_spec() -> bool {
        true
    }

    open spec fn from_spec(error: CursorError) -> Error {
        Error::Cursor(error)
    }
}

impl From<OrderClauseError> for Error {
    fn from(error: OrderClauseError) -> (r: Error) {
        Error::OrderBy(error)
    }
}

impl vstd::std_specs::convert::FromSpecImpl<OrderClauseError> for Error {
    open spec fn obeys_from_spec() -> bool {
        true
    }

    open spec fn from_spec(error: OrderClauseError) -> Error {
        Error::OrderBy(error)
    }
}

/// An error that is passed on says what it said: the counts that do not match, the slot that is
/// missing, the number that has no spelling, and what was wrong with a cursor or an ordering.
pub proof fn law_an_error_is_passed_on_whole(
    required: usize,
    bound: usize,
    name: &'static str,
    number: usize,
    cursor: CursorError,
    order: OrderClauseError,
)
    ensures
        <Error as vstd::std_specs::convert::FromSpec<QueryComposerError>>::from_spec(
            QueryComposerError::BindMismatch { required, bound },
        )@ == (Fault::BindMismatch { placeholders: required as nat, arguments: bound as nat }),
        <Error as vstd::std_specs::convert::FromSpec<QueryComposerError>>::from_spec(
            QueryComposerError::MissingSlot { name },
        )@ == (Fault::MissingSlot { name: name@ }),
        <Error as vstd::std_specs::convert::FromSpec<PlaceholderError>>::from_spec(
            PlaceholderError::Unsupported { number },
        )@ == (Fault::UnsupportedPlaceholder { number: number as nat }),
        <Error as vstd::std_specs::convert::FromSpec<CursorError>>::from_spec(cursor)@
            == Fault::Cursor(cursor@),
        <Error as vstd::std_specs::convert::FromSpec<OrderClauseError>>::from_spec(order)@
            == Fault::OrderBy(order@),
        Fault::Cursor(cursor@).text() == cursor@.text(),
        Fault::OrderBy(order@).text() == order@.text(),
{
}

/// An error tells how many values a query calls for before how many are bound, which slot is missing,
/// and which number has no spelling.
pub proof fn law_an_error_tells_what_is_wrong(called: nat, bound: nat, name: Seq<char>)
    ensures
        (Fault::BindMismatch { placeholders: called, arguments: bound }).text() == "query requires "@
            + decimal(called) + " value(s), but "@ + decimal(bound) + " are bound"@,
        (Fault::MissingSlot { name }).text() == "a "@ + (name
            + (" clause was set, but the base query has no /* query."@ + (name + " */ slot"@))),
        (Fault::UnsupportedPlaceholder { number: called }).text()
            == "base query uses the numbered placeholder $"@ + (decimal(called)
            + ", but this dialect's is `?`"@),
{
    assert((Fault::MissingSlot { name }).text() =~= "a "@ + (name
        + (" clause was set, but the base query has no /* query."@ + (name + " */ slot"@))));
    assert((Fault::UnsupportedPlaceholder { number: called }).text()
        =~= "base query uses the numbered placeholder $"@ + (decimal(called)
        + ", but this dialect's is `?`"@));
}

} // verus!

//! Why a template, an ordering, a page token or a filter is refused.

use vstd::prelude::*;
use vstd::string::StringExecFns;

use crate::text::{copy_of, decimal_of, join};
#[allow(unused_imports)]
use crate::text::{decimal, joined, strings};

verus! {

/// Everything that can be wrong with a template or with what fills it.
#[derive(Debug, PartialEq, Eq)]
pub enum Error {
    /// The skeleton could not be read, with the byte where the trouble begins.
    Template { message: String, offset: usize },
    /// An ordering could not be read.
    Sort(String),
    /// A page token could not be read, or does not belong to the request.
    Cursor(String),
    /// A field that the mapping does not expose.
    UnknownColumn(String),
    /// An ordering that cannot identify a row.
    NotUnique(String),
    /// An order of calls that a driver without numbered placeholders cannot express.
    Positional(String),
    /// A slot that the skeleton does not declare.
    UnknownSlot { asked: String, available: Vec<String> },
    /// A filter that is not an expression, or a constant that is not what it claims.
    Parse(String),
    /// A comparison between things that cannot be compared.
    TypeMismatch(String),
    /// An expression that no condition can stand for.
    Unsupported(String),
    /// An ordering whose fields were not resolved to columns.
    Unresolved,
    /// A value that the driver could not encode.
    Encode(String),
}

/// An error, as contracts speak of it.
pub enum ErrorView {
    Template { message: Seq<char>, offset: usize },
    Sort(Seq<char>),
    Cursor(Seq<char>),
    UnknownColumn(Seq<char>),
    NotUnique(Seq<char>),
    Positional(Seq<char>),
    UnknownSlot { asked: Seq<char>, available: Seq<Seq<char>> },
    Parse(Seq<char>),
    TypeMismatch(Seq<char>),
    Unsupported(Seq<char>),
    Unresolved,
    Encode(Seq<char>),
}

impl View for Error {
    type V = ErrorView;

    open spec fn view(&self) -> ErrorView {
        match self {
            Error::Template { message, offset } => ErrorView::Template {
                message: message@,
                offset: *offset,
            },
            Error::Sort(text) => ErrorView::Sort(text@),
            Error::Cursor(text) => ErrorView::Cursor(text@),
            Error::UnknownColumn(field) => ErrorView::UnknownColumn(field@),
            Error::NotUnique(text) => ErrorView::NotUnique(text@),
            Error::Positional(text) => ErrorView::Positional(text@),
            Error::UnknownSlot { asked, available } => ErrorView::UnknownSlot {
                asked: asked@,
                available: strings(available@),
            },
            Error::Parse(text) => ErrorView::Parse(text@),
            Error::TypeMismatch(text) => ErrorView::TypeMismatch(text@),
            Error::Unsupported(text) => ErrorView::Unsupported(text@),
            Error::Unresolved => ErrorView::Unresolved,
            Error::Encode(text) => ErrorView::Encode(text@),
        }
    }
}

impl Error {
    /// The text that describes this error.
    pub open spec fn text(self) -> Seq<char> {
        match self {
            Error::Template { message, offset } => message@ + " (at byte "@ + decimal(offset as nat)
                + ")"@,
            Error::Sort(text) => "order_by: "@ + text@,
            Error::Cursor(text) => "page token: "@ + text@,
            Error::UnknownColumn(field) => "unknown field `"@ + field@ + "`"@,
            Error::NotUnique(text) => text@,
            Error::Positional(text) => text@,
            Error::UnknownSlot { asked, available } => "no slot named `"@ + asked@
                + "`: the template declares `"@ + joined(strings(available@), "`, `"@) + "`"@,
            Error::Parse(text) => text@,
            Error::TypeMismatch(text) => text@,
            Error::Unsupported(text) => text@,
            Error::Unresolved => "the ordering was not resolved to columns"@,
            Error::Encode(text) => "a value could not be encoded: "@ + text@,
        }
    }

    /// Describes this error.
    pub fn message(&self) -> (r: String)
        ensures
            r@ == self.text(),
    {
        match self {
            Error::Template { message, offset } => {
                let mut r = copy_of(message.as_str());
                r.append(" (at byte ");
                r.append(decimal_of(*offset as u128).as_str());
                r.append(")");
                r
            },
            Error::Sort(text) => copy_of("order_by: ").concat(text.as_str()),
            Error::Cursor(text) => copy_of("page token: ").concat(text.as_str()),
            Error::UnknownColumn(field) => copy_of("unknown field `").concat(
                field.as_str(),
            ).concat("`"),
            Error::NotUnique(text) => copy_of(text.as_str()),
            Error::Positional(text) => copy_of(text.as_str()),
            Error::UnknownSlot { asked, available } => {
                let mut r = copy_of("no slot named `");
                r.append(asked.as_str());
                r.append("`: the template declares `");
                r.append(join(available.as_slice(), "`, `").as_str());
                r.append("`");
                r
            },
            Error::Parse(text) => copy_of(text.as_str()),
            Error::TypeMismatch(text) => copy_of(text.as_str()),
            Error::Unsupported(text) => copy_of(text.as_str()),
            Error::Unresolved => copy_of("the ordering was not resolved to columns"),
            Error::Encode(text) => copy_of("a value could not be encoded: ").concat(text.as_str()),
        }
    }
}

/// An error tells the byte at which a skeleton is wrong, the field that is not exposed, and the slot
/// that was asked for before those that there are.
pub proof fn law_an_error_tells_what_is_wrong(
    message: String,
    offset: usize,
    name: String,
    available: Vec<String>,
)
    ensures
        (Error::Template { message, offset }).text() == message@ + (" (at byte "@ + (decimal(
            offset as nat,
        ) + ")"@)),
        Error::Sort(message).text() == "order_by: "@ + message@,
        Error::Cursor(message).text() == "page token: "@ + message@,
        Error::UnknownColumn(name).text() == "unknown field `"@ + (name@ + "`"@),
        (Error::UnknownSlot { asked: name, available }).text() == "no slot named `"@ + (name@
            + ("`: the template declares `"@ + (joined(strings(available@), "`, `"@) + "`"@))),
        Error::NotUnique(message).text() == message@,
        Error::Positional(message).text() == message@,
        Error::Parse(message).text() == message@,
        Error::TypeMismatch(message).text() == message@,
        Error::Unsupported(message).text() == message@,
        Error::Encode(message).text() == "a value could not be encoded: "@ + message@,
{
    assert((Error::Template { message, offset }).text() =~= message@ + (" (at byte "@ + (decimal(
        offset as nat,
    ) + ")"@)));
    assert(Error::UnknownColumn(name).text() =~= "unknown field `"@ + (name@ + "`"@));
    assert((Error::UnknownSlot { asked: name, available }).text() =~= "no slot named `"@ + (name@
        + ("`: the template declares `"@ + (joined(strings(available@), "`, `"@) + "`"@))));
}

} // verus!

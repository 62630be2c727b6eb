//! Keyset pagination: an ordering, a position, and the condition between them.

use vstd::prelude::*;
use vstd::string::StringExecFns;

use crate::template::cursor::{copy_marks, Cursor};
#[allow(unused_imports)]
use crate::template::cursor::{token_error, CursorView};
use crate::template::error::Error;
use crate::template::predicate::Predicate;
use crate::template::sort::Sort;
#[allow(unused_imports)]
use crate::template::sort::{sort_text, KeyView};
use crate::text::copy_of;

verus! {

/// An ordering and a position within it.
#[derive(Debug, PartialEq, Eq)]
pub struct Keyset {
    sort: Sort,
    cursor: Cursor,
}

/// The ordering that a request and a position settle on, or why they cannot:
///
/// * at the start of a listing, the one that was asked for;
/// * where none was asked for, the one that the position was taken under;
/// * where both are there, they have to agree.
pub open spec fn settled(asked: Seq<KeyView>, cursor: CursorView) -> Result<Seq<KeyView>, Seq<char>> {
    if cursor.marks.len() == 0 || asked == cursor.sort {
        Ok(asked)
    } else if asked.len() == 0 {
        Ok(cursor.sort)
    } else {
        Err(
            "issued for `"@ + sort_text(cursor.sort) + "`, but this request asks for `"@
                + sort_text(asked) + "`"@,
        )
    }
}

impl Keyset {
    /// The effective ordering.
    pub closed spec fn ordering(self) -> Seq<KeyView> {
        self.sort@
    }

    /// The position.
    pub closed spec fn position(self) -> CursorView {
        self.cursor@
    }

    /// Pairs an ordering with a position.
    pub fn new(sort: Sort, cursor: Cursor) -> (r: Result<Keyset, Error>)
        ensures
            match (r, settled(sort@, cursor@)) {
                (Ok(keyset), Ok(ordering)) => keyset.ordering() == ordering && keyset.position()
                    == cursor@,
                (Err(error), Err(message)) => token_error(error, message),
                _ => false,
            },
    {
        if cursor.is_empty() {
            return Ok(Keyset { sort, cursor });
        }
        if sort.is_empty() {
            let recorded = cursor.sort().clone();
            assert(sort@.len() == 0 && recorded@.len() == 0 ==> sort@ =~= recorded@);
            return Ok(Keyset { sort: recorded, cursor });
        }
        if !sort.matches(cursor.sort()) {
            let mut message = copy_of("issued for `");
            message.append(cursor.sort().text().as_str());
            message.append("`, but this request asks for `");
            message.append(sort.text().as_str());
            message.append("`");
            return Err(Error::Cursor(message));
        }
        Ok(Keyset { sort, cursor })
    }

    /// The effective ordering.
    pub fn sort(&self) -> (r: &Sort)
        ensures
            r@ == self.ordering(),
    {
        &self.sort
    }

    /// The position that this page starts after.
    pub fn cursor(&self) -> (r: &Cursor)
        ensures
            r@ == self.position(),
    {
        &self.cursor
    }

    /// The condition that selects the rows after that position; empty on the first page.
    pub fn predicate(&self) -> (r: Predicate)
        ensures
            r@ == self.position().marks,
    {
        if self.cursor.is_empty() {
            let r = Predicate::empty();
            assert(r@ =~= self.position().marks);
            return r;
        }
        Predicate::seek(copy_marks(self.cursor.keys()))
    }
}

impl Clone for Keyset {
    fn clone(&self) -> (r: Keyset)
        ensures
            r.ordering() == self.ordering(),
            r.position() == self.position(),
    {
        Keyset { sort: self.sort.clone(), cursor: self.cursor.clone() }
    }
}

/// A page after the first is always read under the ordering that its token records.
pub proof fn law_later_pages_keep_their_ordering(asked: Seq<KeyView>, cursor: CursorView)
    requires
        cursor.marks.len() > 0,
    ensures
        settled(asked, cursor) matches Ok(ordering) ==> ordering == cursor.sort,
        settled(asked, cursor) is Err <==> asked.len() > 0 && asked != cursor.sort,
{
    if asked.len() == 0 && asked == cursor.sort {
        assert(asked =~= cursor.sort);
    }
}

/// A listing starts under the ordering that was asked for, whatever that is.
pub proof fn law_a_listing_starts_as_asked(asked: Seq<KeyView>, cursor: CursorView)
    requires
        cursor.marks.len() == 0,
    ensures
        settled(asked, cursor) == Ok::<Seq<KeyView>, Seq<char>>(asked),
{
}

} // verus!

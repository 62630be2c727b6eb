//! Cutting fetched rows into pages.

use vstd::prelude::*;

use crate::composer::cursor::{Cursor, CursorError, RowColumn};
#[allow(unused_imports)]
use crate::composer::cursor::{
    complete, orders, placed, row_values, CursorFault, PlaceView,
};
use crate::composer::order::OrderByClause;
#[allow(unused_imports)]
use crate::composer::order::KeyView;
#[allow(unused_imports)]
use crate::paging::comes_after;

verus! {

/// A row: its columns, as the driver decodes them.
pub type PlainRow = Vec<RowColumn>;

/// A pager, as contracts speak of it.
pub struct PagerView {
    /// The ordering that is paged by.
    pub keys: Seq<KeyView>,
    /// How many rows a page holds.
    pub size: nat,
}

/// Pages of some size under an ordering. One row more than a page holds is asked for: whether
/// it comes back says whether there is another page.
#[derive(Debug, PartialEq, Eq)]
pub struct Pager {
    cursor: Cursor,
    size: usize,
}

impl View for Pager {
    type V = PagerView;

    closed spec fn view(&self) -> PagerView {
        PagerView { keys: orders(self.cursor@), size: self.size as nat }
    }
}

/// The rows of one page, and the cursor to the next.
#[derive(Debug, PartialEq, Eq)]
pub struct Page {
    pub rows: Vec<PlainRow>,
    /// Behind the last of the rows; without keys where there is no further page.
    pub cursor: Cursor,
}

/// The rows that a page of some size keeps.
pub open spec fn page_of<R>(rows: Seq<R>, size: nat) -> Seq<R> {
    if rows.len() > size {
        rows.take(size as int)
    } else {
        rows
    }
}

/// There are more rows than a page holds.
pub open spec fn goes_on<R>(rows: Seq<R>, size: nat) -> bool {
    rows.len() > size
}

/// Where the next page starts: behind the last row that was kept where another one came, and
/// nowhere otherwise.
pub open spec fn next_position(p: PagerView, rows: Seq<PlainRow>) -> Result<
    Seq<PlaceView>,
    CursorFault,
> {
    if goes_on(rows, p.size) {
        match row_values(rows[p.size - 1]@, p.keys, 0, Seq::empty()) {
            Ok(values) => Ok(placed(p.keys, values)),
            Err(fault) => Err(fault),
        }
    } else {
        Ok(Seq::empty())
    }
}

/// How many rows to ask for: one more than a page holds, as far as a limit can say.
pub open spec fn limit_for(size: nat) -> i64 {
    if size < i64::MAX {
        (size + 1) as i64
    } else {
        i64::MAX
    }
}

impl Pager {
    #[verifier::type_invariant]
    spec fn holds_rows(self) -> bool {
        self.size > 0
    }

    /// Pages of `size` rows under the ordering of `cursor`.
    pub fn new(cursor: Cursor, size: usize) -> (r: Pager)
        requires
            size > 0,
        ensures
            r@ == (PagerView { keys: orders(cursor@), size: size as nat }),
    {
        Pager { cursor, size }
    }

    /// How many rows to ask for: one more than a page holds.
    pub fn limit(&self) -> (r: i64)
        ensures
            r == limit_for(self@.size),
    {
        if (self.size as u128) < i64::MAX as u128 {
            self.size as i64 + 1
        } else {
            i64::MAX
        }
    }

    /// Cuts the rows that were fetched into a page, and the cursor to the next. It fails only
    /// where there is another page and its cursor cannot be read off the last row.
    pub fn next_page(&self, rows: Vec<PlainRow>) -> (r: Result<Page, CursorError>)
        ensures
            match (r, next_position(self@, rows@)) {
                (Ok(page), Ok(keys)) => page.rows@ == page_of(rows@, self@.size)
                    && page.cursor@ == keys && complete(keys),
                (Err(error), Err(fault)) => error@ == fault,
                _ => false,
            },
    {
        proof {
            use_type_invariant(self);
        }
        let mut rows = rows;
        if rows.len() <= self.size {
            let cursor = Cursor::new(OrderByClause::default());
            assert(cursor@ =~= Seq::<PlaceView>::empty());
            return Ok(Page { rows, cursor });
        }
        match self.cursor.clone().after_row(rows[self.size - 1].as_slice()) {
            Ok(cursor) => {
                rows.truncate(self.size);
                Ok(Page { rows, cursor })
            },
            Err(error) => Err(error),
        }
    }
}

// ---------------------------------------------------------------------------
// Paging through a listing
// ---------------------------------------------------------------------------

/// How a row lies to another, column by column, and which columns descend.
#[verifier::reject_recursive_types(R)]
pub struct Order<R> {
    pub signs: spec_fn(R, R) -> Seq<int>,
    pub descending: Seq<bool>,
}

/// A row comes after another.
pub open spec fn follows<R>(order: Order<R>, row: R, other: R) -> bool {
    comes_after((order.signs)(row, other), order.descending)
}

/// A listing stands in its order: each row comes after those before it, and after no other. A
/// unique column among the keys sees to it.
pub open spec fn in_sequence<R>(order: Order<R>, all: Seq<R>) -> bool {
    forall|i: int, j: int|
        0 <= i < all.len() && 0 <= j < all.len() ==> (#[trigger] follows(order, all[i], all[j])
            <==> j < i)
}

/// The rows of a listing that a condition for a position selects, from the `i`th on. Without a
/// position, all of them.
pub open spec fn selected<R>(order: Order<R>, all: Seq<R>, position: Option<R>, i: int) -> Seq<R>
    decreases all.len() - i,
{
    if !(0 <= i < all.len()) {
        Seq::empty()
    } else {
        let rest = selected(order, all, position, i + 1);
        match position {
            Some(position) => if follows(order, all[i], position) {
                seq![all[i]] + rest
            } else {
                rest
            },
            None => seq![all[i]] + rest,
        }
    }
}

/// What a query for a page fetches: the first rows behind a position, one more than the page
/// holds.
pub open spec fn fetched<R>(
    order: Order<R>,
    all: Seq<R>,
    position: Option<R>,
    size: nat,
) -> Seq<R> {
    let rows = selected(order, all, position, 0);
    if rows.len() > size + 1 {
        rows.take((size + 1) as int)
    } else {
        rows
    }
}

/// The pages that come one after another from a position on, at most `n` of them. Each starts
/// behind the last row of the one before, as long as that one goes on.
pub open spec fn pages_from<R>(
    order: Order<R>,
    all: Seq<R>,
    position: Option<R>,
    size: nat,
    n: nat,
) -> Seq<Seq<R>>
    decreases n,
{
    if n == 0 {
        Seq::empty()
    } else {
        let rows = fetched(order, all, position, size);
        let page = page_of(rows, size);
        if goes_on(rows, size) {
            seq![page] + pages_from(order, all, Some(rows[size - 1]), size, (n - 1) as nat)
        } else {
            seq![page]
        }
    }
}

/// The row at `at`, or the start of the listing ahead of the first one.
pub open spec fn row_at<R>(all: Seq<R>, at: int) -> Option<R> {
    if at >= 0 {
        Some(all[at])
    } else {
        None
    }
}

/// Every page is full but the last, which may be.
pub open spec fn filled_up<R>(pages: Seq<Seq<R>>, size: nat) -> bool {
    &&& pages.len() > 0
    &&& pages.last().len() <= size
    &&& forall|k: int| 0 <= k < pages.len() - 1 ==> (#[trigger] pages[k]).len() == size
}

/// The rows of the pages from the `i`th on, one after another.
pub open spec fn rows_from<R>(pages: Seq<Seq<R>>, i: int) -> Seq<R>
    decreases pages.len() - i,
{
    if !(0 <= i < pages.len()) {
        Seq::empty()
    } else {
        pages[i] + rows_from(pages, i + 1)
    }
}

proof fn lemma_selected<R>(order: Order<R>, all: Seq<R>, at: int, i: int)
    requires
        in_sequence(order, all),
        -1 <= at < all.len(),
        0 <= i <= all.len(),
    ensures
        ({
            let position = row_at(all, at);
            selected(order, all, position, i) == all.skip(
                if i > at {
                    i
                } else {
                    at + 1
                },
            )
        }),
    decreases all.len() - i,
{
    let from = if i > at {
        i
    } else {
        at + 1
    };
    if i < all.len() {
        lemma_selected(order, all, at, i + 1);
        if at >= 0 {
            assert(follows(order, all[i], all[at]) <==> at < i);
        }
        if i > at {
            assert(seq![all[i]] + all.skip(i + 1) =~= all.skip(i));
        }
    } else {
        assert(all.skip(from) =~= Seq::<R>::empty());
    }
}

proof fn lemma_rows_shift<R>(page: Seq<R>, pages: Seq<Seq<R>>, i: int)
    requires
        0 <= i <= pages.len(),
    ensures
        rows_from(seq![page] + pages, i + 1) == rows_from(pages, i),
    decreases pages.len() - i,
{
    if i < pages.len() {
        lemma_rows_shift(page, pages, i + 1);
        assert((seq![page] + pages)[i + 1] == pages[i]);
    }
}

proof fn lemma_pages<R>(order: Order<R>, all: Seq<R>, at: int, size: nat, n: nat)
    requires
        in_sequence(order, all),
        size > 0,
        -1 <= at < all.len(),
        n >= all.len() - at,
    ensures
        ({
            let position = row_at(all, at);
            let pages = pages_from(order, all, position, size, n);
            &&& rows_from(pages, 0) == all.skip(at + 1)
            &&& filled_up(pages, size)
        }),
    decreases n,
{
    let position = row_at(all, at);
    lemma_selected(order, all, at, 0);
    let left = all.skip(at + 1);
    assert(selected(order, all, position, 0) =~= left);
    let rows = fetched(order, all, position, size);
    let page = page_of(rows, size);
    let pages = pages_from(order, all, position, size, n);
    if goes_on(rows, size) {
        let next = at + size;
        assert(rows[size - 1] == all[next]);
        lemma_pages(order, all, next, size, (n - 1) as nat);
        let later = pages_from(order, all, Some(rows[size - 1]), size, (n - 1) as nat);
        assert(pages == seq![page] + later);
        lemma_rows_shift(page, later, 0);
        assert(pages[0] == page);
        assert(rows_from(pages, 0) == page + rows_from(later, 0));
        assert(page + all.skip(next + 1) =~= left);
        assert(pages.last() == later.last());
        assert forall|k: int| 0 <= k < pages.len() - 1 implies (#[trigger] pages[k]).len()
            == size by {
            if k > 0 {
                assert(pages[k] == later[k - 1]);
            } else {
                assert(pages[k] == page);
            }
        }
    } else {
        assert(pages == seq![page]);
        assert(pages[0] == page);
        assert(pages.last() == page);
        assert(rows_from(pages, 1) =~= Seq::<R>::empty());
        assert(rows_from(pages, 0) =~= page + rows_from(pages, 1));
        assert(page =~= left);
    }
}

/// Paging gives every row once, in order: the pages, one after another, are the listing. Every
/// page is full but the last, and there is no empty page behind a full one.
pub proof fn law_every_row_comes_once<R>(order: Order<R>, all: Seq<R>, size: nat, n: nat)
    requires
        in_sequence(order, all),
        size > 0,
        n > all.len(),
    ensures
        ({
            let pages = pages_from(order, all, None, size, n);
            &&& rows_from(pages, 0) == all
            &&& filled_up(pages, size)
            &&& all.len() > 0 ==> pages.last().len() > 0
        }),
{
    let pages = pages_from(order, all, None, size, n);
    lemma_pages(order, all, -1, size, n);
    assert(row_at(all, -1) == None::<R>);
    assert(all.skip(0) =~= all);
    lemma_last_page(order, all, -1, size, n);
}

proof fn lemma_last_page<R>(order: Order<R>, all: Seq<R>, at: int, size: nat, n: nat)
    requires
        in_sequence(order, all),
        size > 0,
        -1 <= at < all.len() - 1 || (at == -1 && all.len() == 0),
        n >= all.len() - at,
    ensures
        ({
            let position = row_at(all, at);
            let pages = pages_from(order, all, position, size, n);
            pages.len() > 0 && (all.len() > 0 ==> pages.last().len() > 0)
        }),
    decreases n,
{
    let position = row_at(all, at);
    lemma_selected(order, all, at, 0);
    assert(selected(order, all, position, 0) =~= all.skip(at + 1));
    let rows = fetched(order, all, position, size);
    let page = page_of(rows, size);
    let pages = pages_from(order, all, position, size, n);
    if goes_on(rows, size) {
        let next = at + size;
        assert(rows[size - 1] == all[next]);
        lemma_last_page(order, all, next, size, (n - 1) as nat);
        let later = pages_from(order, all, Some(rows[size - 1]), size, (n - 1) as nat);
        assert(pages == seq![page] + later);
        assert(pages.last() == later.last());
    } else {
        assert(pages == seq![page]);
        assert(pages.last() == page);
    }
}

/// A page that its rows fill exactly is the last: no further row came, so its cursor has no keys.
pub proof fn law_a_page_that_fills_exactly_has_no_cursor(p: PagerView, rows: Seq<PlainRow>)
    requires
        rows.len() <= p.size,
    ensures
        page_of(rows, p.size) == rows,
        next_position(p, rows) == Ok::<Seq<PlaceView>, CursorFault>(Seq::empty()),
{
}

} // verus!

//! An ordering that can be spliced.

use vstd::prelude::*;

use crate::columns::{Columns, QueryResolver};
#[allow(unused_imports)]
use crate::composer::clause::ClauseView;
use crate::composer::order::{read_keys, rename_keys, write_keys, OrderClauseError, OrderDirection, OrderKey};
#[allow(unused_imports)]
use crate::composer::order::{key_views, order_text, parsed, resolved, KeyView, OrderFault};
use crate::composer::value::Value;
#[allow(unused_imports)]
use crate::composer::value::{value_views, ValueView};
use crate::splice::fragment::QueryFragment;
use crate::text::copy_of;
#[allow(unused_imports)]
use crate::composer::order::{asked_terms, law_an_ordering_runs_as_asked};
#[allow(unused_imports)]
use crate::meaning::{terms_spelled, SqlTerm};

verus! {

/// Which way a term runs.
#[derive(Debug, Clone, Copy, PartialEq, Eq, Structural)]
pub enum Direction {
    Asc,
    Desc,
}

impl Direction {
    /// The direction of a sort key.
    pub open spec fn order(self) -> OrderDirection {
        match self {
            Direction::Asc => OrderDirection::Asc,
            Direction::Desc => OrderDirection::Desc,
        }
    }

    /// The direction of a sort key.
    pub fn to_order(self) -> (r: OrderDirection)
        ensures
            r == self.order(),
    {
        match self {
            Direction::Asc => OrderDirection::Asc,
            Direction::Desc => OrderDirection::Desc,
        }
    }
}

/// A field and a direction.
#[derive(Debug, PartialEq, Eq)]
pub struct Term {
    pub field: String,
    pub direction: Direction,
}

impl View for Term {
    type V = KeyView;

    open spec fn view(&self) -> KeyView {
        KeyView { column: self.field@, direction: self.direction.order() }
    }
}

impl Clone for Term {
    fn clone(&self) -> (r: Term)
        ensures
            r@ == self@,
    {
        Term { field: copy_of(self.field.as_str()), direction: self.direction }
    }
}

/// What terms hold.
pub open spec fn term_views(terms: Seq<Term>) -> Seq<KeyView> {
    terms.map_values(|term: Term| term@)
}

/// Why an ordering is refused.
#[derive(Debug, PartialEq, Eq)]
pub enum OrderByError {
    /// A term that is not a field and at most a direction.
    EmptyTerm(String),
    /// A direction that is none.
    InvalidDirection { field: String, direction: String },
    /// A field that the columns do not offer.
    UnknownField(String),
}

impl View for OrderByError {
    type V = OrderFault;

    open spec fn view(&self) -> OrderFault {
        match self {
            OrderByError::EmptyTerm(text) => OrderFault::EmptyTerm(text@),
            OrderByError::InvalidDirection { field, direction } => OrderFault::InvalidDirection {
                field: field@,
                direction: direction@,
            },
            OrderByError::UnknownField(field) => OrderFault::UnknownField(field@),
        }
    }
}

impl Clone for OrderByError {
    fn clone(&self) -> (r: OrderByError)
        ensures
            r@ == self@,
    {
        match self {
            OrderByError::EmptyTerm(text) => OrderByError::EmptyTerm(copy_of(text.as_str())),
            OrderByError::InvalidDirection { field, direction } => OrderByError::InvalidDirection {
                field: copy_of(field.as_str()),
                direction: copy_of(direction.as_str()),
            },
            OrderByError::UnknownField(field) => OrderByError::UnknownField(
                copy_of(field.as_str()),
            ),
        }
    }
}

fn error_of(error: OrderClauseError) -> (r: OrderByError)
    ensures
        r@ == error@,
{
    match error {
        OrderClauseError::EmptyTerm(text) => OrderByError::EmptyTerm(text),
        OrderClauseError::InvalidDirection { field, direction } => {
            OrderByError::InvalidDirection { field, direction }
        },
        OrderClauseError::UnknownField(field) => OrderByError::UnknownField(field),
    }
}

fn terms_of(keys: &[OrderKey]) -> (r: Vec<Term>)
    ensures
        term_views(r@) == key_views(keys@),
{
    let mut r: Vec<Term> = Vec::new();
    let mut i: usize = 0;
    while i < keys.len()
        invariant
            i <= keys.len(),
            r.len() == i,
            forall|j: int| 0 <= j < i ==> (#[trigger] r@[j])@ == keys@[j]@,
        decreases keys.len() - i,
    {
        let direction = match keys[i].direction {
            OrderDirection::Asc => Direction::Asc,
            OrderDirection::Desc => Direction::Desc,
        };
        r.push(Term { field: copy_of(keys[i].column.as_str()), direction });
        i += 1;
    }
    assert(term_views(r@) =~= key_views(keys@));
    r
}

fn keys_of(terms: &[Term]) -> (r: Vec<OrderKey>)
    ensures
        key_views(r@) == term_views(terms@),
{
    let mut r: Vec<OrderKey> = Vec::new();
    let mut i: usize = 0;
    while i < terms.len()
        invariant
            i <= terms.len(),
            r.len() == i,
            forall|j: int| 0 <= j < i ==> (#[trigger] r@[j])@ == terms@[j]@,
        decreases terms.len() - i,
    {
        let column = copy_of(terms[i].field.as_str());
        r.push(OrderKey { column, direction: terms[i].direction.to_order() });
        i += 1;
    }
    assert(key_views(r@) =~= term_views(terms@));
    r
}

/// A parsed ordering: `field [asc|desc], ...`.
#[derive(Debug, PartialEq, Eq)]
pub struct OrderBy {
    terms: Vec<Term>,
}

impl View for OrderBy {
    type V = Seq<KeyView>;

    closed spec fn view(&self) -> Seq<KeyView> {
        term_views(self.terms@)
    }
}

impl Default for OrderBy {
    fn default() -> (r: OrderBy)
        ensures
            r@ == Seq::<KeyView>::empty(),
    {
        let r = OrderBy { terms: Vec::new() };
        assert(r@ =~= Seq::<KeyView>::empty());
        r
    }
}

impl Clone for OrderBy {
    fn clone(&self) -> (r: OrderBy)
        ensures
            r@ == self@,
    {
        let mut terms: Vec<Term> = Vec::new();
        let mut i: usize = 0;
        while i < self.terms.len()
            invariant
                i <= self.terms.len(),
                terms.len() == i,
                forall|j: int| 0 <= j < i ==> (#[trigger] terms@[j])@ == self.terms@[j]@,
            decreases self.terms.len() - i,
        {
            terms.push(self.terms[i].clone());
            i += 1;
        }
        assert(term_views(terms@) =~= term_views(self.terms@));
        OrderBy { terms }
    }
}

impl OrderBy {
    /// Parses an ordering. A blank string parses to an empty one.
    pub fn parse(order_by: &str) -> (r: Result<OrderBy, OrderByError>)
        ensures
            match (r, parsed(order_by@)) {
                (Ok(order), Ok(keys)) => order@ == keys,
                (Err(error), Err(fault)) => error@ == fault,
                _ => false,
            },
    {
        match read_keys(order_by) {
            Ok(keys) => Ok(OrderBy { terms: terms_of(keys.as_slice()) }),
            Err(error) => Err(error_of(error)),
        }
    }

    /// The terms, in order.
    pub fn terms(&self) -> (r: &[Term])
        ensures
            term_views(r@) == self@,
    {
        self.terms.as_slice()
    }

    /// Renames every field to the column that it stands for. A field that the columns do not
    /// offer is refused.
    pub fn resolve(self, columns: &Columns) -> (r: Result<OrderBy, OrderByError>)
        ensures
            match (r, resolved(self@, columns@)) {
                (Ok(order), Ok(keys)) => order@ == keys,
                (Err(error), Err(field)) => error@ == OrderFault::UnknownField(field),
                _ => false,
            },
    {
        let keys = keys_of(self.terms.as_slice());
        match rename_keys(keys.as_slice(), columns) {
            Ok(done) => Ok(OrderBy { terms: terms_of(done.as_slice()) }),
            Err(field) => Err(OrderByError::UnknownField(field)),
        }
    }

    /// Renders to `col1 ASC, col2 DESC`.
    pub fn render(&self) -> (r: String)
        ensures
            r@ == order_text(self@),
    {
        write_keys(keys_of(self.terms.as_slice()).as_slice())
    }
}

impl QueryResolver for OrderBy {
    type Error = OrderByError;

    open spec fn resolves(
        &self,
        columns: Map<Seq<char>, Seq<char>>,
        r: Result<OrderBy, OrderByError>,
    ) -> bool {
        match (r, resolved(self@, columns)) {
            (Ok(order), Ok(keys)) => order@ == keys,
            (Err(error), Err(field)) => error@ == OrderFault::UnknownField(field),
            _ => false,
        }
    }

    fn resolve(self, columns: &Columns) -> (r: Result<OrderBy, OrderByError>) {
        OrderBy::resolve(self, columns)
    }
}

impl QueryFragment for OrderBy {
    open spec fn contents(&self) -> ClauseView {
        ClauseView { sql: order_text(self@), values: Seq::empty() }
    }

    fn into_sql(self) -> (r: (String, Vec<Value>)) {
        let values: Vec<Value> = Vec::new();
        assert(value_views(values@) =~= Seq::<ValueView>::empty());
        (self.render(), values)
    }
}

/// Terms run as they were asked for: by each field in turn, the largest first exactly where the
/// term descends.
pub proof fn law_terms_run_as_asked(terms: Seq<Term>)
    ensures
        order_text(term_views(terms)) == terms_spelled(
            terms.map_values(
                |term: Term|
                    SqlTerm { name: term.field@, descending: term.direction == Direction::Desc },
            ),
            terms.len(),
            |name: Seq<char>| name,
        ),
{
    let keys = term_views(terms);
    law_an_ordering_runs_as_asked(keys);
    let asked = terms.map_values(
        |term: Term| SqlTerm { name: term.field@, descending: term.direction == Direction::Desc },
    );
    assert(asked_terms(keys) =~= asked) by {
        assert forall|i: int| 0 <= i < terms.len() implies asked_terms(keys)[i] == asked[i] by {
            assert(keys[i] == terms[i]@);
        }
    }
}

} // verus!

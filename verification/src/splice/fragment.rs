//! What can be spliced into a query.

use vstd::prelude::*;

use crate::composer::clause::WhereClause;
#[allow(unused_imports)]
use crate::composer::clause::ClauseView;
use crate::composer::value::{copy_values, Value};
#[allow(unused_imports)]
use crate::composer::value::value_views;
use crate::text::copy_of;

verus! {

/// Something that renders to SQL text of its own and the values that it binds, numbered as if
/// it were the only thing in the query.
pub trait QueryFragment: Sized {
    /// The text and the values.
    spec fn contents(&self) -> ClauseView;

    /// The text and the values.
    fn into_sql(self) -> (r: (String, Vec<Value>))
        ensures
            r.0@ == self.contents().sql,
            value_views(r.1@) == self.contents().values,
    ;
}

impl QueryFragment for WhereClause {
    open spec fn contents(&self) -> ClauseView {
        self@
    }

    fn into_sql(self) -> (r: (String, Vec<Value>)) {
        (copy_of(self.sql()), copy_values(self.values()))
    }
}

} // verus!

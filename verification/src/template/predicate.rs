//! Boolean expressions, whatever produced them.

use vstd::prelude::*;

use crate::template::cursor::{copy_marks, mismatch, seek, CursorKey};
#[allow(unused_imports)]
use crate::template::cursor::{
    mark_views, mismatch_from, mismatch_text, seek_error, sought, token_error, MarkView,
};
use crate::template::dialect::Dialect;
use crate::template::error::Error;
#[allow(unused_imports)]
use crate::template::fragment::{sql_of, Piece};
use crate::template::fragment::QueryFragment;
#[allow(unused_imports)]
use crate::template::mapping::{column_views, ColumnView};
use crate::template::mapping::{Column, Mapping};
use crate::template::sort::resolve;
#[allow(unused_imports)]
use crate::template::sort::column_for;
use crate::template::value::Value;
#[allow(unused_imports)]
use crate::template::value::ValueView;

verus! {

/// A condition over allow-listed columns. An empty one fills nothing at all.
#[derive(Debug, PartialEq, Eq)]
pub struct Predicate {
    keys: Vec<CursorKey>,
}

/// Why the keys of a condition cannot be used.
pub enum KeyFault {
    /// A field that the mapping does not expose.
    Unknown(Seq<char>),
    /// A value that does not have its column's type.
    Mismatch(Seq<char>),
}

/// Resolves the components from the `i`th on, behind the columns that were found: each must
/// have a column, of the type of its value.
pub open spec fn checked_columns<M: Mapping>(
    mapping: &M,
    marks: Seq<MarkView>,
    i: int,
    columns: Seq<ColumnView>,
) -> Result<Seq<ColumnView>, KeyFault>
    decreases marks.len() - i,
{
    if !(0 <= i < marks.len()) {
        Ok(columns)
    } else {
        match column_for(mapping, marks[i].key.field) {
            None => Err(KeyFault::Unknown(marks[i].key.field)),
            Some(column) => if column.ty != marks[i].value.ty() {
                Err(KeyFault::Mismatch(mismatch_text(marks[i], column)))
            } else {
                checked_columns(mapping, marks, i + 1, columns.push(column))
            },
        }
    }
}

proof fn lemma_checked_columns<M: Mapping>(
    mapping: &M,
    marks: Seq<MarkView>,
    i: int,
    columns: Seq<ColumnView>,
)
    requires
        0 <= i <= marks.len(),
        columns.len() == i,
        forall|j: int| 0 <= j < i ==> (#[trigger] columns[j]).ty == marks[j].value.ty(),
    ensures
        checked_columns(mapping, marks, i, columns) matches Ok(all) ==> all.len() == marks.len()
            && forall|j: int|
            0 <= j < marks.len() ==> (#[trigger] all[j]).ty == marks[j].value.ty(),
    decreases marks.len() - i,
{
    if i < marks.len() {
        if let Some(column) = column_for(mapping, marks[i].key.field) {
            if column.ty == marks[i].value.ty() {
                lemma_checked_columns(mapping, marks, i + 1, columns.push(column));
            }
        }
    }
}

/// What a condition renders to under a mapping.
pub open spec fn predicate_sql<M: Mapping>(
    mapping: &M,
    marks: Seq<MarkView>,
    mark: char,
    r: Result<Seq<Piece<ValueView>>, Error>,
) -> bool {
    match checked_columns(mapping, marks, 0, Seq::empty()) {
        Err(KeyFault::Unknown(field)) => r matches Err(Error::UnknownColumn(name)) && name@ == field,
        Err(KeyFault::Mismatch(message)) => r matches Err(error) && token_error(error, message),
        Ok(columns) => match sought(marks, columns, mark) {
            Ok(sql) => r matches Ok(found) && found == sql,
            Err(fault) => r matches Err(error) && seek_error(error, fault),
        },
    }
}

/// The text and values of a rendered condition, or its error.
pub open spec fn rendered<DB>(r: Result<QueryFragment<DB, Value>, Error>) -> Result<
    Seq<Piece<ValueView>>,
    Error,
> {
    match r {
        Ok(fragment) => Ok(sql_of(fragment)),
        Err(error) => Err(error),
    }
}

impl View for Predicate {
    type V = Seq<MarkView>;

    closed spec fn view(&self) -> Seq<MarkView> {
        mark_views(self.keys@)
    }
}

impl Clone for Predicate {
    fn clone(&self) -> (r: Predicate)
        ensures
            r@ == self@,
    {
        Predicate { keys: copy_marks(self.keys.as_slice()) }
    }
}

impl Predicate {
    /// A condition that contributes nothing.
    pub fn empty() -> (r: Predicate)
        ensures
            r@ == Seq::<MarkView>::empty(),
    {
        let r = Predicate { keys: Vec::new() };
        assert(r@ =~= Seq::<MarkView>::empty());
        r
    }

    /// The condition that selects the rows after a position.
    pub fn seek(keys: Vec<CursorKey>) -> (r: Predicate)
        ensures
            r@ == mark_views(keys@),
    {
        Predicate { keys }
    }

    /// Whether this condition would contribute nothing.
    pub fn is_empty(&self) -> (b: bool)
        ensures
            b == (self@.len() == 0),
    {
        self.keys.len() == 0
    }

    /// Renders against a mapping.
    pub fn to_fragment<DB: Dialect, M: Mapping>(&self, mapping: &M) -> (r: Result<
        QueryFragment<DB, Value>,
        Error,
    >)
        ensures
            predicate_sql(mapping, self@, DB::mark(), rendered(r)),
            r matches Ok(fragment) ==> fragment.wf(),
    {
        let ghost marks = mark_views(self.keys@);
        let mut columns: Vec<Column> = Vec::new();
        let mut i: usize = 0;
        assert(column_views(columns@) =~= Seq::<ColumnView>::empty());
        while i < self.keys.len()
            invariant
                i <= self.keys@.len(),
                columns@.len() == i,
                marks == mark_views(self.keys@),
                self@ == marks,
                checked_columns(mapping, marks, 0, Seq::empty()) == checked_columns(
                    mapping,
                    marks,
                    i as int,
                    column_views(columns@),
                ),
            decreases self.keys.len() - i,
        {
            assert(marks[i as int] == self.keys@[i as int]@);
            match resolve(mapping, self.keys[i].key.field.as_str()) {
                Err(error) => {
                    return Err(error);
                },
                Ok(column) => {
                    if column.ty != self.keys[i].value.ty() {
                        return Err(mismatch(&self.keys[i], &column));
                    }
                    let ghost held = column_views(columns@);
                    columns.push(column);
                    assert(column_views(columns@) =~= held.push(column@));
                },
            }
            i += 1;
        }
        seek(self.keys.as_slice(), columns.as_slice())
    }
}

/// Once every component has a column of its type, only an ordering without a unique column
/// is refused.
pub proof fn law_checked_positions_fail_only_for_want_of_a_key<M: Mapping>(
    mapping: &M,
    marks: Seq<MarkView>,
    mark: char,
)
    ensures
        checked_columns(mapping, marks, 0, Seq::empty()) matches Ok(columns) ==> mismatch_from(
            marks,
            columns,
            0,
        ) is None,
{
    lemma_checked_columns(mapping, marks, 0, Seq::empty());
    if let Ok(columns) = checked_columns(mapping, marks, 0, Seq::empty()) {
        lemma_no_mismatch(marks, columns, 0);
    }
}

proof fn lemma_no_mismatch(marks: Seq<MarkView>, columns: Seq<ColumnView>, i: int)
    requires
        0 <= i,
        columns.len() == marks.len(),
        forall|j: int| 0 <= j < marks.len() ==> (#[trigger] columns[j]).ty == marks[j].value.ty(),
    ensures
        mismatch_from(marks, columns, i) is None,
    decreases marks.len() - i,
{
    if i < marks.len() {
        assert(columns[i].ty == marks[i].value.ty());
        lemma_no_mismatch(marks, columns, i + 1);
    }
}

/// A position is rendered under a mapping only where every field of it is exposed, as a column of
/// the type of its value; the columns are then those, one for one. What is told is the first field
/// that is not.
pub proof fn law_every_component_has_its_column<M: Mapping>(mapping: &M, marks: Seq<MarkView>)
    ensures
        match checked_columns(mapping, marks, 0, Seq::empty()) {
            Ok(columns) => columns.len() == marks.len() && forall|i: int|
                0 <= i < marks.len() ==> column_for(mapping, (#[trigger] marks[i]).key.field)
                    == Some(columns[i]) && columns[i].ty == marks[i].value.ty(),
            Err(KeyFault::Unknown(field)) => exists|i: int|
                0 <= i < marks.len() && (#[trigger] marks[i]).key.field == field && column_for(
                    mapping,
                    field,
                ) is None,
            Err(KeyFault::Mismatch(_)) => exists|i: int|
                0 <= i < marks.len() && (column_for(
                    mapping,
                    (#[trigger] marks[i]).key.field,
                ) matches Some(column) && column.ty != marks[i].value.ty()),
        },
{
    lemma_checked(mapping, marks, 0, Seq::empty());
}

proof fn lemma_checked<M: Mapping>(
    mapping: &M,
    marks: Seq<MarkView>,
    i: int,
    columns: Seq<ColumnView>,
)
    requires
        0 <= i <= marks.len(),
        columns.len() == i,
        forall|j: int|
            0 <= j < i ==> column_for(mapping, (#[trigger] marks[j]).key.field) == Some(columns[j])
                && columns[j].ty == marks[j].value.ty(),
    ensures
        match checked_columns(mapping, marks, i, columns) {
            Ok(all) => all.len() == marks.len() && forall|j: int|
                0 <= j < marks.len() ==> column_for(mapping, (#[trigger] marks[j]).key.field)
                    == Some(all[j]) && all[j].ty == marks[j].value.ty(),
            Err(KeyFault::Unknown(field)) => exists|j: int|
                0 <= j < marks.len() && (#[trigger] marks[j]).key.field == field && column_for(
                    mapping,
                    field,
                ) is None,
            Err(KeyFault::Mismatch(_)) => exists|j: int|
                0 <= j < marks.len() && (column_for(
                    mapping,
                    (#[trigger] marks[j]).key.field,
                ) matches Some(column) && column.ty != marks[j].value.ty()),
        },
    decreases marks.len() - i,
{
    if i < marks.len() {
        match column_for(mapping, marks[i].key.field) {
            None => {
                assert(marks[i].key.field == marks[i].key.field);
            },
            Some(column) => {
                if column.ty == marks[i].value.ty() {
                    lemma_checked(mapping, marks, i + 1, columns.push(column));
                } else {
                    assert(column_for(mapping, marks[i].key.field) == Some(column));
                }
            },
        }
    }
}

} // verus!

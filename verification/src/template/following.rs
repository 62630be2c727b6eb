//! Which rows the next page holds.

use vstd::prelude::*;

#[allow(unused_imports)]
use crate::meaning::{grouped, spelled, sql, word, Cell, Op, Sql, World};
#[allow(unused_imports)]
use crate::paging::comes_after;
#[allow(unused_imports)]
use crate::seeking::{lemma_seek_grouped, lemma_seeks, signs, Place};
#[allow(unused_imports)]
use crate::template::agreement::{hand, row, value_cell};
#[allow(unused_imports)]
use crate::template::cursor::{branch, branches, held_equal, past, seek_sql, sought, MarkView};
#[allow(unused_imports)]
use crate::template::dialect::quoted;
#[allow(unused_imports)]
use crate::template::fragment::{chars, Piece};
#[allow(unused_imports)]
use crate::template::mapping::{ColumnView, Mapping};
#[allow(unused_imports)]
use crate::template::predicate::checked_columns;
#[allow(unused_imports)]
use crate::template::sort::{column_for, Direction};
#[allow(unused_imports)]
use crate::template::value::ValueView;

verus! {

/// The position that components stand for.
pub open spec fn place_of(marks: Seq<MarkView>, columns: Seq<ColumnView>) -> Place<ValueView> {
    Place {
        names: columns.map_values(|column: ColumnView| column.name),
        descending: marks.map_values(|at: MarkView| at.key.direction == Direction::Desc),
        params: marks.map_values(|at: MarkView| at.value),
    }
}

proof fn lemma_comparison(
    marks: Seq<MarkView>,
    columns: Seq<ColumnView>,
    mark: char,
    at: int,
    j: int,
)
    requires
        marks.len() == columns.len(),
        0 <= j <= at < marks.len(),
    ensures
        spelled(crate::seeking::comparison(place_of(marks, columns), at, j), hand(mark)) == (chars(
            quoted(columns[j].name, mark),
        ) + chars(
            if j < at {
                " = "@
            } else {
                past(marks[j].key.direction)
            },
        )).push(Piece::Bind(marks[j].value)),
{
    let h = hand(mark);
    let e = crate::seeking::comparison(place_of(marks, columns), at, j);
    reveal_with_fuel(spelled, 2);
    let text = if j < at {
        " = "@
    } else {
        past(marks[j].key.direction)
    };
    assert(spelled(e, h) =~= (chars(quoted(columns[j].name, mark)) + chars(text)).push(
        Piece::Bind(marks[j].value),
    ));
}

proof fn lemma_ties(
    marks: Seq<MarkView>,
    columns: Seq<ColumnView>,
    mark: char,
    at: int,
    k: nat,
)
    requires
        marks.len() == columns.len(),
        0 <= at < marks.len(),
        1 <= k <= at,
    ensures
        held_equal(marks, columns, mark, k as int) == spelled(
            crate::seeking::comparisons(place_of(marks, columns), at, k),
            hand(mark),
        ) + chars(" AND "@),
    decreases k,
{
    let h = hand(mark);
    let place = place_of(marks, columns);
    lemma_comparison(marks, columns, mark, at, k - 1);
    assert(word(Op::And) == " AND "@);
    assert(held_equal(marks, columns, mark, 0) =~= Seq::<Piece<ValueView>>::empty());
    if k > 1 {
        lemma_ties(marks, columns, mark, at, (k - 1) as nat);
    }
    assert(held_equal(marks, columns, mark, k as int) =~= spelled(
        crate::seeking::comparisons(place, at, k),
        h,
    ) + chars(" AND "@));
}

proof fn lemma_branch(marks: Seq<MarkView>, columns: Seq<ColumnView>, mark: char, at: int)
    requires
        marks.len() == columns.len(),
        0 <= at < marks.len(),
    ensures
        branch(marks, columns, mark, at) == spelled(
            crate::seeking::branch(place_of(marks, columns), at),
            hand(mark),
        ),
{
    let h = hand(mark);
    let place = place_of(marks, columns);
    lemma_comparison(marks, columns, mark, at, at);
    assert(word(Op::And) == " AND "@);
    assert(held_equal(marks, columns, mark, 0) =~= Seq::<Piece<ValueView>>::empty());
    let all = crate::seeking::comparisons(place, at, (at + 1) as nat);
    if at > 0 {
        lemma_ties(marks, columns, mark, at, at as nat);
        let before = crate::seeking::comparisons(place, at, at as nat);
        let last = crate::seeking::comparison(place, at, at);
        assert(spelled(all, h) == spelled(before, h) + chars(" AND "@) + spelled(last, h));
    }
    assert(branch(marks, columns, mark, at) =~= chars("("@) + spelled(all, h) + chars(")"@));
}

proof fn lemma_branches(marks: Seq<MarkView>, columns: Seq<ColumnView>, mark: char, n: nat)
    requires
        marks.len() == columns.len(),
        1 <= n <= marks.len(),
    ensures
        branches(marks, columns, mark, n as int) == spelled(
            crate::seeking::branches(place_of(marks, columns), n),
            hand(mark),
        ),
    decreases n,
{
    lemma_branch(marks, columns, mark, n - 1);
    assert(word(Op::Or) == " OR "@);
    if n > 1 {
        lemma_branches(marks, columns, mark, (n - 1) as nat);
    }
}

/// How a row lies to a position, component by component.
pub open spec fn lies(
    marks: Seq<MarkView>,
    columns: Seq<ColumnView>,
    w: World,
    column: spec_fn(Seq<char>) -> Cell,
) -> Seq<int> {
    Seq::new(
        marks.len(),
        |i: int| (w.sign)(column(columns[i].name), value_cell(marks[i].value)),
    )
}

/// Which components run downwards.
pub open spec fn downwards(marks: Seq<MarkView>) -> Seq<bool> {
    marks.map_values(|at: MarkView| at.key.direction == Direction::Desc)
}

/// A row lacks none of these columns.
pub open spec fn nothing_missing(
    columns: Seq<ColumnView>,
    column: spec_fn(Seq<char>) -> Cell,
) -> bool {
    forall|i: int| 0 <= i < columns.len() ==> !(column((#[trigger] columns[i]).name) is Null)
}

/// A condition of SQL holds of exactly the rows that come after a position.
pub open spec fn selects_what_follows(
    e: Sql<ValueView>,
    marks: Seq<MarkView>,
    columns: Seq<ColumnView>,
    w: World,
) -> bool {
    forall|column: spec_fn(Seq<char>) -> Cell|
        nothing_missing(columns, column) ==> #[trigger] sql(e, w, row(column)) == Cell::Flag(
            comes_after(lies(marks, columns, w, column), downwards(marks)),
        )
}

/// The condition for a position selects what follows: its text is a condition of SQL which holds
/// of a row exactly where the row comes after the position, each column the way it runs.
pub proof fn law_the_next_page_holds_what_follows(
    marks: Seq<MarkView>,
    columns: Seq<ColumnView>,
    mark: char,
    w: World,
)
    requires
        marks.len() > 0,
        marks.len() == columns.len(),
    ensures
        sought(marks, columns, mark) matches Ok(text) ==> exists|e: Sql<ValueView>|
            #![trigger spelled(e, hand(mark))]
            spelled(e, hand(mark)) == text && grouped(e) && selects_what_follows(
                e,
                marks,
                columns,
                w,
            ),
{
    let h = hand(mark);
    let place = place_of(marks, columns);
    let n = marks.len();
    let inner = crate::seeking::branches(place, n);
    let e: Sql<ValueView> = Sql::Paren(Box::new(inner));
    lemma_branches(marks, columns, mark, n);
    lemma_seek_grouped(place, n);
    assert(spelled(e, h) == chars::<ValueView>("("@) + spelled(inner, h) + chars(")"@));
    assert(grouped(e));
    assert forall|column: spec_fn(Seq<char>) -> Cell|
        nothing_missing(columns, column) implies #[trigger] sql(e, w, row(column)) == Cell::Flag(
        comes_after(lies(marks, columns, w, column), downwards(marks)),
    ) by {
        let r = row(column);
        assert forall|i: int| 0 <= i < place.names.len() implies !((r.column)(
            #[trigger] place.names[i],
        ) is Null) && !((r.bound)(place.params[i]) is Null) by {
            assert(!(column(columns[i].name) is Null));
        }
        lemma_seeks(place, w, r);
        assert(signs(place, w, r) =~= lies(marks, columns, w, column));
        assert(sql(e, w, r) == sql(inner, w, r));
    }
    assert(spelled(e, h) == seek_sql(marks, columns, mark));
}

/// These are the columns that a mapping gives for the components, each of its value's type.
pub open spec fn columns_of<M: Mapping>(
    mapping: &M,
    marks: Seq<MarkView>,
    columns: Seq<ColumnView>,
) -> bool {
    &&& columns.len() == marks.len()
    &&& forall|i: int|
        0 <= i < marks.len() ==> column_for(mapping, (#[trigger] marks[i]).key.field) == Some(
            columns[i],
        ) && columns[i].ty == marks[i].value.ty()
}

proof fn lemma_checked<M: Mapping>(
    mapping: &M,
    marks: Seq<MarkView>,
    i: int,
    columns: Seq<ColumnView>,
)
    requires
        0 <= i <= marks.len(),
        columns.len() == i,
        forall|j: int|
            0 <= j < i ==> column_for(mapping, (#[trigger] marks[j]).key.field) == Some(columns[j])
                && columns[j].ty == marks[j].value.ty(),
    ensures
        match checked_columns(mapping, marks, i, columns) {
            Ok(all) => columns_of(mapping, marks, all),
            Err(_) => exists|j: int|
                0 <= j < marks.len() && !(column_for(mapping, (#[trigger] marks[j]).key.field)
                    matches Some(column) && column.ty == marks[j].value.ty()),
        },
    decreases marks.len() - i,
{
    if i < marks.len() {
        if let Some(column) = column_for(mapping, marks[i].key.field) {
            if column.ty == marks[i].value.ty() {
                let next = columns.push(column);
                assert forall|j: int| 0 <= j < i + 1 implies column_for(
                    mapping,
                    (#[trigger] marks[j]).key.field,
                ) == Some(next[j]) && next[j].ty == marks[j].value.ty() by {
                    if j < i {
                        assert(next[j] == columns[j]);
                    }
                }
                lemma_checked(mapping, marks, i + 1, next);
            }
        }
    }
}

/// A position is sought in the columns that the mapping gives for its fields. It is refused
/// exactly where a field has no column, where a value is not of its column's type, or where none
/// of the columns is unique; the start of a listing is never refused.
pub proof fn law_a_position_is_sought_in_its_own_columns<M: Mapping>(
    mapping: &M,
    marks: Seq<MarkView>,
    mark: char,
)
    ensures
        match checked_columns(mapping, marks, 0, Seq::empty()) {
            Ok(columns) => {
                &&& columns_of(mapping, marks, columns)
                &&& sought(marks, columns, mark) is Ok <==> marks.len() == 0 || exists|i: int|
                    0 <= i < columns.len() && (#[trigger] columns[i]).unique
            },
            Err(_) => exists|i: int|
                0 <= i < marks.len() && !(column_for(mapping, (#[trigger] marks[i]).key.field)
                    matches Some(column) && column.ty == marks[i].value.ty()),
        },
{
    lemma_checked(mapping, marks, 0, Seq::empty());
    if let Ok(columns) = checked_columns(mapping, marks, 0, Seq::empty()) {
        crate::template::predicate::law_checked_positions_fail_only_for_want_of_a_key(
            mapping,
            marks,
            mark,
        );
    }
}

} // verus!

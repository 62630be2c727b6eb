//! Which rows the next page holds.

use vstd::prelude::*;

#[allow(unused_imports)]
use crate::composer::agreement::{row as bound_row, value_cell};
#[allow(unused_imports)]
use crate::composer::cursor::{
    boundary, branch, column_from, comparison, comparisons, complete, orders, placed, row_value,
    row_values, PlaceView, RowColumn,
};
#[allow(unused_imports)]
use crate::composer::order::{KeyView, OrderDirection};
#[allow(unused_imports)]
use crate::composer::pager::{limit_for, next_position, page_of, PagerView, PlainRow};
#[allow(unused_imports)]
use crate::composer::value::{probed, Probe, ValueView};
#[allow(unused_imports)]
use crate::meaning::{grouped, numbered_hand, ordered, spelled, sql, word, Cell, Op, Sql, World};
#[allow(unused_imports)]
use crate::paging::comes_after;
#[allow(unused_imports)]
use crate::seeking::{
    branches, lemma_a_tie_is_not_after, lemma_seek_grouped, lemma_seeks, signs, Place,
};
#[allow(unused_imports)]
use crate::text::{joined, label_of, lacks, lemma_pieces_lack, lemma_pieces_nonempty, pieces};

verus! {

// ---------------------------------------------------------------------------
// The values of a row
// ---------------------------------------------------------------------------

/// The driver decoded a column as this value: the candidate of the value's own kind holds it, the
/// widest of that kind where there are several.
pub open spec fn decoded_as(probe: Probe, value: ValueView) -> bool {
    match value {
        ValueView::Null => probe.null,
        ValueView::Bool(b) => probe.boolean == Some(b),
        ValueView::Int(n) => match (probe.int64, probe.int32, probe.int16) {
            (Some(wide), _, _) => wide == n,
            (None, Some(middle), _) => middle == n,
            (None, None, Some(narrow)) => narrow == n,
            _ => false,
        },
        ValueView::Float(bits) => match (probe.float64, probe.float32) {
            (Some(wide), _) => wide == bits,
            (None, Some(narrow)) => narrow == bits,
            _ => false,
        },
        ValueView::Text(text) => probe.text matches Some(held) && held@ == text,
        ValueView::Timestamp(micros) => probe.timestamp == Some(micros),
        ValueView::Bytes(bytes) => probe.bytes matches Some(held) && held@ == bytes,
        ValueView::Uuid(bytes) => probe.uuid matches Some(held) && held@ == bytes,
    }
}

/// The driver decodes a column as something.
pub open spec fn decodable(probe: Probe) -> bool {
    ||| probe.int64 is Some || probe.int32 is Some || probe.int16 is Some
    ||| probe.float64 is Some || probe.float32 is Some || probe.boolean is Some
    ||| probe.timestamp is Some || probe.uuid is Some || probe.text is Some || probe.bytes is Some
}

/// The place of a value's kind among those that are tried.
pub open spec fn turn(value: ValueView) -> int {
    match value {
        ValueView::Null => -1,
        ValueView::Int(_) => 0,
        ValueView::Float(_) => 1,
        ValueView::Bool(_) => 2,
        ValueView::Timestamp(_) => 3,
        ValueView::Uuid(_) => 4,
        ValueView::Text(_) => 5,
        ValueView::Bytes(_) => 6,
    }
}

/// The kinds as which the driver decodes a column, in the order in which they are tried.
pub open spec fn tried(probe: Probe) -> Seq<bool> {
    seq![
        probe.int64 is Some || probe.int32 is Some || probe.int16 is Some,
        probe.float64 is Some || probe.float32 is Some,
        probe.boolean is Some,
        probe.timestamp is Some,
        probe.uuid is Some,
        probe.text is Some,
        probe.bytes is Some,
    ]
}

/// A column reads as what the driver decoded it as, of that kind: null exactly where it is null,
/// and otherwise the value of the first candidate that the driver decodes. A column that it
/// decodes as nothing has no value.
pub proof fn law_a_column_reads_as_it_was_decoded(probe: Probe)
    ensures
        probed(probe) is Some <==> probe.null || decodable(probe),
        probed(probe) matches Some(value) ==> {
            &&& value is Null <==> probe.null
            &&& decoded_as(probe, value)
            &&& !probe.null ==> forall|k: int|
                0 <= k < turn(value) ==> !#[trigger] tried(probe)[k]
        },
{
}

/// Some column of a row, of this label and with no other of that label ahead of it, was decoded
/// as this value.
pub open spec fn row_holds(row: Seq<RowColumn>, column: Seq<char>, value: ValueView) -> bool {
    exists|i: int|
        #![trigger row[i]]
        0 <= i < row.len() && label_fits(row[i].name@, column) && decoded_as(row[i].held, value)
            && (value is Null <==> row[i].held.null) && forall|j: int|
            0 <= j < i ==> !label_fits(#[trigger] row[j].name@, column)
}

/// A label is what follows the last dot of a column.
pub open spec fn label_fits(label: Seq<char>, column: Seq<char>) -> bool {
    &&& lacks(label, '.')
    &&& label == column || (seq!['.'] + label).is_suffix_of(column)
}

proof fn lemma_label(column: Seq<char>)
    ensures
        label_fits(label_of(column), column),
    decreases column.len(),
{
    lemma_pieces_nonempty(column, '.');
    lemma_pieces_lack(column, '.');
    let parts = pieces(column, '.');
    assert(lacks(parts[parts.len() - 1], '.'));
    if column.len() > 0 {
        let rest = column.drop_last();
        lemma_label(rest);
        lemma_pieces_nonempty(rest, '.');
        if column.last() == '.' {
            let label = label_of(column);
            assert(label =~= Seq::<char>::empty());
            assert(seq!['.'] + label =~= column.subrange(
                column.len() - 1,
                column.len() as int,
            ));
        } else {
            let before = label_of(rest);
            let label = label_of(column);
            assert(label == before.push(column.last()));
            if before == rest {
                assert(label =~= column);
            } else {
                let tail = seq!['.'] + before;
                assert(seq!['.'] + label =~= tail.push(column.last()));
                assert(tail =~= rest.subrange(rest.len() - tail.len(), rest.len() as int));
                assert(tail.push(column.last()) =~= column.subrange(
                    column.len() - tail.len() - 1,
                    column.len() as int,
                ));
            }
        }
    } else {
        assert(label_of(column) =~= column);
    }
}

proof fn lemma_one_label(a: Seq<char>, b: Seq<char>, column: Seq<char>)
    requires
        label_fits(a, column),
        label_fits(b, column),
    ensures
        a == b,
{
    lemma_no_longer(a, b, column);
    lemma_no_longer(b, a, column);
    lemma_ends(a, column);
    lemma_ends(b, column);
    assert(a =~= b);
}

proof fn lemma_ends(a: Seq<char>, column: Seq<char>)
    requires
        label_fits(a, column),
    ensures
        a.len() <= column.len(),
        a == column.subrange(column.len() - a.len(), column.len() as int),
{
    if a == column {
        assert(a =~= column.subrange(0, column.len() as int));
    } else {
        let tail = seq!['.'] + a;
        assert(a =~= tail.subrange(1, tail.len() as int));
        assert(a =~= column.subrange(column.len() - a.len(), column.len() as int));
    }
}

proof fn lemma_no_longer(a: Seq<char>, b: Seq<char>, column: Seq<char>)
    requires
        label_fits(a, column),
        label_fits(b, column),
    ensures
        a.len() >= b.len(),
{
    if a.len() < b.len() {
        lemma_ends(b, column);
        lemma_ends(a, column);
        assert(a != column);
        let tail = seq!['.'] + a;
        let at = column.len() - tail.len();
        assert(tail[0] == column.subrange(at, column.len() as int)[0]);
        assert(column[at] == '.');
        let k = at - (column.len() - b.len());
        assert(b[k] == column[at]);
    }
}

proof fn lemma_first_column(row: Seq<RowColumn>, name: Seq<char>, i: int)
    requires
        0 <= i <= row.len(),
    ensures
        match column_from(row, name, i) {
            Some(k) => i <= k < row.len() && row[k].name@ == name && forall|j: int|
                i <= j < k ==> (#[trigger] row[j]).name@ != name,
            None => forall|j: int| i <= j < row.len() ==> (#[trigger] row[j]).name@ != name,
        },
    decreases row.len() - i,
{
    if i < row.len() && row[i].name@ != name {
        lemma_first_column(row, name, i + 1);
    }
}

proof fn lemma_row_value(row: Seq<RowColumn>, column: Seq<char>)
    ensures
        row_value(row, column) matches Ok(value) ==> row_holds(row, column, value),
        row_value(row, column) is Err ==> forall|i: int|
            0 <= i < row.len() && label_fits((#[trigger] row[i]).name@, column) ==> exists|j: int|
                0 <= j <= i && label_fits((#[trigger] row[j]).name@, column) && !row[j].held.null
                    && !decodable(row[j].held),
{
    let label = label_of(column);
    lemma_label(column);
    lemma_first_column(row, label, 0);
    match column_from(row, label, 0) {
        Some(k) => {
            law_a_column_reads_as_it_was_decoded(row[k].held);
            assert forall|j: int| 0 <= j < k implies !label_fits(
                #[trigger] row[j].name@,
                column,
            ) by {
                if label_fits(row[j].name@, column) {
                    lemma_one_label(row[j].name@, label, column);
                }
            }
            assert forall|i: int|
                0 <= i < row.len() && label_fits(
                    (#[trigger] row[i]).name@,
                    column,
                ) && row_value(row, column) is Err implies exists|j: int|
                0 <= j <= i && label_fits((#[trigger] row[j]).name@, column) && !row[j].held.null
                    && !decodable(row[j].held) by {
                lemma_one_label(row[i].name@, label, column);
                assert(k <= i);
                assert(label_fits(row[k].name@, column));
            }
        },
        None => {
            assert forall|i: int|
                0 <= i < row.len() && label_fits((#[trigger] row[i]).name@, column) implies exists|
                j: int,
            |
                0 <= j <= i && label_fits((#[trigger] row[j]).name@, column) && !row[j].held.null
                    && !decodable(row[j].held) by {
                lemma_one_label(row[i].name@, label, column);
            }
        },
    }
}

proof fn lemma_row_values(
    row: Seq<RowColumn>,
    keys: Seq<KeyView>,
    i: int,
    values: Seq<ValueView>,
)
    requires
        0 <= i <= keys.len(),
        values.len() == i,
        forall|j: int| 0 <= j < i ==> row_holds(row, (#[trigger] keys[j]).column, values[j]),
    ensures
        row_values(row, keys, i, values) matches Ok(all) ==> all.len() == keys.len() && forall|
            j: int,
        |
            0 <= j < keys.len() ==> row_holds(row, (#[trigger] keys[j]).column, all[j]),
    decreases keys.len() - i,
{
    if i < keys.len() {
        lemma_row_value(row, keys[i].column);
        if let Ok(value) = row_value(row, keys[i].column) {
            lemma_row_values(row, keys, i + 1, values.push(value));
        }
    }
}

/// The cursor behind a row holds the row's own values: for every key, the value that the driver
/// decoded for the column of that label.
pub proof fn law_a_cursor_holds_the_values_of_its_row(row: Seq<RowColumn>, keys: Seq<KeyView>)
    ensures
        row_values(row, keys, 0, Seq::empty()) matches Ok(values) ==> {
            &&& values.len() == keys.len()
            &&& orders(placed(keys, values)) == keys
            &&& boundary(placed(keys, values)).values == values
            &&& forall|j: int|
                0 <= j < keys.len() ==> row_holds(row, (#[trigger] keys[j]).column, values[j])
        },
{
    lemma_row_values(row, keys, 0, Seq::empty());
    if let Ok(values) = row_values(row, keys, 0, Seq::empty()) {
        assert(orders(placed(keys, values)) =~= keys);
        assert(boundary(placed(keys, values)).values =~= values);
    }
}

// ---------------------------------------------------------------------------
// The condition of the next page
// ---------------------------------------------------------------------------

/// The position that keys stand for.
pub open spec fn place_of(keys: Seq<PlaceView>) -> Place<nat> {
    Place {
        names: keys.map_values(|key: PlaceView| key.order.column),
        descending: keys.map_values(|key: PlaceView| key.order.direction == OrderDirection::Desc),
        params: Seq::new(keys.len(), |i: int| (i + 1) as nat),
    }
}

proof fn lemma_comparison(keys: Seq<PlaceView>, at: int, j: int)
    requires
        0 <= j <= at < keys.len(),
    ensures
        comparisons(keys, at)[j] == spelled(
            crate::seeking::comparison(place_of(keys), at, j),
            numbered_hand(),
        ),
{
    let h = numbered_hand();
    let place = place_of(keys);
    let e = crate::seeking::comparison(place, at, j);
    reveal_with_fuel(spelled, 2);
    reveal_strlit(" ");
    reveal_strlit(" $");
    reveal_strlit("$");
    reveal_strlit("=");
    reveal_strlit("<");
    reveal_strlit(">");
    reveal_strlit(" = ");
    reveal_strlit(" < ");
    reveal_strlit(" > ");
    assert(comparisons(keys, at)[j] =~= spelled(e, h));
}

proof fn lemma_comparisons(keys: Seq<PlaceView>, at: int, k: nat)
    requires
        0 <= at < keys.len(),
        1 <= k <= at + 1,
    ensures
        joined(comparisons(keys, at).take(k as int), " AND "@) == spelled(
            crate::seeking::comparisons(place_of(keys), at, k),
            numbered_hand(),
        ),
    decreases k,
{
    let h = numbered_hand();
    let parts = comparisons(keys, at).take(k as int);
    lemma_comparison(keys, at, k - 1);
    assert(parts.last() == comparisons(keys, at)[k - 1]);
    if k > 1 {
        lemma_comparisons(keys, at, (k - 1) as nat);
        assert(parts.drop_last() =~= comparisons(keys, at).take(k - 1));
        assert(word(Op::And) == " AND "@);
    } else {
        assert(parts[0] == comparisons(keys, at)[0]);
    }
}

proof fn lemma_branches(keys: Seq<PlaceView>, n: nat)
    requires
        1 <= n <= keys.len(),
    ensures
        joined(Seq::new(n, |i: int| branch(keys, i)), " OR "@) == spelled(
            branches(place_of(keys), n),
            numbered_hand(),
        ),
    decreases n,
{
    let h = numbered_hand();
    let place = place_of(keys);
    let parts = Seq::new(n, |i: int| branch(keys, i));
    let at = n - 1;
    lemma_comparisons(keys, at, n);
    assert(comparisons(keys, at).take(n as int) =~= comparisons(keys, at));
    assert(spelled(crate::seeking::branch(place, at), h) == branch(keys, at));
    assert(parts.last() == branch(keys, at));
    if n > 1 {
        lemma_branches(keys, (n - 1) as nat);
        assert(parts.drop_last() =~= Seq::new((n - 1) as nat, |i: int| branch(keys, i)));
        assert(word(Op::Or) == " OR "@);
    } else {
        assert(parts[0] == branch(keys, 0));
    }
}

/// How a row lies to the boundary, key by key.
pub open spec fn lies(keys: Seq<PlaceView>, w: World, column: spec_fn(Seq<char>) -> Cell) -> Seq<
    int,
> {
    Seq::new(
        keys.len(),
        |i: int| (w.sign)(column(keys[i].order.column), value_cell(keys[i].value->0)),
    )
}

/// Which keys run downwards.
pub open spec fn downwards(keys: Seq<PlaceView>) -> Seq<bool> {
    keys.map_values(|key: PlaceView| key.order.direction == OrderDirection::Desc)
}

/// Neither a row nor a boundary lacks a value for a key.
pub open spec fn nothing_missing(keys: Seq<PlaceView>, column: spec_fn(Seq<char>) -> Cell) -> bool {
    forall|i: int|
        0 <= i < keys.len() ==> !(column((#[trigger] keys[i]).order.column) is Null) && !(value_cell(
            keys[i].value->0,
        ) is Null)
}

/// A condition of SQL holds of exactly the rows that come after a boundary.
pub open spec fn selects_what_follows(e: Sql<nat>, keys: Seq<PlaceView>, w: World) -> bool {
    forall|column: spec_fn(Seq<char>) -> Cell|
        nothing_missing(keys, column) ==> #[trigger] sql(
            e,
            w,
            bound_row(column, boundary(keys).values),
        ) == Cell::Flag(comes_after(lies(keys, w, column), downwards(keys)))
}

/// The condition of a cursor selects what follows: its text is a condition of SQL which, with the
/// boundary values bound to its placeholders, holds of a row exactly where the row comes after
/// the boundary in the ordering, each key the way it runs.
pub proof fn law_the_next_page_holds_what_follows(keys: Seq<PlaceView>, w: World)
    requires
        keys.len() > 0,
        complete(keys),
    ensures
        exists|e: Sql<nat>|
            #![trigger spelled(e, numbered_hand())]
            spelled(e, numbered_hand()) == boundary(keys).sql && grouped(e)
                && selects_what_follows(e, keys, w),
{
    let h = numbered_hand();
    let place = place_of(keys);
    let e = branches(place, keys.len());
    lemma_branches(keys, keys.len());
    lemma_seek_grouped(place, keys.len());
    assert forall|column: spec_fn(Seq<char>) -> Cell|
        nothing_missing(keys, column) implies #[trigger] sql(
        e,
        w,
        bound_row(column, boundary(keys).values),
    ) == Cell::Flag(comes_after(lies(keys, w, column), downwards(keys))) by {
        let row = bound_row(column, boundary(keys).values);
        assert forall|i: int| 0 <= i < place.names.len() implies !((row.column)(
            #[trigger] place.names[i],
        ) is Null) && !((row.bound)(place.params[i]) is Null) by {
            assert(!(column(keys[i].order.column) is Null));
        }
        lemma_seeks(place, w, row);
        assert(signs(place, w, row) =~= lies(keys, w, column));
    }
    assert(spelled(e, h) == boundary(keys).sql);
}

/// The row that a cursor stands behind is not on the next page, and neither is any row that ties
/// with it in every key.
pub proof fn law_a_row_is_not_on_the_page_behind_it(
    keys: Seq<KeyView>,
    values: Seq<ValueView>,
    w: World,
    column: spec_fn(Seq<char>) -> Cell,
)
    requires
        ordered(w),
        keys.len() == values.len(),
        forall|i: int|
            0 <= i < keys.len() ==> column((#[trigger] keys[i]).column) == value_cell(values[i]),
    ensures
        !comes_after(
            lies(placed(keys, values), w, column),
            downwards(placed(keys, values)),
        ),
{
    let places = placed(keys, values);
    let s = lies(places, w, column);
    assert forall|j: int| 0 <= j < s.len() implies #[trigger] s[j] == 0 by {
        let cell = value_cell(values[j]);
        assert(column(keys[j].column) == cell);
        assert((w.sign)(cell, cell) == -(w.sign)(cell, cell));
    }
    lemma_a_tie_is_not_after(s, downwards(places), 0);
}

// ---------------------------------------------------------------------------
// Pages
// ---------------------------------------------------------------------------

/// One row more than a page holds is asked for, as far as a limit can say.
pub proof fn law_one_row_more_is_asked_for(size: nat)
    ensures
        size < i64::MAX ==> limit_for(size) == size + 1,
        size >= i64::MAX ==> limit_for(size) == i64::MAX,
{
}

/// The cursor of a page stands behind the last row that the page keeps: it has the pager's keys,
/// with that row's own values. It has no keys exactly where no further row came, and the rows of a
/// page are the first ones that were fetched.
pub proof fn law_the_next_page_starts_behind_the_last_row(p: PagerView, rows: Seq<PlainRow>)
    requires
        p.size > 0,
    ensures
        page_of(rows, p.size).is_prefix_of(rows),
        page_of(rows, p.size).len() == if rows.len() < p.size {
            rows.len()
        } else {
            p.size
        },
        next_position(p, rows) matches Ok(keys) ==> if rows.len() > p.size {
            &&& orders(keys) == p.keys
            &&& complete(keys)
            &&& forall|j: int|
                0 <= j < keys.len() ==> row_holds(
                    page_of(rows, p.size).last()@,
                    (#[trigger] keys[j]).order.column,
                    keys[j].value->0,
                )
        } else {
            keys.len() == 0
        },
{
    let page = page_of(rows, p.size);
    assert(page =~= rows.take(page.len() as int));
    if rows.len() > p.size {
        let last = rows[p.size - 1]@;
        assert(page.last() == rows[p.size - 1]);
        law_a_cursor_holds_the_values_of_its_row(last, p.keys);
        if let Ok(keys) = next_position(p, rows) {
            let values = row_values(last, p.keys, 0, Seq::empty())->Ok_0;
            assert forall|j: int| 0 <= j < keys.len() implies row_holds(
                page.last()@,
                (#[trigger] keys[j]).order.column,
                keys[j].value->0,
            ) by {
                assert(row_holds(last, p.keys[j].column, values[j]));
            }
        }
    }
}

} // verus!

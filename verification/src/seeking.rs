//! The condition of SQL that the rows behind a position meet.

use vstd::prelude::*;

#[allow(unused_imports)]
use crate::meaning::{both, either, grouped, sql, tightness, Cell, Op, Row, Sql, World};
#[allow(unused_imports)]
use crate::paging::{
    branch_holds, comes_after, condition_for, condition_holds,
    law_the_condition_selects_what_comes_after, passes, tie_breaker,
};

verus! {

/// A position: the columns that are ordered by, which of them descend, and what each is held
/// against.
pub struct Place<P> {
    pub names: Seq<Seq<char>>,
    pub descending: Seq<bool>,
    pub params: Seq<P>,
}

/// A position has as many of everything.
pub open spec fn well_placed<P>(place: Place<P>) -> bool {
    place.descending.len() == place.names.len() && place.params.len() == place.names.len()
}

/// One comparison: columns ahead of the `at`th tie, and that one lies beyond.
pub open spec fn comparison<P>(place: Place<P>, at: int, j: int) -> Sql<P> {
    Sql::Binary(
        if j < at {
            Op::Eq
        } else if place.descending[j] {
            Op::Lt
        } else {
            Op::Gt
        },
        Box::new(Sql::Name(place.names[j])),
        Box::new(Sql::Param(place.params[j])),
    )
}

/// The first `k` comparisons of a branch.
pub open spec fn comparisons<P>(place: Place<P>, at: int, k: nat) -> Sql<P>
    decreases k,
{
    if k <= 1 {
        comparison(place, at, 0)
    } else {
        Sql::Binary(
            Op::And,
            Box::new(comparisons(place, at, (k - 1) as nat)),
            Box::new(comparison(place, at, k - 1)),
        )
    }
}

/// One branch.
pub open spec fn branch<P>(place: Place<P>, at: int) -> Sql<P> {
    Sql::Paren(Box::new(comparisons(place, at, (at + 1) as nat)))
}

/// The first `n` branches.
pub open spec fn branches<P>(place: Place<P>, n: nat) -> Sql<P>
    decreases n,
{
    if n <= 1 {
        branch(place, 0)
    } else {
        Sql::Binary(
            Op::Or,
            Box::new(branches(place, (n - 1) as nat)),
            Box::new(branch(place, n - 1)),
        )
    }
}

/// How a row lies to a position, column by column.
pub open spec fn signs<P>(place: Place<P>, w: World, row: Row<P>) -> Seq<int> {
    Seq::new(
        place.names.len(),
        |i: int| (w.sign)((row.column)(place.names[i]), (row.bound)(place.params[i])),
    )
}

/// Nothing is missing, neither in the row nor in the position.
pub open spec fn all_there<P>(place: Place<P>, row: Row<P>) -> bool {
    forall|i: int|
        0 <= i < place.names.len() ==> !((row.column)(#[trigger] place.names[i]) is Null)
            && !((row.bound)(place.params[i]) is Null)
}

proof fn lemma_comparison<P>(place: Place<P>, at: int, j: int, w: World, row: Row<P>)
    requires
        well_placed(place),
        0 <= j <= at < place.names.len(),
        all_there(place, row),
    ensures
        sql(comparison(place, at, j), w, row) == Cell::Flag(
            passes(tie_breaker(at)[j], signs(place, w, row)[j], place.descending[j]),
        ),
        grouped(comparison(place, at, j)),
        tightness(comparison(place, at, j)) == 4,
{
    let e = comparison(place, at, j);
    let left: Sql<P> = Sql::Name(place.names[j]);
    let right: Sql<P> = Sql::Param(place.params[j]);
    assert(!((row.column)(place.names[j]) is Null));
    assert(sql(left, w, row) == (row.column)(place.names[j]));
    assert(sql(right, w, row) == (row.bound)(place.params[j]));
    assert(grouped(left) && grouped(right));
}

proof fn lemma_comparisons<P>(place: Place<P>, at: int, k: nat, w: World, row: Row<P>)
    requires
        well_placed(place),
        1 <= k <= at + 1,
        0 <= at < place.names.len(),
        all_there(place, row),
    ensures
        sql(comparisons(place, at, k), w, row) == Cell::Flag(
            forall|j: int|
                0 <= j < k ==> passes(
                    #[trigger] tie_breaker(at)[j],
                    signs(place, w, row)[j],
                    place.descending[j],
                ),
        ),
        grouped(comparisons(place, at, k)),
        tightness(comparisons(place, at, k)) >= 2,
    decreases k,
{
    let s = signs(place, w, row);
    lemma_comparison(place, at, k - 1, w, row);
    if k > 1 {
        lemma_comparisons(place, at, (k - 1) as nat, w, row);
        let left = comparisons(place, at, (k - 1) as nat);
        let right = comparison(place, at, k - 1);
        let e = comparisons(place, at, k);
        assert(sql(e, w, row) == both(sql(left, w, row), sql(right, w, row)));
        let before = forall|j: int|
            0 <= j < k - 1 ==> passes(#[trigger] tie_breaker(at)[j], s[j], place.descending[j]);
        let last = passes(tie_breaker(at)[k - 1], s[k - 1], place.descending[k - 1]);
        assert((forall|j: int|
            0 <= j < k ==> passes(#[trigger] tie_breaker(at)[j], s[j], place.descending[j])) == (
        before && last));
    } else {
        let last = passes(tie_breaker(at)[0], s[0], place.descending[0]);
        assert((forall|j: int|
            0 <= j < k ==> passes(#[trigger] tie_breaker(at)[j], s[j], place.descending[j]))
            == last);
    }
}

proof fn lemma_branches<P>(place: Place<P>, n: nat, w: World, row: Row<P>)
    requires
        well_placed(place),
        1 <= n <= place.names.len(),
        all_there(place, row),
    ensures
        sql(branches(place, n), w, row) == Cell::Flag(
            exists|i: int|
                0 <= i < n && branch_holds(
                    #[trigger] tie_breaker(i),
                    signs(place, w, row),
                    place.descending,
                ),
        ),
        grouped(branches(place, n)),
        tightness(branches(place, n)) >= 1,
    decreases n,
{
    let s = signs(place, w, row);
    let at = n - 1;
    lemma_comparisons(place, at, n, w, row);
    let inner = comparisons(place, at, n);
    let last = branch(place, at);
    assert(last == Sql::Paren(Box::new(inner)));
    assert(sql(last, w, row) == sql(inner, w, row));
    assert(grouped(last));
    let here = branch_holds(tie_breaker(at), s, place.descending);
    assert(tie_breaker(at).len() == n);
    assert((forall|j: int|
        0 <= j < n ==> passes(#[trigger] tie_breaker(at)[j], s[j], place.descending[j])) == here);
    let all = exists|i: int|
        0 <= i < n && branch_holds(#[trigger] tie_breaker(i), s, place.descending);
    if n > 1 {
        lemma_branches(place, (n - 1) as nat, w, row);
        let left = branches(place, (n - 1) as nat);
        let e = branches(place, n);
        assert(sql(e, w, row) == either(sql(left, w, row), sql(last, w, row)));
        let before = exists|i: int|
            0 <= i < n - 1 && branch_holds(#[trigger] tie_breaker(i), s, place.descending);
        if all {
            let i = choose|i: int|
                0 <= i < n && branch_holds(#[trigger] tie_breaker(i), s, place.descending);
            assert(i == at || i < n - 1);
        }
        if here {
            assert(branch_holds(tie_breaker(at), s, place.descending));
        }
        assert(all == (before || here));
    } else {
        if all {
            let i = choose|i: int|
                0 <= i < n && branch_holds(#[trigger] tie_breaker(i), s, place.descending);
            assert(i == at);
        }
        assert(all == here);
    }
}

/// The condition holds of a row exactly where the row comes after the position.
pub proof fn lemma_seeks<P>(place: Place<P>, w: World, row: Row<P>)
    requires
        well_placed(place),
        place.names.len() > 0,
        all_there(place, row),
    ensures
        sql(branches(place, place.names.len()), w, row) == Cell::Flag(
            comes_after(signs(place, w, row), place.descending),
        ),
        grouped(branches(place, place.names.len())),
        tightness(branches(place, place.names.len())) >= 1,
{
    let n = place.names.len();
    let s = signs(place, w, row);
    lemma_branches(place, n, w, row);
    law_the_condition_selects_what_comes_after(s, place.descending);
    let condition = condition_for(n);
    if condition_holds(condition, s, place.descending) {
        let i = choose|i: int|
            0 <= i < condition.len() && branch_holds(
                #[trigger] condition[i],
                s,
                place.descending,
            );
        assert(condition[i] == tie_breaker(i));
    }
    if exists|i: int|
        0 <= i < n && branch_holds(#[trigger] tie_breaker(i), s, place.descending) {
        let i = choose|i: int|
            0 <= i < n && branch_holds(#[trigger] tie_breaker(i), s, place.descending);
        assert(condition[i] == tie_breaker(i));
    }
}

/// Whatever the row, the text of the condition is read as the condition.
pub proof fn lemma_seek_grouped<P>(place: Place<P>, n: nat)
    requires
        well_placed(place),
        1 <= n <= place.names.len(),
    ensures
        grouped(branches(place, n)),
        tightness(branches(place, n)) >= 1,
{
    let w = World {
        sign: |a: Cell, b: Cell| 0int,
        reckon: |op: Op, a: Cell, b: Cell| Cell::Null,
        minus: |a: Cell| Cell::Null,
        instant: |text: Seq<char>| Cell::Null,
        id: |text: Seq<char>| Cell::Null,
    };
    let row = Row {
        column: |name: Seq<char>| Cell::Flag(true),
        bound: |p: P| Cell::Flag(true),
    };
    lemma_branches(place, n, w, row);
}

/// A row that ties with a position in every column does not come after it.
pub proof fn lemma_a_tie_is_not_after(signs: Seq<int>, descending: Seq<bool>, i: int)
    requires
        0 <= i <= signs.len(),
        forall|j: int| 0 <= j < signs.len() ==> #[trigger] signs[j] == 0,
    ensures
        !crate::paging::after_from(signs, descending, i),
    decreases signs.len() - i,
{
    if i < signs.len() {
        lemma_a_tie_is_not_after(signs, descending, i + 1);
    }
}

} // verus!

//! Which rows come after a position in an ordering.
//!
//! A row is compared with a position column by column. All that matters of a column is its
//! sign: negative where the row's value lies below the position's, zero where the two are
//! equal, positive where it lies above.

use vstd::prelude::*;

verus! {

/// What is asked of one column.
pub enum Check {
    /// That it holds the position's value.
    Equal,
    /// That it lies beyond the position's value, the way the column runs.
    Beyond,
}

/// A column lies beyond a position: above it where it ascends, below it where it descends.
pub open spec fn lies_beyond(sign: int, descending: bool) -> bool {
    if descending {
        sign < 0
    } else {
        sign > 0
    }
}

/// A check holds of a column.
pub open spec fn passes(check: Check, sign: int, descending: bool) -> bool {
    match check {
        Check::Equal => sign == 0,
        Check::Beyond => lies_beyond(sign, descending),
    }
}

/// The branch in which the columns before the `at`th tie, and the `at`th lies beyond.
pub open spec fn tie_breaker(at: int) -> Seq<Check> {
    Seq::new(
        (at + 1) as nat,
        |j: int|
            if j < at {
                Check::Equal
            } else {
                Check::Beyond
            },
    )
}

/// The condition for a position of `n` columns: one of its branches holds.
pub open spec fn condition_for(n: nat) -> Seq<Seq<Check>> {
    Seq::new(n, |i: int| tie_breaker(i))
}

/// Every check of a branch holds.
pub open spec fn branch_holds(branch: Seq<Check>, signs: Seq<int>, descending: Seq<bool>) -> bool {
    forall|j: int|
        0 <= j < branch.len() ==> passes(#[trigger] branch[j], signs[j], descending[j])
}

/// Some branch of a condition holds.
pub open spec fn condition_holds(
    condition: Seq<Seq<Check>>,
    signs: Seq<int>,
    descending: Seq<bool>,
) -> bool {
    exists|i: int|
        0 <= i < condition.len() && branch_holds(#[trigger] condition[i], signs, descending)
}

/// A row comes after a position, judged by the columns from the `i`th on: the first one in
/// which they differ decides.
pub open spec fn after_from(signs: Seq<int>, descending: Seq<bool>, i: int) -> bool
    decreases signs.len() - i,
{
    if !(0 <= i < signs.len()) {
        false
    } else if signs[i] != 0 {
        lies_beyond(signs[i], descending[i])
    } else {
        after_from(signs, descending, i + 1)
    }
}

/// A row comes strictly after a position.
pub open spec fn comes_after(signs: Seq<int>, descending: Seq<bool>) -> bool {
    after_from(signs, descending, 0)
}

proof fn lemma_after_from(signs: Seq<int>, descending: Seq<bool>, at: int)
    requires
        signs.len() == descending.len(),
        0 <= at <= signs.len(),
        forall|j: int| 0 <= j < at ==> #[trigger] signs[j] == 0,
    ensures
        after_from(signs, descending, at) == exists|i: int|
            at <= i < signs.len() && branch_holds(#[trigger] tie_breaker(i), signs, descending),
    decreases signs.len() - at,
{
    if at < signs.len() {
        let here = tie_breaker(at);
        if signs[at] == 0 {
            lemma_after_from(signs, descending, at + 1);
            assert(here[at] == Check::Beyond);
            assert(!branch_holds(here, signs, descending));
            if exists|i: int|
                at <= i < signs.len() && branch_holds(
                    #[trigger] tie_breaker(i),
                    signs,
                    descending,
                ) {
                let i = choose|i: int|
                    at <= i < signs.len() && branch_holds(
                        #[trigger] tie_breaker(i),
                        signs,
                        descending,
                    );
                assert(i != at);
            }
        } else {
            assert forall|i: int| at < i < signs.len() implies !branch_holds(
                #[trigger] tie_breaker(i),
                signs,
                descending,
            ) by {
                assert(tie_breaker(i)[at] == Check::Equal);
            }
            if lies_beyond(signs[at], descending[at]) {
                assert(branch_holds(here, signs, descending));
            } else {
                assert(here[at] == Check::Beyond);
            }
        }
    }
}

/// The condition for a position holds of exactly the rows that come strictly after it,
/// whichever way each column runs.
pub proof fn law_the_condition_selects_what_comes_after(signs: Seq<int>, descending: Seq<bool>)
    requires
        signs.len() == descending.len(),
    ensures
        condition_holds(condition_for(signs.len()), signs, descending) == comes_after(
            signs,
            descending,
        ),
{
    let condition = condition_for(signs.len());
    lemma_after_from(signs, descending, 0);
    if condition_holds(condition, signs, descending) {
        let i = choose|i: int|
            0 <= i < condition.len() && branch_holds(#[trigger] condition[i], signs, descending);
        assert(condition[i] == tie_breaker(i));
    }
    if comes_after(signs, descending) {
        let i = choose|i: int|
            0 <= i < signs.len() && branch_holds(#[trigger] tie_breaker(i), signs, descending);
        assert(condition[i] == tie_breaker(i));
    }
}

/// The signs of a row and a position that trade places.
pub open spec fn turned(signs: Seq<int>) -> Seq<int> {
    signs.map_values(|sign: int| -sign)
}

proof fn lemma_one_side(signs: Seq<int>, descending: Seq<bool>, at: int)
    requires
        signs.len() == descending.len(),
        0 <= at <= signs.len(),
    ensures
        !(after_from(signs, descending, at) && after_from(turned(signs), descending, at)),
        (!after_from(signs, descending, at) && !after_from(turned(signs), descending, at))
            == forall|j: int| at <= j < signs.len() ==> #[trigger] signs[j] == 0,
    decreases signs.len() - at,
{
    if at < signs.len() {
        assert(turned(signs)[at] == -signs[at]);
        if signs[at] == 0 {
            lemma_one_side(signs, descending, at + 1);
        }
    }
}

/// No row is on two pages, and none is between them: of two rows exactly one comes after the
/// other, unless they tie in every column.
pub proof fn law_pages_neither_overlap_nor_skip(signs: Seq<int>, descending: Seq<bool>)
    requires
        signs.len() == descending.len(),
        exists|j: int| 0 <= j < signs.len() && #[trigger] signs[j] != 0,
    ensures
        comes_after(signs, descending) != comes_after(turned(signs), descending),
{
    lemma_one_side(signs, descending, 0);
}

} // verus!

//! One query in two dialects: with numbered placeholders, and with bare ones.

use vstd::prelude::*;

#[allow(unused_imports)]
use crate::composer::compose::{
    all_arguments, all_of, asked_order, composed, condition_of, conditions, has_slot, order_of, slot_named,
    spliced, stands_alone, unnumbered_from, ArgumentView, ComposerView, StatementView,
};
#[allow(unused_imports)]
use crate::composer::error::Fault;
#[allow(unused_imports)]
use crate::composer::grouping::splits;
#[allow(unused_imports)]
use crate::composer::lexer::{
    end_of, first_number, highest_number, law_no_number_is_higher, lemma_step_end, number_of,
    questions, step, tokens_from, tokens_of, values_called_for, TokenView,
};
#[allow(unused_imports)]
use crate::composer::order::order_text;
#[allow(unused_imports)]
use crate::composer::shift::{
    lemma_open_runs_out, lemma_step_moves, lemma_tokens_step, near, open_at, placed,
};
#[allow(unused_imports)]
use crate::composer::splicing::{
    lemma_numbered, lemma_spliced_is_pieces, seen_with, splice_piece, splice_pieces, Splicing,
};
#[allow(unused_imports)]
use crate::composer::syntax::{PlaceholderStyle, QuerySyntax, Quoting};
#[allow(unused_imports)]
use crate::text::{ascii_digit, decimal};

verus! {

// ---------------------------------------------------------------------------
// The two spellings of a text
// ---------------------------------------------------------------------------

/// What is written for the step at `at`, behind `seen` bare `?`, where each is given a number.
pub open spec fn number_piece(s: Seq<char>, q: Quoting, at: int, seen: nat) -> Seq<char> {
    let (token, next) = step(s, q, at);
    match token {
        Some(TokenView::Question { .. }) => "$"@ + decimal(seen + 1),
        _ => s.subrange(at, next),
    }
}

/// How many bare `?` there were, counting this token.
pub open spec fn seen_past(token: Option<TokenView>, seen: nat) -> nat {
    match token {
        Some(TokenView::Question { .. }) => seen + 1,
        _ => seen,
    }
}

/// What is written from `at` on, behind `seen` bare `?`, where each is given a number.
pub open spec fn number_pieces(s: Seq<char>, q: Quoting, at: int, seen: nat) -> Seq<char>
    decreases s.len() - at,
{
    if !(0 <= at < s.len()) {
        Seq::empty()
    } else {
        let (token, next) = step(s, q, at);
        if at < next <= s.len() {
            number_piece(s, q, at, seen) + number_pieces(s, q, next, seen_past(token, seen))
        } else {
            number_piece(s, q, at, seen)
        }
    }
}

/// A text with its bare `?` written `$1`, `$2` and so on, in order.
pub open spec fn numbered(s: Seq<char>, q: Quoting) -> Seq<char> {
    number_pieces(s, q, 0, 0)
}

/// The text from `last` on with the numbered placeholders from the `i`th token on written as
/// `?`, behind what was written.
pub open spec fn questioned_from(
    s: Seq<char>,
    tokens: Seq<TokenView>,
    i: int,
    last: int,
    out: Seq<char>,
) -> Seq<char>
    decreases tokens.len() - i,
{
    if !(0 <= i < tokens.len()) {
        out + s.subrange(last, s.len() as int)
    } else {
        match tokens[i] {
            TokenView::Number { start, end, .. } => questioned_from(
                s,
                tokens,
                i + 1,
                end,
                out + s.subrange(last, start) + "?"@,
            ),
            _ => questioned_from(s, tokens, i + 1, last, out),
        }
    }
}

/// A text with every numbered placeholder written as `?`.
pub open spec fn questioned(s: Seq<char>, q: Quoting) -> Seq<char> {
    questioned_from(s, tokens_of(s, q), 0, 0, Seq::empty())
}

/// The numbers of the placeholders from the `i`th token on, in textual order.
pub open spec fn numbers_from(tokens: Seq<TokenView>, i: int) -> Seq<nat>
    decreases tokens.len() - i,
{
    if !(0 <= i < tokens.len()) {
        Seq::empty()
    } else {
        match number_of(tokens[i]) {
            Some(number) => seq![number] + numbers_from(tokens, i + 1),
            None => numbers_from(tokens, i + 1),
        }
    }
}

/// The numbers of the placeholders of a text, in textual order.
pub open spec fn numbers_of(s: Seq<char>, q: Quoting) -> Seq<nat> {
    numbers_from(tokens_of(s, q), 0)
}

/// The arguments that numbers name.
pub open spec fn named(numbers: Seq<nat>, arguments: Seq<ArgumentView>) -> Seq<ArgumentView> {
    numbers.map_values(|number: nat| arguments[number - 1])
}

/// Both dialects find the same placeholders and slots in a text: it holds nothing that only one
/// of them quotes.
pub open spec fn read_alike(s: Seq<char>, a: Quoting, b: Quoting) -> bool {
    tokens_of(s, a) == tokens_of(s, b)
}

/// Both dialects agree on whether a condition that was pushed alone has an `OR` of its own.
pub open spec fn joined_alike(c: ComposerView, a: Quoting, b: Quoting) -> bool {
    stands_alone(c) ==> match all_of(conditions(c), conditions(c).len()) {
        Some(clause) => splits(clause.sql, a) == splits(clause.sql, b),
        None => true,
    }
}

/// None of these tokens is a numbered placeholder.
pub open spec fn none_numbered(tokens: Seq<TokenView>) -> bool {
    forall|i: int| 0 <= i < tokens.len() ==> number_of(#[trigger] tokens[i]) is None
}

/// No digit stands right behind one of these bare `?`.
pub open spec fn apart(s: Seq<char>, tokens: Seq<TokenView>) -> bool {
    forall|i: int|
        0 <= i < tokens.len() ==> ((#[trigger] tokens[i]) is Question ==> end_of(tokens[i])
            == s.len() || !ascii_digit(s[end_of(tokens[i])]))
}

/// Every numbered placeholder among these tokens can name an argument: numbers begin at one.
pub open spec fn from_one(tokens: Seq<TokenView>) -> bool {
    forall|i: int|
        0 <= i < tokens.len() ==> (number_of(#[trigger] tokens[i]) matches Some(number) ==> number
            >= 1)
}

// ---------------------------------------------------------------------------
// Reading a numbered text
// ---------------------------------------------------------------------------

/// What is written begins as the text does, but for bare `?`.
proof fn lemma_number_front(s: Seq<char>, q: Quoting, at: int, seen: nat)
    requires
        0 <= at < s.len(),
    ensures
        number_pieces(s, q, at, seen).len() > 0,
        number_pieces(s, q, at, seen)[0] == s[at] || (s[at] == '?' && number_pieces(
            s,
            q,
            at,
            seen,
        )[0] == '$'),
{
    lemma_step_end(s, q, at);
    reveal_strlit("$");
    let first = number_piece(s, q, at, seen);
    assert(first.len() > 0);
    assert(number_pieces(s, q, at, seen)[0] == first[0]);
}

/// What is found in a numbered text for a token of the text, at another place.
pub open spec fn found_for(token: Option<TokenView>, p: int, end: int, seen: nat) -> Option<
    TokenView,
> {
    match token {
        Some(TokenView::Question { .. }) => Some(
            TokenView::Number { start: p, end, number: seen + 1 },
        ),
        Some(token) => Some(placed(token, p, end, 0)),
        None => None,
    }
}

/// A step over a numbered text finds what the step over the text found, with its number.
proof fn lemma_numbered_step(
    s: Seq<char>,
    q: Quoting,
    at: int,
    seen: nat,
    w: Seq<char>,
    p: int,
)
    requires
        0 <= at < s.len() <= usize::MAX,
        seen <= at,
        0 <= p <= w.len(),
        w.subrange(p, w.len() as int) == number_pieces(s, q, at, seen),
        apart(s, tokens_from(s, q, at, Seq::empty())),
        !q.dollar,
    ensures
        ({
            let (token, next) = step(s, q, at);
            let first = number_piece(s, q, at, seen);
            let end = p + first.len();
            &&& at < next <= s.len()
            &&& p < end <= w.len()
            &&& w.subrange(p, end) == first
            &&& w.subrange(end, w.len() as int) == number_pieces(s, q, next, seen_past(token, seen))
            &&& apart(s, tokens_from(s, q, next, Seq::empty()))
            &&& step(w, q, p) == (found_for(token, p, end, seen), end)
        }),
{
    lemma_step_end(s, q, at);
    lemma_tokens_step(s, q, at);
    let (token, next) = step(s, q, at);
    let later = seen_past(token, seen);
    let first = number_piece(s, q, at, seen);
    let behind = number_pieces(s, q, next, later);
    let rest = w.subrange(p, w.len() as int);
    let end = p + first.len();
    reveal_strlit("$");
    assert(rest == first + behind);
    assert(rest.len() == first.len() + behind.len());
    assert(w.subrange(p, end) =~= rest.take(first.len() as int));
    assert(rest.take(first.len() as int) =~= first);
    assert(w.subrange(end, w.len() as int) =~= rest.skip(first.len() as int));
    assert(rest.skip(first.len() as int) =~= behind);
    let all = tokens_from(s, q, at, Seq::empty());
    let tokens_behind = tokens_from(s, q, next, Seq::empty());
    let skipped = all.len() - tokens_behind.len();
    assert(apart(s, tokens_behind)) by {
        assert forall|i: int| 0 <= i < tokens_behind.len() && (
        #[trigger] tokens_behind[i]) is Question implies end_of(tokens_behind[i]) == s.len()
            || !ascii_digit(s[end_of(tokens_behind[i])]) by {
            assert(tokens_behind[i] == all[i + skipped]);
        }
    }
    if next < s.len() {
        lemma_number_front(s, q, next, later);
        assert(rest[first.len() as int] == behind[0]);
        assert(rest[first.len() as int] == w[end]);
    }
    if token matches Some(found) && found is Question {
        assert(all[0] == token->0);
        assert(end < w.len() ==> !ascii_digit(w[end]));
        lemma_numbered(w, q, p, seen + 1, end);
    } else {
        let d = p - at;
        assert forall|i: int| at <= i < next implies #[trigger] s[i] == w[i + d] by {
            assert(rest[i - at] == w[i + d]);
            assert(rest[i - at] == first[i - at]);
        }
        assert(near(s, w, d, at, next));
        if open_at(s, q, at) {
            lemma_open_runs_out(s, q, at);
        }
        lemma_step_moves(s, q, at, w, d);
    }
}

/// `after` are the tokens `before`, one for one, with a number for each bare `?`.
pub open spec fn twins(before: Seq<TokenView>, after: Seq<TokenView>) -> bool {
    &&& before.len() == after.len()
    &&& forall|i: int|
        0 <= i < before.len() ==> match #[trigger] before[i] {
            TokenView::Question { .. } => number_of(after[i]) == Some(
                questions(before, i as nat) + 1,
            ),
            TokenView::Slot { name, suffix, .. } => after[i] matches TokenView::Slot {
                name: same_name,
                suffix: same_suffix,
                ..
            } && name == same_name && suffix == same_suffix,
            TokenView::Number { number, .. } => number_of(after[i]) == Some(number),
        }
}

proof fn lemma_questions_before(tokens: Seq<TokenView>, token: TokenView, n: nat)
    requires
        n <= tokens.len(),
    ensures
        questions(tokens.push(token), n) == questions(tokens, n),
    decreases n,
{
    if n > 0 {
        lemma_questions_before(tokens, token, (n - 1) as nat);
        assert(tokens.push(token)[n - 1] == tokens[n - 1]);
    }
}

/// A numbered text holds the tokens of the text, with a number for each bare `?`.
proof fn lemma_numbered_tokens(
    s: Seq<char>,
    q: Quoting,
    at: int,
    seen: nat,
    w: Seq<char>,
    p: int,
    before: Seq<TokenView>,
    after: Seq<TokenView>,
)
    requires
        0 <= at <= s.len() <= usize::MAX,
        seen <= at,
        0 <= p <= w.len(),
        w.subrange(p, w.len() as int) == number_pieces(s, q, at, seen),
        apart(s, tokens_from(s, q, at, Seq::empty())),
        !q.dollar,
        twins(before, after),
        seen == questions(before, before.len()),
    ensures
        twins(tokens_from(s, q, at, before), tokens_from(w, q, p, after)),
    decreases s.len() - at,
{
    if at == s.len() {
        assert(w.subrange(p, w.len() as int).len() == 0);
    } else {
        lemma_numbered_step(s, q, at, seen, w, p);
        let (token, next) = step(s, q, at);
        let end = p + number_piece(s, q, at, seen).len();
        match token {
            Some(token) => {
                let found = found_for(Some(token), p, end, seen)->0;
                let more = before.push(token);
                let others = after.push(found);
                lemma_questions_before(before, token, before.len());
                assert forall|i: int| 0 <= i < more.len() implies match #[trigger] more[i] {
                    TokenView::Question { .. } => number_of(others[i]) == Some(
                        questions(more, i as nat) + 1,
                    ),
                    TokenView::Slot { name, suffix, .. } => others[i] matches TokenView::Slot {
                        name: same_name,
                        suffix: same_suffix,
                        ..
                    } && name == same_name && suffix == same_suffix,
                    TokenView::Number { number, .. } => number_of(others[i]) == Some(number),
                } by {
                    lemma_questions_before(before, token, i as nat);
                    if i < before.len() {
                        assert(more[i] == before[i]);
                        assert(others[i] == after[i]);
                    }
                }
                lemma_numbered_tokens(
                    s,
                    q,
                    next,
                    seen_past(Some(token), seen),
                    w,
                    end,
                    more,
                    others,
                );
            },
            None => {
                lemma_numbered_tokens(s, q, next, seen, w, end, before, after);
            },
        }
    }
}

/// Splicing writes the same for a text with bare `?` as for the numbered text.
proof fn lemma_same_splice(
    s: Seq<char>,
    bare: Splicing,
    at: int,
    seen: nat,
    w: Seq<char>,
    p: int,
    counted: Splicing,
)
    requires
        0 <= at <= s.len() <= usize::MAX,
        seen <= at,
        0 <= p <= w.len(),
        w.subrange(p, w.len() as int) == number_pieces(s, bare.syntax.quoting, at, seen),
        apart(s, tokens_from(s, bare.syntax.quoting, at, Seq::empty())),
        !bare.syntax.quoting.dollar,
        bare.syntax.placeholder == PlaceholderStyle::Question,
        counted.syntax.placeholder == PlaceholderStyle::Number,
        counted.syntax.quoting == bare.syntax.quoting,
        counted.where_sql == bare.where_sql,
        counted.order_sql == bare.order_sql,
    ensures
        splice_pieces(s, bare, at, seen) == splice_pieces(w, counted, p, 0),
    decreases s.len() - at,
{
    let q = bare.syntax.quoting;
    if at == s.len() {
        assert(w.subrange(p, w.len() as int).len() == 0);
    } else {
        lemma_numbered_step(s, q, at, seen, w, p);
        let (token, next) = step(s, q, at);
        let end = p + number_piece(s, q, at, seen).len();
        lemma_same_splice(s, bare, next, seen_past(token, seen), w, end, counted);
        assert(seen_with(bare, token, seen) == seen_past(token, seen));
        assert(splice_piece(s, bare, at, seen) == splice_piece(w, counted, p, 0));
    }
}

proof fn lemma_counted_numbers(before: Seq<TokenView>, after: Seq<TokenView>, n: nat)
    requires
        twins(before, after),
        none_numbered(before),
        n <= before.len(),
    ensures
        highest_number(after, n) == questions(before, n),
    decreases n,
{
    if n > 0 {
        lemma_counted_numbers(before, after, (n - 1) as nat);
        assert(number_of(before[n - 1]) is None);
    }
}

proof fn lemma_no_first(tokens: Seq<TokenView>, i: int)
    requires
        0 <= i <= tokens.len(),
        none_numbered(tokens),
    ensures
        first_number(tokens, i) is None,
    decreases tokens.len() - i,
{
    if i < tokens.len() {
        assert(number_of(tokens[i]) is None);
        lemma_no_first(tokens, i + 1);
    }
}

proof fn lemma_same_slots(before: Seq<TokenView>, after: Seq<TokenView>, slot: Seq<char>)
    requires
        twins(before, after),
    ensures
        has_slot(before, slot) == has_slot(after, slot),
{
    assert forall|i: int| 0 <= i < before.len() implies slot_named(#[trigger] before[i], slot)
        == slot_named(after[i], slot) by {}
    if has_slot(before, slot) {
        let i = choose|i: int| 0 <= i < before.len() && slot_named(#[trigger] before[i], slot);
        assert(slot_named(after[i], slot));
    }
    if has_slot(after, slot) {
        let i = choose|i: int| 0 <= i < after.len() && slot_named(#[trigger] after[i], slot);
        assert(slot_named(before[i], slot));
    }
}

/// Writing numbered placeholders as `?` picks the argument that each number names.
proof fn lemma_questioned(
    s: Seq<char>,
    tokens: Seq<TokenView>,
    arguments: Seq<ArgumentView>,
    i: int,
    last: int,
    out: Seq<char>,
    picked: Seq<ArgumentView>,
)
    requires
        0 <= i <= tokens.len(),
        from_one(tokens),
        highest_number(tokens, tokens.len()) <= arguments.len(),
    ensures
        unnumbered_from(s, tokens, arguments, i, last, out, picked) == Ok::<StatementView, Fault>(
            StatementView {
                sql: questioned_from(s, tokens, i, last, out),
                arguments: picked + named(numbers_from(tokens, i), arguments),
            },
        ),
    decreases tokens.len() - i,
{
    if i < tokens.len() {
        law_no_number_is_higher(tokens, tokens.len(), i);
        match tokens[i] {
            TokenView::Number { start, end, number } => {
                assert(number_of(tokens[i]) == Some(number));
                let next = out + s.subrange(last, start) + "?"@;
                let more = picked.push(arguments[number - 1]);
                lemma_questioned(s, tokens, arguments, i + 1, end, next, more);
                assert(picked + named(numbers_from(tokens, i), arguments) =~= more + named(
                    numbers_from(tokens, i + 1),
                    arguments,
                ));
            },
            _ => {
                lemma_questioned(s, tokens, arguments, i + 1, last, out, picked);
            },
        }
    } else {
        assert(picked + named(numbers_from(tokens, i), arguments) =~= picked);
    }
}

// ---------------------------------------------------------------------------
// Laws
// ---------------------------------------------------------------------------

/// A query composes to the same statement in every dialect. Where the query with `$1`, `$2` and
/// so on composes to `p`, the query with a `?` in place of each composes to `p` with every
/// numbered placeholder written as `?`, and the value of each `?` is the one that the number
/// names: one value for each reference, in the order of the text.
///
/// Left out are texts that the two dialects quote differently, a digit right behind a `?`, a
/// placeholder `$0`, and a dialect with both bare `?` and dollar quotes.
pub proof fn law_a_query_composes_alike_in_both_spellings(
    c: ComposerView,
    bare: QuerySyntax,
    counted: QuerySyntax,
    p: StatementView,
)
    requires
        bare.placeholder == PlaceholderStyle::Question,
        counted.placeholder == PlaceholderStyle::Number,
        !bare.quoting.dollar,
        c.sql.len() <= usize::MAX,
        none_numbered(tokens_of(c.sql, bare.quoting)),
        apart(c.sql, tokens_of(c.sql, bare.quoting)),
        read_alike(numbered(c.sql, bare.quoting), counted.quoting, bare.quoting),
        joined_alike(c, counted.quoting, bare.quoting),
        composed(ComposerView { sql: numbered(c.sql, bare.quoting), ..c }, counted) == Ok::<
            StatementView,
            Fault,
        >(p),
        read_alike(p.sql, counted.quoting, bare.quoting),
        from_one(tokens_of(p.sql, counted.quoting)),
    ensures
        composed(c, bare) == Ok::<StatementView, Fault>(
            StatementView {
                sql: questioned(p.sql, counted.quoting),
                arguments: named(numbers_of(p.sql, counted.quoting), p.arguments),
            },
        ),
{
    let q = bare.quoting;
    let s = c.sql;
    let w = numbered(s, q);
    let other = ComposerView { sql: w, ..c };
    let before = tokens_of(s, q);
    let after = tokens_of(w, q);
    assert(w.subrange(0, w.len() as int) =~= w);
    lemma_numbered_tokens(s, q, 0, 0, w, 0, Seq::empty(), Seq::empty());
    lemma_counted_numbers(before, after, before.len());
    lemma_no_first(before, 0);
    let required = questions(before, before.len());
    assert(values_called_for(after, counted.placeholder) == Ok::<nat, nat>(required));
    assert(values_called_for(before, bare.placeholder) == Ok::<nat, nat>(required));
    assert(conditions(other) == conditions(c));
    assert(asked_order(other) == asked_order(c));
    let clause = condition_of(c, required, q);
    let order_sql = order_text(order_of(c));
    assert(condition_of(other, required, counted.quoting) == clause);
    assert(order_of(other) == order_of(c));
    lemma_same_slots(before, after, "where"@);
    lemma_same_slots(before, after, "order_by"@);
    let marked = Splicing { syntax: bare, where_sql: clause.sql, order_sql };
    let style = QuerySyntax { placeholder: PlaceholderStyle::Number, quoting: q };
    let plain = Splicing { syntax: style, where_sql: clause.sql, order_sql };
    lemma_same_splice(s, marked, 0, 0, w, 0, plain);
    assert(before.subrange(0, before.len() as int) =~= before);
    assert(after.subrange(0, after.len() as int) =~= after);
    lemma_spliced_is_pieces(s, marked, before, 0, 0, 0, 0, Seq::empty());
    lemma_spliced_is_pieces(w, plain, after, 0, 0, 0, 0, Seq::empty());
    let written = splice_pieces(s, marked, 0, 0);
    assert(spliced(s, bare, clause.sql, order_sql) =~= written);
    assert(spliced(w, style, clause.sql, order_sql) =~= written);
    assert(spliced(w, counted, clause.sql, order_sql) == written);
    let arguments = all_arguments(c, clause);
    assert(all_arguments(other, clause) == arguments);
    assert(p.sql == written && p.arguments == arguments);
    let tokens = tokens_of(written, q);
    lemma_questioned(written, tokens, arguments, 0, 0, Seq::empty(), Seq::empty());
    let values = named(numbers_from(tokens, 0), arguments);
    assert(Seq::<ArgumentView>::empty() + values =~= values);
}

} // verus!

//! What splicing does to the placeholders of a query.

use vstd::prelude::*;

#[allow(unused_imports)]
use crate::composer::compose::{
    composed, condition_of, filled, fragment_for, order_of, spliced, spliced_from, ComposerView,
};
#[allow(unused_imports)]
use crate::composer::lexer::{
    lemma_step_end, number_of, step, tokens_from, tokens_of, TokenView,
};
#[allow(unused_imports)]
use crate::composer::order::order_text;
#[allow(unused_imports)]
use crate::composer::shift::{
    carried, exact, lemma_carried_is_raised, lemma_open_runs_out, lemma_past_tag,
    lemma_run_of_digits, lemma_step_moves, lemma_tokens_carried, lemma_tokens_step, lemma_unraised,
    near, open_at, pieces_from, placed, raisable, raised_token, raised_tokens, settled, stops,
};
#[allow(unused_imports)]
use crate::composer::syntax::{PlaceholderStyle, QuerySyntax, Quoting};
#[allow(unused_imports)]
use crate::lexical::{
    dollar_end, find, lemma_comment_end, lemma_digits_end, lemma_dollar_end, lemma_find,
    lemma_next_or_end, lemma_word_run, next_or_end, pair_at, quoted_end, tag_end, word_run,
};
#[allow(unused_imports)]
use crate::text::{
    ascii_digit, decimal, lemma_decimal_reads_back, word_char,
};

verus! {

/// What goes into the slots of a query, and how the query is read.
pub struct Splicing {
    pub syntax: QuerySyntax,
    pub where_sql: Seq<char>,
    pub order_sql: Seq<char>,
}

/// What a slot is replaced by.
pub open spec fn filling(x: Splicing, name: Seq<char>, suffix: Seq<char>) -> Seq<char> {
    filled(fragment_for(name, x.where_sql, x.order_sql), suffix)
}

/// A token that is given a number: a bare `?` where that is how placeholders are spelled.
pub open spec fn renumbered(x: Splicing, token: Option<TokenView>) -> bool {
    x.syntax.placeholder == PlaceholderStyle::Question && (token matches Some(token)
        && token is Question)
}

/// How many bare `?` there were, counting this token.
pub open spec fn seen_with(x: Splicing, token: Option<TokenView>, seen: nat) -> nat {
    if renumbered(x, token) {
        seen + 1
    } else {
        seen
    }
}

/// What is written for the step at `at`, behind `seen` bare `?`.
pub open spec fn splice_piece(s: Seq<char>, x: Splicing, at: int, seen: nat) -> Seq<char> {
    let (token, next) = step(s, x.syntax.quoting, at);
    match token {
        Some(TokenView::Slot { name, suffix, .. }) => filling(x, name, suffix),
        _ => if renumbered(x, token) {
            "$"@ + decimal(seen + 1)
        } else {
            s.subrange(at, next)
        },
    }
}

/// What is written from `at` on.
pub open spec fn splice_pieces(s: Seq<char>, x: Splicing, at: int, seen: nat) -> Seq<char>
    decreases s.len() - at,
{
    if !(0 <= at < s.len()) {
        Seq::empty()
    } else {
        let (token, next) = step(s, x.syntax.quoting, at);
        if at < next <= s.len() {
            splice_piece(s, x, at, seen) + splice_pieces(s, x, next, seen_with(x, token, seen))
        } else {
            splice_piece(s, x, at, seen)
        }
    }
}

/// The tokens from the `i`th on with every slot replaced by the tokens of what goes into it,
/// and every bare `?` by its number where it is a placeholder.
pub open spec fn replaced_from(tokens: Seq<TokenView>, x: Splicing, i: int, seen: nat) -> Seq<
    TokenView,
>
    decreases tokens.len() - i,
{
    if !(0 <= i < tokens.len()) {
        Seq::empty()
    } else {
        let here = match tokens[i] {
            TokenView::Slot { name, suffix, .. } => tokens_of(
                filling(x, name, suffix),
                x.syntax.quoting,
            ),
            TokenView::Question { start, end } if renumbered(x, Some(tokens[i])) => seq![
                TokenView::Number { start, end, number: seen + 1 },
            ],
            token => seq![token],
        };
        here + replaced_from(tokens, x, i + 1, seen_with(x, Some(tokens[i]), seen))
    }
}

/// A character that what follows it cannot go on with: white space, a parenthesis, a comma.
pub open spec fn loose(c: char) -> bool {
    !word_char(c) && c != '\'' && c != '"' && c != '`' && c != '-' && c != '/' && c != '$' && c
        != '?'
}

/// From `at` on, no slot runs into what stands before or behind it, what goes into it closes
/// what it begins, and no digit stands behind a bare `?` that gets a number.
pub open spec fn roomy_from(s: Seq<char>, x: Splicing, at: int) -> bool
    decreases s.len() - at,
{
    if !(0 <= at < s.len()) {
        true
    } else {
        let (token, next) = step(s, x.syntax.quoting, at);
        &&& match token {
            Some(TokenView::Slot { name, suffix, .. }) => {
                &&& at == 0 || loose(s[at - 1])
                &&& next == s.len() || (stops(s[next]) && s[next] != '?')
                &&& settled(filling(x, name, suffix), x.syntax.quoting)
            },
            _ => renumbered(x, token) ==> next == s.len() || !ascii_digit(s[next]),
        }
        &&& at < next <= s.len() ==> roomy_from(s, x, next)
    }
}

/// No slot of a query runs into what stands before or behind it, what goes into it closes the
/// literals and comments that it begins, and no digit stands behind a bare `?` that gets a
/// number.
pub open spec fn roomy(s: Seq<char>, x: Splicing) -> bool {
    roomy_from(s, x, 0)
}

/// Writing a query piece by piece is what splicing writes.
pub proof fn lemma_spliced_is_pieces(
    s: Seq<char>,
    x: Splicing,
    all: Seq<TokenView>,
    i: int,
    last: int,
    at: int,
    seen: nat,
    out: Seq<char>,
)
    requires
        0 <= last <= at <= s.len(),
        0 <= i <= all.len(),
        all.subrange(i, all.len() as int) == tokens_from(
            s,
            x.syntax.quoting,
            at,
            Seq::empty(),
        ),
    ensures
        spliced_from(
            s,
            all,
            x.syntax.placeholder,
            x.where_sql,
            x.order_sql,
            i,
            last,
            seen,
            out,
        ) == out + s.subrange(last, at) + splice_pieces(s, x, at, seen),
    decreases s.len() - at,
{
    let q = x.syntax.quoting;
    let rest = all.subrange(i, all.len() as int);
    if at == s.len() {
        assert(rest.len() == 0);
        assert(out + s.subrange(last, at) + Seq::<char>::empty() =~= out + s.subrange(last, at));
    } else {
        lemma_tokens_step(s, q, at);
        lemma_step_end(s, q, at);
        let (token, next) = step(s, q, at);
        let behind = tokens_from(s, q, next, Seq::empty());
        let later = seen_with(x, token, seen);
        let tail = splice_pieces(s, x, next, later);
        let first = splice_piece(s, x, at, seen);
        let whole = out + s.subrange(last, at) + splice_pieces(s, x, at, seen);
        match token {
            Some(token) => {
                assert(rest == seq![token] + behind);
                assert(rest.len() == 1 + behind.len());
                assert(all[i] == rest[0]);
                assert(all.subrange(i + 1, all.len() as int) =~= rest.skip(1));
                assert(rest.skip(1) =~= behind);
                match token {
                    TokenView::Slot { start, end, name, suffix } => {
                        let written = out + s.subrange(last, start) + filling(x, name, suffix);
                        lemma_spliced_is_pieces(s, x, all, i + 1, end, next, later, written);
                        assert(written + s.subrange(end, next) + tail =~= whole);
                    },
                    TokenView::Question { start, end } if renumbered(x, Some(token)) => {
                        let written = out + s.subrange(last, start) + "$"@ + decimal(seen + 1);
                        lemma_spliced_is_pieces(s, x, all, i + 1, end, next, later, written);
                        assert(written + s.subrange(end, next) + tail =~= whole);
                    },
                    _ => {
                        lemma_spliced_is_pieces(s, x, all, i + 1, last, next, later, out);
                        assert(out + s.subrange(last, next) + tail =~= whole);
                    },
                }
            },
            None => {
                assert(rest =~= behind);
                lemma_spliced_is_pieces(s, x, all, i, last, next, later, out);
                assert(out + s.subrange(last, next) + tail =~= whole);
            },
        }
    }
}

/// What a step read does not depend on what follows it, where its last character is loose.
proof fn lemma_loose_step(s: Seq<char>, q: Quoting, at: int, w: Seq<char>, d: int)
    requires
        0 <= at < s.len(),
        0 <= at + d,
        step(s, q, at).1 + d <= w.len(),
        loose(s[step(s, q, at).1 - 1]),
        !open_at(s, q, at),
        forall|i: int| at <= i < step(s, q, at).1 ==> #[trigger] s[i] == w[i + d],
    ensures
        step(s, q, at).0 is None,
        step(w, q, at + d) == (None::<TokenView>, step(s, q, at).1 + d),
{
    lemma_step_end(s, q, at);
    let c = s[at];
    let next = step(s, q, at).1;
    assert(w[at + d] == c);
    lemma_ends_in_mark(s, at + 1, c, q.backslash_escapes);
    lemma_ends_in_mark(s, at + 1, c, false);
    lemma_next_or_end(s, at + 1, ']');
    lemma_next_or_end(s, at, '\n');
    lemma_next_is(s, at + 1, ']');
    lemma_next_is(s, at, '\n');
    lemma_comment_end(s, at + 2, 1, q.nested_block_comments);
    lemma_digits_end(s, at + 1);
    if c == '[' && q.bracket_identifiers {
        lemma_same_run(s, w, d, at + 1, ']');
    } else if pair_at(s, at, '-', '-') || (c == '#' && q.hash_line_comments) {
        lemma_same_run(s, w, d, at, '\n');
        if pair_at(s, at, '-', '-') {
            assert(s[at] != '\n' && s[at + 1] != '\n');
            lemma_next_past(s, at);
            assert(s[at + 1] == w[at + 1 + d]);
        }
    } else if c == '$' && !(at + 1 < s.len() && ascii_digit(s[at + 1])) && q.dollar {
        lemma_ends_in_dollar(s, at);
    }
}

proof fn lemma_ends_in_mark(s: Seq<char>, at: int, mark: char, backslash: bool)
    ensures
        quoted_end(s, at, mark, backslash) matches Some(e) ==> 1 <= e <= s.len() && s[e - 1]
            == mark,
    decreases s.len() - at + 2,
{
    if 0 <= at < s.len() {
        lemma_ends_in_mark(s, at + 1, mark, backslash);
        lemma_ends_in_mark(s, at + 2, mark, backslash);
    }
}

proof fn lemma_next_is(s: Seq<char>, at: int, c: char)
    requires
        0 <= at <= s.len(),
    ensures
        next_or_end(s, at, c) < s.len() ==> s[next_or_end(s, at, c)] == c,
    decreases s.len() - at,
{
    if at < s.len() && s[at] != c {
        lemma_next_is(s, at + 1, c);
    }
}

proof fn lemma_next_past(s: Seq<char>, at: int)
    requires
        pair_at(s, at, '-', '-'),
    ensures
        next_or_end(s, at, '\n') >= at + 2,
{
    reveal_with_fuel(next_or_end, 3);
    lemma_next_or_end(s, at + 2, '\n');
}

proof fn lemma_same_run(s: Seq<char>, w: Seq<char>, d: int, at: int, c: char)
    requires
        0 <= at < s.len(),
        0 <= at + d,
        next_or_end(s, at, c) < s.len(),
        next_or_end(s, at, c) + d < w.len(),
        forall|i: int| at <= i <= next_or_end(s, at, c) ==> #[trigger] s[i] == w[i + d],
    ensures
        next_or_end(w, at + d, c) == next_or_end(s, at, c) + d,
    decreases s.len() - at,
{
    assert(s[at] == w[at + d]) by {
        lemma_next_or_end(s, at, c);
    }
    if s[at] != c {
        lemma_next_or_end(s, at + 1, c);
        lemma_same_run(s, w, d, at + 1, c);
    }
}

proof fn lemma_ends_in_dollar(s: Seq<char>, at: int)
    requires
        0 <= at < s.len(),
        s[at] == '$',
    ensures
        dollar_end(s, at) matches Some(Some(e)) ==> at < e <= s.len() && s[e - 1] == '$',
{
    lemma_dollar_end(s, at);
    lemma_word_run(s, at + 1);
    if let Some(e) = tag_end(s, at) {
        let tag = s.subrange(at, e);
        lemma_find(s, e, tag);
        if let Some(p) = find(s, e, tag) {
            assert(s.subrange(p, p + tag.len())[tag.len() - 1] == tag[tag.len() - 1]);
        }
    }
}

/// The number that a bare `?` was given is read back.
pub proof fn lemma_numbered(w: Seq<char>, q: Quoting, p: int, n: nat, end: int)
    requires
        n <= usize::MAX,
        0 <= p < end <= w.len(),
        w.subrange(p, end) == "$"@ + decimal(n),
        end < w.len() ==> !ascii_digit(w[end]),
    ensures
        step(w, q, p) == (Some(TokenView::Number { start: p, end, number: n }), end),
{
    let digits = decimal(n);
    let written = w.subrange(p, end);
    lemma_decimal_reads_back(n);
    reveal_strlit("$");
    assert(written[0] == w[p]);
    assert(written.len() == 1 + digits.len());
    assert forall|i: int| p + 1 <= i < end implies ascii_digit(#[trigger] w[i]) by {
        assert(written[i - p] == w[i]);
        assert(written[i - p] == digits[i - p - 1]);
    }
    lemma_run_of_digits(w, p + 1, end);
    assert(w.subrange(p + 1, end) =~= digits) by {
        assert forall|i: int| 0 <= i < digits.len() implies w.subrange(p + 1, end)[i]
            == digits[i] by {
            assert(written[i + 1] == w[p + 1 + i]);
            assert(written[i + 1] == digits[i]);
        }
    }
    assert(ascii_digit(w[p + 1]));
}

proof fn lemma_numbers_fit(s: Seq<char>, q: Quoting, at: int)
    requires
        0 <= at <= s.len(),
    ensures
        raisable(tokens_from(s, q, at, Seq::empty()), 0),
    decreases s.len() - at,
{
    if at < s.len() {
        lemma_tokens_step(s, q, at);
        let next = step(s, q, at).1;
        lemma_numbers_fit(s, q, next);
        let all = tokens_from(s, q, at, Seq::empty());
        let rest = tokens_from(s, q, next, Seq::empty());
        assert forall|i: int| 0 <= i < all.len() implies (number_of(#[trigger] all[i]) matches Some(
            number,
        ) ==> number + 0 <= usize::MAX) by {
            let skipped = all.len() - rest.len();
            if i >= skipped {
                assert(all[i] == rest[i - skipped]);
            }
        }
    }
}

proof fn lemma_both(
    a: Seq<TokenView>,
    b: Seq<TokenView>,
    c: Seq<TokenView>,
    d: Seq<TokenView>,
)
    requires
        raised_tokens(a, b, 0),
        raised_tokens(c, d, 0),
    ensures
        raised_tokens(a + c, b + d, 0),
{
    assert forall|i: int| 0 <= i < (a + c).len() implies raised_token(
        #[trigger] (a + c)[i],
        (b + d)[i],
        0,
    ) by {
        if i < a.len() {
            assert(raised_token(a[i], b[i], 0));
        } else {
            assert(raised_token(c[i - a.len()], d[i - a.len()], 0));
        }
    }
}

/// What is written begins as the query does, but for slots and bare `?`.
proof fn lemma_splice_front(s: Seq<char>, x: Splicing, at: int, seen: nat)
    requires
        0 <= at < s.len(),
        !(step(s, x.syntax.quoting, at).0 matches Some(token) && token is Slot),
    ensures
        ({
            let rest = splice_pieces(s, x, at, seen);
            &&& rest.len() > 0
            &&& if renumbered(x, step(s, x.syntax.quoting, at).0) {
                s[at] == '?' && rest[0] == '$'
            } else {
                rest[0] == s[at]
            }
        }),
{
    lemma_step_end(s, x.syntax.quoting, at);
    reveal_strlit("$");
    let first = splice_piece(s, x, at, seen);
    assert(first.len() > 0);
    assert(splice_pieces(s, x, at, seen)[0] == first[0]);
}

/// A step that is written as it stands is read as it was.
proof fn lemma_kept_step(s: Seq<char>, x: Splicing, at: int, seen: nat, w: Seq<char>, p: int)
    requires
        0 <= at < s.len(),
        0 <= p <= w.len(),
        w.subrange(p, w.len() as int) == splice_pieces(s, x, at, seen),
        roomy_from(s, x, at),
        x.syntax.placeholder == PlaceholderStyle::Question ==> !x.syntax.quoting.dollar,
        !(step(s, x.syntax.quoting, at).0 matches Some(token) && token is Slot),
        !renumbered(x, step(s, x.syntax.quoting, at).0),
    ensures
        ({
            let (token, next) = step(s, x.syntax.quoting, at);
            step(w, x.syntax.quoting, p) == (
                match token {
                    Some(token) => Some(placed(token, p, next + (p - at), 0)),
                    None => None,
                },
                next + (p - at),
            )
        }),
{
    let q = x.syntax.quoting;
    lemma_step_end(s, q, at);
    let (token, next) = step(s, q, at);
    let d = p - at;
    let end = next + d;
    let rest = w.subrange(p, w.len() as int);
    let first = s.subrange(at, next);
    let behind = splice_pieces(s, x, next, seen);
    assert(rest == first + behind);
    assert(rest.len() == first.len() + behind.len());
    assert forall|i: int| at <= i < next implies #[trigger] s[i] == w[i + d] by {
        assert(rest[i - at] == w[i + d]);
        assert(rest[i - at] == first[i - at]);
    }
    if next < s.len() && (step(s, q, next).0 matches Some(token) && token is Slot) {
        assert(roomy_from(s, x, next));
        assert(loose(s[next - 1]));
        if open_at(s, q, at) {
            lemma_open_runs_out(s, q, at);
        }
        lemma_loose_step(s, q, at, w, d);
    } else {
        if next < s.len() {
            lemma_splice_front(s, x, next, seen);
            assert(rest[first.len() as int] == behind[0]);
            assert(rest[first.len() as int] == w[end]);
        }
        assert(near(s, w, d, at, next));
        if open_at(s, q, at) {
            lemma_open_runs_out(s, q, at);
        }
        if q.dollar && s[at] == '$' && !(at + 1 < s.len() && ascii_digit(s[at + 1])) {
            lemma_kept_word(s, x, at, seen, w, p);
        }
        lemma_step_moves(s, q, at, w, d);
    }
}

/// A tag, or what might have become one, is written as it stands.
proof fn lemma_kept_word(s: Seq<char>, x: Splicing, at: int, seen: nat, w: Seq<char>, p: int)
    requires
        0 <= at < s.len(),
        0 <= p <= w.len(),
        w.subrange(p, w.len() as int) == splice_pieces(s, x, at, seen),
        roomy_from(s, x, at),
        x.syntax.placeholder == PlaceholderStyle::Number,
        x.syntax.quoting.dollar,
        s[at] == '$',
        !(at + 1 < s.len() && ascii_digit(s[at + 1])),
        near(s, w, p - at, at, step(s, x.syntax.quoting, at).1),
    ensures
        near(s, w, p - at, at, word_run(s, at + 1)),
        exact(s, w, p - at, word_run(s, at + 1)),
{
    let q = x.syntax.quoting;
    let d = p - at;
    lemma_step_end(s, q, at);
    lemma_word_run(s, at + 1);
    let next = step(s, q, at).1;
    let e = word_run(s, at + 1);
    if next == at + 1 {
        let rest = w.subrange(p, w.len() as int);
        let behind = splice_pieces(s, x, next, seen);
        assert(rest == s.subrange(at, next) + behind);
        assert(w.subrange(p + 1, w.len() as int) =~= rest.skip(1));
        assert(rest.skip(1) =~= behind);
        assert(!loose(s[at]));
        lemma_word_kept(s, x, next, seen, w, p + 1);
        assert(s[at] == w[at + d]);
    } else {
        lemma_past_tag(s, q, at);
        assert(s[e] == w[e + d]);
    }
}

/// A run of word characters is written as it stands.
proof fn lemma_word_kept(s: Seq<char>, x: Splicing, at: int, seen: nat, w: Seq<char>, p: int)
    requires
        0 < at <= s.len(),
        0 <= p <= w.len(),
        w.subrange(p, w.len() as int) == splice_pieces(s, x, at, seen),
        roomy_from(s, x, at),
        x.syntax.placeholder == PlaceholderStyle::Number,
        !loose(s[at - 1]),
    ensures
        near(s, w, p - at, at, word_run(s, at)),
        exact(s, w, p - at, word_run(s, at)),
    decreases s.len() - at,
{
    let q = x.syntax.quoting;
    let rest = w.subrange(p, w.len() as int);
    if at == s.len() {
        assert(rest.len() == 0);
    } else {
        lemma_splice_front(s, x, at, seen);
        assert(rest[0] == w[p]);
        if word_char(s[at]) {
            assert(step(s, q, at) == (None::<TokenView>, at + 1));
            let behind = splice_pieces(s, x, at + 1, seen);
            assert(rest == s.subrange(at, at + 1) + behind);
            assert(w.subrange(p + 1, w.len() as int) =~= rest.skip(1));
            assert(rest.skip(1) =~= behind);
            lemma_word_kept(s, x, at + 1, seen, w, p + 1);
            lemma_word_run(s, at + 1);
        }
    }
}

/// What was spliced is read as the tokens of the query, each slot replaced.
proof fn lemma_spliced_tokens(
    s: Seq<char>,
    x: Splicing,
    all: Seq<TokenView>,
    i: int,
    at: int,
    seen: nat,
    w: Seq<char>,
    p: int,
)
    requires
        0 <= at <= s.len() <= usize::MAX,
        seen <= at,
        0 <= p <= w.len(),
        w.subrange(p, w.len() as int) == splice_pieces(s, x, at, seen),
        roomy_from(s, x, at),
        x.syntax.placeholder == PlaceholderStyle::Question ==> !x.syntax.quoting.dollar,
        0 <= i <= all.len(),
        all.subrange(i, all.len() as int) == tokens_from(
            s,
            x.syntax.quoting,
            at,
            Seq::empty(),
        ),
    ensures
        raised_tokens(
            replaced_from(all, x, i, seen),
            tokens_from(w, x.syntax.quoting, p, Seq::empty()),
            0,
        ),
    decreases s.len() - at,
{
    let q = x.syntax.quoting;
    let left = all.subrange(i, all.len() as int);
    let rest = w.subrange(p, w.len() as int);
    if at == s.len() {
        assert(left.len() == 0);
        assert(rest.len() == 0);
    } else {
        lemma_tokens_step(s, q, at);
        lemma_step_end(s, q, at);
        let (token, next) = step(s, q, at);
        let later = seen_with(x, token, seen);
        let first = splice_piece(s, x, at, seen);
        let behind = splice_pieces(s, x, next, later);
        let end = p + first.len();
        assert(rest == first + behind);
        assert(rest.len() == first.len() + behind.len());
        assert(w.subrange(p, end) =~= rest.take(first.len() as int));
        assert(rest.take(first.len() as int) =~= first);
        assert(w.subrange(end, w.len() as int) =~= rest.skip(first.len() as int));
        assert(rest.skip(first.len() as int) =~= behind);
        let tokens_behind = tokens_from(s, q, next, Seq::empty());
        let j = if token is Some {
            i + 1
        } else {
            i
        };
        if let Some(token) = token {
            assert(left == seq![token] + tokens_behind);
            assert(left.len() == 1 + tokens_behind.len());
            assert(all[i] == left[0]);
            assert(all.subrange(i + 1, all.len() as int) =~= left.skip(1));
            assert(left.skip(1) =~= tokens_behind);
        } else {
            assert(left =~= tokens_behind);
        }
        lemma_spliced_tokens(s, x, all, j, next, later, w, end);
        let after = tokens_from(w, q, end, Seq::empty());
        let expected = replaced_from(all, x, j, later);
        if token matches Some(token) && token is Slot {
            lemma_slot_read(s, x, at, seen, w, p);
            let inside = first;
            lemma_carried_is_raised(inside, q, 0, 0, p);
            lemma_both(tokens_of(inside, q), carried(inside, q, 0, 0, p), expected, after);
        } else if renumbered(x, token) {
            lemma_question_read(s, x, at, seen, w, p);
            lemma_tokens_step(w, q, p);
            let found = TokenView::Number { start: p, end, number: seen + 1 };
            let asked = TokenView::Number { start: at, end: next, number: seen + 1 };
            assert(raised_tokens(seq![asked], seq![found], 0));
            lemma_both(seq![asked], seq![found], expected, after);
        } else {
            lemma_kept_step(s, x, at, seen, w, p);
            lemma_tokens_step(w, q, p);
            assert(end == next + (p - at));
            match token {
                Some(token) => {
                    let found = placed(token, p, end, 0);
                    assert(raised_tokens(seq![token], seq![found], 0));
                    lemma_both(seq![token], seq![found], expected, after);
                },
                None => {
                    assert(Seq::<TokenView>::empty() + after =~= after);
                },
            }
        }
    }
}

/// What goes into a slot is read on its own.
proof fn lemma_slot_read(s: Seq<char>, x: Splicing, at: int, seen: nat, w: Seq<char>, p: int)
    requires
        0 <= at < s.len(),
        0 <= p <= w.len(),
        w.subrange(p, w.len() as int) == splice_pieces(s, x, at, seen),
        roomy_from(s, x, at),
        step(s, x.syntax.quoting, at).0 matches Some(token) && token is Slot,
    ensures
        ({
            let inside = splice_piece(s, x, at, seen);
            let q = x.syntax.quoting;
            tokens_from(w, q, p, Seq::empty()) == carried(inside, q, 0, 0, p) + tokens_from(
                w,
                q,
                p + inside.len(),
                Seq::empty(),
            )
        }),
{
    let q = x.syntax.quoting;
    lemma_step_end(s, q, at);
    let next = step(s, q, at).1;
    let inside = splice_piece(s, x, at, seen);
    let tail = splice_pieces(s, x, next, seen);
    if next < s.len() {
        assert(roomy_from(s, x, next));
        assert(s[next - 1] == '/');
        lemma_splice_front(s, x, next, seen);
    }
    lemma_unraised(inside, q, 0);
    assert(inside.subrange(0, inside.len() as int) =~= inside);
    lemma_numbers_fit(inside, q, 0);
    assert(w.subrange(p, w.len() as int) == pieces_from(inside, q, 0, 0) + tail);
    assert(w.subrange(p, w.len() as int).len() == inside.len() + tail.len());
    lemma_tokens_carried(inside, q, 0, 0, w, p, tail);
}

/// A bare `?` that was given a number is read with it.
proof fn lemma_question_read(
    s: Seq<char>,
    x: Splicing,
    at: int,
    seen: nat,
    w: Seq<char>,
    p: int,
)
    requires
        0 <= at < s.len() <= usize::MAX,
        seen <= at,
        0 <= p <= w.len(),
        w.subrange(p, w.len() as int) == splice_pieces(s, x, at, seen),
        roomy_from(s, x, at),
        renumbered(x, step(s, x.syntax.quoting, at).0),
    ensures
        ({
            let end = p + splice_piece(s, x, at, seen).len();
            step(w, x.syntax.quoting, p) == (
                Some(TokenView::Number { start: p, end, number: seen + 1 }),
                end,
            )
        }),
{
    let q = x.syntax.quoting;
    lemma_step_end(s, q, at);
    let next = step(s, q, at).1;
    let first = splice_piece(s, x, at, seen);
    let tail = splice_pieces(s, x, next, seen + 1);
    let end = p + first.len();
    let rest = w.subrange(p, w.len() as int);
    reveal_strlit("$");
    lemma_decimal_reads_back(seen + 1);
    assert(rest == first + tail);
    assert(rest.len() == first.len() + tail.len());
    assert(w.subrange(p, end) =~= rest.take(first.len() as int));
    assert(rest.take(first.len() as int) =~= first);
    if next < s.len() {
        assert(roomy_from(s, x, next));
        assert(!loose(s[next - 1]));
        lemma_splice_front(s, x, next, seen + 1);
        assert(rest[first.len() as int] == tail[0]);
        assert(rest[first.len() as int] == w[end]);
    }
    lemma_numbered(w, q, p, seen + 1, end);
}

/// Splicing replaces slots and touches nothing else: the placeholders of the query stay where
/// they are, under the numbers that they have or are given, and those of a fragment stand
/// where its slot stood. Left out are queries whose text runs into a slot, fragments whose
/// literals or comments run on past their end, and a dialect with both bare `?` and dollar
/// quotes.
pub proof fn law_splicing_replaces_only_slots(s: Seq<char>, x: Splicing)
    requires
        s.len() <= usize::MAX,
        roomy(s, x),
        x.syntax.placeholder == PlaceholderStyle::Question ==> !x.syntax.quoting.dollar,
    ensures
        raised_tokens(
            replaced_from(tokens_of(s, x.syntax.quoting), x, 0, 0),
            tokens_of(spliced(s, x.syntax, x.where_sql, x.order_sql), x.syntax.quoting),
            0,
        ),
{
    let all = tokens_of(s, x.syntax.quoting);
    let w = spliced(s, x.syntax, x.where_sql, x.order_sql);
    assert(all.subrange(0, all.len() as int) =~= all);
    lemma_spliced_is_pieces(s, x, all, 0, 0, 0, 0, Seq::empty());
    assert(w =~= splice_pieces(s, x, 0, 0));
    assert(w.subrange(0, w.len() as int) =~= w);
    lemma_spliced_tokens(s, x, all, 0, 0, 0, w, 0);
}

/// A composed statement of a dialect with numbers holds the placeholders of its base query,
/// with those of the condition where its slot stood. Left out is what splicing leaves out.
pub proof fn law_a_statement_keeps_its_placeholders(c: ComposerView, syntax: QuerySyntax)
    requires
        syntax.placeholder == PlaceholderStyle::Number,
        c.sql.len() <= usize::MAX,
        roomy(
            c.sql,
            Splicing {
                syntax,
                where_sql: condition_of(c, c.arguments.len(), syntax.quoting).sql,
                order_sql: order_text(order_of(c)),
            },
        ),
    ensures
        composed(c, syntax) matches Ok(statement) ==> raised_tokens(
            replaced_from(
                tokens_of(c.sql, syntax.quoting),
                Splicing {
                    syntax,
                    where_sql: condition_of(c, c.arguments.len(), syntax.quoting).sql,
                    order_sql: order_text(order_of(c)),
                },
                0,
                0,
            ),
            tokens_of(statement.sql, syntax.quoting),
            0,
        ),
{
    let x = Splicing {
        syntax,
        where_sql: condition_of(c, c.arguments.len(), syntax.quoting).sql,
        order_sql: order_text(order_of(c)),
    };
    law_splicing_replaces_only_slots(c.sql, x);
}

/// Each slot takes its own fragment with its suffix behind it: the condition where it is named
/// `where`, the ordering where it is named `order_by`. Any other slot, and one without a fragment,
/// leaves nothing.
pub proof fn law_each_slot_takes_its_own_fragment(x: Splicing, name: Seq<char>, suffix: Seq<char>)
    ensures
        x.where_sql.len() > 0 ==> filling(x, "where"@, suffix) == x.where_sql + suffix,
        x.order_sql.len() > 0 ==> filling(x, "order_by"@, suffix) == x.order_sql + suffix,
        x.where_sql.len() == 0 ==> filling(x, "where"@, suffix) == Seq::<char>::empty(),
        x.order_sql.len() == 0 ==> filling(x, "order_by"@, suffix) == Seq::<char>::empty(),
        name != "where"@ && name != "order_by"@ ==> filling(x, name, suffix) == Seq::<
            char,
        >::empty(),
{
    reveal_strlit("where");
    reveal_strlit("order_by");
    assert("where"@.len() == 5 && "order_by"@.len() == 8);
}

} // verus!

//! What shifting does to the placeholders of a text.
//!
//! A text is read from left to right, and nothing that is read depends on what stands before
//! it. So a text that is written again piece by piece, with other numbers, is read piece by
//! piece as before, wherever it stands.

use vstd::prelude::*;

#[allow(unused_imports)]
use crate::composer::lexer::{
    after_name, after_white, law_no_number_is_higher, lemma_step_end, max_number, name_char,
    no_star, number_of, or_end, raised_from, shifted, slot_of, step, tokens_from, tokens_of,
    TokenView,
};
#[allow(unused_imports)]
use crate::composer::syntax::Quoting;
#[allow(unused_imports)]
use crate::lexical::{
    comment_end, digits_end, dollar_end, find, lemma_comment_end, lemma_digits_end, lemma_find,
    lemma_next_or_end, lemma_quoted_end, lemma_word_run, next_or_end, pair_at, quoted_end,
    stands_at, tag_end, word_run,
};
#[allow(unused_imports)]
use crate::text::{ascii_digit, decimal, lemma_decimal_reads_back, number, white_space, word_char};

verus! {

// ---------------------------------------------------------------------------
// A text, piece by piece
// ---------------------------------------------------------------------------

/// What is written for the step at `at` when numbers are raised by `offset`.
pub open spec fn piece(s: Seq<char>, q: Quoting, offset: nat, at: int) -> Seq<char> {
    let (token, next) = step(s, q, at);
    match token {
        Some(TokenView::Number { number, .. }) if offset > 0 => "$"@ + decimal(number + offset),
        _ => s.subrange(at, next),
    }
}

/// What is written from `at` on when numbers are raised by `offset`.
pub open spec fn pieces_from(s: Seq<char>, q: Quoting, offset: nat, at: int) -> Seq<char>
    decreases s.len() - at,
{
    if !(0 <= at < s.len()) {
        Seq::empty()
    } else {
        let next = step(s, q, at).1;
        if at < next <= s.len() {
            piece(s, q, offset, at) + pieces_from(s, q, offset, next)
        } else {
            piece(s, q, offset, at)
        }
    }
}

/// A token at another place, with its number raised.
pub open spec fn placed(token: TokenView, start: int, end: int, offset: nat) -> TokenView {
    match token {
        TokenView::Number { number, .. } => TokenView::Number { start, end, number: number + offset
        },
        TokenView::Question { .. } => TokenView::Question { start, end },
        TokenView::Slot { name, suffix, .. } => TokenView::Slot { start, end, name, suffix },
    }
}

/// The tokens of a text from `at` on, where that is written at `p` with its numbers raised.
pub open spec fn carried(s: Seq<char>, q: Quoting, offset: nat, at: int, p: int) -> Seq<TokenView>
    decreases s.len() - at,
{
    if !(0 <= at < s.len()) {
        Seq::empty()
    } else {
        let (token, next) = step(s, q, at);
        let end = p + piece(s, q, offset, at).len();
        let here = match token {
            Some(token) => seq![placed(token, p, end, offset)],
            None => Seq::empty(),
        };
        if at < next <= s.len() {
            here + carried(s, q, offset, next, end)
        } else {
            here
        }
    }
}

/// What begins at `at` is not closed before the text ends.
pub open spec fn open_at(s: Seq<char>, q: Quoting, at: int) -> bool {
    let c = s[at];
    if c == '\'' || c == '"' {
        quoted_end(s, at + 1, c, q.backslash_escapes) is None
    } else if c == '`' && q.backtick_identifiers {
        quoted_end(s, at + 1, c, false) is None
    } else if c == '[' && q.bracket_identifiers {
        next_or_end(s, at + 1, ']') == s.len()
    } else if pair_at(s, at, '-', '-') || (c == '#' && q.hash_line_comments) {
        next_or_end(s, at, '\n') == s.len()
    } else if pair_at(s, at, '/', '*') {
        comment_end(s, at + 2, 1, q.nested_block_comments) is None
    } else if c == '$' && at + 1 < s.len() && ascii_digit(s[at + 1]) {
        false
    } else if c == '$' && q.dollar {
        dollar_end(s, at) == Some(None::<int>)
    } else {
        false
    }
}

/// Everything that begins at or after `at` is closed before the text ends.
pub open spec fn settled_from(s: Seq<char>, q: Quoting, at: int) -> bool
    decreases s.len() - at,
{
    if !(0 <= at < s.len()) {
        true
    } else {
        let next = step(s, q, at).1;
        !open_at(s, q, at) && (at < next <= s.len() ==> settled_from(s, q, next))
    }
}

/// Every literal, quoted identifier and comment of a text is closed, so that what is written
/// behind it is read on its own.
pub open spec fn settled(s: Seq<char>, q: Quoting) -> bool {
    settled_from(s, q, 0)
}

proof fn lemma_tokens_append(s: Seq<char>, q: Quoting, at: int, found: Seq<TokenView>)
    requires
        0 <= at <= s.len(),
    ensures
        tokens_from(s, q, at, found) == found + tokens_from(s, q, at, Seq::empty()),
    decreases s.len() - at,
{
    if at < s.len() {
        lemma_step_end(s, q, at);
        let (token, next) = step(s, q, at);
        let here = match token {
            Some(token) => Seq::empty().push(token),
            None => Seq::empty(),
        };
        let more = match token {
            Some(token) => found.push(token),
            None => found,
        };
        lemma_tokens_append(s, q, next, more);
        lemma_tokens_append(s, q, next, here);
        assert(more =~= found + here);
        assert(tokens_from(s, q, at, found) =~= found + tokens_from(s, q, at, Seq::empty()));
    } else {
        assert(found + Seq::<TokenView>::empty() =~= found);
    }
}

/// The tokens from `at` on are what the step at `at` finds, and those behind it.
pub proof fn lemma_tokens_step(s: Seq<char>, q: Quoting, at: int)
    requires
        0 <= at < s.len(),
    ensures
        ({
            let (token, next) = step(s, q, at);
            let here = match token {
                Some(token) => seq![token],
                None => Seq::empty(),
            };
            tokens_from(s, q, at, Seq::empty()) == here + tokens_from(s, q, next, Seq::empty())
        }),
        at < step(s, q, at).1 <= s.len(),
{
    lemma_step_end(s, q, at);
    let (token, next) = step(s, q, at);
    let here = match token {
        Some(token) => Seq::empty().push(token),
        None => Seq::empty(),
    };
    lemma_tokens_append(s, q, next, here);
    match token {
        Some(token) => {
            assert(here =~= seq![token]);
        },
        None => {},
    }
}

/// Writing a text piece by piece is what raising the numbers of its tokens writes.
proof fn lemma_raised_is_pieces(
    s: Seq<char>,
    q: Quoting,
    all: Seq<TokenView>,
    offset: nat,
    i: int,
    last: int,
    at: int,
    out: Seq<char>,
)
    requires
        offset > 0,
        0 <= last <= at <= s.len(),
        0 <= i <= all.len(),
        all.subrange(i, all.len() as int) == tokens_from(s, q, at, Seq::empty()),
    ensures
        raised_from(s, all, offset, i, last, out) == out + s.subrange(last, at) + pieces_from(
            s,
            q,
            offset,
            at,
        ),
    decreases s.len() - at,
{
    let rest = all.subrange(i, all.len() as int);
    if at == s.len() {
        assert(rest.len() == 0);
        assert(out + s.subrange(last, at) + Seq::<char>::empty() =~= out + s.subrange(last, at));
    } else {
        lemma_tokens_step(s, q, at);
        lemma_step_end(s, q, at);
        let (token, next) = step(s, q, at);
        let behind = tokens_from(s, q, next, Seq::empty());
        let tail = pieces_from(s, q, offset, next);
        match token {
            Some(token) => {
                assert(rest == seq![token] + behind);
                assert(rest.len() == 1 + behind.len());
                assert(all[i] == rest[0]);
                assert(all.subrange(i + 1, all.len() as int) =~= rest.skip(1));
                assert(rest.skip(1) =~= behind);
                match token {
                    TokenView::Number { start, end, number } => {
                        let written = out + s.subrange(last, start) + "$"@ + decimal(
                            number + offset,
                        );
                        lemma_raised_is_pieces(s, q, all, offset, i + 1, end, next, written);
                        assert(written + s.subrange(end, next) + tail =~= out + s.subrange(
                            last,
                            at,
                        ) + pieces_from(s, q, offset, at));
                    },
                    _ => {
                        lemma_raised_is_pieces(s, q, all, offset, i + 1, last, next, out);
                        assert(out + s.subrange(last, next) + tail =~= out + s.subrange(last, at)
                            + pieces_from(s, q, offset, at));
                    },
                }
            },
            None => {
                assert(rest =~= behind);
                lemma_raised_is_pieces(s, q, all, offset, i, last, next, out);
                assert(out + s.subrange(last, next) + tail =~= out + s.subrange(last, at)
                    + pieces_from(s, q, offset, at));
            },
        }
    }
}

/// A text whose numbers are not raised is written as it is.
pub proof fn lemma_unraised(s: Seq<char>, q: Quoting, at: int)
    requires
        0 <= at <= s.len(),
    ensures
        pieces_from(s, q, 0, at) == s.subrange(at, s.len() as int),
    decreases s.len() - at,
{
    if at < s.len() {
        lemma_step_end(s, q, at);
        let next = step(s, q, at).1;
        lemma_unraised(s, q, next);
        assert(s.subrange(at, next) + s.subrange(next, s.len() as int) =~= s.subrange(
            at,
            s.len() as int,
        ));
    }
}

/// Shifting writes a text piece by piece.
pub proof fn lemma_shifted_is_pieces(s: Seq<char>, q: Quoting, offset: nat)
    ensures
        shifted(s, q, offset) == pieces_from(s, q, offset, 0),
{
    if offset == 0 {
        lemma_unraised(s, q, 0);
        assert(s.subrange(0, s.len() as int) =~= s);
    } else {
        let all = tokens_of(s, q);
        assert(all.subrange(0, all.len() as int) =~= all);
        lemma_raised_is_pieces(s, q, all, offset, 0, 0, 0, Seq::empty());
        assert(Seq::<char>::empty() + s.subrange(0, 0) + pieces_from(s, q, offset, 0)
            =~= pieces_from(s, q, offset, 0));
    }
}

// ---------------------------------------------------------------------------
// Reading the same at another place
// ---------------------------------------------------------------------------

/// A character that belongs to nothing that was closed before it.
pub open spec fn stops(c: char) -> bool {
    !word_char(c) && c != '\'' && c != '"' && c != '`' && c != '$' && c != '*' && c != '-'
}

/// What stands in `w` at the place of `b` reads on like `s` does there: both go on with the
/// same character, `w` has a number for a bare `?`, both end, or `s` ends and what follows in
/// `w` does not go on with it.
pub open spec fn meets(s: Seq<char>, w: Seq<char>, d: int, b: int) -> bool {
    if b < s.len() {
        b + d < w.len() && (w[b + d] == s[b] || (s[b] == '?' && w[b + d] == '$'))
    } else {
        b + d == w.len() || (b + d < w.len() && stops(w[b + d]))
    }
}

/// `w` holds `d` further on what `s` holds from `a` up to `b`, and reads on like it.
pub open spec fn near(s: Seq<char>, w: Seq<char>, d: int, a: int, b: int) -> bool {
    &&& 0 <= a && 0 <= a + d
    &&& 0 <= b <= s.len() && 0 <= b + d <= w.len()
    &&& forall|i: int| a <= i < b ==> #[trigger] s[i] == w[i + d]
    &&& meets(s, w, d, b)
}

/// What stands in `w` at the place of `b` is what stands in `s` there, if anything does.
pub open spec fn exact(s: Seq<char>, w: Seq<char>, d: int, b: int) -> bool {
    b < s.len() ==> b + d < w.len() && w[b + d] == s[b]
}

/// A position that may be missing, `d` further on.
pub open spec fn further(at: Option<int>, d: int) -> Option<int> {
    match at {
        Some(at) => Some(at + d),
        None => None,
    }
}

proof fn lemma_quoted_moves(
    s: Seq<char>,
    w: Seq<char>,
    d: int,
    at: int,
    mark: char,
    backslash: bool,
)
    requires
        mark == '\'' || mark == '"' || mark == '`',
        near(s, w, d, at, or_end(s, quoted_end(s, at, mark, backslash))),
        quoted_end(s, at, mark, backslash) is None ==> s.len() + d == w.len(),
    ensures
        quoted_end(w, at + d, mark, backslash) == further(quoted_end(s, at, mark, backslash), d),
    decreases s.len() - at + 2,
{
    if at < s.len() {
        lemma_quoted_end(s, at, mark, backslash);
        lemma_quoted_end(s, at + 2, mark, backslash);
        assert(s[at] == w[at + d]);
        if backslash && s[at] == '\\' {
            lemma_quoted_moves(s, w, d, at + 2, mark, backslash);
        } else if s[at] == mark {
            if at + 1 < s.len() && s[at + 1] == mark {
                assert(s[at + 1] == w[at + 1 + d]);
                lemma_quoted_moves(s, w, d, at + 2, mark, backslash);
            }
        } else {
            lemma_quoted_moves(s, w, d, at + 1, mark, backslash);
        }
    }
}

proof fn lemma_next_moves(s: Seq<char>, w: Seq<char>, d: int, at: int, c: char)
    requires
        0 <= at <= s.len(),
        ({
            let end = next_or_end(s, at, c);
            near(
                s,
                w,
                d,
                at,
                if end < s.len() {
                    end + 1
                } else {
                    end
                },
            )
        }),
        next_or_end(s, at, c) == s.len() ==> s.len() + d == w.len(),
    ensures
        next_or_end(w, at + d, c) == next_or_end(s, at, c) + d,
    decreases s.len() - at,
{
    lemma_next_or_end(s, at, c);
    if at < s.len() {
        assert(s[at] == w[at + d]);
        if s[at] != c {
            lemma_next_or_end(s, at + 1, c);
            lemma_next_moves(s, w, d, at + 1, c);
        }
    }
}

proof fn lemma_comment_moves(
    s: Seq<char>,
    w: Seq<char>,
    d: int,
    at: int,
    depth: nat,
    nests: bool,
)
    requires
        0 <= at,
        near(s, w, d, at, or_end(s, comment_end(s, at, depth, nests))),
        comment_end(s, at, depth, nests) is None ==> s.len() + d == w.len(),
    ensures
        comment_end(w, at + d, depth, nests) == further(comment_end(s, at, depth, nests), d),
    decreases s.len() - at,
{
    if at + 1 < s.len() {
        lemma_comment_end(s, at, depth, nests);
        assert(s[at] == w[at + d]);
        assert(s[at + 1] == w[at + 1 + d]);
        if nests && pair_at(s, at, '/', '*') {
            lemma_comment_moves(s, w, d, at + 2, depth + 1, nests);
        } else if pair_at(s, at, '*', '/') {
            if depth > 1 {
                lemma_comment_moves(s, w, d, at + 2, (depth - 1) as nat, nests);
            }
        } else {
            lemma_comment_moves(s, w, d, at + 1, depth, nests);
        }
    }
}

proof fn lemma_white_moves(s: Seq<char>, w: Seq<char>, d: int, at: int, z: int)
    requires
        0 <= at <= z < s.len(),
        0 <= at + d,
        z + d < w.len(),
        !white_space(s[z]),
        forall|i: int| at <= i <= z ==> #[trigger] s[i] == w[i + d],
    ensures
        at <= after_white(s, at) <= z,
        after_white(w, at + d) == after_white(s, at) + d,
    decreases z - at,
{
    assert(s[at] == w[at + d]);
    if white_space(s[at]) {
        lemma_white_moves(s, w, d, at + 1, z);
    }
}

proof fn lemma_name_moves(s: Seq<char>, w: Seq<char>, d: int, at: int, z: int)
    requires
        0 <= at <= z < s.len(),
        0 <= at + d,
        z + d < w.len(),
        !name_char(s[z]),
        forall|i: int| at <= i <= z ==> #[trigger] s[i] == w[i + d],
    ensures
        at <= after_name(s, at) <= z,
        after_name(w, at + d) == after_name(s, at) + d,
    decreases z - at,
{
    assert(s[at] == w[at + d]);
    if name_char(s[at]) {
        lemma_name_moves(s, w, d, at + 1, z);
    }
}

/// A word that reaches over a `*` is not the word that begins a slot.
proof fn lemma_no_slot_word(s: Seq<char>, word: int, z: int)
    requires
        0 <= word <= z < word + 6,
        z < s.len(),
        s[z] == '*',
    ensures
        !stands_at(s, word, "query."@),
{
    reveal_strlit("query.");
    if stands_at(s, word, "query."@) {
        assert(s.subrange(word, word + 6)[z - word] == s[z]);
    }
}

proof fn lemma_slot_moves(s: Seq<char>, w: Seq<char>, d: int, start: int, end: int)
    requires
        0 <= start <= end <= s.len(),
        0 <= start + d,
        end + d <= w.len(),
        forall|i: int| start <= i < end ==> #[trigger] s[i] == w[i + d],
    ensures
        slot_of(w, start + d, end + d) == slot_of(s, start, end),
{
    if end - start >= 4 {
        assert(s[end - 2] == w[end - 2 + d]);
        assert(s[end - 1] == w[end - 1 + d]);
        if pair_at(s, end - 2, '*', '/') {
            let z = end - 2;
            assert(!white_space('*'));
            assert(!name_char('*'));
            lemma_white_moves(s, w, d, start + 2, z);
            let word = after_white(s, start + 2);
            reveal_strlit("query.");
            if word + 6 > z {
                lemma_no_slot_word(s, word, z);
                lemma_no_slot_word(w, word + d, z + d);
            } else {
                let name = word + 6;
                assert(s.subrange(word, name) =~= w.subrange(word + d, name + d));
                lemma_name_moves(s, w, d, name, z);
                let rest = after_name(s, name);
                assert(s.subrange(name, rest) =~= w.subrange(name + d, rest + d));
                assert(s.subrange(rest, z) =~= w.subrange(rest + d, z + d));
                assert(no_star(w, rest + d, z + d) == no_star(s, rest, z)) by {
                    if no_star(s, rest, z) {
                        assert forall|i: int| rest + d <= i < z + d implies #[trigger] w[i]
                            != '*' by {
                            assert(s[i - d] == w[i - d + d]);
                        }
                    }
                    if no_star(w, rest + d, z + d) {
                        assert forall|i: int| rest <= i < z implies #[trigger] s[i] != '*' by {
                            assert(w[i + d] != '*');
                        }
                    }
                }
            }
        }
    }
}

proof fn lemma_digits_move(s: Seq<char>, w: Seq<char>, d: int, at: int)
    requires
        0 <= at <= s.len(),
        near(s, w, d, at, digits_end(s, at)),
    ensures
        digits_end(w, at + d) == digits_end(s, at) + d,
    decreases s.len() - at,
{
    lemma_digits_end(s, at);
    if at < s.len() && ascii_digit(s[at]) {
        lemma_digits_end(s, at + 1);
        assert(s[at] == w[at + d]);
        lemma_digits_move(s, w, d, at + 1);
    }
}

proof fn lemma_word_run_moves(s: Seq<char>, w: Seq<char>, d: int, at: int)
    requires
        0 <= at <= s.len(),
        near(s, w, d, at, word_run(s, at)),
    ensures
        word_run(w, at + d) == word_run(s, at) + d,
    decreases s.len() - at,
{
    lemma_word_run(s, at);
    if at < s.len() && word_char(s[at]) {
        lemma_word_run(s, at + 1);
        assert(s[at] == w[at + d]);
        lemma_word_run_moves(s, w, d, at + 1);
    }
}

proof fn lemma_find_moves(
    s: Seq<char>,
    w: Seq<char>,
    d: int,
    at: int,
    needle: Seq<char>,
    end: int,
)
    requires
        0 <= at,
        0 <= at + d,
        end <= s.len(),
        end + d <= w.len(),
        forall|i: int| at <= i < end ==> #[trigger] s[i] == w[i + d],
        match find(s, at, needle) {
            Some(p) => p + needle.len() == end,
            None => end == s.len() && end + d == w.len(),
        },
    ensures
        find(w, at + d, needle) == further(find(s, at, needle), d),
    decreases s.len() - at + 1,
{
    if at + needle.len() <= s.len() {
        lemma_find(s, at, needle);
        assert(at + needle.len() <= end);
        assert(s.subrange(at, at + needle.len()) =~= w.subrange(
            at + d,
            at + d + needle.len(),
        ));
        if !stands_at(s, at, needle) {
            lemma_find_moves(s, w, d, at + 1, needle, end);
        }
    }
}

proof fn lemma_dollar_moves(s: Seq<char>, w: Seq<char>, d: int, at: int)
    requires
        0 <= at < s.len(),
        s[at] == '$',
        !(at + 1 < s.len() && ascii_digit(s[at + 1])),
        near(s, w, d, at, word_run(s, at + 1)),
        exact(s, w, d, word_run(s, at + 1)),
        match dollar_end(s, at) {
            Some(end) => near(s, w, d, at, or_end(s, end)) && (end is None ==> s.len() + d
                == w.len()),
            None => true,
        },
    ensures
        dollar_end(w, at + d) == match dollar_end(s, at) {
            Some(end) => Some(further(end, d)),
            None => None::<Option<int>>,
        },
        !(at + d + 1 < w.len() && ascii_digit(w[at + d + 1])),
{
    lemma_word_run(s, at + 1);
    let e = word_run(s, at + 1);
    assert(near(s, w, d, at + 1, e));
    lemma_word_run_moves(s, w, d, at + 1);
    if at + 1 < e {
        assert(s[at + 1] == w[at + 1 + d]);
    }
    match tag_end(s, at) {
        Some(after) => {
            let tag = s.subrange(at, after);
            let found = find(s, after, tag);
            lemma_find(s, after, tag);
            let end = match found {
                Some(p) => p + tag.len(),
                None => s.len() as int,
            };
            assert(w.subrange(at + d, after + d) =~= tag);
            lemma_find_moves(s, w, d, after, tag, end);
        },
        None => {},
    }
}

/// A step reads the same at another place, as long as what it reads is the same there.
pub proof fn lemma_step_moves(s: Seq<char>, q: Quoting, at: int, w: Seq<char>, d: int)
    requires
        0 <= at < s.len(),
        near(s, w, d, at, step(s, q, at).1),
        open_at(s, q, at) ==> s.len() + d == w.len(),
        q.dollar && s[at] == '$' && !(at + 1 < s.len() && ascii_digit(s[at + 1])) ==> near(
            s,
            w,
            d,
            at,
            word_run(s, at + 1),
        ) && exact(s, w, d, word_run(s, at + 1)),
    ensures
        step(w, q, at + d) == (
            match step(s, q, at).0 {
                Some(token) => Some(placed(token, at + d, step(s, q, at).1 + d, 0)),
                None => None,
            },
            step(s, q, at).1 + d,
        ),
{
    lemma_step_end(s, q, at);
    let c = s[at];
    let next = step(s, q, at).1;
    assert(w[at + d] == c);
    if at + 1 < next {
        assert(s[at + 1] == w[at + 1 + d]);
    }
    if c == '\'' || c == '"' {
        lemma_quoted_moves(s, w, d, at + 1, c, q.backslash_escapes);
    } else if c == '`' && q.backtick_identifiers {
        lemma_quoted_moves(s, w, d, at + 1, c, false);
    } else if c == '[' && q.bracket_identifiers {
        lemma_next_or_end(s, at + 1, ']');
        lemma_next_moves(s, w, d, at + 1, ']');
    } else if pair_at(s, at, '-', '-') || (c == '#' && q.hash_line_comments) {
        lemma_next_or_end(s, at, '\n');
        lemma_next_moves(s, w, d, at, '\n');
    } else if pair_at(s, at, '/', '*') {
        lemma_comment_end(s, at + 2, 1, q.nested_block_comments);
        lemma_comment_moves(s, w, d, at + 2, 1, q.nested_block_comments);
        lemma_slot_moves(s, w, d, at, next);
    } else if c == '$' && at + 1 < s.len() && ascii_digit(s[at + 1]) {
        lemma_digits_end(s, at + 1);
        assert(near(s, w, d, at + 1, next));
        lemma_digits_move(s, w, d, at + 1);
        assert(s.subrange(at + 1, next) =~= w.subrange(at + 1 + d, next + d));
    } else if c == '$' && q.dollar {
        lemma_dollar_moves(s, w, d, at);
    }
}

// ---------------------------------------------------------------------------
// Reading what was written
// ---------------------------------------------------------------------------

/// `w` goes on at `p` with what is written for `s` from `at` on, and then with `tail`.
pub open spec fn carries(
    s: Seq<char>,
    q: Quoting,
    offset: nat,
    at: int,
    w: Seq<char>,
    p: int,
    tail: Seq<char>,
) -> bool {
    &&& 0 <= at <= s.len()
    &&& 0 <= p <= w.len()
    &&& w.subrange(p, w.len() as int) == pieces_from(s, q, offset, at) + tail
    &&& tail.len() > 0 ==> stops(tail[0])
}

/// What is written begins as the text does.
proof fn lemma_front(
    s: Seq<char>,
    q: Quoting,
    offset: nat,
    at: int,
    w: Seq<char>,
    p: int,
    tail: Seq<char>,
)
    requires
        carries(s, q, offset, at, w, p, tail),
    ensures
        meets(s, w, p - at, at),
        exact(s, w, p - at, at),
{
    let rest = w.subrange(p, w.len() as int);
    if at < s.len() {
        lemma_step_end(s, q, at);
        reveal_strlit("$");
        let first = piece(s, q, offset, at);
        assert(first.len() > 0 && first[0] == s[at]);
        assert(rest.len() >= first.len());
        assert(rest[0] == first[0]);
        assert(rest[0] == w[p]);
    } else {
        assert(rest.len() == tail.len());
        if tail.len() > 0 {
            assert(rest[0] == tail[0]);
            assert(rest[0] == w[p]);
        }
    }
}

/// What is written goes on behind its first piece.
proof fn lemma_carries_on(
    s: Seq<char>,
    q: Quoting,
    offset: nat,
    at: int,
    w: Seq<char>,
    p: int,
    tail: Seq<char>,
)
    requires
        carries(s, q, offset, at, w, p, tail),
        at < s.len(),
    ensures
        ({
            let first = piece(s, q, offset, at);
            &&& p + first.len() <= w.len()
            &&& w.subrange(p, p + first.len()) == first
            &&& carries(s, q, offset, step(s, q, at).1, w, p + first.len(), tail)
        }),
        at < step(s, q, at).1 <= s.len(),
{
    lemma_step_end(s, q, at);
    let first = piece(s, q, offset, at);
    let next = step(s, q, at).1;
    let rest = w.subrange(p, w.len() as int);
    let behind = pieces_from(s, q, offset, next) + tail;
    assert(rest =~= first + behind);
    let end = p + first.len();
    assert(rest.len() == first.len() + behind.len());
    assert(w.subrange(p, end) =~= rest.take(first.len() as int));
    assert(rest.take(first.len() as int) =~= first);
    assert(w.subrange(end, w.len() as int) =~= rest.skip(first.len() as int));
    assert(rest.skip(first.len() as int) =~= behind);
}

/// A run of word characters is written as it is.
proof fn lemma_word_run_near(
    s: Seq<char>,
    q: Quoting,
    offset: nat,
    at: int,
    w: Seq<char>,
    p: int,
    tail: Seq<char>,
)
    requires
        carries(s, q, offset, at, w, p, tail),
    ensures
        near(s, w, p - at, at, word_run(s, at)),
        exact(s, w, p - at, word_run(s, at)),
    decreases s.len() - at,
{
    lemma_front(s, q, offset, at, w, p, tail);
    if at < s.len() && word_char(s[at]) {
        assert(step(s, q, at) == (None::<TokenView>, at + 1));
        lemma_carries_on(s, q, offset, at, w, p, tail);
        assert(piece(s, q, offset, at).len() == 1);
        lemma_word_run_near(s, q, offset, at + 1, w, p + 1, tail);
        lemma_word_run(s, at + 1);
    }
}

/// A number that was raised is read with its new number.
proof fn lemma_number_moves(
    s: Seq<char>,
    q: Quoting,
    offset: nat,
    at: int,
    w: Seq<char>,
    p: int,
    tail: Seq<char>,
)
    requires
        carries(s, q, offset, at, w, p, tail),
        at < s.len(),
        offset > 0,
        step(s, q, at).0 matches Some(TokenView::Number { number, .. }) && number + offset
            <= usize::MAX,
    ensures
        ({
            let end = p + piece(s, q, offset, at).len();
            step(w, q, p) == (Some(placed(step(s, q, at).0->0, p, end, offset)), end)
        }),
{
    lemma_carries_on(s, q, offset, at, w, p, tail);
    lemma_step_end(s, q, at);
    let next = step(s, q, at).1;
    let n = number_of(step(s, q, at).0->0)->0;
    let digits = decimal(n + offset);
    let first = piece(s, q, offset, at);
    let end = p + first.len();
    lemma_decimal_reads_back(n + offset);
    reveal_strlit("$");
    assert(first =~= "$"@ + digits);
    let written = w.subrange(p, end);
    assert(written[0] == w[p]);
    assert forall|i: int| p + 1 <= i < end implies ascii_digit(#[trigger] w[i]) by {
        assert(written[i - p] == w[i]);
        assert(first[i - p] == digits[i - p - 1]);
    }
    lemma_front(s, q, offset, next, w, end, tail);
    lemma_digits_end(s, at + 1);
    assert(end < w.len() ==> !ascii_digit(w[end]));
    lemma_run_of_digits(w, p + 1, end);
    assert(w.subrange(p + 1, end) =~= digits) by {
        assert forall|i: int| 0 <= i < digits.len() implies w.subrange(p + 1, end)[i]
            == digits[i] by {
            assert(written[i + 1] == w[p + 1 + i]);
            assert(first[i + 1] == digits[i]);
        }
    }
    assert(ascii_digit(w[p + 1]));
}

/// Digits with something else behind them are a whole run.
pub proof fn lemma_run_of_digits(w: Seq<char>, at: int, end: int)
    requires
        0 <= at <= end <= w.len(),
        forall|i: int| at <= i < end ==> ascii_digit(#[trigger] w[i]),
        end < w.len() ==> !ascii_digit(w[end]),
    ensures
        digits_end(w, at) == end,
    decreases end - at,
{
    if at < end {
        assert(ascii_digit(w[at]));
        lemma_run_of_digits(w, at + 1, end);
    }
}

/// Every number among these tokens can be raised by `offset`.
pub open spec fn raisable(tokens: Seq<TokenView>, offset: nat) -> bool {
    forall|i: int|
        0 <= i < tokens.len() ==> (number_of(#[trigger] tokens[i]) matches Some(number) ==> number
            + offset <= usize::MAX)
}

/// A step over what was written finds what the step over the text found, with its number
/// raised.
proof fn lemma_step_carried(
    s: Seq<char>,
    q: Quoting,
    offset: nat,
    at: int,
    w: Seq<char>,
    p: int,
    tail: Seq<char>,
)
    requires
        carries(s, q, offset, at, w, p, tail),
        at < s.len(),
        tail.len() > 0 ==> settled_from(s, q, at),
        step(s, q, at).0 matches Some(TokenView::Number { number, .. }) ==> number + offset
            <= usize::MAX,
    ensures
        ({
            let end = p + piece(s, q, offset, at).len();
            step(w, q, p) == (
                match step(s, q, at).0 {
                    Some(token) => Some(placed(token, p, end, offset)),
                    None => None,
                },
                end,
            )
        }),
{
    lemma_carries_on(s, q, offset, at, w, p, tail);
    lemma_step_end(s, q, at);
    let (token, next) = step(s, q, at);
    let first = piece(s, q, offset, at);
    let end = p + first.len();
    let d = p - at;
    reveal_strlit("$");
    assert(end > p);
    if offset > 0 && (token matches Some(token) && token is Number) {
        lemma_number_moves(s, q, offset, at, w, p, tail);
    } else {
        lemma_front(s, q, offset, next, w, end, tail);
        assert(first == s.subrange(at, next));
        assert(end == next + d);
        assert forall|i: int| at <= i < next implies #[trigger] s[i] == w[i + d] by {
            assert(w.subrange(p, end)[i - at] == w[i + d]);
            assert(first[i - at] == s[i]);
        }
        assert(near(s, w, d, at, next));
        if s[at] == '$' && !(at + 1 < s.len() && ascii_digit(s[at + 1])) {
            lemma_word_run(s, at + 1);
            if next == at + 1 {
                lemma_word_run_near(s, q, offset, next, w, end, tail);
                assert(s[at] == w[at + d]);
                assert(near(s, w, d, at, word_run(s, at + 1)));
            } else {
                lemma_past_tag(s, q, at);
                let e = word_run(s, at + 1);
                assert(s[e] == w[e + d]);
                assert(near(s, w, d, at, e));
            }
        }
        if open_at(s, q, at) {
            lemma_open_runs_out(s, q, at);
        }
        lemma_step_moves(s, q, at, w, d);
    }
}

/// What was written is read as the tokens of the text with their numbers raised, and what
/// follows it is read on its own.
pub proof fn lemma_tokens_carried(
    s: Seq<char>,
    q: Quoting,
    offset: nat,
    at: int,
    w: Seq<char>,
    p: int,
    tail: Seq<char>,
)
    requires
        carries(s, q, offset, at, w, p, tail),
        tail.len() > 0 ==> settled_from(s, q, at),
        raisable(tokens_from(s, q, at, Seq::empty()), offset),
    ensures
        tokens_from(w, q, p, Seq::empty()) == carried(s, q, offset, at, p) + tokens_from(
            w,
            q,
            w.len() - tail.len(),
            Seq::empty(),
        ),
    decreases s.len() - at,
{
    let behind = tokens_from(w, q, w.len() - tail.len(), Seq::empty());
    if at == s.len() {
        assert(w.subrange(p, w.len() as int).len() == tail.len());
        assert(carried(s, q, offset, at, p) + behind =~= behind);
    } else {
        lemma_carries_on(s, q, offset, at, w, p, tail);
        lemma_tokens_step(s, q, at);
        lemma_step_end(s, q, at);
        let (token, next) = step(s, q, at);
        let first = piece(s, q, offset, at);
        let end = p + first.len();
        let here = match token {
            Some(token) => seq![placed(token, p, end, offset)],
            None => Seq::empty(),
        };
        let all = tokens_from(s, q, at, Seq::empty());
        let rest = tokens_from(s, q, next, Seq::empty());
        assert(raisable(rest, offset)) by {
            assert forall|i: int| 0 <= i < rest.len() implies (number_of(#[trigger] rest[i]) matches Some(
                number,
            ) ==> number + offset <= usize::MAX) by {
                assert(rest[i] == all[i + (all.len() - rest.len())]);
            }
        }
        if let Some(token) = token {
            assert(all[0] == token);
        }
        lemma_step_carried(s, q, offset, at, w, p, tail);
        lemma_tokens_step(w, q, p);
        lemma_tokens_carried(s, q, offset, next, w, end, tail);
        let later = carried(s, q, offset, next, end);
        assert(tokens_from(w, q, p, Seq::empty()) =~= here + (later + behind));
        assert(here + (later + behind) =~= (here + later) + behind);
    }
}

/// A step over a dollar-quoted body goes past its tag.
pub proof fn lemma_past_tag(s: Seq<char>, q: Quoting, at: int)
    requires
        0 <= at < s.len(),
        s[at] == '$',
        !(at + 1 < s.len() && ascii_digit(s[at + 1])),
        step(s, q, at).1 > at + 1,
    ensures
        word_run(s, at + 1) < step(s, q, at).1,
{
    lemma_word_run(s, at + 1);
    if let Some(e) = tag_end(s, at) {
        lemma_find(s, e, s.subrange(at, e));
    }
}

/// What is not closed runs to the end of the text.
pub proof fn lemma_open_runs_out(s: Seq<char>, q: Quoting, at: int)
    requires
        0 <= at < s.len(),
        open_at(s, q, at),
    ensures
        step(s, q, at).1 == s.len(),
{
}

/// A character with which nothing begins.
pub open spec fn plain(c: char) -> bool {
    c != '\'' && c != '"' && c != '`' && c != '[' && c != '-' && c != '#' && c != '/' && c != '$'
        && c != '?'
}

/// Nothing is found where nothing begins.
pub proof fn lemma_plain_run(w: Seq<char>, q: Quoting, at: int, end: int)
    requires
        0 <= at <= end <= w.len(),
        forall|i: int| at <= i < end ==> plain(#[trigger] w[i]),
    ensures
        tokens_from(w, q, at, Seq::empty()) == tokens_from(w, q, end, Seq::empty()),
    decreases end - at,
{
    if at < end {
        assert(plain(w[at]));
        assert(step(w, q, at) == (None::<TokenView>, at + 1));
        lemma_plain_run(w, q, at + 1, end);
    }
}

/// A shifted text between others is read on its own.
pub proof fn lemma_enclosed_tokens(
    w: Seq<char>,
    q: Quoting,
    p: int,
    lead: Seq<char>,
    s: Seq<char>,
    offset: nat,
    tail: Seq<char>,
)
    requires
        0 <= p <= w.len(),
        w.subrange(p, w.len() as int) == lead + shifted(s, q, offset) + tail,
        forall|i: int| 0 <= i < lead.len() ==> plain(#[trigger] lead[i]),
        tail.len() > 0 ==> stops(tail[0]) && settled(s, q),
        max_number(s, q) + offset <= usize::MAX,
    ensures
        tokens_from(w, q, p, Seq::empty()) == carried(s, q, offset, 0, p + lead.len())
            + tokens_from(w, q, w.len() - tail.len(), Seq::empty()),
{
    let rest = w.subrange(p, w.len() as int);
    let start = p + lead.len();
    assert(rest.len() == lead.len() + shifted(s, q, offset).len() + tail.len());
    assert forall|i: int| p <= i < start implies plain(#[trigger] w[i]) by {
        assert(w[i] == rest[i - p]);
        assert(rest[i - p] == lead[i - p]);
    }
    lemma_plain_run(w, q, p, start);
    lemma_shifted_is_pieces(s, q, offset);
    assert(w.subrange(start, w.len() as int) =~= rest.skip(lead.len() as int));
    assert(rest.skip(lead.len() as int) =~= pieces_from(s, q, offset, 0) + tail);
    lemma_raisable(s, q, offset);
    lemma_tokens_carried(s, q, offset, 0, w, start, tail);
}

// ---------------------------------------------------------------------------
// Laws
// ---------------------------------------------------------------------------

/// `after` is `before` with its number raised, wherever the two stand.
pub open spec fn raised_token(before: TokenView, after: TokenView, offset: nat) -> bool {
    match (before, after) {
        (TokenView::Number { number, .. }, TokenView::Number { number: raised, .. }) => raised
            == number + offset,
        (TokenView::Question { .. }, TokenView::Question { .. }) => true,
        (
            TokenView::Slot { name, suffix, .. },
            TokenView::Slot { name: same_name, suffix: same_suffix, .. },
        ) => name == same_name && suffix == same_suffix,
        _ => false,
    }
}

/// `after` are the tokens `before`, one for one, with their numbers raised.
pub open spec fn raised_tokens(
    before: Seq<TokenView>,
    after: Seq<TokenView>,
    offset: nat,
) -> bool {
    &&& before.len() == after.len()
    &&& forall|i: int|
        0 <= i < before.len() ==> raised_token(#[trigger] before[i], after[i], offset)
}

/// What is carried are the tokens of the text with their numbers raised.
pub proof fn lemma_carried_is_raised(s: Seq<char>, q: Quoting, offset: nat, at: int, p: int)
    requires
        0 <= at <= s.len(),
    ensures
        raised_tokens(
            tokens_from(s, q, at, Seq::empty()),
            carried(s, q, offset, at, p),
            offset,
        ),
    decreases s.len() - at,
{
    if at < s.len() {
        lemma_tokens_step(s, q, at);
        let (token, next) = step(s, q, at);
        let end = p + piece(s, q, offset, at).len();
        lemma_carried_is_raised(s, q, offset, next, end);
        let before = tokens_from(s, q, at, Seq::empty());
        let after = carried(s, q, offset, at, p);
        let rest = tokens_from(s, q, next, Seq::empty());
        let later = carried(s, q, offset, next, end);
        let skipped = before.len() - rest.len();
        assert forall|i: int| 0 <= i < before.len() implies raised_token(
            #[trigger] before[i],
            after[i],
            offset,
        ) by {
            if i >= skipped {
                assert(before[i] == rest[i - skipped]);
                assert(after[i] == later[i - skipped]);
            }
        }
    }
}

/// The numbers of a text can be raised as long as its highest number can.
pub proof fn lemma_raisable(s: Seq<char>, q: Quoting, offset: nat)
    requires
        max_number(s, q) + offset <= usize::MAX,
    ensures
        raisable(tokens_of(s, q), offset),
{
    let tokens = tokens_of(s, q);
    assert forall|i: int| 0 <= i < tokens.len() implies (number_of(#[trigger] tokens[i]) matches Some(
        number,
    ) ==> number + offset <= usize::MAX) by {
        law_no_number_is_higher(tokens, tokens.len(), i);
    }
}

/// Shifting raises every number by the offset and leaves every other token alone: the
/// shifted text holds the same placeholders and slots, in the same order. Left out are
/// numbers that no machine word holds once they are raised.
pub proof fn law_shifting_raises_each_number(s: Seq<char>, q: Quoting, offset: nat)
    requires
        max_number(s, q) + offset <= usize::MAX,
    ensures
        raised_tokens(tokens_of(s, q), tokens_of(shifted(s, q, offset), q), offset),
{
    let w = shifted(s, q, offset);
    lemma_shifted_is_pieces(s, q, offset);
    lemma_raisable(s, q, offset);
    assert(w.subrange(0, w.len() as int) =~= pieces_from(s, q, offset, 0) + Seq::<char>::empty());
    lemma_tokens_carried(s, q, offset, 0, w, 0, Seq::empty());
    lemma_carried_is_raised(s, q, offset, 0, 0);
    assert(carried(s, q, offset, 0, 0) + Seq::<TokenView>::empty() =~= carried(s, q, offset, 0, 0));
}

/// Raising what was raised writes what raising by both writes.
proof fn lemma_raised_twice(s: Seq<char>, q: Quoting, a: nat, b: nat, at: int, w: Seq<char>, p: int)
    requires
        a > 0,
        b > 0,
        carries(s, q, a, at, w, p, Seq::empty()),
        raisable(tokens_from(s, q, at, Seq::empty()), a),
    ensures
        pieces_from(w, q, b, p) == pieces_from(s, q, a + b, at),
    decreases s.len() - at,
{
    if at == s.len() {
        assert(w.subrange(p, w.len() as int).len() == 0);
    } else {
        lemma_carries_on(s, q, a, at, w, p, Seq::empty());
        lemma_tokens_step(s, q, at);
        let (token, next) = step(s, q, at);
        let all = tokens_from(s, q, at, Seq::empty());
        let rest = tokens_from(s, q, next, Seq::empty());
        assert(raisable(rest, a)) by {
            assert forall|i: int| 0 <= i < rest.len() implies (number_of(#[trigger] rest[i]) matches Some(
                number,
            ) ==> number + a <= usize::MAX) by {
                assert(rest[i] == all[i + (all.len() - rest.len())]);
            }
        }
        if let Some(token) = token {
            assert(all[0] == token);
        }
        let first = piece(s, q, a, at);
        let end = p + first.len();
        lemma_step_carried(s, q, a, at, w, p, Seq::empty());
        lemma_step_end(w, q, p);
        lemma_raised_twice(s, q, a, b, next, w, end);
        assert(piece(w, q, b, p) == piece(s, q, a + b, at));
    }
}

/// Two shifts are one shift by both: it does not matter in how many steps a clause is moved.
/// Left out are numbers that no machine word holds once they are raised by the first.
pub proof fn law_two_shifts_are_one(s: Seq<char>, q: Quoting, a: nat, b: nat)
    requires
        max_number(s, q) + a <= usize::MAX,
    ensures
        shifted(shifted(s, q, a), q, b) == shifted(s, q, a + b),
{
    if a > 0 && b > 0 {
        let w = shifted(s, q, a);
        lemma_shifted_is_pieces(s, q, a);
        lemma_shifted_is_pieces(s, q, a + b);
        lemma_shifted_is_pieces(w, q, b);
        lemma_raisable(s, q, a);
        assert(w.subrange(0, w.len() as int) =~= pieces_from(s, q, a, 0) + Seq::<char>::empty());
        lemma_raised_twice(s, q, a, b, 0, w, 0);
    }
}

} // verus!

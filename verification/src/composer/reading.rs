//! What a text is read as: literals, comments, placeholders and slots.

use vstd::prelude::*;

#[allow(unused_imports)]
use crate::composer::lexer::{
    after_name, after_white, highest_number, name_char, no_star, number_of, slot_of, step,
    tokens_from, tokens_of, TokenView,
};
#[allow(unused_imports)]
use crate::composer::syntax::Quoting;
#[allow(unused_imports)]
use crate::lexical::{
    comment_end, digits_end, law_a_dollar_quote_ends_at_its_tag, law_quotes_close_at_their_mark,
    law_the_next_character_is_the_first, lemma_digits_end, next_or_end, pair_at, quotable,
    run_together, stands_at, tag,
};
#[allow(unused_imports)]
use crate::text::{
    ascii_digit, blank, decimal, lacks, law_a_number_is_spelled_in_decimal, number, trim_end,
    white_space,
};
#[allow(unused_imports)]
use crate::composer::lexer::{
    end_of, first_number, in_bytes, questions, start_of, values_called_for,
};
#[allow(unused_imports)]
use crate::composer::syntax::PlaceholderStyle;
#[allow(unused_imports)]
use vstd::utf8::encode_utf8;

verus! {

/// What opens and closes a quoted text of a dialect.
pub open spec fn quotes_with(q: Quoting, mark: char) -> bool {
    mark == '\'' || mark == '"' || mark == '`' && q.backtick_identifiers
}

/// A quoted text is passed over whole, whatever it holds: a placeholder or a comment in it is none.
/// A backslash escapes in it where the dialect says so, though never between backticks.
pub proof fn law_a_quoted_text_is_passed_over(
    before: Seq<char>,
    units: Seq<Seq<char>>,
    after: Seq<char>,
    mark: char,
    q: Quoting,
)
    requires
        quotes_with(q, mark),
        forall|i: int|
            0 <= i < units.len() ==> quotable(
                #[trigger] units[i],
                mark,
                q.backslash_escapes && mark != '`',
            ),
        after.len() > 0 ==> after[0] != mark,
    ensures
        step(
            before + seq![mark] + run_together(units) + seq![mark] + after,
            q,
            before.len() as int,
        ) == (None::<TokenView>, (before.len() + run_together(units).len() + 2) as int),
{
    let s = before + seq![mark] + run_together(units) + seq![mark] + after;
    law_quotes_close_at_their_mark(
        before + seq![mark],
        units,
        after,
        mark,
        q.backslash_escapes && mark != '`',
    );
    assert(s[before.len() as int] == mark);
}

/// Where brackets quote, a name in them is passed over; a line comment is passed over with the end
/// of its line.
pub proof fn law_a_name_in_brackets_and_a_line_comment_are_passed_over(
    before: Seq<char>,
    inside: Seq<char>,
    after: Seq<char>,
    q: Quoting,
)
    ensures
        q.bracket_identifiers && lacks(inside, ']') ==> step(
            before + "["@ + inside + "]"@ + after,
            q,
            before.len() as int,
        ) == (None::<TokenView>, (before.len() + inside.len() + 2) as int),
        lacks(inside, '\n') ==> step(
            before + "--"@ + inside + "\n"@ + after,
            q,
            before.len() as int,
        ) == (None::<TokenView>, (before.len() + inside.len() + 3) as int),
        lacks(inside, '\n') && q.hash_line_comments ==> step(
            before + "#"@ + inside + "\n"@ + after,
            q,
            before.len() as int,
        ) == (None::<TokenView>, (before.len() + inside.len() + 2) as int),
{
    let at = before.len() as int;
    reveal_strlit("[");
    reveal_strlit("]");
    reveal_strlit("--");
    reveal_strlit("#");
    reveal_strlit("\n");
    let named = before + "["@ + inside + "]"@ + after;
    assert(named[at] == '[');
    assert(named.subrange(at + 1, at + 1 + inside.len()) =~= inside);
    if lacks(inside, ']') {
        lemma_next_is(named, at + 1, at + 1 + inside.len(), ']', inside);
    }
    let dashed = before + "--"@ + inside + "\n"@ + after;
    assert(dashed[at] == '-' && dashed[at + 1] == '-');
    let hashed = before + "#"@ + inside + "\n"@ + after;
    assert(hashed[at] == '#');
    assert(dashed.subrange(at + 2, at + 2 + inside.len()) =~= inside);
    assert(hashed.subrange(at + 1, at + 1 + inside.len()) =~= inside);
    if lacks(inside, '\n') {
        lemma_next_is(dashed, at + 2, at + 2 + inside.len(), '\n', inside);
        assert(next_or_end(dashed, at, '\n') == next_or_end(dashed, at + 1, '\n'));
        assert(next_or_end(dashed, at + 1, '\n') == next_or_end(dashed, at + 2, '\n'));
        lemma_next_is(hashed, at + 1, at + 1 + inside.len(), '\n', inside);
        assert(next_or_end(hashed, at, '\n') == next_or_end(hashed, at + 1, '\n'));
    }
}

proof fn lemma_next_is(s: Seq<char>, at: int, end: int, c: char, inside: Seq<char>)
    requires
        0 <= at <= end < s.len(),
        end - at == inside.len(),
        s.subrange(at, end) == inside,
        lacks(inside, c),
        s[end] == c,
    ensures
        next_or_end(s, at, c) == end,
{
    law_the_next_character_is_the_first(s, at, c);
    let found = next_or_end(s, at, c);
    if found < end {
        assert(inside[found - at] == s[found]);
    }
    assert(forall|i: int| at <= i < end ==> s[i] == inside[i - at]);
}

/// A dollar with a number behind it is a placeholder of that number, and a question mark is one
/// without a number.
pub proof fn law_a_placeholder_is_read(before: Seq<char>, n: nat, after: Seq<char>, q: Quoting)
    requires
        n <= usize::MAX,
        after.len() > 0 ==> !ascii_digit(after[0]),
    ensures
        ({
            let start = before.len() as int;
            let end = start + 1 + decimal(n).len();
            step(before + "$"@ + decimal(n) + after, q, start) == (
                Some(TokenView::Number { start, end, number: n }),
                end,
            )
        }),
        ({
            let start = before.len() as int;
            step(before + "?"@ + after, q, start) == (
                Some(TokenView::Question { start, end: start + 1 }),
                start + 1,
            )
        }),
{
    reveal_strlit("$");
    reveal_strlit("?");
    law_a_number_is_spelled_in_decimal(n);
    let start = before.len() as int;
    let s = before + "$"@ + decimal(n) + after;
    let end = start + 1 + decimal(n).len();
    assert(s[start] == '$');
    assert forall|i: int| start + 1 <= i < end implies ascii_digit(#[trigger] s[i]) by {
        assert(s[i] == decimal(n)[i - start - 1]);
    }
    lemma_digits_end(s, start + 1);
    if end < s.len() {
        assert(s[end] == after[0]);
    }
    let found = digits_end(s, start + 1);
    if found < end {
        assert(ascii_digit(s[found]));
    }
    if found > end {
        assert(ascii_digit(s[end]));
    }
    assert(s.subrange(start + 1, end) =~= decimal(n));
    let other = before + "?"@ + after;
    assert(other[start] == '?');
}

/// Where dollars quote, a text between two equal tags is passed over.
pub proof fn law_a_dollar_quoted_text_is_passed_over(
    before: Seq<char>,
    name: Seq<char>,
    after: Seq<char>,
    end: int,
    q: Quoting,
)
    requires
        q.dollar,
        tag(name),
        ({
            let mark = "$"@ + name + "$"@;
            let s = before + mark + after;
            &&& stands_at(s, end, mark)
            &&& end >= before.len() + mark.len()
            &&& forall|i: int|
                before.len() + mark.len() <= i < end ==> !#[trigger] stands_at(s, i, mark)
        }),
    ensures
        step(before + ("$"@ + name + "$"@) + after, q, before.len() as int) == (
            None::<TokenView>,
            end + name.len() + 2,
        ),
{
    reveal_strlit("$");
    let mark = "$"@ + name + "$"@;
    let s = before + mark + after;
    let at = before.len() as int;
    law_a_dollar_quote_ends_at_its_tag(before, name, after, end);
    assert(s[at] == '$');
    if name.len() > 0 {
        assert(s[at + 1] == name[0]);
    } else {
        assert(s[at + 1] == '$');
    }
}

proof fn lemma_comment_runs(s: Seq<char>, at: int, end: int, nests: bool)
    requires
        0 <= at <= end,
        pair_at(s, end, '*', '/'),
        forall|i: int| at <= i < end ==> #[trigger] s[i] != '*',
        at < end ==> s[end - 1] != '/',
    ensures
        comment_end(s, at, 1, nests) == Some(end + 2),
    decreases end - at,
{
    if at < end {
        if at + 1 < end {
            assert(s[at + 1] != '*');
        }
        lemma_comment_runs(s, at + 1, end, nests);
    }
}

proof fn lemma_after_white(s: Seq<char>, at: int, end: int)
    requires
        0 <= at <= end <= s.len(),
        forall|i: int| at <= i < end ==> white_space(#[trigger] s[i]),
        end < s.len() ==> !white_space(s[end]),
    ensures
        after_white(s, at) == end,
    decreases end - at,
{
    if at < end {
        lemma_after_white(s, at + 1, end);
    }
}

proof fn lemma_after_name(s: Seq<char>, at: int, end: int)
    requires
        0 <= at <= end <= s.len(),
        forall|i: int| at <= i < end ==> name_char(#[trigger] s[i]),
        end < s.len() ==> !name_char(s[end]),
    ensures
        after_name(s, at) == end,
    decreases end - at,
{
    if at < end {
        lemma_after_name(s, at + 1, end);
    }
}

proof fn lemma_end_trimmed(s: Seq<char>, tail: Seq<char>)
    requires
        blank(tail, |c: char| white_space(c)),
        s.len() > 0 ==> !white_space(s.last()),
    ensures
        trim_end(s + tail) == s,
    decreases tail.len(),
{
    let whole = s + tail;
    let white = |c: char| white_space(c);
    if tail.len() > 0 {
        let rest = tail.drop_last();
        assert forall|i: int| 0 <= i < rest.len() implies white(#[trigger] rest[i]) by {
            assert(rest[i] == tail[i]);
        }
        lemma_end_trimmed(s, rest);
        assert(white(tail[tail.len() - 1]));
        assert(whole.last() == tail[tail.len() - 1]);
        assert(whole.drop_last() =~= s + rest);
    } else {
        assert(whole =~= s);
    }
}

/// The parts of a comment that is a slot: white space, `query.` and a name, and what stands behind
/// it, which no star is in, with white space at its end.
pub struct SlotText {
    pub lead: Seq<char>,
    pub name: Seq<char>,
    pub suffix: Seq<char>,
    pub tail: Seq<char>,
}

/// The parts fit together: the name ends where the suffix begins, and nothing runs into the end of
/// the comment.
pub open spec fn slot_text(x: SlotText) -> bool {
    &&& blank(x.lead, |c: char| white_space(c))
    &&& blank(x.tail, |c: char| white_space(c))
    &&& x.name.len() > 0
    &&& forall|i: int| 0 <= i < x.name.len() ==> name_char(#[trigger] x.name[i])
    &&& forall|i: int| 0 <= i < x.name.len() ==> #[trigger] x.name[i] != '*' && x.name[i] != '/'
    &&& lacks(x.suffix, '*')
    &&& x.suffix.len() > 0 ==> !name_char(x.suffix[0]) && !white_space(x.suffix.last())
        && x.suffix.last() != '/'
    &&& x.suffix.len() == 0 && x.tail.len() > 0 ==> !name_char(x.tail[0])
}

/// The comment that the parts make.
pub open spec fn slot_comment(x: SlotText) -> Seq<char> {
    "/*"@ + x.lead + "query."@ + x.name + x.suffix + x.tail + "*/"@
}

#[verifier::rlimit(50)]
pub proof fn lemma_slot_comment(before: Seq<char>, x: SlotText, after: Seq<char>, nests: bool)
    requires
        slot_text(x),
    ensures
        ({
            let s = before + slot_comment(x) + after;
            let start = before.len() as int;
            let end = start + slot_comment(x).len();
            let named = start + 2 + x.lead.len() + 6;
            &&& pair_at(s, start, '/', '*')
            &&& pair_at(s, end - 2, '*', '/')
            &&& comment_end(s, start + 2, 1, nests) == Some(end)
            &&& slot_of(s, start, end) == Some((x.name, x.suffix))
            &&& after_white(s, start + 2) + 6 == named
            &&& after_name(s, named) == named + x.name.len()
            &&& next_or_end(s, named + x.name.len(), '*') == end - 2
        }),
{
    reveal_strlit("/*");
    reveal_strlit("*/");
    reveal_strlit("query.");
    let white = |c: char| white_space(c);
    let s = before + slot_comment(x) + after;
    let start = before.len() as int;
    let end = start + slot_comment(x).len();
    let word = start + 2 + x.lead.len();
    let named = word + 6;
    let rest = named + x.name.len();
    let done = rest + x.suffix.len();
    assert(done + x.tail.len() == end - 2);
    assert(s[start] == '/' && s[start + 1] == '*' && s[end - 2] == '*' && s[end - 1] == '/');
    assert forall|i: int| start + 2 <= i < word implies white_space(#[trigger] s[i]) by {
        assert(s[i] == x.lead[i - start - 2]);
        assert(white(x.lead[i - start - 2]));
    }
    assert(s.subrange(word, named) =~= "query."@);
    assert(s[word] == 'q' && s[word + 1] == 'u' && s[word + 2] == 'e' && s[word + 3] == 'r' && s[word
        + 4] == 'y' && s[word + 5] == '.');
    assert forall|i: int| named <= i < rest implies name_char(#[trigger] s[i]) && s[i] != '*' && s[i]
        != '/' by {
        assert(s[i] == x.name[i - named]);
    }
    assert forall|i: int| rest <= i < done implies #[trigger] s[i] != '*' by {
        assert(s[i] == x.suffix[i - rest]);
    }
    assert forall|i: int| done <= i < end - 2 implies white_space(#[trigger] s[i]) && s[i] != '*'
        by {
        assert(s[i] == x.tail[i - done]);
        assert(white(x.tail[i - done]));
    }
    assert(rest < s.len());
    if x.suffix.len() > 0 {
        assert(s[rest] == x.suffix[0]);
        assert(s[done - 1] == x.suffix.last());
    } else if x.tail.len() > 0 {
        assert(s[rest] == x.tail[0]);
    } else {
        assert(s[rest] == '*');
    }
    assert(!name_char(s[rest])) by {
        if x.suffix.len() == 0 && x.tail.len() == 0 {
            assert(s[rest] == '*');
        }
    }
    lemma_after_white(s, start + 2, word);
    lemma_after_name(s, named, rest);
    assert forall|i: int| start + 2 <= i < end - 2 implies #[trigger] s[i] != '*' by {
        if i < word {
            assert(white_space(s[i]));
        } else if i < named {
        } else if i < rest {
        } else if i < done {
        }
    }
    assert(s[end - 3] != '/') by {
        if x.tail.len() > 0 {
            assert(white_space(s[end - 3]));
        } else if x.suffix.len() > 0 {
        } else {
            assert(s[rest - 1] != '/');
        }
    }
    lemma_comment_runs(s, start + 2, end - 2, nests);
    assert(s.subrange(named, rest) =~= x.name);
    assert(s.subrange(rest, end - 2) =~= x.suffix + x.tail);
    lemma_end_trimmed(x.suffix, x.tail);
    assert(no_star(s, rest, end - 2));
    law_the_next_character_is_the_first(s, rest, '*');
    let star = next_or_end(s, rest, '*');
    if star > end - 2 {
        assert(s[end - 2] == '*');
    }
}

/// A comment that names a slot is that slot, wherever it stands: its name is what follows `query.`,
/// and its suffix what stands behind that, without the white space at its end.
pub proof fn law_a_slot_is_read(before: Seq<char>, x: SlotText, after: Seq<char>, q: Quoting)
    requires
        slot_text(x),
    ensures
        ({
            let start = before.len() as int;
            let end = start + slot_comment(x).len();
            step(before + slot_comment(x) + after, q, start) == (
                Some(TokenView::Slot { start, end, name: x.name, suffix: x.suffix }),
                end,
            )
        }),
{
    lemma_slot_comment(before, x, after, q.nested_block_comments);
}

/// Numbers call for as many values as the highest of them says, which one of them carries; it is
/// none where no placeholder has a number.
pub proof fn law_the_highest_number_is_one_of_them(tokens: Seq<TokenView>, n: nat)
    requires
        n <= tokens.len(),
    ensures
        highest_number(tokens, n) > 0 ==> exists|i: int|
            0 <= i < n && number_of(#[trigger] tokens[i]) == Some(highest_number(tokens, n)),
        forall|i: int|
            0 <= i < n ==> (number_of(#[trigger] tokens[i]) matches Some(number) ==> number
                <= highest_number(tokens, n)),
    decreases n,
{
    if n > 0 {
        law_the_highest_number_is_one_of_them(tokens, (n - 1) as nat);
        if highest_number(tokens, n) > 0 {
            if highest_number(tokens, n) != highest_number(tokens, (n - 1) as nat) {
                assert(number_of(tokens[n - 1]) == Some(highest_number(tokens, n)));
            }
        }
    }
}

/// How many of the tokens from the `i`th on are placeholders without a number.
pub open spec fn bare_from(tokens: Seq<TokenView>, i: int) -> nat
    decreases tokens.len() - i,
{
    if !(0 <= i < tokens.len()) {
        0
    } else if tokens[i] is Question {
        bare_from(tokens, i + 1) + 1
    } else {
        bare_from(tokens, i + 1)
    }
}

proof fn lemma_bare(tokens: Seq<TokenView>, n: nat)
    requires
        n <= tokens.len(),
    ensures
        questions(tokens, n) + bare_from(tokens, n as int) == bare_from(tokens, 0),
    decreases n,
{
    if n > 0 {
        lemma_bare(tokens, (n - 1) as nat);
    }
}

proof fn lemma_first_number(tokens: Seq<TokenView>, i: int)
    requires
        0 <= i <= tokens.len(),
    ensures
        match first_number(tokens, i) {
            Some(number) => exists|j: int|
                i <= j < tokens.len() && number_of(#[trigger] tokens[j]) == Some(number)
                    && forall|k: int| i <= k < j ==> number_of(#[trigger] tokens[k]) is None,
            None => forall|j: int| i <= j < tokens.len() ==> number_of(#[trigger] tokens[j]) is None,
        },
    decreases tokens.len() - i,
{
    if i < tokens.len() {
        if number_of(tokens[i]) is Some {
            assert(number_of(tokens[i]) == Some(number_of(tokens[i])->0));
        } else {
            lemma_first_number(tokens, i + 1);
            if let Some(number) = first_number(tokens, i + 1) {
                let j = choose|j: int|
                    i + 1 <= j < tokens.len() && number_of(#[trigger] tokens[j]) == Some(number)
                        && forall|k: int| i + 1 <= k < j ==> number_of(#[trigger] tokens[k]) is None;
                assert(number_of(tokens[j]) == Some(number));
            }
        }
    }
}

/// Where placeholders are bare, a text calls for as many values as it has of them, and is refused
/// with the first number that one of them carries. Where they are numbered, it calls for as many as
/// the highest number says.
pub proof fn law_a_text_calls_for_its_placeholders(tokens: Seq<TokenView>)
    ensures
        match values_called_for(tokens, PlaceholderStyle::Question) {
            Ok(n) => n == bare_from(tokens, 0) && forall|j: int|
                0 <= j < tokens.len() ==> number_of(#[trigger] tokens[j]) is None,
            Err(number) => exists|j: int|
                0 <= j < tokens.len() && number_of(#[trigger] tokens[j]) == Some(number)
                    && forall|k: int| 0 <= k < j ==> number_of(#[trigger] tokens[k]) is None,
        },
        values_called_for(tokens, PlaceholderStyle::Number) == Ok::<nat, nat>(
            highest_number(tokens, tokens.len()),
        ),
{
    lemma_bare(tokens, tokens.len());
    lemma_first_number(tokens, 0);
}

/// A token in bytes is the same token, between the bytes at which its first character stands and
/// behind its last.
pub proof fn law_a_token_in_bytes_is_the_same_token(s: Seq<char>, token: TokenView)
    ensures
        start_of(in_bytes(s, token)) == encode_utf8(s.take(start_of(token))).len(),
        end_of(in_bytes(s, token)) == encode_utf8(s.take(end_of(token))).len(),
        number_of(in_bytes(s, token)) == number_of(token),
        in_bytes(s, token) is Question <==> token is Question,
        in_bytes(s, token) is Slot <==> token is Slot,
        token matches TokenView::Slot { name, suffix, .. } ==> (in_bytes(
            s,
            token,
        ) matches TokenView::Slot { name: same, suffix: behind, .. } && same == name && behind
            == suffix),
{
}

/// A part of a query: a character with which nothing begins, a placeholder with or without a number,
/// a slot, or a text in quotes.
pub enum Part {
    Ink(char),
    Number(nat),
    Question,
    Slot(SlotText),
    Quoted(Seq<Seq<char>>, char),
}

/// The part can be written in a dialect.
pub open spec fn writable(part: Part, q: Quoting) -> bool {
    match part {
        Part::Ink(c) => c != '\'' && c != '"' && c != '`' && c != '[' && c != '-' && c != '#' && c
            != '/' && c != '$' && c != '?',
        Part::Number(n) => n <= usize::MAX,
        Part::Question => true,
        Part::Slot(x) => slot_text(x),
        Part::Quoted(units, mark) => quotes_with(q, mark) && forall|i: int|
            0 <= i < units.len() ==> quotable(
                #[trigger] units[i],
                mark,
                q.backslash_escapes && mark != '`',
            ),
    }
}

/// The text of a part.
pub open spec fn part_text(part: Part) -> Seq<char> {
    match part {
        Part::Ink(c) => seq![c],
        Part::Number(n) => "$"@ + decimal(n),
        Part::Question => "?"@,
        Part::Slot(x) => slot_comment(x),
        Part::Quoted(units, mark) => seq![mark] + run_together(units) + seq![mark],
    }
}

/// The text of the parts from the `i`th on.
pub open spec fn parts_text(parts: Seq<Part>, i: int) -> Seq<char>
    decreases parts.len() - i,
{
    if !(0 <= i < parts.len()) {
        Seq::empty()
    } else {
        part_text(parts[i]) + parts_text(parts, i + 1)
    }
}

/// Nothing runs into what stands behind it: no number into a digit, and no quoted text into its mark.
pub open spec fn apart(parts: Seq<Part>) -> bool {
    forall|i: int|
        0 <= i && i + 1 < parts.len() ==> match #[trigger] parts[i] {
            Part::Number(_) => !ascii_digit(part_text(parts[i + 1])[0]),
            Part::Quoted(_, mark) => part_text(parts[i + 1])[0] != mark,
            _ => true,
        }
}

/// The tokens that the parts from the `i`th on are, where their text begins at `at`.
pub open spec fn tokens_in(parts: Seq<Part>, i: int, at: int) -> Seq<TokenView>
    decreases parts.len() - i,
{
    if !(0 <= i < parts.len()) {
        Seq::empty()
    } else {
        let end = at + part_text(parts[i]).len();
        let here = match parts[i] {
            Part::Number(n) => seq![TokenView::Number { start: at, end, number: n }],
            Part::Question => seq![TokenView::Question { start: at, end }],
            Part::Slot(x) => seq![
                TokenView::Slot { start: at, end, name: x.name, suffix: x.suffix },
            ],
            _ => Seq::empty(),
        };
        here + tokens_in(parts, i + 1, end)
    }
}

proof fn lemma_part_nonempty(part: Part)
    ensures
        part_text(part).len() > 0,
{
    reveal_strlit("$");
    reveal_strlit("?");
    reveal_strlit("/*");
    reveal_strlit("*/");
}

/// The token that a part is, where it stands at `at`.
pub open spec fn token_in(part: Part, at: int) -> Option<TokenView> {
    let end = at + part_text(part).len();
    match part {
        Part::Number(n) => Some(TokenView::Number { start: at, end, number: n }),
        Part::Question => Some(TokenView::Question { start: at, end }),
        Part::Slot(x) => Some(
            TokenView::Slot { start: at, end, name: x.name, suffix: x.suffix },
        ),
        _ => None,
    }
}

#[verifier::rlimit(50)]
proof fn lemma_part_read(before: Seq<char>, part: Part, rest: Seq<char>, q: Quoting)
    requires
        writable(part, q),
        rest.len() > 0 ==> match part {
            Part::Number(_) => !ascii_digit(rest[0]),
            Part::Quoted(_, mark) => rest[0] != mark,
            _ => true,
        },
    ensures
        step(before + part_text(part) + rest, q, before.len() as int) == (
            token_in(part, before.len() as int),
            (before.len() + part_text(part).len()) as int,
        ),
{
    let s = before + part_text(part) + rest;
    let at = before.len() as int;
    lemma_part_nonempty(part);
    assert(s[at] == part_text(part)[0]);
    match part {
        Part::Ink(c) => {
            assert(step(s, q, at) == (None::<TokenView>, at + 1));
        },
        Part::Quoted(units, mark) => {
            law_a_quoted_text_is_passed_over(before, units, rest, mark, q);
            assert(before + seq![mark] + run_together(units) + seq![mark] + rest =~= s);
        },
        Part::Number(n) => {
            reveal_strlit("$");
            law_a_placeholder_is_read(before, n, rest, q);
            assert(before + "$"@ + decimal(n) + rest =~= s);
        },
        Part::Question => {
            reveal_strlit("?");
            assert(s[at] == '?');
        },
        Part::Slot(x) => {
            law_a_slot_is_read(before, x, rest, q);
        },
    }
}

#[verifier::rlimit(50)]
proof fn lemma_tokens_in(
    before: Seq<char>,
    parts: Seq<Part>,
    i: int,
    found: Seq<TokenView>,
    q: Quoting,
)
    requires
        0 <= i <= parts.len(),
        apart(parts),
        forall|j: int| 0 <= j < parts.len() ==> writable(#[trigger] parts[j], q),
    ensures
        tokens_from(before + parts_text(parts, i), q, before.len() as int, found) == found
            + tokens_in(parts, i, before.len() as int),
    decreases parts.len() - i,
{
    let s = before + parts_text(parts, i);
    let at = before.len() as int;
    if i < parts.len() {
        let text = part_text(parts[i]);
        let rest = parts_text(parts, i + 1);
        let next = at + text.len();
        assert(writable(parts[i], q));
        lemma_part_nonempty(parts[i]);
        assert(s =~= before + text + rest);
        if i + 1 < parts.len() {
            lemma_part_nonempty(parts[i + 1]);
            assert(rest[0] == part_text(parts[i + 1])[0]);
        } else {
            assert(rest.len() == 0);
        }
        lemma_part_read(before, parts[i], rest, q);
        assert(before + text + rest =~= (before + text) + rest);
        match token_in(parts[i], at) {
            Some(token) => {
                lemma_tokens_in(before + text, parts, i + 1, found.push(token), q);
                assert(tokens_in(parts, i, at) =~= seq![token] + tokens_in(parts, i + 1, next));
                assert(found + tokens_in(parts, i, at) =~= found.push(token) + tokens_in(
                    parts,
                    i + 1,
                    next,
                ));
            },
            None => {
                lemma_tokens_in(before + text, parts, i + 1, found, q);
                assert(tokens_in(parts, i, at) =~= tokens_in(parts, i + 1, next));
            },
        }
    } else {
        assert(s =~= before);
        assert(found + tokens_in(parts, i, at) =~= found);
    }
}

/// A query has the placeholders and slots that it is written with, in order and where they stand, and
/// no others: none that a quoted text holds.
pub proof fn law_a_query_has_the_tokens_it_is_written_with(parts: Seq<Part>, q: Quoting)
    requires
        apart(parts),
        forall|j: int| 0 <= j < parts.len() ==> writable(#[trigger] parts[j], q),
    ensures
        tokens_of(parts_text(parts, 0), q) == tokens_in(parts, 0, 0),
{
    let none = Seq::<char>::empty();
    lemma_tokens_in(none, parts, 0, Seq::empty(), q);
    assert(none + parts_text(parts, 0) =~= parts_text(parts, 0));
    assert(Seq::<TokenView>::empty() + tokens_in(parts, 0, 0) =~= tokens_in(parts, 0, 0));
}

} // verus!

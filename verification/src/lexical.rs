//! Where the quoted and commented stretches of SQL text end.
//!
//! Nothing here knows what a statement means. It knows which characters belong to a
//! literal, a quoted identifier or a comment, so that what only looks like a placeholder
//! or a slot is left alone.

use vstd::prelude::*;
use vstd::slice::slice_subrange;

use crate::text::is_ascii_digit;
use crate::text::is_word_char;
#[allow(unused_imports)]
use crate::text::{ascii_digit, word_char};

verus! {

/// An index as a mathematical position.
pub open spec fn place(at: Option<usize>) -> Option<int> {
    match at {
        Some(i) => Some(i as int),
        None => None,
    }
}

/// The position after the `mark` that closes a run whose inside begins at `at`. A doubled
/// mark stands for itself; a backslash hides the next character where it escapes.
pub open spec fn quoted_end(s: Seq<char>, at: int, mark: char, backslash: bool) -> Option<int>
    decreases s.len() - at + 2,
{
    if !(0 <= at < s.len()) {
        None
    } else if backslash && s[at] == '\\' {
        quoted_end(s, at + 2, mark, backslash)
    } else if s[at] == mark {
        if at + 1 < s.len() && s[at + 1] == mark {
            quoted_end(s, at + 2, mark, backslash)
        } else {
            Some(at + 1)
        }
    } else {
        quoted_end(s, at + 1, mark, backslash)
    }
}

/// A closed run ends after it began and inside the text.
pub proof fn lemma_quoted_end(s: Seq<char>, at: int, mark: char, backslash: bool)
    ensures
        quoted_end(s, at, mark, backslash) matches Some(e) ==> at < e <= s.len(),
    decreases s.len() - at + 2,
{
    if 0 <= at < s.len() {
        lemma_quoted_end(s, at + 1, mark, backslash);
        lemma_quoted_end(s, at + 2, mark, backslash);
    }
}

/// Finds the end of a quoted run.
pub fn close_quoted(s: &[char], from: usize, mark: char, backslash: bool) -> (r: Option<usize>)
    ensures
        place(r) == quoted_end(s@, from as int, mark, backslash),
        r matches Some(e) ==> from < e <= s.len(),
{
    let mut at: usize = from;
    while at < s.len()
        invariant
            from <= at,
            quoted_end(s@, from as int, mark, backslash) == quoted_end(
                s@,
                at as int,
                mark,
                backslash,
            ),
        decreases s.len() - at,
    {
        if backslash && s[at] == '\\' {
            if s.len() - at <= 2 {
                assert(quoted_end(s@, at + 2, mark, backslash) is None);
                return None;
            }
            at += 2;
        } else if s[at] == mark {
            if at + 1 < s.len() && s[at + 1] == mark {
                if s.len() - at <= 2 {
                    assert(quoted_end(s@, at + 2, mark, backslash) is None);
                    return None;
                }
                at += 2;
            } else {
                return Some(at + 1);
            }
        } else {
            at += 1;
        }
    }
    None
}

/// The first position at or after `at` that holds `c`, or the end of the text.
pub open spec fn next_or_end(s: Seq<char>, at: int, c: char) -> int
    decreases s.len() - at,
{
    if !(0 <= at < s.len()) {
        s.len() as int
    } else if s[at] == c {
        at
    } else {
        next_or_end(s, at + 1, c)
    }
}

/// Finds the next `c`.
pub fn seek_char(s: &[char], from: usize, c: char) -> (r: usize)
    requires
        from <= s.len(),
    ensures
        r == next_or_end(s@, from as int, c),
        from <= r <= s.len(),
        r < s.len() ==> s@[r as int] == c,
{
    let mut at: usize = from;
    while at < s.len() && s[at] != c
        invariant
            from <= at <= s.len(),
            next_or_end(s@, from as int, c) == next_or_end(s@, at as int, c),
        decreases s.len() - at,
    {
        at += 1;
    }
    at
}

/// The result lies between where the search began and the end.
pub proof fn lemma_next_or_end(s: Seq<char>, at: int, c: char)
    requires
        0 <= at <= s.len(),
    ensures
        at <= next_or_end(s, at, c) <= s.len(),
    decreases s.len() - at,
{
    if at < s.len() {
        lemma_next_or_end(s, at + 1, c);
    }
}

/// `s` holds `a` and then `b` at `at`.
pub open spec fn pair_at(s: Seq<char>, at: int, a: char, b: char) -> bool {
    0 <= at && at + 1 < s.len() && s[at] == a && s[at + 1] == b
}

/// Whether `s` holds `a` and then `b` at `at`.
pub fn has_pair(s: &[char], at: usize, a: char, b: char) -> (r: bool)
    ensures
        r == pair_at(s@, at as int, a, b),
{
    at < s.len() && s.len() - at >= 2 && s[at] == a && s[at + 1] == b
}

/// The position after the `*/` that closes a block comment, read from `at` with `depth`
/// comments open. Where comments nest, each `/*` opens another.
pub open spec fn comment_end(s: Seq<char>, at: int, depth: nat, nests: bool) -> Option<int>
    decreases s.len() - at,
{
    if !(0 <= at && at + 1 < s.len()) {
        None
    } else if nests && pair_at(s, at, '/', '*') {
        comment_end(s, at + 2, depth + 1, nests)
    } else if pair_at(s, at, '*', '/') {
        if depth <= 1 {
            Some(at + 2)
        } else {
            comment_end(s, at + 2, (depth - 1) as nat, nests)
        }
    } else {
        comment_end(s, at + 1, depth, nests)
    }
}

/// A closed comment ends with `*/`, past where the search began.
pub proof fn lemma_comment_end(s: Seq<char>, at: int, depth: nat, nests: bool)
    ensures
        comment_end(s, at, depth, nests) matches Some(e) ==> at + 2 <= e <= s.len() && pair_at(
            s,
            e - 2,
            '*',
            '/',
        ),
    decreases s.len() - at,
{
    if 0 <= at && at + 1 < s.len() {
        lemma_comment_end(s, at + 2, depth + 1, nests);
        if depth > 1 {
            lemma_comment_end(s, at + 2, (depth - 1) as nat, nests);
        }
        lemma_comment_end(s, at + 1, depth, nests);
    }
}

/// Finds the end of a block comment whose inside begins at `from`.
pub fn close_comment(s: &[char], from: usize, nests: bool) -> (r: Option<usize>)
    ensures
        place(r) == comment_end(s@, from as int, 1, nests),
        r matches Some(e) ==> from + 2 <= e <= s.len() && pair_at(s@, e - 2, '*', '/'),
{
    let mut at: usize = from;
    let mut depth: usize = 1;
    while at < s.len() && s.len() - at >= 2
        invariant
            1 <= depth <= at + 1,
            from <= at,
            comment_end(s@, from as int, 1, nests) == comment_end(
                s@,
                at as int,
                depth as nat,
                nests,
            ),
        decreases s.len() - at,
    {
        if nests && s[at] == '/' && s[at + 1] == '*' {
            depth += 1;
            at += 2;
        } else if s[at] == '*' && s[at + 1] == '/' {
            if depth == 1 {
                return Some(at + 2);
            }
            depth -= 1;
            at += 2;
        } else {
            at += 1;
        }
    }
    None
}

/// The first position at or after `at` that does not hold a letter, a digit or an
/// underscore, or the end of the text.
pub open spec fn word_run(s: Seq<char>, at: int) -> int
    decreases s.len() - at,
{
    if !(0 <= at < s.len()) || !word_char(s[at]) {
        at
    } else {
        word_run(s, at + 1)
    }
}

/// The position after the `$tag$` that `start` opens, where it opens one. A tag does not
/// begin with a digit, which is what keeps it apart from a placeholder.
pub open spec fn tag_end(s: Seq<char>, start: int) -> Option<int> {
    let e = word_run(s, start + 1);
    if start + 1 < s.len() && ascii_digit(s[start + 1]) {
        None
    } else if 0 <= e < s.len() && s[e] == '$' {
        Some(e + 1)
    } else {
        None
    }
}

/// A run of word characters stays inside the text.
pub proof fn lemma_word_run(s: Seq<char>, at: int)
    requires
        0 <= at <= s.len(),
    ensures
        at <= word_run(s, at) <= s.len(),
    decreases s.len() - at,
{
    if at < s.len() {
        lemma_word_run(s, at + 1);
    }
}

/// Reads the tag of a dollar quote.
pub fn read_tag(s: &[char], start: usize) -> (r: Option<usize>)
    requires
        start < s.len(),
    ensures
        place(r) == tag_end(s@, start as int),
        r matches Some(e) ==> start + 2 <= e <= s.len(),
{
    let mut at: usize = start + 1;
    while at < s.len() && is_word_char(s[at])
        invariant
            start < at <= s.len(),
            word_run(s@, start + 1) == word_run(s@, at as int),
        decreases s.len() - at,
    {
        at += 1;
    }
    if start + 1 < s.len() && is_ascii_digit(s[start + 1]) {
        return None;
    }
    if at < s.len() && s[at] == '$' {
        Some(at + 1)
    } else {
        None
    }
}

/// `needle` stands in `s` at `at`.
pub open spec fn stands_at(s: Seq<char>, at: int, needle: Seq<char>) -> bool {
    0 <= at && at + needle.len() <= s.len() && s.subrange(at, at + needle.len()) == needle
}

/// Whether `needle` stands in `s` at `at`.
pub fn has_at(s: &[char], at: usize, needle: &[char]) -> (r: bool)
    ensures
        r == stands_at(s@, at as int, needle@),
{
    if at > s.len() || s.len() - at < needle.len() {
        return false;
    }
    let mut i: usize = 0;
    while i < needle.len()
        invariant
            i <= needle.len(),
            at + needle.len() <= s.len(),
            forall|j: int| 0 <= j < i ==> s@[at + j] == #[trigger] needle@[j],
        decreases needle.len() - i,
    {
        if s[at + i] != needle[i] {
            assert(s@.subrange(at as int, at + needle@.len())[i as int] != needle@[i as int]);
            return false;
        }
        i += 1;
    }
    assert(s@.subrange(at as int, at + needle@.len()) =~= needle@);
    true
}

/// The first position at or after `at` where `needle` stands.
pub open spec fn find(s: Seq<char>, at: int, needle: Seq<char>) -> Option<int>
    decreases s.len() - at + 1,
{
    if !(0 <= at && at + needle.len() <= s.len()) {
        None
    } else if stands_at(s, at, needle) {
        Some(at)
    } else {
        find(s, at + 1, needle)
    }
}

/// What is found stands there, at or after where the search began.
pub proof fn lemma_find(s: Seq<char>, at: int, needle: Seq<char>)
    ensures
        find(s, at, needle) matches Some(p) ==> at <= p && stands_at(s, p, needle),
    decreases s.len() - at + 1,
{
    if 0 <= at && at + needle.len() <= s.len() && !stands_at(s, at, needle) {
        lemma_find(s, at + 1, needle);
    }
}

/// Finds `needle`.
pub fn find_from(s: &[char], from: usize, needle: &[char]) -> (r: Option<usize>)
    requires
        from <= s.len(),
    ensures
        place(r) == find(s@, from as int, needle@),
        r matches Some(p) ==> from <= p && p + needle.len() <= s.len(),
{
    let mut at: usize = from;
    while at < s.len()
        invariant
            from <= at <= s.len(),
            find(s@, from as int, needle@) == find(s@, at as int, needle@),
        decreases s.len() - at,
    {
        if s.len() - at < needle.len() {
            return None;
        }
        if has_at(s, at, needle) {
            return Some(at);
        }
        at += 1;
    }
    if has_at(s, at, needle) {
        Some(at)
    } else {
        assert(find(s@, at + 1, needle@) is None);
        None
    }
}

/// The end of the dollar-quoted body that `start` opens: `None` where it opens none,
/// `Some(None)` where nothing closes it.
pub open spec fn dollar_end(s: Seq<char>, start: int) -> Option<Option<int>> {
    match tag_end(s, start) {
        None => None,
        Some(e) => match find(s, e, s.subrange(start, e)) {
            None => Some(None),
            Some(p) => Some(Some(p + (e - start))),
        },
    }
}

/// A closed body ends after it began.
pub proof fn lemma_dollar_end(s: Seq<char>, start: int)
    requires
        0 <= start < s.len(),
    ensures
        dollar_end(s, start) matches Some(Some(e)) ==> start < e <= s.len(),
{
    lemma_word_run(s, start + 1);
    if let Some(e) = tag_end(s, start) {
        lemma_find(s, e, s.subrange(start, e));
    }
}

/// What a dollar sign turns out to begin.
pub enum Dollar {
    /// No quote: a placeholder, or nothing in particular.
    Plain,
    /// A quote that ends at the position.
    Body(usize),
    /// A quote that nothing closes, with the position after its tag.
    Open(usize),
}

/// Reads a dollar-quoted body.
pub fn close_dollar(s: &[char], start: usize) -> (r: Dollar)
    requires
        start < s.len(),
    ensures
        match r {
            Dollar::Plain => dollar_end(s@, start as int) == None::<Option<int>>,
            Dollar::Body(e) => dollar_end(s@, start as int) == Some(Some(e as int)) && start < e
                <= s.len(),
            Dollar::Open(e) => dollar_end(s@, start as int) == Some(None::<int>) && tag_end(
                s@,
                start as int,
            ) == Some(e as int) && start < e <= s.len(),
        },
{
    match read_tag(s, start) {
        None => Dollar::Plain,
        Some(e) => {
            let tag = slice_subrange(s, start, e);
            match find_from(s, e, tag) {
                None => Dollar::Open(e),
                Some(p) => Dollar::Body(p + (e - start)),
            }
        },
    }
}

/// The first position at or after `at` that does not hold a digit, or the end.
pub open spec fn digits_end(s: Seq<char>, at: int) -> int
    decreases s.len() - at,
{
    if !(0 <= at < s.len()) || !ascii_digit(s[at]) {
        at
    } else {
        digits_end(s, at + 1)
    }
}

/// A run of digits stays inside the text, and holds digits.
pub proof fn lemma_digits_end(s: Seq<char>, at: int)
    requires
        0 <= at <= s.len(),
    ensures
        at <= digits_end(s, at) <= s.len(),
        forall|i: int| at <= i < digits_end(s, at) ==> ascii_digit(#[trigger] s[i]),
        digits_end(s, at) < s.len() ==> !ascii_digit(s[digits_end(s, at)]),
    decreases s.len() - at,
{
    if at < s.len() && ascii_digit(s[at]) {
        lemma_digits_end(s, at + 1);
    }
}

/// Finds the end of a run of digits.
pub fn skip_digits(s: &[char], from: usize) -> (r: usize)
    requires
        from <= s.len(),
    ensures
        r == digits_end(s@, from as int),
        from <= r <= s.len(),
{
    let mut at: usize = from;
    while at < s.len() && is_ascii_digit(s[at])
        invariant
            from <= at <= s.len(),
            digits_end(s@, from as int) == digits_end(s@, at as int),
        decreases s.len() - at,
    {
        at += 1;
    }
    at
}

// ---------------------------------------------------------------------------
// Laws
// ---------------------------------------------------------------------------


/// The text of each piece, one behind another.
pub open spec fn run_together(units: Seq<Seq<char>>) -> Seq<char>
    decreases units.len(),
{
    if units.len() == 0 {
        Seq::empty()
    } else {
        units[0] + run_together(units.skip(1))
    }
}

/// What may stand inside quotes for one character: itself, where it is no mark; a mark that is
/// doubled; and, where a backslash escapes, a backslash with any character behind it.
pub open spec fn quotable(unit: Seq<char>, mark: char, backslash: bool) -> bool {
    ||| unit.len() == 1 && unit[0] != mark && !(backslash && unit[0] == '\\')
    ||| unit == seq![mark, mark] && !(backslash && mark == '\\')
    ||| backslash && unit.len() == 2 && unit[0] == '\\'
}

/// A quoted run ends behind its closing mark, whatever stands inside it: characters, doubled marks,
/// and escaped characters where a backslash escapes.
#[verifier::rlimit(50)]
pub proof fn law_quotes_close_at_their_mark(
    before: Seq<char>,
    units: Seq<Seq<char>>,
    after: Seq<char>,
    mark: char,
    backslash: bool,
)
    requires
        forall|i: int| 0 <= i < units.len() ==> quotable(#[trigger] units[i], mark, backslash),
        !(backslash && mark == '\\'),
        after.len() > 0 ==> after[0] != mark,
    ensures
        quoted_end(
            before + run_together(units) + seq![mark] + after,
            before.len() as int,
            mark,
            backslash,
        ) == Some((before.len() + run_together(units).len() + 1) as int),
    decreases units.len(),
{
    let inside = run_together(units);
    let s = before + inside + seq![mark] + after;
    let at = before.len() as int;
    if units.len() == 0 {
        assert(s[at] == mark);
        assert(at + 1 < s.len() ==> s[at + 1] == after[0]);
    } else {
        let unit = units[0];
        let rest = units.skip(1);
        assert forall|i: int| 0 <= i < rest.len() implies quotable(
            #[trigger] rest[i],
            mark,
            backslash,
        ) by {
            assert(rest[i] == units[i + 1]);
        }
        law_quotes_close_at_their_mark(before + unit, rest, after, mark, backslash);
        assert(before + unit + run_together(rest) + seq![mark] + after =~= s);
        assert(s[at] == unit[0]);
        if unit.len() == 2 {
            assert(s[at + 1] == unit[1]);
        }
    }
}

/// A quoted run never ends but behind a mark with no other mark behind it.
pub proof fn law_quotes_close_nowhere_else(s: Seq<char>, at: int, mark: char, backslash: bool)
    ensures
        quoted_end(s, at, mark, backslash) matches Some(end) ==> at < end <= s.len() && s[end - 1]
            == mark && (end < s.len() ==> s[end] != mark),
    decreases s.len() - at + 2,
{
    if 0 <= at < s.len() {
        law_quotes_close_nowhere_else(s, at + 1, mark, backslash);
        law_quotes_close_nowhere_else(s, at + 2, mark, backslash);
    }
}

/// Looking for a character finds the first one, or the end where there is none.
pub proof fn law_the_next_character_is_the_first(s: Seq<char>, at: int, c: char)
    requires
        0 <= at <= s.len(),
    ensures
        at <= next_or_end(s, at, c) <= s.len(),
        next_or_end(s, at, c) < s.len() ==> s[next_or_end(s, at, c)] == c,
        forall|i: int| at <= i < next_or_end(s, at, c) ==> #[trigger] s[i] != c,
    decreases s.len() - at,
{
    if at < s.len() && s[at] != c {
        law_the_next_character_is_the_first(s, at + 1, c);
    }
}

/// Looking for a text finds the first place where it stands, and fails only where it stands
/// nowhere.
pub proof fn law_a_search_finds_the_first(s: Seq<char>, at: int, needle: Seq<char>)
    requires
        0 <= at,
    ensures
        match find(s, at, needle) {
            Some(p) => at <= p && stands_at(s, p, needle) && forall|i: int|
                at <= i < p ==> !#[trigger] stands_at(s, i, needle),
            None => forall|i: int| at <= i ==> !#[trigger] stands_at(s, i, needle),
        },
    decreases s.len() - at + 1,
{
    if at + needle.len() <= s.len() && !stands_at(s, at, needle) {
        law_a_search_finds_the_first(s, at + 1, needle);
    }
}

proof fn lemma_comment_closes(s: Seq<char>, at: int, depth: nat)
    requires
        0 <= at,
        depth > 0,
    ensures
        match comment_end(s, at, 1, true) {
            Some(end) => comment_end(s, at, depth + 1, true) == comment_end(s, end, depth, true),
            None => comment_end(s, at, depth + 1, true) is None,
        },
    decreases s.len() - at,
{
    if at + 1 < s.len() {
        if pair_at(s, at, '/', '*') {
            lemma_comment_closes(s, at + 2, 1);
            lemma_comment_closes(s, at + 2, depth + 1);
            if let Some(end) = comment_end(s, at + 2, 1, true) {
                lemma_comment_end(s, at + 2, 1, true);
                lemma_comment_closes(s, end, depth);
            }
        } else if !pair_at(s, at, '*', '/') {
            lemma_comment_closes(s, at + 1, depth);
        }
    }
}

/// Where comments nest, one that stands in another is passed over whole, and the outer one goes on
/// behind it. Where they do not, a comment ends at the first `*/`.
#[verifier::rlimit(50)]
pub proof fn law_a_comment_ends_with_what_it_opened(s: Seq<char>, at: int)
    requires
        0 <= at,
    ensures
        pair_at(s, at, '/', '*') ==> comment_end(s, at, 1, true) == match comment_end(
            s,
            at + 2,
            1,
            true,
        ) {
            Some(end) => comment_end(s, end, 1, true),
            None => None,
        },
        !pair_at(s, at, '/', '*') && !pair_at(s, at, '*', '/') ==> comment_end(s, at, 1, true)
            == comment_end(s, at + 1, 1, true),
        pair_at(s, at, '*', '/') ==> comment_end(s, at, 1, true) == Some(at + 2),
        comment_end(s, at, 1, false) == match find(s, at, "*/"@) {
            Some(p) => Some(p + 2),
            None => None,
        },
    decreases s.len() - at,
{
    reveal_strlit("*/");
    if pair_at(s, at, '/', '*') {
        lemma_comment_closes(s, at + 2, 1);
    }
    if !(at + 1 < s.len()) {
        assert(comment_end(s, at, 1, true) is None);
        assert(comment_end(s, at + 1, 1, true) is None);
    } else {
        law_a_comment_ends_with_what_it_opened(s, at + 1);
        let here = s.subrange(at, at + 2);
        if pair_at(s, at, '*', '/') {
            assert(here =~= "*/"@);
        } else if here == "*/"@ {
            assert(here[0] == s[at] && here[1] == s[at + 1]);
        }
    }
}

/// What stands between two dollars where they open a quote: nothing, or an identifier.
pub open spec fn tag(text: Seq<char>) -> bool {
    &&& forall|i: int| 0 <= i < text.len() ==> word_char(#[trigger] text[i])
    &&& text.len() > 0 ==> !ascii_digit(text[0])
}

proof fn lemma_run_of_words(s: Seq<char>, at: int, end: int)
    requires
        0 <= at <= end <= s.len(),
        forall|i: int| at <= i < end ==> word_char(#[trigger] s[i]),
        end < s.len() ==> !word_char(s[end]),
    ensures
        word_run(s, at) == end,
    decreases end - at,
{
    if at < end {
        lemma_run_of_words(s, at + 1, end);
    }
}

/// A dollar quote ends behind the first place where its opening stands again; it is open where its
/// opening stands nowhere again. A dollar with a digit behind it opens none.
#[verifier::rlimit(50)]
pub proof fn law_a_dollar_quote_ends_at_its_tag(
    before: Seq<char>,
    name: Seq<char>,
    after: Seq<char>,
    end: int,
)
    requires
        tag(name),
    ensures
        ({
            let mark = "$"@ + name + "$"@;
            let s = before + mark + after;
            let start = before.len() as int;
            &&& stands_at(s, end, mark) && end >= start + mark.len() && (forall|i: int|
                start + mark.len() <= i < end ==> !#[trigger] stands_at(s, i, mark)) ==> dollar_end(
                s,
                start,
            ) == Some(Some(end + mark.len()))
            &&& (forall|i: int|
                start + mark.len() <= i ==> !#[trigger] stands_at(s, i, mark)) ==> dollar_end(
                s,
                start,
            ) == Some(None::<int>)
        }),
        after.len() > 0 && ascii_digit(after[0]) ==> dollar_end(
            before + "$"@ + after,
            before.len() as int,
        ) is None,
{
    reveal_strlit("$");
    let mark = "$"@ + name + "$"@;
    let s = before + mark + after;
    let start = before.len() as int;
    let stop = start + mark.len();
    assert forall|i: int| start + 1 <= i < stop - 1 implies word_char(#[trigger] s[i]) by {
        assert(s[i] == name[i - start - 1]);
    }
    assert(s[stop - 1] == '$');
    lemma_run_of_words(s, start + 1, stop - 1);
    if name.len() > 0 {
        assert(s[start + 1] == name[0]);
    }
    assert(tag_end(s, start) == Some(stop));
    assert(s.subrange(start, stop) =~= mark);
    law_a_search_finds_the_first(s, stop, mark);
    if after.len() > 0 {
        let other = before + "$"@ + after;
        assert(other[start + 1] == after[0]);
    }
}

} // verus!

//! A single pass over SQL text that finds placeholders and slots, and skips everything that
//! only looks like one: string literals, quoted identifiers, dollar-quoted bodies and
//! comments.

use vstd::prelude::*;
use vstd::slice::slice_subrange;
use vstd::string::StringExecFns;

use crate::composer::syntax::QuerySyntax;
#[allow(unused_imports)]
use crate::composer::syntax::{standard_syntax, PlaceholderStyle, Quoting};
use crate::lexical::{
    close_comment, close_dollar, close_quoted, has_pair, seek_char, skip_digits, Dollar,
};
#[allow(unused_imports)]
use crate::lexical::{
    comment_end, digits_end, dollar_end, lemma_comment_end, lemma_digits_end, lemma_dollar_end,
    lemma_next_or_end, lemma_quoted_end, next_or_end, pair_at, place, quoted_end, stands_at,
};
use crate::lexical::has_at;
use crate::text::{
    byte_offset, chars_of, copy_of, decimal_of, is_ascii_digit, is_white_space, is_word_char,
    read_unsigned, string_of,
};
#[allow(unused_imports)]
use crate::text::{
    ascii_digit, byte_at, counted, decimal, number, trim_end, white_space, word_char,
};

verus! {

// ---------------------------------------------------------------------------
// What a text holds
// ---------------------------------------------------------------------------

/// A character beyond ASCII that the `\w` of a regular expression matches.
pub uninterp spec fn regex_word(c: char) -> bool;

/// Whether `\w` matches a character: `regex::Regex::is_match` of `^\w$` on the character
/// alone. It depends on the character alone.
#[verifier::external_body]
fn matches_word(c: char) -> (b: bool)
    ensures
        b == regex_word(c),
{
    regex::Regex::new(r"^\w$").is_ok_and(|word| word.is_match(c.encode_utf8(&mut [0; 4])))
}

/// A character that a slot's name may hold.
pub open spec fn name_char(c: char) -> bool {
    if (c as u32) < 128 {
        word_char(c)
    } else {
        regex_word(c)
    }
}

fn is_name_char(c: char) -> (b: bool)
    ensures
        b == name_char(c),
{
    if (c as u32) < 128 {
        is_word_char(c)
    } else {
        matches_word(c)
    }
}

/// Something that was found, with where it starts and ends.
pub enum TokenView {
    /// `$1`, `$2` and so on.
    Number { start: int, end: int, number: nat },
    /// `?`.
    Question { start: int, end: int },
    /// `/* query.where AND */`: a name, and what follows it.
    Slot { start: int, end: int, name: Seq<char>, suffix: Seq<char> },
}

/// The first position at or after `at` that white space does not hold.
pub open spec fn after_white(s: Seq<char>, at: int) -> int
    decreases s.len() - at,
{
    if !(0 <= at < s.len()) || !white_space(s[at]) {
        at
    } else {
        after_white(s, at + 1)
    }
}

/// The first position at or after `at` that no character of a name holds.
pub open spec fn after_name(s: Seq<char>, at: int) -> int
    decreases s.len() - at,
{
    if !(0 <= at < s.len()) || !name_char(s[at]) {
        at
    } else {
        after_name(s, at + 1)
    }
}

/// `s` holds no `*` from `at` up to `end`.
pub open spec fn no_star(s: Seq<char>, at: int, end: int) -> bool {
    forall|i: int| at <= i < end ==> #[trigger] s[i] != '*'
}

/// The name and the suffix of a slot, where the comment from `start` to `end` is one: white
/// space, `query.`, a name, and anything without a `*`. The white space at its end belongs to
/// the comment and not to the suffix.
pub open spec fn slot_of(s: Seq<char>, start: int, end: int) -> Option<(Seq<char>, Seq<char>)> {
    let word = after_white(s, start + 2);
    let name = word + 6;
    let rest = after_name(s, name);
    if end - start >= 4 && pair_at(s, end - 2, '*', '/') && word <= end - 2 && stands_at(
        s,
        word,
        "query."@,
    ) && name < rest <= end - 2 && no_star(s, rest, end - 2) {
        Some((s.subrange(name, rest), trim_end(s.subrange(rest, end - 2))))
    } else {
        None
    }
}

/// A position that may be missing, or the end of the text.
pub open spec fn or_end(s: Seq<char>, at: Option<int>) -> int {
    match at {
        Some(at) => at,
        None => s.len() as int,
    }
}

/// The position after the line that `at` is on.
pub open spec fn line_end(s: Seq<char>, at: int) -> int {
    let end = next_or_end(s, at, '\n');
    if end < s.len() {
        end + 1
    } else {
        end
    }
}

/// What stands at `at`, if it is to be reported, and where the next thing begins.
pub open spec fn step(s: Seq<char>, q: Quoting, at: int) -> (Option<TokenView>, int) {
    let c = s[at];
    if c == '\'' || c == '"' {
        (None, or_end(s, quoted_end(s, at + 1, c, q.backslash_escapes)))
    } else if c == '`' && q.backtick_identifiers {
        (None, or_end(s, quoted_end(s, at + 1, c, false)))
    } else if c == '[' && q.bracket_identifiers {
        let close = next_or_end(s, at + 1, ']');
        (
            None,
            if close < s.len() {
                close + 1
            } else {
                close
            },
        )
    } else if pair_at(s, at, '-', '-') || (c == '#' && q.hash_line_comments) {
        (None, line_end(s, at))
    } else if pair_at(s, at, '/', '*') {
        let end = or_end(s, comment_end(s, at + 2, 1, q.nested_block_comments));
        (
            match slot_of(s, at, end) {
                Some((name, suffix)) => Some(TokenView::Slot { start: at, end, name, suffix }),
                None => None,
            },
            end,
        )
    } else if c == '$' && at + 1 < s.len() && ascii_digit(s[at + 1]) {
        let end = digits_end(s, at + 1);
        let n = number(s.subrange(at + 1, end));
        (
            if n <= usize::MAX {
                Some(TokenView::Number { start: at, end, number: n })
            } else {
                None
            },
            end,
        )
    } else if c == '$' && q.dollar {
        match dollar_end(s, at) {
            Some(end) => (None, or_end(s, end)),
            None => (None, at + 1),
        }
    } else if c == '?' {
        (Some(TokenView::Question { start: at, end: at + 1 }), at + 1)
    } else {
        (None, at + 1)
    }
}

/// Reads a text from `at` on, behind what was found.
pub open spec fn tokens_from(s: Seq<char>, q: Quoting, at: int, found: Seq<TokenView>) -> Seq<
    TokenView,
>
    decreases s.len() - at,
{
    if !(0 <= at < s.len()) {
        found
    } else {
        let (token, next) = step(s, q, at);
        let found = match token {
            Some(token) => found.push(token),
            None => found,
        };
        if at < next <= s.len() {
            tokens_from(s, q, next, found)
        } else {
            found
        }
    }
}

/// Every placeholder and slot of a text, in order.
pub open spec fn tokens_of(s: Seq<char>, q: Quoting) -> Seq<TokenView> {
    tokens_from(s, q, 0, Seq::empty())
}

// ---------------------------------------------------------------------------
// Reading
// ---------------------------------------------------------------------------

/// One bind parameter, in one of the two spellings that dialects use.
#[derive(Debug, PartialEq, Eq)]
pub enum Placeholder {
    /// `$1`, `$2` and so on. The number is the one that is written.
    Number { start: usize, end: usize, number: usize },
    /// `?`.
    Question { start: usize, end: usize },
}

/// Something that the composer acts on. Positions count what was read: the bytes of a text, or
/// the characters of a slice of them.
#[derive(Debug, PartialEq, Eq)]
pub enum Token {
    /// A bind parameter.
    Placeholder(Placeholder),
    /// `/* query.where AND */`: the span that a clause is spliced into. The suffix is emitted
    /// again after the clause, or dropped with it.
    Slot { start: usize, end: usize, name: String, suffix: String },
}

impl View for Token {
    type V = TokenView;

    open spec fn view(&self) -> TokenView {
        match self {
            Token::Placeholder(Placeholder::Number { start, end, number }) => TokenView::Number {
                start: *start as int,
                end: *end as int,
                number: *number as nat,
            },
            Token::Placeholder(Placeholder::Question { start, end }) => TokenView::Question {
                start: *start as int,
                end: *end as int,
            },
            Token::Slot { start, end, name, suffix } => TokenView::Slot {
                start: *start as int,
                end: *end as int,
                name: name@,
                suffix: suffix@,
            },
        }
    }
}

/// What a list of tokens holds.
pub open spec fn token_views(tokens: Seq<Token>) -> Seq<TokenView> {
    tokens.map_values(|token: Token| token@)
}

/// Where a token starts.
pub open spec fn start_of(token: TokenView) -> int {
    match token {
        TokenView::Number { start, .. } => start,
        TokenView::Question { start, .. } => start,
        TokenView::Slot { start, .. } => start,
    }
}

/// Where a token ends.
pub open spec fn end_of(token: TokenView) -> int {
    match token {
        TokenView::Number { end, .. } => end,
        TokenView::Question { end, .. } => end,
        TokenView::Slot { end, .. } => end,
    }
}

/// The tokens lie behind one another, inside a text of this length.
pub open spec fn in_order(tokens: Seq<TokenView>, length: int) -> bool {
    &&& forall|i: int|
        0 <= i < tokens.len() ==> 0 <= start_of(#[trigger] tokens[i]) < end_of(tokens[i]) <= length
    &&& forall|i: int, j: int|
        0 <= i < j < tokens.len() ==> end_of(#[trigger] tokens[i]) <= start_of(#[trigger] tokens[j])
}

/// A token of `s`, with its positions counted in bytes.
pub open spec fn in_bytes(s: Seq<char>, token: TokenView) -> TokenView {
    let from = byte_at(s, start_of(token));
    let to = byte_at(s, end_of(token));
    match token {
        TokenView::Number { number, .. } => TokenView::Number { start: from, end: to, number },
        TokenView::Question { .. } => TokenView::Question { start: from, end: to },
        TokenView::Slot { name, suffix, .. } => TokenView::Slot {
            start: from,
            end: to,
            name,
            suffix,
        },
    }
}

/// Tokens of `s`, with their positions counted in bytes.
pub open spec fn all_in_bytes(s: Seq<char>, tokens: Seq<TokenView>) -> Seq<TokenView> {
    tokens.map_values(|token: TokenView| in_bytes(s, token))
}

/// The number of a numbered placeholder.
pub open spec fn number_of(token: TokenView) -> Option<nat> {
    match token {
        TokenView::Number { number, .. } => Some(number),
        _ => None,
    }
}

impl Token {
    /// The number, for a numbered placeholder only.
    pub fn placeholder_number(&self) -> (r: Option<usize>)
        ensures
            counted(r) == number_of(self@),
    {
        match self {
            Token::Placeholder(Placeholder::Number { number, .. }) => Some(*number),
            _ => None,
        }
    }

    /// This token of `sql`, with its positions counted in bytes.
    fn in_bytes(&self, sql: &str) -> (r: Token)
        requires
            0 <= start_of(self@) <= end_of(self@) <= sql@.len(),
        ensures
            r@ == in_bytes(sql@, self@),
    {
        match self {
            Token::Placeholder(Placeholder::Number { start, end, number }) => Token::Placeholder(
                Placeholder::Number {
                    start: byte_offset(sql, *start),
                    end: byte_offset(sql, *end),
                    number: *number,
                },
            ),
            Token::Placeholder(Placeholder::Question { start, end }) => Token::Placeholder(
                Placeholder::Question {
                    start: byte_offset(sql, *start),
                    end: byte_offset(sql, *end),
                },
            ),
            Token::Slot { start, end, name, suffix } => Token::Slot {
                start: byte_offset(sql, *start),
                end: byte_offset(sql, *end),
                name: copy_of(name.as_str()),
                suffix: copy_of(suffix.as_str()),
            },
        }
    }

    /// Whether this is a bare `?`.
    pub fn is_placeholder_question(&self) -> (b: bool)
        ensures
            b == self@ is Question,
    {
        match self {
            Token::Placeholder(Placeholder::Question { .. }) => true,
            _ => false,
        }
    }
}

/// The first position at or after `at` that white space does not hold.
pub fn skip_white(s: &[char], at: usize) -> (r: usize)
    requires
        at <= s@.len(),
    ensures
        r == after_white(s@, at as int),
        at <= r <= s@.len(),
{
    let mut word: usize = at;
    while word < s.len() && is_white_space(s[word])
        invariant
            at <= word <= s.len(),
            after_white(s@, at as int) == after_white(s@, word as int),
        decreases s.len() - word,
    {
        word += 1;
    }
    word
}

/// The first position at or after `at` that no character of a name holds.
pub fn skip_name(s: &[char], at: usize) -> (r: usize)
    requires
        at <= s@.len(),
    ensures
        r == after_name(s@, at as int),
        at <= r <= s@.len(),
{
    let mut rest: usize = at;
    while rest < s.len() && is_name_char(s[rest])
        invariant
            at <= rest <= s.len(),
            after_name(s@, at as int) == after_name(s@, rest as int),
        decreases s.len() - rest,
    {
        rest += 1;
    }
    rest
}

/// Reads the slot that a comment may be.
pub fn read_slot(s: &[char], start: usize, end: usize) -> (r: Option<(String, String)>)
    requires
        start + 2 <= end <= s.len(),
        pair_at(s@, start as int, '/', '*'),
    ensures
        match (r, slot_of(s@, start as int, end as int)) {
            (Some((name, suffix)), Some((found, rest))) => name@ == found && suffix@ == rest,
            (None, None) => true,
            _ => false,
        },
{
    if end - start < 4 || !has_pair(s, end - 2, '*', '/') {
        return None;
    }
    let word = skip_white(s, start + 2);
    let lead = chars_of("query.");
    proof {
        reveal_strlit("query.");
    }
    if word > end - 2 || !has_at(s, word, lead.as_slice()) {
        return None;
    }
    let name: usize = word + 6;
    let rest = skip_name(s, name);
    if rest == name || rest > end - 2 {
        return None;
    }
    let close: usize = end - 2;
    let mut i: usize = rest;
    while i < close
        invariant
            rest <= i <= close,
            close <= s.len(),
            no_star(s@, rest as int, i as int),
            close == end - 2,
            name < rest,
            rest == after_name(s@, name as int),
            name == word + 6,
            word == after_white(s@, start + 2),
        decreases close - i,
    {
        if s[i] == '*' {
            assert(!no_star(s@, rest as int, close as int));
            return None;
        }
        i += 1;
    }
    let mut stop: usize = close;
    assert(s@.subrange(rest as int, close as int) == s@.subrange(rest as int, stop as int));
    while stop > rest && is_white_space(s[stop - 1])
        invariant
            rest <= stop <= close,
            close <= s.len(),
            trim_end(s@.subrange(rest as int, close as int)) == trim_end(
                s@.subrange(rest as int, stop as int),
            ),
        decreases stop,
    {
        assert(s@.subrange(rest as int, stop as int).last() == s@[stop - 1]);
        assert(s@.subrange(rest as int, stop as int).drop_last() =~= s@.subrange(
            rest as int,
            stop - 1,
        ));
        stop -= 1;
    }
    proof {
        if stop > rest {
            assert(s@.subrange(rest as int, stop as int).last() == s@[stop - 1]);
        }
    }
    Some(
        (
            string_of(slice_subrange(s, name, rest)),
            string_of(slice_subrange(s, rest, stop)),
        ),
    )
}

fn close_or_end(s: &[char], at: Option<usize>) -> (r: usize)
    ensures
        r == or_end(s@, place(at)),
{
    match at {
        Some(at) => at,
        None => s.len(),
    }
}

/// Reads SQL text by a dialect's rules.
#[derive(Debug, Clone, Copy, PartialEq, Eq)]
pub struct QueryLexer {
    syntax: QuerySyntax,
}

impl View for QueryLexer {
    type V = QuerySyntax;

    closed spec fn view(&self) -> QuerySyntax {
        self.syntax
    }
}

/// The highest number among the first `n` tokens, or zero.
pub open spec fn highest_number(tokens: Seq<TokenView>, n: nat) -> nat
    decreases n,
{
    if n == 0 {
        0
    } else {
        let before = highest_number(tokens, (n - 1) as nat);
        match number_of(tokens[n - 1]) {
            Some(number) => if number > before {
                number
            } else {
                before
            },
            None => before,
        }
    }
}

/// The first number from the `i`th token on.
pub open spec fn first_number(tokens: Seq<TokenView>, i: int) -> Option<nat>
    decreases tokens.len() - i,
{
    if !(0 <= i < tokens.len()) {
        None
    } else if number_of(tokens[i]) is Some {
        number_of(tokens[i])
    } else {
        first_number(tokens, i + 1)
    }
}

/// How many of the first `n` tokens are a bare `?`.
pub open spec fn questions(tokens: Seq<TokenView>, n: nat) -> nat
    decreases n,
{
    if n == 0 {
        0
    } else {
        questions(tokens, (n - 1) as nat) + if tokens[n - 1] is Question {
            1nat
        } else {
            0nat
        }
    }
}

/// How many values the placeholders of a text call for: the highest number where they carry
/// one, or how many there are. A numbered one where the dialect has none is refused.
pub open spec fn values_called_for(tokens: Seq<TokenView>, style: PlaceholderStyle) -> Result<
    nat,
    nat,
> {
    if style == PlaceholderStyle::Number {
        Ok(highest_number(tokens, tokens.len()))
    } else {
        match first_number(tokens, 0) {
            Some(number) => Err(number),
            None => Ok(questions(tokens, tokens.len())),
        }
    }
}

/// The highest number in a text, or zero.
pub open spec fn max_number(s: Seq<char>, q: Quoting) -> nat {
    highest_number(tokens_of(s, q), tokens_of(s, q).len())
}

/// The text from `last` on with the numbers of the tokens from the `i`th on raised, behind
/// what was written.
pub open spec fn raised_from(
    s: Seq<char>,
    tokens: Seq<TokenView>,
    offset: nat,
    i: int,
    last: int,
    out: Seq<char>,
) -> Seq<char>
    decreases tokens.len() - i,
{
    if !(0 <= i < tokens.len()) {
        out + s.subrange(last, s.len() as int)
    } else {
        match tokens[i] {
            TokenView::Number { start, end, number } => raised_from(
                s,
                tokens,
                offset,
                i + 1,
                end,
                out + s.subrange(last, start) + "$"@ + decimal(number + offset),
            ),
            _ => raised_from(s, tokens, offset, i + 1, last, out),
        }
    }
}

/// A text with every number raised by `offset`, so that it can stand behind placeholders
/// that are there already.
pub open spec fn shifted(s: Seq<char>, q: Quoting, offset: nat) -> Seq<char> {
    if offset == 0 {
        s
    } else {
        raised_from(s, tokens_of(s, q), offset, 0, 0, Seq::empty())
    }
}

/// A placeholder spelled in a way that the dialect does not use.
#[derive(Debug, Clone, Copy, PartialEq, Eq, Structural)]
pub enum PlaceholderError {
    /// A numbered placeholder where the dialect's is `?`.
    Unsupported { number: usize },
}

/// A step goes forward, and reports what it went over.
pub proof fn lemma_step_end(s: Seq<char>, q: Quoting, at: int)
    requires
        0 <= at < s.len(),
    ensures
        at < step(s, q, at).1 <= s.len(),
        step(s, q, at).0 matches Some(token) ==> start_of(token) == at && end_of(token) == step(
            s,
            q,
            at,
        ).1,
{
    lemma_quoted_end(s, at + 1, s[at], q.backslash_escapes);
    lemma_quoted_end(s, at + 1, s[at], false);
    lemma_next_or_end(s, at + 1, ']');
    lemma_next_or_end(s, at, '\n');
    lemma_comment_end(s, at + 2, 1, q.nested_block_comments);
    lemma_digits_end(s, at + 1);
    lemma_dollar_end(s, at);
}

impl QueryLexer {
    /// A lexer for a dialect.
    pub fn new(syntax: QuerySyntax) -> (r: QueryLexer)
        ensures
            r@ == syntax,
    {
        QueryLexer { syntax }
    }

    /// A lexer for text whose dialect is not known.
    pub fn standard() -> (r: QueryLexer)
        ensures
            r@ == standard_syntax(),
    {
        QueryLexer { syntax: QuerySyntax::standard() }
    }

    /// Reads what stands at `at`, and says where the next thing begins.
    pub(crate) fn read(&self, s: &[char], at: usize) -> (r: (Option<Token>, usize))
        requires
            at < s.len(),
        ensures
            match (r.0, step(s@, self@.quoting, at as int).0) {
                (Some(token), Some(found)) => token@ == found && start_of(found) == at && end_of(
                    found,
                ) == r.1,
                (None, None) => true,
                _ => false,
            },
            r.1 == step(s@, self@.quoting, at as int).1,
            at < r.1 <= s.len(),
    {
        let quoting = self.syntax.quoting;
        let c = s[at];
        proof {
            lemma_step_end(s@, quoting, at as int);
        }
        if c == '\'' || c == '"' {
            return (None, close_or_end(s, close_quoted(s, at + 1, c, quoting.backslash_escapes)));
        }
        if c == '`' && quoting.backtick_identifiers {
            return (None, close_or_end(s, close_quoted(s, at + 1, c, false)));
        }
        if c == '[' && quoting.bracket_identifiers {
            let close = seek_char(s, at + 1, ']');
            return if close < s.len() {
                (None, close + 1)
            } else {
                (None, close)
            };
        }
        if has_pair(s, at, '-', '-') || (c == '#' && quoting.hash_line_comments) {
            let end = seek_char(s, at, '\n');
            return if end < s.len() {
                (None, end + 1)
            } else {
                (None, end)
            };
        }
        if has_pair(s, at, '/', '*') {
            let closed = close_comment(s, at + 2, quoting.nested_block_comments);
            let end = close_or_end(s, closed);
            return match read_slot(s, at, end) {
                Some((name, suffix)) => (Some(Token::Slot { start: at, end, name, suffix }), end),
                None => (None, end),
            };
        }
        if c == '$' && at + 1 < s.len() && is_ascii_digit(s[at + 1]) {
            let end = skip_digits(s, at + 1);
            let digits = slice_subrange(s, at + 1, end);
            proof {
                lemma_digits_end(s@, at + 1);
                assert(digits@[0] == s@[at + 1]);
                assert(digits@.len() > 0);
                assert forall|i: int| 0 <= i < digits@.len() implies ascii_digit(
                    #[trigger] digits@[i],
                ) by {
                    assert(digits@[i] == s@[at + 1 + i]);
                }
            }
            return match read_unsigned(digits) {
                Some(number) => (
                    Some(Token::Placeholder(Placeholder::Number { start: at, end, number })),
                    end,
                ),
                None => (None, end),
            };
        }
        if c == '$' && quoting.dollar {
            return match close_dollar(s, at) {
                Dollar::Plain => (None, at + 1),
                Dollar::Body(end) => (None, end),
                Dollar::Open(_) => (None, s.len()),
            };
        }
        if c == '?' {
            return (
                Some(Token::Placeholder(Placeholder::Question { start: at, end: at + 1 })),
                at + 1,
            );
        }
        (None, at + 1)
    }

    /// Finds every placeholder and slot among these characters, in order.
    pub fn scan_chars(&self, s: &[char]) -> (r: Vec<Token>)
        ensures
            token_views(r@) == tokens_of(s@, self@.quoting),
            in_order(token_views(r@), s@.len() as int),
    {
        let mut tokens: Vec<Token> = Vec::new();
        let mut at: usize = 0;
        let ghost q = self@.quoting;
        assert(token_views(tokens@) =~= Seq::<TokenView>::empty());
        while at < s.len()
            invariant
                at <= s.len(),
                q == self@.quoting,
                tokens_of(s@, q) == tokens_from(s@, q, at as int, token_views(tokens@)),
                in_order(token_views(tokens@), at as int),
            decreases s.len() - at,
        {
            let ghost before = token_views(tokens@);
            let (token, next) = self.read(s, at);
            if let Some(token) = token {
                let ghost seen = token@;
                tokens.push(token);
                assert(token_views(tokens@) =~= before.push(seen));
                assert(in_order(before.push(seen), next as int)) by {
                    let all = before.push(seen);
                    assert forall|i: int| 0 <= i < all.len() implies 0 <= start_of(
                        #[trigger] all[i],
                    ) < end_of(all[i]) <= next by {
                        if i < before.len() {
                            assert(all[i] == before[i]);
                        }
                    }
                    assert forall|i: int, j: int| 0 <= i < j < all.len() implies end_of(
                        #[trigger] all[i],
                    ) <= start_of(#[trigger] all[j]) by {
                        assert(all[i] == before[i]);
                        if j < before.len() {
                            assert(all[j] == before[j]);
                        }
                    }
                }
            }
            at = next;
        }
        tokens
    }

    /// Finds every placeholder and slot of a text, in order, with the bytes at which each starts
    /// and ends.
    pub fn scan(&self, sql: &str) -> (r: Vec<Token>)
        ensures
            token_views(r@) == all_in_bytes(sql@, tokens_of(sql@, self@.quoting)),
    {
        let s = chars_of(sql);
        let found = self.scan_chars(s.as_slice());
        let ghost views = token_views(found@);
        let mut tokens: Vec<Token> = Vec::new();
        let mut i: usize = 0;
        while i < found.len()
            invariant
                i <= found.len(),
                tokens.len() == i,
                views == token_views(found@),
                in_order(views, sql@.len() as int),
                forall|j: int| 0 <= j < i ==> (#[trigger] tokens@[j])@ == in_bytes(sql@, views[j]),
            decreases found.len() - i,
        {
            assert(views[i as int] == found@[i as int]@);
            tokens.push(found[i].in_bytes(sql));
            i += 1;
        }
        assert(token_views(tokens@) =~= all_in_bytes(sql@, views));
        tokens
    }

    /// How many values the placeholders among these tokens call for.
    pub fn count_placeholders(&self, tokens: &[Token]) -> (r: Result<usize, PlaceholderError>)
        ensures
            match (r, values_called_for(token_views(tokens@), self@.placeholder)) {
                (Ok(n), Ok(count)) => n == count,
                (Err(PlaceholderError::Unsupported { number }), Err(found)) => number == found,
                _ => false,
            },
    {
        if self.syntax.placeholder.is_number() {
            return Ok(highest(tokens));
        }
        let ghost views = token_views(tokens@);
        let mut count: usize = 0;
        let mut i: usize = 0;
        while i < tokens.len()
            invariant
                i <= tokens.len(),
                count <= i,
                views == token_views(tokens@),
                self@.placeholder == PlaceholderStyle::Question,
                first_number(views, 0) == first_number(views, i as int),
                count == questions(views, i as nat),
            decreases tokens.len() - i,
        {
            assert(views[i as int] == tokens@[i as int]@);
            if let Some(number) = tokens[i].placeholder_number() {
                return Err(PlaceholderError::Unsupported { number });
            }
            if tokens[i].is_placeholder_question() {
                count += 1;
            }
            i += 1;
        }
        Ok(count)
    }

    /// The highest number in a text, or zero: how far a fragment that is spliced after it has
    /// to be shifted.
    pub fn max_placeholder_number(&self, sql: &str) -> (r: usize)
        ensures
            r == max_number(sql@, self@.quoting),
    {
        let s = chars_of(sql);
        let tokens = self.scan_chars(s.as_slice());
        assert(token_views(tokens@).len() == tokens@.len());
        highest(tokens.as_slice())
    }

    /// Raises every number in a text, so that a fragment that numbers its own placeholders
    /// from one can be spliced past those that are there.
    pub fn shift_placeholder_numbers(&self, sql: &str, offset: usize) -> (r: String)
        ensures
            r@ == shifted(sql@, self@.quoting, offset as nat),
    {
        let s = chars_of(sql);
        if offset == 0 {
            return string_of(s.as_slice());
        }
        let tokens = self.scan_chars(s.as_slice());
        let ghost views = token_views(tokens@);
        let mut out = String::new();
        let mut last: usize = 0;
        let mut i: usize = 0;
        while i < tokens.len()
            invariant
                i <= tokens.len(),
                last <= s.len(),
                s@ == sql@,
                offset > 0,
                views == token_views(tokens@),
                views == tokens_of(s@, self@.quoting),
                in_order(views, s@.len() as int),
                i < views.len() ==> last <= start_of(views[i as int]),
                shifted(sql@, self@.quoting, offset as nat) == raised_from(
                    s@,
                    views,
                    offset as nat,
                    i as int,
                    last as int,
                    out@,
                ),
            decreases tokens.len() - i,
        {
            assert(views[i as int] == tokens@[i as int]@);
            assert(i + 1 < views.len() ==> end_of(views[i as int]) <= start_of(views[i + 1]));
            if let Token::Placeholder(Placeholder::Number { start, end, number }) = &tokens[i] {
                out.append(string_of(slice_subrange(s.as_slice(), last, *start)).as_str());
                out.append("$");
                out.append(decimal_of(*number as u128 + offset as u128).as_str());
                last = *end;
            }
            i += 1;
        }
        out.append(string_of(slice_subrange(s.as_slice(), last, s.len())).as_str());
        out
    }
}

/// The highest number among tokens, or zero.
pub fn highest(tokens: &[Token]) -> (r: usize)
    ensures
        r == highest_number(token_views(tokens@), tokens@.len()),
{
    let ghost views = token_views(tokens@);
    let mut most: usize = 0;
    let mut i: usize = 0;
    while i < tokens.len()
        invariant
            i <= tokens.len(),
            views == token_views(tokens@),
            most == highest_number(views, i as nat),
        decreases tokens.len() - i,
    {
        assert(views[i as int] == tokens@[i as int]@);
        if let Some(number) = tokens[i].placeholder_number() {
            if number > most {
                most = number;
            }
        }
        i += 1;
    }
    most
}

proof fn lemma_raised_grows(
    s: Seq<char>,
    tokens: Seq<TokenView>,
    offset: nat,
    i: int,
    last: int,
    out: Seq<char>,
)
    requires
        out.len() > 0,
    ensures
        raised_from(s, tokens, offset, i, last, out).len() > 0,
    decreases tokens.len() - i,
{
    if 0 <= i < tokens.len() {
        match tokens[i] {
            TokenView::Number { start, end, number } => {
                let next = out + s.subrange(last, start) + "$"@ + decimal(number + offset);
                reveal_strlit("$");
                lemma_raised_grows(s, tokens, offset, i + 1, end, next);
            },
            _ => {
                lemma_raised_grows(s, tokens, offset, i + 1, last, out);
            },
        }
    }
}

proof fn lemma_raised_nonempty(s: Seq<char>, tokens: Seq<TokenView>, offset: nat, i: int)
    requires
        s.len() > 0,
    ensures
        raised_from(s, tokens, offset, i, 0, Seq::empty()).len() > 0,
    decreases tokens.len() - i,
{
    if 0 <= i < tokens.len() {
        match tokens[i] {
            TokenView::Number { start, end, number } => {
                let next = Seq::<char>::empty() + s.subrange(0, start) + "$"@ + decimal(
                    number + offset,
                );
                reveal_strlit("$");
                lemma_raised_grows(s, tokens, offset, i + 1, end, next);
            },
            _ => {
                lemma_raised_nonempty(s, tokens, offset, i + 1);
            },
        }
    }
}

/// Shifting leaves no text empty that was not.
pub proof fn lemma_shifted_nonempty(s: Seq<char>, q: Quoting, offset: nat)
    requires
        s.len() > 0,
    ensures
        shifted(s, q, offset).len() > 0,
{
    lemma_raised_nonempty(s, tokens_of(s, q), offset, 0);
}

// ---------------------------------------------------------------------------
// Laws
// ---------------------------------------------------------------------------

/// Shifting by nothing changes nothing.
pub proof fn law_a_zero_shift_changes_nothing(s: Seq<char>, q: Quoting)
    ensures
        shifted(s, q, 0) == s,
{
}

proof fn lemma_raised_plain(s: Seq<char>, tokens: Seq<TokenView>, offset: nat, i: int)
    requires
        forall|j: int| 0 <= j < tokens.len() ==> number_of(#[trigger] tokens[j]) is None,
    ensures
        raised_from(s, tokens, offset, i, 0, Seq::empty()) == s,
    decreases tokens.len() - i,
{
    if 0 <= i < tokens.len() {
        assert(number_of(tokens[i]) is None);
        lemma_raised_plain(s, tokens, offset, i + 1);
    } else {
        assert(Seq::<char>::empty() + s.subrange(0, s.len() as int) =~= s);
    }
}

/// Shifting changes nothing but numbered placeholders: a text without one stays as it is,
/// whatever its literals and comments hold.
pub proof fn law_only_placeholders_shift(s: Seq<char>, q: Quoting, offset: nat)
    requires
        forall|j: int|
            0 <= j < tokens_of(s, q).len() ==> number_of(#[trigger] tokens_of(s, q)[j]) is None,
    ensures
        shifted(s, q, offset) == s,
        max_number(s, q) == 0,
{
    lemma_raised_plain(s, tokens_of(s, q), offset, 0);
    lemma_no_number(tokens_of(s, q), tokens_of(s, q).len());
}

proof fn lemma_no_number(tokens: Seq<TokenView>, n: nat)
    requires
        n <= tokens.len(),
        forall|j: int| 0 <= j < tokens.len() ==> number_of(#[trigger] tokens[j]) is None,
    ensures
        highest_number(tokens, n) == 0,
    decreases n,
{
    if n > 0 {
        lemma_no_number(tokens, (n - 1) as nat);
        assert(number_of(tokens[n - 1]) is None);
    }
}

/// No placeholder carries a higher number than the highest.
pub proof fn law_no_number_is_higher(tokens: Seq<TokenView>, n: nat, i: int)
    requires
        0 <= i < n <= tokens.len(),
    ensures
        number_of(tokens[i]) matches Some(number) ==> number <= highest_number(tokens, n),
    decreases n,
{
    if i < n - 1 {
        law_no_number_is_higher(tokens, (n - 1) as nat, i);
    }
}

} // verus!

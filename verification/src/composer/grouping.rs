//! What holds a condition together when another one is put beside it.
//!
//! `AND` binds tighter than `OR`. A condition with an `OR` of its own, outside parentheses, has
//! to be enclosed before it stands beside an `AND`, or what follows it applies to its last
//! alternative only.

use vstd::prelude::*;
use vstd::slice::slice_subrange;

#[allow(unused_imports)]
use crate::composer::lexer::{lemma_step_end, step, TokenView};
use crate::composer::lexer::QueryLexer;
#[allow(unused_imports)]
use crate::composer::shift::{exact, lemma_step_moves, near, open_at, stops};
#[allow(unused_imports)]
use crate::composer::syntax::Quoting;
#[allow(unused_imports)]
use crate::lexical::{lemma_word_run, word_run};
use crate::text::{is_ascii_letter, is_word_char, spells};
#[allow(unused_imports)]
use crate::text::{ascii_letter, lowered, word_char};
#[allow(unused_imports)]
use crate::composer::reading::law_a_quoted_text_is_passed_over;
#[allow(unused_imports)]
use crate::composer::shift::plain;
#[allow(unused_imports)]
use crate::lexical::{quotable, run_together};

verus! {

// ---------------------------------------------------------------------------
// An `OR` outside parentheses
// ---------------------------------------------------------------------------

/// A character that a word begins with.
pub open spec fn word_start(c: char) -> bool {
    ascii_letter(c) || c == '_' || c as u32 >= 128
}

/// A character that a word goes on with.
pub open spec fn word_part(c: char) -> bool {
    word_char(c) || c == '$' || c as u32 >= 128
}

/// Where the word that `at` is in ends.
pub open spec fn word_end(s: Seq<char>, at: int) -> int
    decreases s.len() - at,
{
    if !(0 <= at < s.len()) || !word_part(s[at]) {
        at
    } else {
        word_end(s, at + 1)
    }
}

/// The word from `at` to `end` is `OR`, in any case.
pub open spec fn or_between(s: Seq<char>, at: int, end: int) -> bool {
    lowered(s.subrange(at, end)) == lowered("or"@)
}

/// Where the reading goes on behind what stands at `at`: behind a word, a literal, a quoted
/// identifier, a comment or a placeholder as a whole, and behind anything else by a character.
pub open spec fn past(s: Seq<char>, q: Quoting, at: int) -> int {
    if word_start(s[at]) {
        word_end(s, at)
    } else {
        step(s, q, at).1
    }
}

/// How deep in parentheses the reading is behind `at`.
pub open spec fn depth_past(s: Seq<char>, at: int, depth: nat) -> nat {
    if s[at] == '(' {
        depth + 1
    } else if s[at] == ')' && depth > 0 {
        (depth - 1) as nat
    } else {
        depth
    }
}

/// From `at` on, so deep in parentheses, there is an `OR` outside all of them.
pub open spec fn splits_from(s: Seq<char>, q: Quoting, at: int, depth: nat) -> bool
    decreases s.len() - at,
{
    if !(0 <= at < s.len()) {
        false
    } else {
        let next = past(s, q, at);
        ||| depth == 0 && word_start(s[at]) && or_between(s, at, next)
        ||| at < next <= s.len() && splits_from(s, q, next, depth_past(s, at, depth))
    }
}

/// A condition has an `OR` outside its literals, quoted identifiers, comments and parentheses.
pub open spec fn splits(s: Seq<char>, q: Quoting) -> bool {
    splits_from(s, q, 0, 0)
}

/// A condition that can stand beside an `AND`: in parentheses where it has an `OR` of its own,
/// and as it is otherwise.
pub open spec fn enclosed(s: Seq<char>, q: Quoting) -> Seq<char> {
    if splits(s, q) {
        "("@ + s + ")"@
    } else {
        s
    }
}

// ---------------------------------------------------------------------------
// Reading
// ---------------------------------------------------------------------------

proof fn lemma_word_end(s: Seq<char>, at: int)
    requires
        0 <= at <= s.len(),
    ensures
        at <= word_end(s, at) <= s.len(),
        at < s.len() && word_part(s[at]) ==> at < word_end(s, at),
        forall|i: int| at <= i < word_end(s, at) ==> word_part(#[trigger] s[i]),
        word_end(s, at) < s.len() ==> !word_part(s[word_end(s, at)]),
    decreases s.len() - at,
{
    if at < s.len() && word_part(s[at]) {
        lemma_word_end(s, at + 1);
    }
}

proof fn lemma_past(s: Seq<char>, q: Quoting, at: int)
    requires
        0 <= at < s.len(),
    ensures
        at < past(s, q, at) <= s.len(),
{
    if word_start(s[at]) {
        lemma_word_end(s, at);
    } else {
        lemma_step_end(s, q, at);
    }
}

fn begins_word(c: char) -> (b: bool)
    ensures
        b == word_start(c),
{
    is_ascii_letter(c) || c == '_' || c as u32 >= 128
}

fn skip_word(s: &[char], at: usize) -> (r: usize)
    requires
        at <= s@.len(),
    ensures
        r == word_end(s@, at as int),
        at <= r <= s@.len(),
{
    let mut i: usize = at;
    while i < s.len() && (is_word_char(s[i]) || s[i] == '$' || s[i] as u32 >= 128)
        invariant
            at <= i <= s.len(),
            word_end(s@, at as int) == word_end(s@, i as int),
        decreases s.len() - i,
    {
        i += 1;
    }
    i
}

impl QueryLexer {
    /// Whether a condition has an `OR` outside its literals, quoted identifiers, comments and
    /// parentheses.
    pub fn has_top_level_or(&self, s: &[char]) -> (b: bool)
        ensures
            b == splits(s@, self@.quoting),
    {
        let ghost q = self@.quoting;
        let mut at: usize = 0;
        let mut depth: usize = 0;
        while at < s.len()
            invariant
                at <= s.len(),
                depth <= at,
                q == self@.quoting,
                splits(s@, q) == splits_from(s@, q, at as int, depth as nat),
            decreases s.len() - at,
        {
            proof {
                lemma_past(s@, q, at as int);
            }
            let next = if begins_word(s[at]) {
                let end = skip_word(s, at);
                if depth == 0 && spells(slice_subrange(s, at, end), "or") {
                    return true;
                }
                end
            } else {
                self.read(s, at).1
            };
            if s[at] == '(' {
                depth += 1;
            } else if s[at] == ')' && depth > 0 {
                depth -= 1;
            }
            at = next;
        }
        false
    }
}

// ---------------------------------------------------------------------------
// Laws
// ---------------------------------------------------------------------------

/// From `at` on, so deep in parentheses, everything that begins is closed: literals, quoted
/// identifiers and comments before the text ends, and parentheses in turn.
pub open spec fn closed_from(s: Seq<char>, q: Quoting, at: int, depth: nat) -> bool
    decreases s.len() - at,
{
    if !(0 <= at < s.len()) {
        depth == 0
    } else {
        let next = past(s, q, at);
        &&& word_start(s[at]) || !open_at(s, q, at)
        &&& s[at] == ')' ==> depth > 0
        &&& at < next <= s.len() ==> closed_from(s, q, next, depth_past(s, at, depth))
    }
}

/// Everything that begins in a text is closed in it.
pub open spec fn closed(s: Seq<char>, q: Quoting) -> bool {
    closed_from(s, q, 0, 0)
}

proof fn lemma_word_end_moves(s: Seq<char>, w: Seq<char>, at: int)
    requires
        0 <= at <= s.len(),
        w.len() == s.len() + 2,
        forall|i: int| 0 <= i < s.len() ==> #[trigger] s[i] == w[i + 1],
        w.last() == ')',
    ensures
        word_end(w, at + 1) == word_end(s, at) + 1,
    decreases s.len() - at,
{
    if at < s.len() {
        assert(s[at] == w[at + 1]);
        if word_part(s[at]) {
            lemma_word_end_moves(s, w, at + 1);
        }
    } else {
        assert(!word_part(')'));
    }
}

/// What stands in parentheses is read as it was, one level deeper.
proof fn lemma_past_moves(s: Seq<char>, q: Quoting, w: Seq<char>, at: int)
    requires
        0 <= at < s.len(),
        w.len() == s.len() + 2,
        forall|i: int| 0 <= i < s.len() ==> #[trigger] s[i] == w[i + 1],
        w.last() == ')',
        word_start(s[at]) || !open_at(s, q, at),
    ensures
        past(w, q, at + 1) == past(s, q, at) + 1,
{
    assert(s[at] == w[at + 1]);
    if word_start(s[at]) {
        lemma_word_end_moves(s, w, at);
    } else {
        lemma_step_end(s, q, at);
        lemma_word_run(s, at + 1);
        let next = step(s, q, at).1;
        assert(stops(')'));
        assert(next < s.len() ==> s[next] == w[next + 1]);
        assert(near(s, w, 1, at, next));
        let run = word_run(s, at + 1);
        assert(run < s.len() ==> s[run] == w[run + 1]);
        assert(near(s, w, 1, at, run));
        assert(exact(s, w, 1, run));
        lemma_step_moves(s, q, at, w, 1);
    }
}

proof fn lemma_held_together(s: Seq<char>, q: Quoting, w: Seq<char>, at: int, depth: nat)
    requires
        0 <= at <= s.len(),
        w.len() == s.len() + 2,
        forall|i: int| 0 <= i < s.len() ==> #[trigger] s[i] == w[i + 1],
        w.last() == ')',
        closed_from(s, q, at, depth),
    ensures
        !splits_from(w, q, at + 1, depth + 1),
    decreases s.len() - at,
{
    if at < s.len() {
        lemma_past(s, q, at);
        lemma_past_moves(s, q, w, at);
        assert(s[at] == w[at + 1]);
        let next = past(s, q, at);
        lemma_held_together(s, q, w, next, depth_past(s, at, depth));
    } else {
        let last = w.len() - 1;
        assert(!word_start(')'));
        assert(step(w, q, last) == (None::<TokenView>, last + 1));
        assert(past(w, q, last) == last + 1);
        assert(!splits_from(w, q, last + 1, 0));
    }
}

/// A condition that was enclosed has no `OR` outside parentheses any more, so an `AND` beside it
/// applies to all of it. Left out are texts that do not close what they begin.
pub proof fn law_an_enclosed_condition_holds_together(s: Seq<char>, q: Quoting)
    requires
        closed(s, q),
    ensures
        !splits(enclosed(s, q), q),
{
    if splits(s, q) {
        let w = enclosed(s, q);
        reveal_strlit("(");
        reveal_strlit(")");
        assert forall|i: int| 0 <= i < s.len() implies #[trigger] s[i] == w[i + 1] by {}
        assert(w[0] == '(');
        assert(!word_start('('));
        assert(step(w, q, 0) == (None::<TokenView>, 1int));
        assert(past(w, q, 0) == 1);
        lemma_held_together(s, q, w, 0, 0);
    }
}

/// A part of a condition: a word, a sign, a parenthesis, or a literal in quotes.
pub enum Part {
    Word(Seq<char>),
    Sign(char),
    Open,
    Close,
    Quoted(Seq<Seq<char>>),
}

/// The part can be written: a word begins with a letter and goes on with letters and digits, a sign
/// is nothing that anything begins with, and a literal closes where it is closed.
pub open spec fn writable(part: Part, q: Quoting) -> bool {
    match part {
        Part::Word(word) => word.len() > 0 && word_start(word[0]) && forall|i: int|
            0 <= i < word.len() ==> word_part(#[trigger] word[i]),
        Part::Sign(c) => plain(c) && !word_start(c) && c != '(' && c != ')',
        Part::Open => true,
        Part::Close => true,
        Part::Quoted(units) => forall|i: int|
            0 <= i < units.len() ==> quotable(#[trigger] units[i], '\'', q.backslash_escapes),
    }
}

/// The text of a part.
pub open spec fn part_text(part: Part) -> Seq<char> {
    match part {
        Part::Word(word) => word,
        Part::Sign(c) => seq![c],
        Part::Open => seq!['('],
        Part::Close => seq![')'],
        Part::Quoted(units) => seq!['\''] + run_together(units) + seq!['\''],
    }
}

/// The text of the parts from the `i`th on.
pub open spec fn parts_text(parts: Seq<Part>, i: int) -> Seq<char>
    decreases parts.len() - i,
{
    if !(0 <= i < parts.len()) {
        Seq::empty()
    } else {
        part_text(parts[i]) + parts_text(parts, i + 1)
    }
}

/// Nothing runs into what stands behind it: no word into a word, and no literal into a literal.
pub open spec fn apart(parts: Seq<Part>) -> bool {
    forall|i: int|
        0 <= i && i + 1 < parts.len() ==> match #[trigger] parts[i] {
            Part::Word(_) => !word_part(part_text(parts[i + 1])[0]),
            Part::Quoted(_) => part_text(parts[i + 1])[0] != '\'',
            _ => true,
        }
}

/// From the `i`th part on, so deep in parentheses, one is the word `OR` outside all of them.
pub open spec fn or_outside(parts: Seq<Part>, i: int, depth: nat) -> bool
    decreases parts.len() - i,
{
    if !(0 <= i < parts.len()) {
        false
    } else {
        match parts[i] {
            Part::Word(word) => depth == 0 && lowered(word) == "or"@ || or_outside(
                parts,
                i + 1,
                depth,
            ),
            Part::Open => or_outside(parts, i + 1, depth + 1),
            Part::Close => or_outside(
                parts,
                i + 1,
                if depth > 0 {
                    (depth - 1) as nat
                } else {
                    0
                },
            ),
            _ => or_outside(parts, i + 1, depth),
        }
    }
}

proof fn lemma_word_ends(s: Seq<char>, at: int, end: int)
    requires
        0 <= at <= end <= s.len(),
        forall|i: int| at <= i < end ==> word_part(#[trigger] s[i]),
        end < s.len() ==> !word_part(s[end]),
    ensures
        word_end(s, at) == end,
    decreases end - at,
{
    if at < end {
        lemma_word_ends(s, at + 1, end);
    }
}

#[verifier::rlimit(50)]
proof fn lemma_splits_as_read(before: Seq<char>, parts: Seq<Part>, i: int, depth: nat, q: Quoting)
    requires
        0 <= i <= parts.len(),
        apart(parts),
        forall|j: int| 0 <= j < parts.len() ==> writable(#[trigger] parts[j], q),
    ensures
        splits_from(before + parts_text(parts, i), q, before.len() as int, depth) == or_outside(
            parts,
            i,
            depth,
        ),
    decreases parts.len() - i,
{
    let s = before + parts_text(parts, i);
    let at = before.len() as int;
    if i < parts.len() {
        let text = part_text(parts[i]);
        let rest = parts_text(parts, i + 1);
        let next = at + text.len();
        assert(writable(parts[i], q));
        assert(s =~= before + text + rest);
        assert(text.len() > 0);
        assert(s[at] == text[0]);
        if i + 1 < parts.len() {
            assert(writable(parts[i + 1], q));
            assert(part_text(parts[i + 1]).len() > 0);
            assert(rest[0] == part_text(parts[i + 1])[0]);
            assert(s[next] == rest[0]);
        } else {
            assert(rest.len() == 0);
        }
        let deeper = match parts[i] {
            Part::Open => depth + 1,
            Part::Close => if depth > 0 {
                (depth - 1) as nat
            } else {
                0
            },
            _ => depth,
        };
        lemma_splits_as_read(before + text, parts, i + 1, deeper, q);
        match parts[i] {
            Part::Word(word) => {
                assert forall|j: int| at <= j < next implies word_part(#[trigger] s[j]) by {
                    assert(s[j] == word[j - at]);
                }
                lemma_word_ends(s, at, next);
                assert(s.subrange(at, next) =~= word);
                reveal_strlit("or");
                assert(lowered("or"@) =~= "or"@);
            },
            Part::Quoted(units) => {
                law_a_quoted_text_is_passed_over(before, units, rest, '\'', q);
                assert(before + seq!['\''] + run_together(units) + seq!['\''] + rest =~= s);
            },
            _ => {
                assert(step(s, q, at).1 == at + 1);
            },
        }
        assert(past(s, q, at) == next);
        assert(depth_past(s, at, depth) == deeper);
    } else {
        assert(s =~= before);
    }
}

/// A condition splits exactly where the word `OR`, in any case, stands in it outside of parentheses:
/// not where it is part of a longer word, nor where a literal holds it. Only then is the condition
/// put in parentheses, as a whole.
pub proof fn law_a_condition_splits_at_an_or_outside(parts: Seq<Part>, q: Quoting)
    requires
        apart(parts),
        forall|j: int| 0 <= j < parts.len() ==> writable(#[trigger] parts[j], q),
    ensures
        splits(parts_text(parts, 0), q) <==> or_outside(parts, 0, 0),
        or_outside(parts, 0, 0) ==> enclosed(parts_text(parts, 0), q) == "("@ + parts_text(parts, 0)
            + ")"@,
        !or_outside(parts, 0, 0) ==> enclosed(parts_text(parts, 0), q) == parts_text(parts, 0),
{
    lemma_splits_as_read(Seq::empty(), parts, 0, 0, q);
    assert(Seq::<char>::empty() + parts_text(parts, 0) =~= parts_text(parts, 0));
}

} // verus!

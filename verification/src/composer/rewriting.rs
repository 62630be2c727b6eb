//! What becomes of a query's text: which parts of it are written anew, and how.

use vstd::prelude::*;

#[allow(unused_imports)]
use crate::composer::compose::{spelled, spliced, spliced_from, unnumbered_from, ArgumentView};
#[allow(unused_imports)]
use crate::composer::lexer::{raised_from, shifted, tokens_of, TokenView};
#[allow(unused_imports)]
use crate::composer::reading::{
    apart, law_a_query_has_the_tokens_it_is_written_with, part_text, parts_text, tokens_in,
    writable, Part,
};
#[allow(unused_imports)]
use crate::composer::syntax::{PlaceholderStyle, QuerySyntax, Quoting};
#[allow(unused_imports)]
use crate::text::decimal;

verus! {

/// The part is a token.
pub open spec fn is_token(part: Part) -> bool {
    part is Number || part is Question || part is Slot
}

/// What the parts from the `i`th on become, where `write` says what becomes of one behind so many
/// bare placeholders.
pub open spec fn rewritten(
    parts: Seq<Part>,
    write: spec_fn(Part, nat) -> Seq<char>,
    i: int,
    seen: nat,
) -> Seq<char>
    decreases parts.len() - i,
{
    if !(0 <= i < parts.len()) {
        Seq::empty()
    } else {
        write(parts[i], seen) + rewritten(
            parts,
            write,
            i + 1,
            if parts[i] is Question {
                seen + 1
            } else {
                seen
            },
        )
    }
}

// ---------------------------------------------------------------------------
// Splicing
// ---------------------------------------------------------------------------

/// What splicing makes of a part: a slot named `where` becomes the condition with its suffix, one
/// named `order_by` the ordering with its own, and any other slot nothing; a bare placeholder gets
/// its number where placeholders are bare; and everything else stays.
pub open spec fn spliced_part(
    style: PlaceholderStyle,
    where_sql: Seq<char>,
    order_sql: Seq<char>,
) -> spec_fn(Part, nat) -> Seq<char> {
    |part: Part, seen: nat|
        match part {
            Part::Slot(x) => if x.name == "where"@ && where_sql.len() > 0 {
                where_sql + x.suffix
            } else if x.name == "order_by"@ && order_sql.len() > 0 {
                order_sql + x.suffix
            } else {
                Seq::empty()
            },
            Part::Question => if style == PlaceholderStyle::Question {
                "$"@ + decimal(seen + 1)
            } else {
                "?"@
            },
            _ => part_text(part),
        }
}

#[verifier::rlimit(50)]
proof fn lemma_spliced_text(
    s: Seq<char>,
    before: Seq<char>,
    parts: Seq<Part>,
    tokens: Seq<TokenView>,
    style: PlaceholderStyle,
    where_sql: Seq<char>,
    order_sql: Seq<char>,
    i: int,
    k: int,
    last: int,
    seen: nat,
    bare: nat,
    out: Seq<char>,
)
    requires
        0 <= i <= parts.len(),
        s == before + parts_text(parts, i),
        0 <= k <= tokens.len(),
        tokens.skip(k) == tokens_in(parts, i, before.len() as int),
        0 <= last <= before.len(),
        style == PlaceholderStyle::Question ==> bare == seen,
    ensures
        spliced_from(s, tokens, style, where_sql, order_sql, k, last, seen, out) == out + s.subrange(
            last,
            before.len() as int,
        ) + rewritten(parts, spliced_part(style, where_sql, order_sql), i, bare),
    decreases parts.len() - i,
{
    reveal_strlit("where");
    reveal_strlit("order_by");
    assert("where"@.len() == 5 && "order_by"@.len() == 8);
    let write = spliced_part(style, where_sql, order_sql);
    let at = before.len() as int;
    if i < parts.len() {
        let text = part_text(parts[i]);
        let next = before + text;
        let end = next.len() as int;
        let more = if parts[i] is Question {
            bare + 1
        } else {
            bare
        };
        assert(s =~= next + parts_text(parts, i + 1));
        assert(s.subrange(at, end) =~= text);
        assert(s.subrange(last, end) =~= s.subrange(last, at) + text);
        let tail = rewritten(parts, write, i + 1, more);
        if is_token(parts[i]) {
            let all = tokens_in(parts, i, at);
            assert(all.len() > 0);
            assert(tokens.skip(k).len() == tokens.len() - k);
            assert(tokens[k] == tokens.skip(k)[0]);
            assert(tokens.skip(k + 1) =~= tokens.skip(k).skip(1));
            assert(all.skip(1) =~= tokens_in(parts, i + 1, end));
            match parts[i] {
                Part::Slot(x) => {
                    let put = write(parts[i], bare);
                    let held = out + s.subrange(last, at) + put;
                    lemma_spliced_text(
                        s, next, parts, tokens, style, where_sql, order_sql, i + 1, k + 1, end,
                        seen, more, held,
                    );
                    assert(s.subrange(end, end) =~= Seq::<char>::empty());
                    assert(held + s.subrange(end, end) + tail =~= out + s.subrange(last, at) + (put
                        + tail));
                },
                Part::Question if style == PlaceholderStyle::Question => {
                    let put = "$"@ + decimal(seen + 1);
                    let held = out + s.subrange(last, at) + "$"@ + decimal(seen + 1);
                    lemma_spliced_text(
                        s, next, parts, tokens, style, where_sql, order_sql, i + 1, k + 1, end,
                        seen + 1, more, held,
                    );
                    assert(s.subrange(end, end) =~= Seq::<char>::empty());
                    assert(held + s.subrange(end, end) + tail =~= out + s.subrange(last, at) + (put
                        + tail));
                },
                _ => {
                    lemma_spliced_text(
                        s, next, parts, tokens, style, where_sql, order_sql, i + 1, k + 1, last,
                        seen, more, out,
                    );
                    assert(out + s.subrange(last, end) + tail =~= out + s.subrange(last, at) + (text
                        + tail));
                },
            }
        } else {
            assert(tokens_in(parts, i, at) =~= tokens_in(parts, i + 1, end));
            lemma_spliced_text(
                s, next, parts, tokens, style, where_sql, order_sql, i + 1, k, last, seen, more,
                out,
            );
            assert(out + s.subrange(last, end) + tail =~= out + s.subrange(last, at) + (text
                + tail));
        }
    } else {
        assert(tokens.skip(k).len() == 0);
        assert(s =~= before);
        assert(out + s.subrange(last, at) + Seq::<char>::empty() =~= out + s.subrange(last, at));
    }
}

/// Splicing writes a query as it is but for its slots, each of which becomes what goes into it, and
/// for its bare placeholders, which are numbered in order where that is how placeholders are spelled.
pub proof fn law_splicing_keeps_the_rest_of_the_text(
    parts: Seq<Part>,
    syntax: QuerySyntax,
    where_sql: Seq<char>,
    order_sql: Seq<char>,
)
    requires
        apart(parts),
        forall|j: int| 0 <= j < parts.len() ==> writable(#[trigger] parts[j], syntax.quoting),
    ensures
        spliced(parts_text(parts, 0), syntax, where_sql, order_sql) == rewritten(
            parts,
            spliced_part(syntax.placeholder, where_sql, order_sql),
            0,
            0,
        ),
{
    let none = Seq::<char>::empty();
    let s = parts_text(parts, 0);
    law_a_query_has_the_tokens_it_is_written_with(parts, syntax.quoting);
    let tokens = tokens_of(s, syntax.quoting);
    assert(none + s =~= s);
    assert(tokens.skip(0) =~= tokens);
    lemma_spliced_text(
        s, none, parts, tokens, syntax.placeholder, where_sql, order_sql, 0, 0, 0, 0, 0, none,
    );
    let all = rewritten(parts, spliced_part(syntax.placeholder, where_sql, order_sql), 0, 0);
    assert(none + s.subrange(0, 0) + all =~= all);
}

// ---------------------------------------------------------------------------
// Shifting
// ---------------------------------------------------------------------------

/// What shifting makes of a part: a number is raised, and everything else stays.
pub open spec fn shifted_part(offset: nat) -> spec_fn(Part, nat) -> Seq<char> {
    |part: Part, seen: nat|
        match part {
            Part::Number(n) => "$"@ + decimal(n + offset),
            _ => part_text(part),
        }
}

#[verifier::rlimit(50)]
proof fn lemma_shifted_text(
    s: Seq<char>,
    before: Seq<char>,
    parts: Seq<Part>,
    tokens: Seq<TokenView>,
    offset: nat,
    i: int,
    k: int,
    last: int,
    bare: nat,
    out: Seq<char>,
)
    requires
        0 <= i <= parts.len(),
        s == before + parts_text(parts, i),
        0 <= k <= tokens.len(),
        tokens.skip(k) == tokens_in(parts, i, before.len() as int),
        0 <= last <= before.len(),
    ensures
        raised_from(s, tokens, offset, k, last, out) == out + s.subrange(last, before.len() as int)
            + rewritten(parts, shifted_part(offset), i, bare),
    decreases parts.len() - i,
{
    let write = shifted_part(offset);
    let at = before.len() as int;
    if i < parts.len() {
        let text = part_text(parts[i]);
        let next = before + text;
        let end = next.len() as int;
        let more = if parts[i] is Question {
            bare + 1
        } else {
            bare
        };
        assert(s =~= next + parts_text(parts, i + 1));
        assert(s.subrange(at, end) =~= text);
        assert(s.subrange(last, end) =~= s.subrange(last, at) + text);
        let tail = rewritten(parts, write, i + 1, more);
        if is_token(parts[i]) {
            let all = tokens_in(parts, i, at);
            assert(all.len() > 0);
            assert(tokens.skip(k).len() == tokens.len() - k);
            assert(tokens[k] == tokens.skip(k)[0]);
            assert(tokens.skip(k + 1) =~= tokens.skip(k).skip(1));
            assert(all.skip(1) =~= tokens_in(parts, i + 1, end));
            match parts[i] {
                Part::Number(n) => {
                    let put = "$"@ + decimal(n + offset);
                    let held = out + s.subrange(last, at) + "$"@ + decimal(n + offset);
                    lemma_shifted_text(
                        s, next, parts, tokens, offset, i + 1, k + 1, end, more, held,
                    );
                    assert(s.subrange(end, end) =~= Seq::<char>::empty());
                    assert(held + s.subrange(end, end) + tail =~= out + s.subrange(last, at) + (put
                        + tail));
                },
                _ => {
                    lemma_shifted_text(
                        s, next, parts, tokens, offset, i + 1, k + 1, last, more, out,
                    );
                    assert(out + s.subrange(last, end) + tail =~= out + s.subrange(last, at) + (text
                        + tail));
                },
            }
        } else {
            assert(tokens_in(parts, i, at) =~= tokens_in(parts, i + 1, end));
            lemma_shifted_text(s, next, parts, tokens, offset, i + 1, k, last, more, out);
            assert(out + s.subrange(last, end) + tail =~= out + s.subrange(last, at) + (text
                + tail));
        }
    } else {
        assert(tokens.skip(k).len() == 0);
        assert(s =~= before);
        assert(out + s.subrange(last, at) + Seq::<char>::empty() =~= out + s.subrange(last, at));
    }
}

proof fn lemma_unshifted(parts: Seq<Part>, i: int, bare: nat)
    requires
        0 <= i <= parts.len(),
    ensures
        rewritten(parts, shifted_part(0), i, bare) == parts_text(parts, i),
    decreases parts.len() - i,
{
    if i < parts.len() {
        lemma_unshifted(
            parts,
            i + 1,
            if parts[i] is Question {
                bare + 1
            } else {
                bare
            },
        );
    }
}

/// Shifting writes a text as it is but for its numbers, each of which is raised by the offset.
pub proof fn law_shifting_keeps_the_rest_of_the_text(parts: Seq<Part>, q: Quoting, offset: nat)
    requires
        apart(parts),
        forall|j: int| 0 <= j < parts.len() ==> writable(#[trigger] parts[j], q),
    ensures
        shifted(parts_text(parts, 0), q, offset) == rewritten(parts, shifted_part(offset), 0, 0),
{
    let none = Seq::<char>::empty();
    let s = parts_text(parts, 0);
    law_a_query_has_the_tokens_it_is_written_with(parts, q);
    let tokens = tokens_of(s, q);
    assert(none + s =~= s);
    assert(tokens.skip(0) =~= tokens);
    lemma_shifted_text(s, none, parts, tokens, offset, 0, 0, 0, 0, none);
    let all = rewritten(parts, shifted_part(offset), 0, 0);
    assert(none + s.subrange(0, 0) + all =~= all);
    lemma_unshifted(parts, 0, 0);
}

// ---------------------------------------------------------------------------
// Spelling
// ---------------------------------------------------------------------------

/// What the spelling of a dialect without numbers makes of a part: a number becomes a `?`, and
/// everything else stays.
pub open spec fn bare_part() -> spec_fn(Part, nat) -> Seq<char> {
    |part: Part, seen: nat|
        match part {
            Part::Number(_) => "?"@,
            _ => part_text(part),
        }
}

/// The arguments that the numbers among the parts from the `i`th on name, in order.
pub open spec fn named_by(parts: Seq<Part>, arguments: Seq<ArgumentView>, i: int) -> Seq<
    ArgumentView,
>
    decreases parts.len() - i,
{
    if !(0 <= i < parts.len()) {
        Seq::empty()
    } else {
        match parts[i] {
            Part::Number(n) => seq![arguments[n - 1]] + named_by(parts, arguments, i + 1),
            _ => named_by(parts, arguments, i + 1),
        }
    }
}

#[verifier::rlimit(50)]
proof fn lemma_bare_text(
    s: Seq<char>,
    before: Seq<char>,
    parts: Seq<Part>,
    tokens: Seq<TokenView>,
    arguments: Seq<ArgumentView>,
    i: int,
    k: int,
    last: int,
    bare: nat,
    out: Seq<char>,
    picked: Seq<ArgumentView>,
)
    requires
        0 <= i <= parts.len(),
        s == before + parts_text(parts, i),
        0 <= k <= tokens.len(),
        tokens.skip(k) == tokens_in(parts, i, before.len() as int),
        0 <= last <= before.len(),
        forall|j: int|
            0 <= j < parts.len() ==> ((#[trigger] parts[j]) matches Part::Number(n) ==> 1 <= n
                <= arguments.len()),
    ensures
        unnumbered_from(s, tokens, arguments, k, last, out, picked) matches Ok(found) && found.sql
            == out + s.subrange(last, before.len() as int) + rewritten(parts, bare_part(), i, bare)
            && found.arguments == picked + named_by(parts, arguments, i),
    decreases parts.len() - i,
{
    let write = bare_part();
    let at = before.len() as int;
    if i < parts.len() {
        let text = part_text(parts[i]);
        let next = before + text;
        let end = next.len() as int;
        let more = if parts[i] is Question {
            bare + 1
        } else {
            bare
        };
        assert(s =~= next + parts_text(parts, i + 1));
        assert(s.subrange(at, end) =~= text);
        assert(s.subrange(last, end) =~= s.subrange(last, at) + text);
        let tail = rewritten(parts, write, i + 1, more);
        if is_token(parts[i]) {
            let all = tokens_in(parts, i, at);
            assert(all.len() > 0);
            assert(tokens.skip(k).len() == tokens.len() - k);
            assert(tokens[k] == tokens.skip(k)[0]);
            assert(tokens.skip(k + 1) =~= tokens.skip(k).skip(1));
            assert(all.skip(1) =~= tokens_in(parts, i + 1, end));
            match parts[i] {
                Part::Number(n) => {
                    let held = out + s.subrange(last, at) + "?"@;
                    let more_picked = picked.push(arguments[n - 1]);
                    lemma_bare_text(
                        s, next, parts, tokens, arguments, i + 1, k + 1, end, more, held,
                        more_picked,
                    );
                    assert(s.subrange(end, end) =~= Seq::<char>::empty());
                    assert(held + s.subrange(end, end) + tail =~= out + s.subrange(last, at) + (
                    "?"@ + tail));
                    assert(more_picked + named_by(parts, arguments, i + 1) =~= picked + named_by(
                        parts,
                        arguments,
                        i,
                    ));
                },
                _ => {
                    lemma_bare_text(
                        s, next, parts, tokens, arguments, i + 1, k + 1, last, more, out, picked,
                    );
                    assert(out + s.subrange(last, end) + tail =~= out + s.subrange(last, at) + (text
                        + tail));
                },
            }
        } else {
            assert(tokens_in(parts, i, at) =~= tokens_in(parts, i + 1, end));
            lemma_bare_text(
                s, next, parts, tokens, arguments, i + 1, k, last, more, out, picked,
            );
            assert(out + s.subrange(last, end) + tail =~= out + s.subrange(last, at) + (text
                + tail));
        }
    } else {
        assert(tokens.skip(k).len() == 0);
        assert(s =~= before);
        assert(out + s.subrange(last, at) + Seq::<char>::empty() =~= out + s.subrange(last, at));
        assert(picked + named_by(parts, arguments, i) =~= picked);
    }
}

/// A dialect with numbers spells a statement as it is. One without spells a `?` for every number and
/// leaves the rest of the text alone, with the argument that each number names, in order.
pub proof fn law_spelling_keeps_the_rest_of_the_text(
    parts: Seq<Part>,
    arguments: Seq<ArgumentView>,
    syntax: QuerySyntax,
)
    requires
        apart(parts),
        forall|j: int| 0 <= j < parts.len() ==> writable(#[trigger] parts[j], syntax.quoting),
        forall|j: int|
            0 <= j < parts.len() ==> ((#[trigger] parts[j]) matches Part::Number(n) ==> 1 <= n
                <= arguments.len()),
    ensures
        ({
            let s = parts_text(parts, 0);
            spelled(s, arguments, syntax) matches Ok(found) && match syntax.placeholder {
                PlaceholderStyle::Number => found.sql == s && found.arguments == arguments,
                PlaceholderStyle::Question => found.sql == rewritten(parts, bare_part(), 0, 0)
                    && found.arguments == named_by(parts, arguments, 0),
            }
        }),
{
    let none = Seq::<char>::empty();
    let s = parts_text(parts, 0);
    law_a_query_has_the_tokens_it_is_written_with(parts, syntax.quoting);
    let tokens = tokens_of(s, syntax.quoting);
    assert(none + s =~= s);
    assert(tokens.skip(0) =~= tokens);
    lemma_bare_text(s, none, parts, tokens, arguments, 0, 0, 0, 0, none, Seq::empty());
    let all = rewritten(parts, bare_part(), 0, 0);
    assert(none + s.subrange(0, 0) + all =~= all);
    assert(Seq::<ArgumentView>::empty() + named_by(parts, arguments, 0) =~= named_by(
        parts,
        arguments,
        0,
    ));
}

} // verus!

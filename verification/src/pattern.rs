//! Patterns of `LIKE`, with `!` as their escape.

use vstd::prelude::*;
use vstd::string::StringExecFns;

use crate::text::{chars_of, copy_of, push_char, same};

verus! {

/// `text` with every wildcard in it escaped.
pub open spec fn escaped_like(text: Seq<char>) -> Seq<char>
    decreases text.len(),
{
    if text.len() == 0 {
        Seq::empty()
    } else {
        let head = escaped_like(text.drop_last());
        let c = text.last();
        if c == '!' || c == '%' || c == '_' {
            head.push('!').push(c)
        } else {
            head.push(c)
        }
    }
}

/// The pattern that matches what a string method asks for.
pub open spec fn like_pattern(name: Seq<char>, needle: Seq<char>) -> Seq<char> {
    if name == "startsWith"@ {
        escaped_like(needle) + "%"@
    } else if name == "endsWith"@ {
        "%"@ + escaped_like(needle)
    } else {
        "%"@ + escaped_like(needle) + "%"@
    }
}

/// The string methods.
pub open spec fn is_string_method(name: Seq<char>) -> bool {
    name == "startsWith"@ || name == "endsWith"@ || name == "contains"@
}

/// Neutralises the wildcards in the text of a `LIKE` pattern.
pub fn escape_like(needle: &str) -> (r: String)
    ensures
        r@ == escaped_like(needle@),
{
    let text = chars_of(needle);
    let mut r = String::new();
    let mut i: usize = 0;
    assert(needle@.take(0) =~= Seq::<char>::empty());
    while i < text.len()
        invariant
            i <= text.len(),
            text@ == needle@,
            r@ == escaped_like(needle@.take(i as int)),
        decreases text.len() - i,
    {
        let c = text[i];
        assert(needle@.take(i + 1).drop_last() =~= needle@.take(i as int));
        if c == '!' || c == '%' || c == '_' {
            push_char(&mut r, '!');
        }
        push_char(&mut r, c);
        i += 1;
    }
    assert(needle@.take(i as int) =~= needle@);
    r
}

/// The pattern that matches what a string method asks for.
pub fn write_pattern(name: &str, needle: &str) -> (r: String)
    ensures
        r@ == like_pattern(name@, needle@),
{
    let text = escape_like(needle);
    if same(name, "startsWith") {
        text.concat("%")
    } else if same(name, "endsWith") {
        copy_of("%").concat(text.as_str())
    } else {
        copy_of("%").concat(text.as_str()).concat("%")
    }
}

// ---------------------------------------------------------------------------
// Laws
// ---------------------------------------------------------------------------

/// How SQL reads `text LIKE pattern ESCAPE '!'`: `%` stands for any run of characters, `_` for
/// any one, and what follows a `!` for itself.
pub open spec fn like(pattern: Seq<char>, text: Seq<char>) -> bool
    decreases pattern.len(), text.len(),
{
    if pattern.len() == 0 {
        text.len() == 0
    } else if pattern[0] == '%' {
        like(pattern.skip(1), text) || (text.len() > 0 && like(pattern, text.skip(1)))
    } else if text.len() == 0 {
        false
    } else if pattern[0] == '!' {
        pattern.len() > 1 && text[0] == pattern[1] && like(pattern.skip(2), text.skip(1))
    } else if pattern[0] == '_' {
        like(pattern.skip(1), text.skip(1))
    } else {
        text[0] == pattern[0] && like(pattern.skip(1), text.skip(1))
    }
}

/// One character of a needle, escaped.
spec fn escaped_char(c: char) -> Seq<char> {
    if c == '!' || c == '%' || c == '_' {
        seq!['!', c]
    } else {
        seq![c]
    }
}

proof fn lemma_escaped_first(needle: Seq<char>)
    requires
        needle.len() > 0,
    ensures
        escaped_like(needle) == escaped_char(needle[0]) + escaped_like(needle.skip(1)),
    decreases needle.len(),
{
    let rest = needle.drop_last();
    let c = needle.last();
    if rest.len() == 0 {
        assert(escaped_like(rest) =~= Seq::<char>::empty());
        assert(needle.skip(1) =~= Seq::<char>::empty());
        assert(escaped_like(needle) =~= escaped_char(needle[0]) + escaped_like(needle.skip(1)));
    } else {
        lemma_escaped_first(rest);
        assert(needle.skip(1).drop_last() =~= rest.skip(1));
        assert(needle.skip(1).last() == c);
        assert(escaped_like(needle) =~= escaped_char(needle[0]) + escaped_like(needle.skip(1)));
    }
}

/// An escaped needle stands for itself, whatever pattern follows it.
proof fn lemma_escaped_stands_for_itself(needle: Seq<char>, pattern: Seq<char>, text: Seq<char>)
    ensures
        like(escaped_like(needle) + pattern, text) <==> needle.is_prefix_of(text) && like(
            pattern,
            text.skip(needle.len() as int),
        ),
    decreases needle.len(),
{
    let whole = escaped_like(needle) + pattern;
    if needle.len() == 0 {
        assert(whole =~= pattern);
        assert(text.skip(0) =~= text);
    } else {
        let rest = needle.skip(1);
        let head = escaped_char(needle[0]);
        let tail = escaped_like(rest) + pattern;
        lemma_escaped_first(needle);
        assert(whole =~= head + tail);
        assert(whole[0] == head[0]);
        assert(whole.skip(head.len() as int) =~= tail);
        if head.len() == 2 {
            assert(whole[1] == needle[0]);
        }
        if text.len() > 0 {
            lemma_escaped_stands_for_itself(rest, pattern, text.skip(1));
            if needle.len() <= text.len() {
                assert(text.skip(1).skip(rest.len() as int) =~= text.skip(needle.len() as int));
            }
            assert(needle.is_prefix_of(text) <==> needle[0] == text[0] && rest.is_prefix_of(
                text.skip(1),
            )) by {
                if needle.is_prefix_of(text) {
                    assert(rest =~= text.skip(1).subrange(0, rest.len() as int));
                }
                if needle[0] == text[0] && rest.is_prefix_of(text.skip(1)) {
                    assert forall|i: int| 0 <= i < needle.len() implies needle[i] == text[i] by {
                        if i > 0 {
                            assert(needle[i] == rest[i - 1]);
                            assert(rest[i - 1] == text.skip(1).subrange(0, rest.len() as int)[i - 1]);
                        }
                    }
                    assert(needle =~= text.subrange(0, needle.len() as int));
                }
            }
        }
    }
}

proof fn lemma_anything(text: Seq<char>)
    ensures
        like(seq!['%'], text),
    decreases text.len(),
{
    let any = seq!['%'];
    reveal_with_fuel(like, 2);
    assert(any.skip(1) =~= Seq::<char>::empty());
    if text.len() > 0 {
        lemma_anything(text.skip(1));
    }
}

proof fn lemma_somewhere(pattern: Seq<char>, text: Seq<char>)
    ensures
        like(seq!['%'] + pattern, text) <==> exists|k: int|
            0 <= k <= text.len() && like(pattern, #[trigger] text.skip(k)),
    decreases text.len(),
{
    let whole = seq!['%'] + pattern;
    assert(whole.skip(1) =~= pattern);
    assert(text.skip(0) =~= text);
    if text.len() > 0 {
        let rest = text.skip(1);
        lemma_somewhere(pattern, rest);
        if exists|k: int| 0 <= k <= rest.len() && like(pattern, #[trigger] rest.skip(k)) {
            let k = choose|k: int| 0 <= k <= rest.len() && like(pattern, #[trigger] rest.skip(k));
            assert(text.skip(k + 1) =~= rest.skip(k));
        }
        if exists|k: int| 0 <= k <= text.len() && like(pattern, #[trigger] text.skip(k)) {
            let k = choose|k: int| 0 <= k <= text.len() && like(pattern, #[trigger] text.skip(k));
            if k > 0 {
                assert(text.skip(k) =~= rest.skip(k - 1));
            }
        }
    }
}

/// `startsWith` matches what begins with the needle, whatever wildcards the needle holds.
pub proof fn law_starts_with_matches_prefixes(needle: Seq<char>, text: Seq<char>)
    ensures
        like(like_pattern("startsWith"@, needle), text) <==> needle.is_prefix_of(text),
{
    reveal_strlit("%");
    assert("%"@ =~= seq!['%']);
    lemma_escaped_stands_for_itself(needle, seq!['%'], text);
    if needle.is_prefix_of(text) {
        lemma_anything(text.skip(needle.len() as int));
    }
}

/// `endsWith` matches what ends with the needle, whatever wildcards the needle holds.
pub proof fn law_ends_with_matches_suffixes(needle: Seq<char>, text: Seq<char>)
    ensures
        like(like_pattern("endsWith"@, needle), text) <==> needle.is_suffix_of(text),
{
    reveal_strlit("%");
    reveal_strlit("startsWith");
    reveal_strlit("endsWith");
    assert("%"@ =~= seq!['%']);
    assert("startsWith"@.len() != "endsWith"@.len());
    let escaped = escaped_like(needle);
    lemma_somewhere(escaped, text);
    assert forall|k: int| 0 <= k <= text.len() implies (like(escaped, #[trigger] text.skip(k))
        <==> text.skip(k) == needle) by {
        lemma_escaped_stands_for_itself(needle, Seq::empty(), text.skip(k));
        assert(escaped + Seq::<char>::empty() =~= escaped);
        if like(escaped, text.skip(k)) {
            assert(text.skip(k) =~= needle);
        }
        if text.skip(k) == needle {
            assert(needle =~= needle.subrange(0, needle.len() as int));
        }
    }
    if needle.is_suffix_of(text) {
        assert(text.skip(text.len() - needle.len()) =~= needle);
    }
    if exists|k: int| 0 <= k <= text.len() && like(escaped, #[trigger] text.skip(k)) {
        let k = choose|k: int| 0 <= k <= text.len() && like(escaped, #[trigger] text.skip(k));
        assert(text.skip(k) == needle);
        assert(needle =~= text.subrange(text.len() - needle.len(), text.len() as int));
    }
}

/// `contains` matches what holds the needle somewhere, whatever wildcards the needle holds.
pub proof fn law_contains_matches_inside(needle: Seq<char>, text: Seq<char>)
    ensures
        like(like_pattern("contains"@, needle), text) <==> exists|k: int|
            0 <= k <= text.len() && needle.is_prefix_of(#[trigger] text.skip(k)),
{
    reveal_strlit("%");
    reveal_strlit("startsWith");
    reveal_strlit("endsWith");
    reveal_strlit("contains");
    assert("%"@ =~= seq!['%']);
    assert("startsWith"@.len() != "contains"@.len());
    assert("endsWith"@[0] != "contains"@[0]);
    let inner = escaped_like(needle) + seq!['%'];
    assert(like_pattern("contains"@, needle) =~= seq!['%'] + inner);
    lemma_somewhere(inner, text);
    assert forall|k: int| 0 <= k <= text.len() implies (like(inner, #[trigger] text.skip(k))
        <==> needle.is_prefix_of(text.skip(k))) by {
        lemma_escaped_stands_for_itself(needle, seq!['%'], text.skip(k));
        if needle.is_prefix_of(text.skip(k)) {
            lemma_anything(text.skip(k).skip(needle.len() as int));
        }
    }
}

} // verus!

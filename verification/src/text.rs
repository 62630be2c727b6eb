//! Characters, words and numbers: the text that everything else is built from.

use vstd::prelude::*;
use vstd::slice::slice_subrange;
use vstd::string::StrSliceExecFns;
use vstd::utf8::encode_utf8;

verus! {

/// Appends one character: `String::push` adds `c` at the end and changes nothing else.
#[verifier::external_body]
pub(crate) fn push_char(out: &mut String, c: char)
    ensures
        final(out)@ == old(out)@.push(c),
{
    out.push(c);
}

/// The characters with Unicode's `White_Space` property.
pub open spec fn white_space(c: char) -> bool {
    let n = c as u32;
    ||| 0x09 <= n <= 0x0d
    ||| n == 0x20
    ||| n == 0x85
    ||| n == 0xa0
    ||| n == 0x1680
    ||| 0x2000 <= n <= 0x200a
    ||| n == 0x2028
    ||| n == 0x2029
    ||| n == 0x202f
    ||| n == 0x205f
    ||| n == 0x3000
}

/// Whether `c` is white space.
pub fn is_white_space(c: char) -> (b: bool)
    ensures
        b == white_space(c),
{
    let n: u32 = c as u32;
    (0x09 <= n && n <= 0x0d) || n == 0x20 || n == 0x85 || n == 0xa0 || n == 0x1680 || (0x2000 <= n
        && n <= 0x200a) || n == 0x2028 || n == 0x2029 || n == 0x202f || n == 0x205f || n == 0x3000
}

/// Space, tab, line feed, form feed and carriage return.
pub open spec fn ascii_white_space(c: char) -> bool {
    c == ' ' || c == '\t' || c == '\n' || c == '\x0c' || c == '\r'
}

/// Whether `c` is ASCII white space.
pub fn is_ascii_white_space(c: char) -> (b: bool)
    ensures
        b == ascii_white_space(c),
{
    c == ' ' || c == '\t' || c == '\n' || c == '\x0c' || c == '\r'
}

/// The ASCII letters.
pub open spec fn ascii_letter(c: char) -> bool {
    'a' <= c <= 'z' || 'A' <= c <= 'Z'
}

/// Whether `c` is an ASCII letter.
pub fn is_ascii_letter(c: char) -> (b: bool)
    ensures
        b == ascii_letter(c),
{
    ('a' <= c && c <= 'z') || ('A' <= c && c <= 'Z')
}

/// The ASCII digits.
pub open spec fn ascii_digit(c: char) -> bool {
    '0' <= c <= '9'
}

/// Whether `c` is an ASCII digit.
pub fn is_ascii_digit(c: char) -> (b: bool)
    ensures
        b == ascii_digit(c),
{
    '0' <= c && c <= '9'
}

/// What an identifier may hold after its first character.
pub open spec fn word_char(c: char) -> bool {
    ascii_letter(c) || ascii_digit(c) || c == '_'
}

/// Whether `c` is a letter, a digit or an underscore.
pub fn is_word_char(c: char) -> (b: bool)
    ensures
        b == word_char(c),
{
    is_ascii_letter(c) || is_ascii_digit(c) || c == '_'
}

/// A letter or an underscore, then letters, digits and underscores.
pub open spec fn identifier(s: Seq<char>) -> bool {
    &&& s.len() > 0
    &&& ascii_letter(s[0]) || s[0] == '_'
    &&& forall|i: int| 0 <= i < s.len() ==> word_char(#[trigger] s[i])
}

/// Whether `s` is an identifier.
pub fn is_identifier(s: &[char]) -> (b: bool)
    ensures
        b == identifier(s@),
{
    if s.len() == 0 {
        return false;
    }
    if !is_ascii_letter(s[0]) && s[0] != '_' {
        return false;
    }
    let mut i: usize = 0;
    while i < s.len()
        invariant
            i <= s.len(),
            forall|j: int| 0 <= j < i ==> word_char(#[trigger] s@[j]),
        decreases s.len() - i,
    {
        if !is_word_char(s[i]) {
            return false;
        }
        i += 1;
    }
    true
}

/// The lower case of an ASCII letter; every other character as it is.
pub open spec fn lower(c: char) -> char {
    if 'A' <= c <= 'Z' {
        ((c as u8) + 32) as char
    } else {
        c
    }
}

/// Lowers one character.
pub fn to_lower(c: char) -> (r: char)
    ensures
        r == lower(c),
{
    if 'A' <= c && c <= 'Z' {
        ((c as u8) + 32) as char
    } else {
        c
    }
}

/// Lowers every character.
pub open spec fn lowered(s: Seq<char>) -> Seq<char> {
    s.map_values(|c: char| lower(c))
}

/// Whether `s` spells the lower case `word` in either case.
pub fn spells(s: &[char], word: &str) -> (b: bool)
    ensures
        b == (lowered(s@) == lowered(word@)),
{
    let w = chars_of(word);
    if s.len() != w.len() {
        assert(lowered(s@).len() != lowered(word@).len());
        return false;
    }
    let mut i: usize = 0;
    while i < s.len()
        invariant
            i <= s.len(),
            s.len() == w.len(),
            w@ == word@,
            forall|j: int| 0 <= j < i ==> lower(#[trigger] s@[j]) == lower(w@[j]),
        decreases s.len() - i,
    {
        if to_lower(s[i]) != to_lower(w[i]) {
            assert(lowered(s@)[i as int] != lowered(word@)[i as int]);
            return false;
        }
        i += 1;
    }
    assert(lowered(s@) =~= lowered(word@));
    true
}

/// The characters of `s`.
pub fn chars_of(s: &str) -> (v: Vec<char>)
    ensures
        v@ == s@,
{
    let mut v: Vec<char> = Vec::new();
    for c in it: s.chars()
        invariant
            v@ == it.seq().take(it.index()),
            it.seq() == s@,
    {
        v.push(c);
        assert(v@ =~= it.seq().take(it.index() + 1));
    }
    assert(v@ =~= s@);
    v
}

/// The string that `s` spells.
pub fn string_of(s: &[char]) -> (r: String)
    ensures
        r@ == s@,
{
    let mut r = String::new();
    let mut i: usize = 0;
    while i < s.len()
        invariant
            i <= s.len(),
            r@ == s@.take(i as int),
        decreases s.len() - i,
    {
        push_char(&mut r, s[i]);
        i += 1;
        assert(s@.take(i as int) =~= s@.take(i - 1).push(s@[i - 1]));
    }
    assert(s@.take(s@.len() as int) =~= s@);
    r
}

/// A copy of `s`.
pub fn copy_of(s: &str) -> (r: String)
    ensures
        r@ == s@,
{
    s.to_owned()
}

/// The byte at which the character `at` of `s` stands.
pub open spec fn byte_at(s: Seq<char>, at: int) -> int {
    encode_utf8(s.take(at)).len() as int
}

/// The byte at which the character `at` of `s` stands.
pub fn byte_offset(s: &str, at: usize) -> (r: usize)
    requires
        at <= s@.len(),
    ensures
        r == byte_at(s@, at as int),
{
    let head = s.substring_char(0, at);
    assert(head@ =~= s@.take(at as int));
    head.as_bytes().len()
}

/// Whether two strings are the same.
pub fn same(a: &str, b: &str) -> (r: bool)
    ensures
        r == (a@ == b@),
{
    let x = a.as_bytes();
    let y = b.as_bytes();
    if x.len() != y.len() {
        return false;
    }
    let mut i: usize = 0;
    while i < x.len()
        invariant
            i <= x.len(),
            x.len() == y.len(),
            x@ == encode_utf8(a@),
            y@ == encode_utf8(b@),
            forall|j: int| 0 <= j < i ==> #[trigger] x@[j] == y@[j],
        decreases x.len() - i,
    {
        if x[i] != y[i] {
            return false;
        }
        i += 1;
    }
    assert(x@ =~= y@);
    proof {
        vstd::utf8::encode_utf8_decode_utf8(a@);
        vstd::utf8::encode_utf8_decode_utf8(b@);
    }
    true
}

/// Whether `s` is one of the strings in `list`.
pub open spec fn listed(list: Seq<String>, s: Seq<char>) -> bool {
    exists|i: int| 0 <= i < list.len() && #[trigger] list[i]@ == s
}

/// What a list of strings spells.
pub open spec fn strings(v: Seq<String>) -> Seq<Seq<char>> {
    v.map_values(|s: String| s@)
}

/// What a list of slices spells.
pub open spec fn slices(v: Seq<&[char]>) -> Seq<Seq<char>> {
    v.map_values(|s: &[char]| s@)
}

/// `s` without the white space that it begins with.
pub open spec fn trim_start(s: Seq<char>) -> Seq<char>
    decreases s.len(),
{
    if s.len() > 0 && white_space(s[0]) {
        trim_start(s.skip(1))
    } else {
        s
    }
}

/// `s` without the white space that it ends with.
pub open spec fn trim_end(s: Seq<char>) -> Seq<char>
    decreases s.len(),
{
    if s.len() > 0 && white_space(s.last()) {
        trim_end(s.drop_last())
    } else {
        s
    }
}

/// `s` without the white space around it.
pub open spec fn trimmed(s: Seq<char>) -> Seq<char> {
    trim_end(trim_start(s))
}

/// Takes the white space around `s` away.
pub fn trim<'a>(s: &'a [char]) -> (r: &'a [char])
    ensures
        r@ == trimmed(s@),
{
    let mut a: usize = 0;
    assert(s@.skip(0) =~= s@);
    while a < s.len() && is_white_space(s[a])
        invariant
            a <= s.len(),
            trim_start(s@) == trim_start(s@.skip(a as int)),
        decreases s.len() - a,
    {
        assert(s@.skip(a as int)[0] == s@[a as int]);
        assert(s@.skip(a as int).skip(1) =~= s@.skip(a + 1));
        a += 1;
    }
    proof {
        if a < s.len() {
            assert(s@.skip(a as int)[0] == s@[a as int]);
        }
        assert(trim_start(s@) == s@.skip(a as int));
    }
    let mut b: usize = s.len();
    assert(s@.subrange(a as int, b as int) =~= s@.skip(a as int));
    while b > a && is_white_space(s[b - 1])
        invariant
            a <= b <= s.len(),
            trimmed(s@) == trim_end(s@.subrange(a as int, b as int)),
        decreases b,
    {
        assert(s@.subrange(a as int, b as int).last() == s@[b - 1]);
        assert(s@.subrange(a as int, b as int).drop_last() =~= s@.subrange(a as int, b - 1));
        b -= 1;
    }
    proof {
        if b > a {
            assert(s@.subrange(a as int, b as int).last() == s@[b - 1]);
        }
    }
    slice_subrange(s, a, b)
}

/// The pieces of `s` between the separators `c`; always one more than there are separators.
pub open spec fn pieces(s: Seq<char>, c: char) -> Seq<Seq<char>>
    decreases s.len(),
{
    if s.len() == 0 {
        seq![Seq::empty()]
    } else {
        let rest = pieces(s.drop_last(), c);
        if s.last() == c {
            rest.push(Seq::empty())
        } else {
            rest.drop_last().push(rest.last().push(s.last()))
        }
    }
}

/// There is always at least one piece.
pub proof fn lemma_pieces_nonempty(s: Seq<char>, c: char)
    ensures
        pieces(s, c).len() > 0,
    decreases s.len(),
{
    if s.len() > 0 {
        lemma_pieces_nonempty(s.drop_last(), c);
    }
}

/// Cuts `s` at every `c`.
pub fn split<'a>(s: &'a [char], c: char) -> (r: Vec<&'a [char]>)
    ensures
        slices(r@) == pieces(s@, c),
        r@.len() > 0,
{
    let mut r: Vec<&'a [char]> = Vec::new();
    let mut start: usize = 0;
    let mut i: usize = 0;
    assert(s@.take(0) =~= Seq::<char>::empty());
    assert(slices(r@).push(s@.subrange(0, 0)) =~= seq![Seq::<char>::empty()]);
    while i < s.len()
        invariant
            start <= i <= s.len(),
            pieces(s@.take(i as int), c) == slices(r@).push(s@.subrange(start as int, i as int)),
        decreases s.len() - i,
    {
        let ghost before = s@.take(i + 1);
        assert(before.drop_last() =~= s@.take(i as int));
        assert(before.last() == s@[i as int]);
        let ghost held = slices(r@);
        if s[i] == c {
            let piece = slice_subrange(s, start, i);
            r.push(piece);
            start = i + 1;
            assert(slices(r@) =~= held.push(piece@));
            assert(s@.subrange(start as int, i + 1) =~= Seq::<char>::empty());
        } else {
            let ghost list = held.push(s@.subrange(start as int, i as int));
            assert(list.drop_last() =~= held);
            assert(s@.subrange(start as int, i + 1) =~= s@.subrange(start as int, i as int).push(
                s@[i as int],
            ));
        }
        i += 1;
    }
    let last = slice_subrange(s, start, i);
    let ghost held = slices(r@);
    r.push(last);
    assert(slices(r@) =~= held.push(last@));
    assert(s@.take(i as int) =~= s@);
    r
}

/// The label of a column: what follows its last dot.
pub open spec fn label_of(column: Seq<char>) -> Seq<char> {
    pieces(column, '.').last()
}

/// The label of a column: what follows its last dot.
pub fn label(column: &str) -> (r: String)
    ensures
        r@ == label_of(column@),
{
    let chars = chars_of(column);
    let parts = split(chars.as_slice(), '.');
    proof {
        lemma_pieces_nonempty(column@, '.');
        assert(slices(parts@).last() == parts@[parts@.len() - 1]@);
    }
    string_of(parts[parts.len() - 1])
}

/// The runs of characters between white space, in order.
pub open spec fn words(s: Seq<char>, white: spec_fn(char) -> bool) -> Seq<Seq<char>>
    decreases s.len(),
{
    if s.len() == 0 {
        Seq::empty()
    } else {
        let rest = words(s.drop_last(), white);
        if white(s.last()) {
            rest
        } else if s.len() == 1 || white(s[s.len() - 2]) {
            rest.push(seq![s.last()])
        } else {
            rest.drop_last().push(rest.last().push(s.last()))
        }
    }
}

/// The words of `s`, between Unicode white space.
pub open spec fn unicode_words(s: Seq<char>) -> Seq<Seq<char>> {
    words(s, |c: char| white_space(c))
}

/// The words of `s`, between ASCII white space.
pub open spec fn ascii_words(s: Seq<char>) -> Seq<Seq<char>> {
    words(s, |c: char| ascii_white_space(c))
}

/// Cuts `s` into words: at Unicode white space, or at ASCII white space alone.
fn words_by<'a>(s: &'a [char], ascii: bool, white: Ghost<spec_fn(char) -> bool>) -> (r: Vec<
    &'a [char],
>)
    requires
        ascii ==> white@ == (|c: char| ascii_white_space(c)),
        !ascii ==> white@ == (|c: char| white_space(c)),
    ensures
        slices(r@) == words(s@, white@),
{
    let mut r: Vec<&'a [char]> = Vec::new();
    let mut start: usize = 0;
    let mut i: usize = 0;
    assert(s@.take(0) =~= Seq::<char>::empty());
    assert(slices(r@) =~= Seq::<Seq<char>>::empty());
    // `start..i` is the word that `i` may still extend; empty between words.
    while i < s.len()
        invariant
            start <= i <= s.len(),
            ascii ==> white@ == (|c: char| ascii_white_space(c)),
            !ascii ==> white@ == (|c: char| white_space(c)),
            start == i ==> words(s@.take(i as int), white@) == slices(r@) && (i == 0 || white@(
                s@[i - 1],
            )),
            start < i ==> words(s@.take(i as int), white@) == slices(r@).push(
                s@.subrange(start as int, i as int),
            ) && !white@(s@[i - 1]),
        decreases s.len() - i,
    {
        let ghost held = slices(r@);
        let c = s[i];
        let blank = if ascii {
            is_ascii_white_space(c)
        } else {
            is_white_space(c)
        };
        assert(blank == white@(c));
        proof {
            let now = s@.take(i + 1);
            assert(now.drop_last() =~= s@.take(i as int));
            assert(now.last() == c);
            if now.len() > 1 {
                assert(now[now.len() - 2] == s@[i - 1]);
            }
        }
        if blank {
            if start < i {
                let word = slice_subrange(s, start, i);
                r.push(word);
                assert(slices(r@) =~= held.push(word@));
            }
            start = i + 1;
        } else {
            assert(s@.subrange(start as int, i + 1) =~= s@.subrange(start as int, i as int).push(
                c,
            ));
            if start == i {
                assert(s@.subrange(start as int, i + 1) =~= seq![c]);
            } else {
                assert(held.push(s@.subrange(start as int, i as int)).drop_last() =~= held);
            }
        }
        i += 1;
    }
    let ghost held = slices(r@);
    if start < i {
        let word = slice_subrange(s, start, i);
        r.push(word);
        assert(slices(r@) =~= held.push(word@));
    }
    assert(s@.take(i as int) =~= s@);
    r
}

/// Cuts `s` into the words between Unicode white space.
pub fn split_words<'a>(s: &'a [char]) -> (r: Vec<&'a [char]>)
    ensures
        slices(r@) == unicode_words(s@),
{
    words_by(s, false, Ghost(|c: char| white_space(c)))
}

/// Cuts `s` into the words between ASCII white space.
pub fn split_ascii_words<'a>(s: &'a [char]) -> (r: Vec<&'a [char]>)
    ensures
        slices(r@) == ascii_words(s@),
{
    words_by(s, true, Ghost(|c: char| ascii_white_space(c)))
}

/// The parts with `separator` between each two.
pub open spec fn joined(parts: Seq<Seq<char>>, separator: Seq<char>) -> Seq<char>
    decreases parts.len(),
{
    if parts.len() == 0 {
        Seq::empty()
    } else if parts.len() == 1 {
        parts[0]
    } else {
        joined(parts.drop_last(), separator) + separator + parts.last()
    }
}

/// Joins strings.
pub fn join(parts: &[String], separator: &str) -> (r: String)
    ensures
        r@ == joined(strings(parts@), separator@),
{
    let mut r = String::new();
    let mut i: usize = 0;
    assert(strings(parts@.take(0)) =~= Seq::<Seq<char>>::empty());
    while i < parts.len()
        invariant
            i <= parts.len(),
            r@ == joined(strings(parts@.take(i as int)), separator@),
        decreases parts.len() - i,
    {
        proof {
            let now = strings(parts@.take(i + 1));
            assert(now.drop_last() =~= strings(parts@.take(i as int)));
            assert(now.last() == parts@[i as int]@);
            if i == 0 {
                assert(now[0] == parts@[0]@);
                assert(Seq::<char>::empty() + now[0] =~= now[0]);
            }
        }
        if i > 0 {
            r.append(separator);
        }
        r.append(parts[i].as_str());
        i += 1;
    }
    assert(parts@.take(i as int) =~= parts@);
    r
}

/// The parts one after another.
pub open spec fn concat(parts: Seq<Seq<char>>) -> Seq<char>
    decreases parts.len(),
{
    if parts.len() == 0 {
        Seq::empty()
    } else {
        concat(parts.drop_last()) + parts.last()
    }
}

/// The digit that writes `n`, for `n` below ten.
pub open spec fn digit(n: nat) -> char {
    (48 + n) as char
}

/// `n` in decimal, without leading zeros.
pub open spec fn decimal(n: nat) -> Seq<char>
    decreases n,
{
    if n < 10 {
        seq![digit(n)]
    } else {
        decimal(n / 10).push(digit(n % 10))
    }
}

/// Writes `n` in decimal.
pub fn decimal_of(n: u128) -> (r: String)
    ensures
        r@ == decimal(n as nat),
    decreases n,
{
    if n < 10 {
        let mut r = String::new();
        push_char(&mut r, (48 + n as u8) as char);
        assert(r@ =~= seq![digit(n as nat)]);
        r
    } else {
        let mut r = decimal_of(n / 10);
        push_char(&mut r, (48 + (n % 10) as u8) as char);
        r
    }
}

/// What a run of decimal digits means.
pub open spec fn number(s: Seq<char>) -> nat
    decreases s.len(),
{
    if s.len() == 0 {
        0
    } else {
        number(s.drop_last()) * 10 + (s.last() as nat - 48) as nat
    }
}

/// `s` is a run of one or more ASCII digits.
pub open spec fn all_digits(s: Seq<char>) -> bool {
    s.len() > 0 && forall|i: int| 0 <= i < s.len() ==> ascii_digit(#[trigger] s[i])
}

/// Decimal is read back as it was written.
pub proof fn lemma_decimal_reads_back(n: nat)
    ensures
        all_digits(decimal(n)),
        number(decimal(n)) == n,
    decreases n,
{
    if n < 10 {
        let s = seq![digit(n)];
        assert(s.drop_last() =~= Seq::<char>::empty());
        assert(number(s.drop_last()) == 0);
    } else {
        lemma_decimal_reads_back(n / 10);
        let s = decimal(n);
        assert(s.drop_last() =~= decimal(n / 10));
    }
}

/// The number that a text spells: decimal digits, perhaps behind a `+`, that fit in a
/// `usize`.
pub open spec fn unsigned(s: Seq<char>) -> Option<nat> {
    let digits = if s.len() > 0 && s[0] == '+' {
        s.skip(1)
    } else {
        s
    };
    if all_digits(digits) && number(digits) <= usize::MAX {
        Some(number(digits))
    } else {
        None
    }
}

/// A number as a mathematical one.
pub open spec fn counted(n: Option<usize>) -> Option<nat> {
    match n {
        Some(n) => Some(n as nat),
        None => None,
    }
}

proof fn lemma_number_grows(s: Seq<char>, n: int)
    requires
        0 <= n <= s.len(),
        forall|i: int| 0 <= i < s.len() ==> ascii_digit(#[trigger] s[i]),
    ensures
        number(s.take(n)) <= number(s),
    decreases s.len() - n,
{
    if n < s.len() {
        lemma_number_grows(s, n + 1);
        let more = s.take(n + 1);
        assert(more.drop_last() =~= s.take(n));
        assert(ascii_digit(s[n]));
    } else {
        assert(s.take(n) =~= s);
    }
}

/// Reads a number.
pub fn read_unsigned(s: &[char]) -> (r: Option<usize>)
    ensures
        counted(r) == unsigned(s@),
{
    let plus = s.len() > 0 && s[0] == '+';
    let from: usize = if plus {
        1
    } else {
        0
    };
    let ghost digits = if plus {
        s@.skip(1)
    } else {
        s@
    };
    if from == s.len() {
        assert(digits.len() == 0);
        return None;
    }
    let mut n: usize = 0;
    let mut i: usize = from;
    assert(digits.take(0) =~= Seq::<char>::empty());
    while i < s.len()
        invariant
            from <= i <= s.len(),
            from <= 1,
            digits == s@.skip(from as int),
            unsigned(s@) == (if all_digits(digits) && number(digits) <= usize::MAX {
                Some(number(digits))
            } else {
                None
            }),
            n == number(digits.take(i - from)),
            forall|j: int| 0 <= j < i - from ==> ascii_digit(#[trigger] digits[j]),
        decreases s.len() - i,
    {
        let c = s[i];
        let ghost at = i - from;
        assert(digits[at] == c);
        if !is_ascii_digit(c) {
            assert(!ascii_digit(digits[at]));
            return None;
        }
        let ghost now = digits.take(at + 1);
        assert(now.drop_last() =~= digits.take(at));
        assert(now.last() == c);
        let value: usize = c as usize - 48;
        assert(number(now) == n * 10 + value);
        if n > (usize::MAX - value) / 10 {
            proof {
                if all_digits(digits) {
                    lemma_number_grows(digits, at + 1);
                    assert(number(now) > usize::MAX);
                }
            }
            return None;
        }
        n = n * 10 + value;
        i += 1;
    }
    assert(digits.take(i - from) =~= digits);
    Some(n)
}

// ---------------------------------------------------------------------------
// Text that was put together from parts
// ---------------------------------------------------------------------------

/// `s` does not hold `c`.
pub open spec fn lacks(s: Seq<char>, c: char) -> bool {
    forall|i: int| 0 <= i < s.len() ==> #[trigger] s[i] != c
}

/// `s` holds no white space.
pub open spec fn solid(s: Seq<char>, white: spec_fn(char) -> bool) -> bool {
    forall|i: int| 0 <= i < s.len() ==> !white(#[trigger] s[i])
}

/// Text without the separator is one piece.
pub proof fn lemma_one_piece(s: Seq<char>, c: char)
    requires
        lacks(s, c),
    ensures
        pieces(s, c) == seq![s],
    decreases s.len(),
{
    if s.len() > 0 {
        let rest = s.drop_last();
        assert forall|i: int| 0 <= i < rest.len() implies #[trigger] rest[i] != c by {
            assert(rest[i] == s[i]);
        }
        lemma_one_piece(rest, c);
        assert(s.last() == s[s.len() - 1]);
        assert(rest.push(s.last()) =~= s);
        assert(pieces(s, c) =~= seq![s]);
    } else {
        assert(s =~= Seq::<char>::empty());
    }
}

/// What follows the last separator is the last piece.
pub proof fn lemma_last_piece(a: Seq<char>, b: Seq<char>, c: char)
    requires
        lacks(b, c),
    ensures
        pieces(a.push(c) + b, c) == pieces(a, c).push(b),
    decreases b.len(),
{
    let whole = a.push(c) + b;
    if b.len() == 0 {
        assert(whole =~= a.push(c));
        assert(whole.drop_last() =~= a);
        assert(b =~= Seq::<char>::empty());
    } else {
        let rest = b.drop_last();
        assert forall|i: int| 0 <= i < rest.len() implies #[trigger] rest[i] != c by {
            assert(rest[i] == b[i]);
        }
        lemma_last_piece(a, rest, c);
        assert(whole.drop_last() =~= a.push(c) + rest);
        assert(whole.last() == b[b.len() - 1]);
        let before = pieces(a, c).push(rest);
        assert(before.drop_last() =~= pieces(a, c));
        assert(rest.push(whole.last()) =~= b);
    }
}

/// No piece holds the separator.
pub proof fn lemma_pieces_lack(s: Seq<char>, c: char)
    ensures
        forall|i: int| 0 <= i < pieces(s, c).len() ==> lacks(#[trigger] pieces(s, c)[i], c),
    decreases s.len(),
{
    lemma_pieces_nonempty(s, c);
    if s.len() > 0 {
        let rest = pieces(s.drop_last(), c);
        lemma_pieces_lack(s.drop_last(), c);
        lemma_pieces_nonempty(s.drop_last(), c);
        let all = pieces(s, c);
        assert forall|i: int| 0 <= i < all.len() implies lacks(#[trigger] all[i], c) by {
            if s.last() == c {
                if i < rest.len() {
                    assert(all[i] == rest[i]);
                }
            } else if i < rest.len() - 1 {
                assert(all[i] == rest[i]);
            } else {
                let last = rest[rest.len() - 1];
                assert(lacks(last, c));
                assert(all[i] == last.push(s.last()));
            }
        }
    }
}

/// Text without white space is one word.
pub proof fn lemma_one_word(s: Seq<char>, white: spec_fn(char) -> bool)
    requires
        s.len() > 0,
        solid(s, white),
    ensures
        words(s, white) == seq![s],
    decreases s.len(),
{
    let rest = s.drop_last();
    assert(!white(s[s.len() - 1]));
    if rest.len() > 0 {
        assert forall|i: int| 0 <= i < rest.len() implies !white(#[trigger] rest[i]) by {
            assert(rest[i] == s[i]);
        }
        lemma_one_word(rest, white);
        assert(!white(s[s.len() - 2]));
        assert(rest.push(s.last()) =~= s);
        assert(words(s, white) =~= seq![s]);
    } else {
        assert(words(rest, white) =~= Seq::<Seq<char>>::empty());
        assert(seq![s.last()] =~= s);
        assert(words(s, white) =~= seq![s]);
    }
}

/// What follows the last white space is the last word.
pub proof fn lemma_last_word(a: Seq<char>, space: char, b: Seq<char>, white: spec_fn(char) -> bool)
    requires
        white(space),
        b.len() > 0,
        solid(b, white),
    ensures
        words(a.push(space) + b, white) == words(a, white).push(b),
    decreases b.len(),
{
    let whole = a.push(space) + b;
    let rest = b.drop_last();
    assert(whole.last() == b[b.len() - 1]);
    assert(whole.drop_last() =~= a.push(space) + rest);
    assert(!white(whole.last()));
    if rest.len() == 0 {
        assert(a.push(space) + rest =~= a.push(space));
        assert(a.push(space).drop_last() =~= a);
        assert(words(a.push(space), white) == words(a, white));
        assert(whole[whole.len() - 2] == space);
        assert(seq![whole.last()] =~= b);
    } else {
        assert forall|i: int| 0 <= i < rest.len() implies !white(#[trigger] rest[i]) by {
            assert(rest[i] == b[i]);
        }
        lemma_last_word(a, space, rest, white);
        assert(whole[whole.len() - 2] == b[b.len() - 2]);
        let before = words(a, white).push(rest);
        assert(before.drop_last() =~= words(a, white));
        assert(rest.push(whole.last()) =~= b);
    }
}

/// Every word is solid, and every character of it comes from the text.
pub proof fn lemma_words_solid(s: Seq<char>, white: spec_fn(char) -> bool)
    ensures
        forall|i: int|
            0 <= i < words(s, white).len() ==> #[trigger] words(s, white)[i].len() > 0 && solid(
                words(s, white)[i],
                white,
            ),
        s.len() > 0 && !white(s.last()) ==> words(s, white).len() > 0,
    decreases s.len(),
{
    if s.len() > 0 {
        let rest = words(s.drop_last(), white);
        lemma_words_solid(s.drop_last(), white);
        let all = words(s, white);
        if !white(s.last()) && !(s.len() == 1 || white(s[s.len() - 2])) {
            assert(s.drop_last().last() == s[s.len() - 2]);
            assert(rest.len() > 0);
        }
        assert forall|i: int| 0 <= i < all.len() implies #[trigger] all[i].len() > 0 && solid(
            all[i],
            white,
        ) by {
            if white(s.last()) {
            } else if s.len() == 1 || white(s[s.len() - 2]) {
                if i < rest.len() {
                    assert(all[i] == rest[i]);
                }
            } else if i < rest.len() - 1 {
                assert(all[i] == rest[i]);
            } else {
                let last = rest[rest.len() - 1];
                assert(solid(last, white));
                assert(all[i] == last.push(s.last()));
            }
        }
    }
}

/// A text that does not begin with white space begins with its first word.
pub proof fn lemma_first_word(s: Seq<char>, white: spec_fn(char) -> bool)
    requires
        s.len() > 0,
        !white(s[0]),
    ensures
        words(s, white).len() > 0,
        words(s, white)[0].len() > 0,
        words(s, white)[0][0] == s[0],
    decreases s.len(),
{
    if s.len() == 1 {
        assert(words(s.drop_last(), white) =~= Seq::<Seq<char>>::empty());
        assert(words(s, white) =~= seq![seq![s.last()]]);
    } else {
        let rest = words(s.drop_last(), white);
        assert(s.drop_last()[0] == s[0]);
        lemma_first_word(s.drop_last(), white);
        if !white(s.last()) && !white(s[s.len() - 2]) {
            if rest.len() == 1 {
                assert(words(s, white)[0] == rest[0].push(s.last()));
            } else {
                assert(words(s, white)[0] == rest[0]);
            }
        } else {
            assert(words(s, white)[0] == rest[0]);
        }
    }
}

/// The characters of a word are characters of the text.
pub proof fn lemma_words_lack(s: Seq<char>, white: spec_fn(char) -> bool, c: char)
    requires
        lacks(s, c),
    ensures
        forall|i: int| 0 <= i < words(s, white).len() ==> lacks(#[trigger] words(s, white)[i], c),
    decreases s.len(),
{
    if s.len() > 0 {
        let short = s.drop_last();
        let rest = words(short, white);
        assert forall|i: int| 0 <= i < short.len() implies #[trigger] short[i] != c by {
            assert(short[i] == s[i]);
        }
        lemma_words_lack(short, white, c);
        lemma_words_solid(short, white);
        let all = words(s, white);
        assert(s[s.len() - 1] != c);
        if !white(s.last()) && !(s.len() == 1 || white(s[s.len() - 2])) {
            assert(short.last() == s[s.len() - 2]);
            assert(rest.len() > 0);
        }
        assert forall|i: int| 0 <= i < all.len() implies lacks(#[trigger] all[i], c) by {
            if white(s.last()) {
            } else if s.len() == 1 || white(s[s.len() - 2]) {
                if i < rest.len() {
                    assert(all[i] == rest[i]);
                }
            } else if i < rest.len() - 1 {
                assert(all[i] == rest[i]);
            } else {
                let last = rest[rest.len() - 1];
                assert(lacks(last, c));
                assert(all[i] == last.push(s.last()));
            }
        }
    }
}

/// Trimmed text neither begins nor ends with white space, and holds only characters of the
/// text.
pub proof fn lemma_trimmed(s: Seq<char>, c: char)
    ensures
        trimmed(s).len() > 0 ==> !white_space(trimmed(s)[0]) && !white_space(trimmed(s).last()),
        lacks(s, c) ==> lacks(trimmed(s), c),
{
    lemma_trim_start(s, c);
    lemma_trim_end(trim_start(s), c);
}

proof fn lemma_trim_start(s: Seq<char>, c: char)
    ensures
        trim_start(s).len() > 0 ==> !white_space(trim_start(s)[0]),
        lacks(s, c) ==> lacks(trim_start(s), c),
    decreases s.len(),
{
    if s.len() > 0 && white_space(s[0]) {
        lemma_trim_start(s.skip(1), c);
        if lacks(s, c) {
            assert forall|i: int| 0 <= i < s.skip(1).len() implies #[trigger] s.skip(1)[i] != c by {
                assert(s.skip(1)[i] == s[i + 1]);
            }
        }
    }
}

proof fn lemma_trim_end(s: Seq<char>, c: char)
    ensures
        trim_end(s).len() > 0 ==> trim_end(s)[0] == s[0] && !white_space(trim_end(s).last()),
        lacks(s, c) ==> lacks(trim_end(s), c),
    decreases s.len(),
{
    if s.len() > 0 && white_space(s.last()) {
        lemma_trim_end(s.drop_last(), c);
        if lacks(s, c) {
            assert forall|i: int| 0 <= i < s.drop_last().len() implies #[trigger] s.drop_last()[i]
                != c by {
                assert(s.drop_last()[i] == s[i]);
            }
        }
    }
}

/// Text that neither begins nor ends with white space is trimmed already, with or without a
/// space ahead of it.
pub proof fn lemma_trim_space(s: Seq<char>)
    requires
        s.len() > 0,
        !white_space(s[0]),
        !white_space(s.last()),
    ensures
        trimmed(s) == s,
        trimmed(" "@ + s) == s,
{
    reveal_strlit(" ");
    let padded = " "@ + s;
    assert(white_space(' '));
    assert(padded[0] == ' ');
    assert(padded.skip(1) =~= s);
    assert(trim_start(s) == s);
}

// ---------------------------------------------------------------------------
// Laws
// ---------------------------------------------------------------------------

/// The characters that Unicode calls white space, one by one.
pub open spec fn unicode_spaces() -> Seq<u32> {
    seq![
        9,
        10,
        11,
        12,
        13,
        32,
        133,
        160,
        5760,
        8192,
        8193,
        8194,
        8195,
        8196,
        8197,
        8198,
        8199,
        8200,
        8201,
        8202,
        8232,
        8233,
        8239,
        8287,
        12288,
    ]
}

/// White space is what Unicode calls white space: these twenty-five characters and no other. Of
/// them, five are white space in ASCII.
pub proof fn law_white_space_is_unicodes(c: char)
    ensures
        white_space(c) <==> unicode_spaces().contains(c as u32),
        ascii_white_space(c) <==> white_space(c) && (c as u32) < 128 && c as u32 != 11,
{
    let all = unicode_spaces();
    if white_space(c) {
        let n = c as u32;
        let i: int = if n <= 13 {
            n - 9
        } else if n == 32 {
            5
        } else if n == 133 {
            6
        } else if n == 160 {
            7
        } else if n == 5760 {
            8
        } else if n <= 8202 {
            9 + (n - 8192)
        } else if n == 8232 {
            20
        } else if n == 8233 {
            21
        } else if n == 8239 {
            22
        } else if n == 8287 {
            23
        } else {
            24
        };
        assert(all[i] == n);
    }
}

/// Letters, digits and the characters of a name are ASCII's, and only the large letters have a
/// small one: thirty-two further on.
pub proof fn law_letters_are_asciis(c: char)
    ensures
        ascii_digit(c) <==> 48 <= c as u32 <= 57,
        ascii_letter(c) <==> 65 <= c as u32 <= 90 || 97 <= c as u32 <= 122,
        word_char(c) <==> ascii_letter(c) || ascii_digit(c) || c as u32 == 95,
        lower(c) as u32 == if 65 <= c as u32 <= 90 {
            c as u32 + 32
        } else {
            c as int
        },
{
}

/// Trimming takes away the white space at either end and nothing else.
pub proof fn law_trimming_takes_only_white_space(s: Seq<char>)
    ensures
        exists|i: int, j: int|
            0 <= i <= j <= s.len() && trimmed(s) == #[trigger] s.subrange(i, j) && (forall|k: int|
                0 <= k < i || j <= k < s.len() ==> white_space(#[trigger] s[k])),
        trimmed(s).len() > 0 ==> !white_space(trimmed(s)[0]) && !white_space(trimmed(s).last()),
{
    lemma_trimmed(s, ' ');
    let i = lemma_front_trimmed(s);
    let t = trim_start(s);
    let n = lemma_back_trimmed(t);
    let j = i + n;
    assert(trimmed(s) =~= s.subrange(i, j));
    assert forall|k: int| 0 <= k < i || j <= k < s.len() implies white_space(#[trigger] s[k]) by {
        if j <= k {
            assert(t[k - i] == s[k]);
        }
    }
}

proof fn lemma_front_trimmed(s: Seq<char>) -> (i: int)
    ensures
        0 <= i <= s.len(),
        trim_start(s) == s.skip(i),
        forall|k: int| 0 <= k < i ==> white_space(#[trigger] s[k]),
    decreases s.len(),
{
    if s.len() > 0 && white_space(s[0]) {
        let i = lemma_front_trimmed(s.skip(1));
        assert(s.skip(1).skip(i) =~= s.skip(i + 1));
        assert forall|k: int| 0 <= k < i + 1 implies white_space(#[trigger] s[k]) by {
            if k > 0 {
                assert(s.skip(1)[k - 1] == s[k]);
            }
        }
        i + 1
    } else {
        assert(s.skip(0) =~= s);
        0
    }
}

proof fn lemma_back_trimmed(s: Seq<char>) -> (n: int)
    ensures
        0 <= n <= s.len(),
        trim_end(s) == s.take(n),
        forall|k: int| n <= k < s.len() ==> white_space(#[trigger] s[k]),
    decreases s.len(),
{
    if s.len() > 0 && white_space(s.last()) {
        let n = lemma_back_trimmed(s.drop_last());
        assert(s.drop_last().take(n) =~= s.take(n));
        assert forall|k: int| n <= k < s.len() implies white_space(#[trigger] s[k]) by {
            if k < s.len() - 1 {
                assert(s.drop_last()[k] == s[k]);
            }
        }
        n
    } else {
        assert(s.take(s.len() as int) =~= s);
        s.len() as int
    }
}

/// Cutting a text loses nothing: its pieces with the separator between them are the text again,
/// and no piece holds the separator.
pub proof fn law_pieces_join_again(s: Seq<char>, c: char)
    ensures
        joined(pieces(s, c), seq![c]) == s,
        forall|i: int| 0 <= i < pieces(s, c).len() ==> lacks(#[trigger] pieces(s, c)[i], c),
    decreases s.len(),
{
    lemma_pieces_lack(s, c);
    lemma_pieces_nonempty(s, c);
    let all = pieces(s, c);
    if s.len() > 0 {
        let short = s.drop_last();
        let rest = pieces(short, c);
        law_pieces_join_again(short, c);
        lemma_pieces_nonempty(short, c);
        if s.last() == c {
            assert(all.drop_last() =~= rest);
            assert(joined(all, seq![c]) =~= short.push(c));
        } else {
            assert(all.drop_last() =~= rest.drop_last());
            assert(joined(all, seq![c]) =~= short.push(s.last()));
        }
        assert(short.push(s.last()) =~= s);
    } else {
        assert(joined(all, seq![c]) =~= s);
    }
}

/// The words of a text are what is left of it without its white space, in order; none is empty and
/// none holds white space. A white character between two others parts them.
#[verifier::rlimit(50)]
pub proof fn law_words_are_what_white_space_parts(s: Seq<char>, white: spec_fn(char) -> bool)
    ensures
        concat(words(s, white)) == inked(s, white),
        forall|i: int|
            0 <= i < words(s, white).len() ==> (#[trigger] words(s, white)[i]).len() > 0 && solid(
                words(s, white)[i],
                white,
            ),
        words(s, white).len() == starts(s, white, s.len()),
    decreases s.len(),
{
    lemma_words_solid(s, white);
    if s.len() > 0 {
        let short = s.drop_last();
        law_words_are_what_white_space_parts(short, white);
        lemma_words_solid(short, white);
        lemma_starts_front(s, white, short.len());
        let rest = words(short, white);
        let all = words(s, white);
        if white(s.last()) {
        } else if s.len() == 1 || white(s[s.len() - 2]) {
            assert(all.drop_last() =~= rest);
            assert(concat(all) =~= concat(rest).push(s.last()));
        } else {
            assert(short.last() == s[s.len() - 2]);
            assert(rest.len() > 0);
            assert(all.drop_last() =~= rest.drop_last());
            assert(concat(all) =~= concat(rest).push(s.last()));
        }
    }
}

/// A text without its white space.
pub open spec fn inked(s: Seq<char>, white: spec_fn(char) -> bool) -> Seq<char>
    decreases s.len(),
{
    if s.len() == 0 {
        Seq::empty()
    } else if white(s.last()) {
        inked(s.drop_last(), white)
    } else {
        inked(s.drop_last(), white).push(s.last())
    }
}

/// How many of the first `n` characters begin a word: they are not white, and white space or
/// nothing stands before them.
pub open spec fn starts(s: Seq<char>, white: spec_fn(char) -> bool, n: nat) -> nat
    decreases n,
{
    if n == 0 {
        0
    } else {
        starts(s, white, (n - 1) as nat) + if !white(s[n - 1]) && (n == 1 || white(s[n - 2])) {
            1nat
        } else {
            0nat
        }
    }
}

proof fn lemma_starts_front(s: Seq<char>, white: spec_fn(char) -> bool, n: nat)
    requires
        n < s.len(),
    ensures
        starts(s.drop_last(), white, n) == starts(s, white, n),
    decreases n,
{
    if n > 0 {
        lemma_starts_front(s, white, (n - 1) as nat);
    }
}

/// A number is spelled in decimal digits that mean it, without a leading zero unless it is zero.
pub proof fn law_a_number_is_spelled_in_decimal(n: nat)
    ensures
        all_digits(decimal(n)),
        number(decimal(n)) == n,
        decimal(n).len() > 1 ==> decimal(n)[0] != '0',
    decreases n,
{
    lemma_decimal_reads_back(n);
    if n >= 10 {
        law_a_number_is_spelled_in_decimal(n / 10);
        assert(decimal(n)[0] == decimal(n / 10)[0]);
        if n / 10 < 10 {
            assert(n / 10 >= 1);
            assert(decimal(n / 10)[0] == digit(n / 10));
            assert(digit(n / 10) as int == 48 + n / 10);
        } else {
            assert(decimal(n / 10) == decimal(n / 10 / 10).push(digit(n / 10 % 10)));
            lemma_decimal_reads_back(n / 10 / 10);
        }
    }
}

/// Each digit counts ten times as much as the one behind it.
pub proof fn law_a_digit_counts_by_its_place(s: Seq<char>, c: char)
    requires
        ascii_digit(c),
    ensures
        number(s.push(c)) == number(s) * 10 + (c as int - 48),
        number(Seq::empty()) == 0,
{
    assert(s.push(c).drop_last() =~= s);
}

/// Every character is white space.
pub open spec fn blank(s: Seq<char>, white: spec_fn(char) -> bool) -> bool {
    forall|i: int| 0 <= i < s.len() ==> white(#[trigger] s[i])
}

#[verifier::rlimit(50)]
proof fn lemma_words_behind(lead: Seq<char>, s: Seq<char>, white: spec_fn(char) -> bool)
    requires
        blank(lead, white),
    ensures
        words(lead + s, white) == words(s, white),
    decreases s.len(), lead.len(),
{
    let whole = lead + s;
    if s.len() > 0 {
        let short = s.drop_last();
        lemma_words_behind(lead, short, white);
        assert(whole.drop_last() =~= lead + short);
        assert(whole.last() == s.last());
        if s.len() == 1 {
            assert(words(short, white) =~= Seq::<Seq<char>>::empty());
            if lead.len() > 0 {
                assert(whole[whole.len() - 2] == lead[lead.len() - 1]);
            }
        } else {
            assert(whole[whole.len() - 2] == s[s.len() - 2]);
        }
    } else if lead.len() > 0 {
        let short = lead.drop_last();
        assert forall|i: int| 0 <= i < short.len() implies white(#[trigger] short[i]) by {
            assert(short[i] == lead[i]);
        }
        lemma_words_behind(short, s, white);
        assert(whole =~= lead);
        assert(whole.drop_last() =~= short + s);
        assert(whole.last() == lead[lead.len() - 1]);
    } else {
        assert(whole =~= s);
    }
}

proof fn lemma_words_before(s: Seq<char>, tail: Seq<char>, white: spec_fn(char) -> bool)
    requires
        blank(tail, white),
    ensures
        words(s + tail, white) == words(s, white),
    decreases tail.len(),
{
    let whole = s + tail;
    if tail.len() > 0 {
        let short = tail.drop_last();
        assert forall|i: int| 0 <= i < short.len() implies white(#[trigger] short[i]) by {
            assert(short[i] == tail[i]);
        }
        lemma_words_before(s, short, white);
        assert(whole.drop_last() =~= s + short);
        assert(whole.last() == tail[tail.len() - 1]);
    } else {
        assert(whole =~= s);
    }
}

/// White space around words changes nothing, and any white space between two of them parts them.
pub proof fn law_words_stand_between_white_space(
    lead: Seq<char>,
    first: Seq<char>,
    gap: Seq<char>,
    second: Seq<char>,
    tail: Seq<char>,
    white: spec_fn(char) -> bool,
)
    requires
        blank(lead, white),
        blank(gap, white),
        blank(tail, white),
        gap.len() > 0,
        first.len() > 0,
        second.len() > 0,
        solid(first, white),
        solid(second, white),
    ensures
        words(lead + first + tail, white) == seq![first],
        words(lead + first + gap + second + tail, white) == seq![first, second],
{
    lemma_one_word(first, white);
    lemma_words_behind(lead, first, white);
    lemma_words_before(lead + first, tail, white);
    let short = gap.drop_last();
    assert forall|i: int| 0 <= i < short.len() implies white(#[trigger] short[i]) by {
        assert(short[i] == gap[i]);
    }
    lemma_words_before(lead + first, short, white);
    assert(white(gap[gap.len() - 1]));
    lemma_last_word(lead + first + short, gap.last(), second, white);
    assert((lead + first + short).push(gap.last()) + second =~= lead + first + gap + second);
    lemma_words_before(lead + first + gap + second, tail, white);
    assert(words(lead + first + gap + second, white) =~= seq![first, second]);
}

/// Trimming leaves a text without the white space that stands around it.
#[verifier::rlimit(50)]
pub proof fn law_trimming_leaves_the_text(lead: Seq<char>, s: Seq<char>, tail: Seq<char>)
    requires
        blank(lead, |c: char| white_space(c)),
        blank(tail, |c: char| white_space(c)),
        s.len() > 0 ==> !white_space(s[0]) && !white_space(s.last()),
    ensures
        trimmed(lead + s + tail) == s,
    decreases lead.len() + tail.len(),
{
    let white = |c: char| white_space(c);
    let whole = lead + s + tail;
    if lead.len() > 0 {
        let rest = lead.skip(1);
        assert forall|i: int| 0 <= i < rest.len() implies white(#[trigger] rest[i]) by {
            assert(rest[i] == lead[i + 1]);
        }
        law_trimming_leaves_the_text(rest, s, tail);
        assert(white(lead[0]));
        assert(whole[0] == lead[0]);
        assert(whole.skip(1) =~= rest + s + tail);
    } else if s.len() == 0 {
        lemma_trimmed(whole, ' ');
        law_trimming_takes_only_white_space(whole);
        assert(whole =~= tail);
        if trimmed(whole).len() > 0 {
            let (i, j) = choose|i: int, j: int|
                0 <= i <= j <= whole.len() && trimmed(whole) == #[trigger] whole.subrange(i, j) && (
                forall|k: int|
                    0 <= k < i || j <= k < whole.len() ==> white_space(#[trigger] whole[k]));
            assert(trimmed(whole)[0] == whole[i]);
            assert(white(tail[i]));
        }
        assert(trimmed(whole) =~= s);
    } else {
        assert(whole[0] == s[0]);
        assert(trim_start(whole) == whole);
        if tail.len() > 0 {
            let rest = tail.drop_last();
            assert forall|i: int| 0 <= i < rest.len() implies white(#[trigger] rest[i]) by {
                assert(rest[i] == tail[i]);
            }
            law_trimming_leaves_the_text(lead, s, rest);
            assert(white(tail[tail.len() - 1]));
            assert(whole.last() == tail[tail.len() - 1]);
            assert(whole.drop_last() =~= lead + s + rest);
            assert((lead + s + rest)[0] == s[0]);
            assert(trim_start(lead + s + rest) == lead + s + rest);
        } else {
            assert(whole =~= s);
        }
    }
}

/// A number is read from its digits, with or without a plus in front, where a machine word holds it;
/// nothing else is read as one.
pub proof fn law_a_number_is_read_from_its_digits(n: nat, s: Seq<char>)
    ensures
        n <= usize::MAX ==> unsigned(decimal(n)) == Some(n) && unsigned("+"@ + decimal(n)) == Some(
            n,
        ),
        n > usize::MAX ==> unsigned(decimal(n)) is None,
        s.len() == 0 ==> unsigned(s) is None,
        (exists|i: int| 0 < i < s.len() && !ascii_digit(#[trigger] s[i])) ==> unsigned(s) is None,
        s.len() > 0 && s[0] != '+' && !ascii_digit(s[0]) ==> unsigned(s) is None,
{
    reveal_strlit("+");
    law_a_number_is_spelled_in_decimal(n);
    assert(ascii_digit(decimal(n)[0]));
    assert(("+"@ + decimal(n)).skip(1) =~= decimal(n));
    if exists|i: int| 0 < i < s.len() && !ascii_digit(#[trigger] s[i]) {
        let i = choose|i: int| 0 < i < s.len() && !ascii_digit(#[trigger] s[i]);
        assert(s.skip(1)[i - 1] == s[i]);
    }
}

} // verus!

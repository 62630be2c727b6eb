//! Reading a skeleton: literal SQL and the gaps between it.

use vstd::prelude::*;
use vstd::slice::slice_subrange;
use vstd::string::StringExecFns;

use crate::lexical::{
    close_comment, close_dollar, close_quoted, has_at, has_pair, place, seek_char, Dollar,
};
#[allow(unused_imports)]
use crate::lexical::{
    comment_end, dollar_end, lemma_comment_end, lemma_dollar_end, lemma_next_or_end,
    lemma_quoted_end, next_or_end, pair_at, quoted_end, stands_at, tag_end,
};
use crate::template::error::Error;
use crate::text::{
    byte_offset, chars_of, copy_of, is_ascii_white_space, is_identifier, same, string_of, trim,
};
#[allow(unused_imports)]
use crate::text::{ascii_white_space, byte_at, concat, identifier, strings, trimmed};
#[allow(unused_imports)]
use crate::lexical::{
    law_a_dollar_quote_ends_at_its_tag, law_quotes_close_at_their_mark,
    law_the_next_character_is_the_first, quotable, run_together, tag,
};
#[allow(unused_imports)]
use crate::text::{blank, lacks, law_trimming_leaves_the_text, white_space};

verus! {

/// The marker that makes a comment a sentinel rather than a comment.
pub const MARKER: &'static str = "query.";

/// A gap, as contracts speak of it.
pub struct SlotView {
    pub name: Seq<char>,
    pub joiner: Seq<char>,
    pub before: bool,
}

/// A skeleton, as contracts speak of it: the text around the gaps, the gaps, and the byte
/// at which the first `?` after a gap stands.
pub struct Layout {
    pub texts: Seq<Seq<char>>,
    pub slots: Seq<SlotView>,
    pub late: Option<int>,
}

/// What is wrong with a skeleton, and the character at which it begins.
pub struct Fault {
    pub message: Seq<char>,
    pub at: int,
}

/// A named gap that a fragment goes into, as a sentinel declared it.
#[derive(Debug, PartialEq, Eq)]
pub struct Slot {
    /// The identifier after `query.`.
    pub name: String,
    /// Written with every fragment that fills this slot.
    pub joiner: String,
    /// Whether the joiner precedes the fragment or follows it.
    pub before: bool,
}

impl View for Slot {
    type V = SlotView;

    open spec fn view(&self) -> SlotView {
        SlotView { name: self.name@, joiner: self.joiner@, before: self.before }
    }
}

/// What a list of slots declares.
pub open spec fn slot_views(slots: Seq<Slot>) -> Seq<SlotView> {
    slots.map_values(|slot: Slot| slot@)
}

/// A slot of this name is among `slots`.
pub open spec fn declares(slots: Seq<SlotView>, name: Seq<char>) -> bool {
    exists|i: int| 0 <= i < slots.len() && #[trigger] slots[i].name == name
}

/// What begins at one position of a skeleton.
pub enum Lexeme {
    /// Ordinary text up to the position.
    Skip(int),
    /// A `?`.
    Question,
    /// A block comment that ends at the position.
    Comment(int),
    /// Something that nothing closes.
    Broken(Seq<char>),
}

/// What begins at `at`.
pub open spec fn lexeme(s: Seq<char>, at: int) -> Lexeme {
    let c = s[at];
    if c == '\'' {
        match quoted_end(s, at + 1, c, at > 0 && (s[at - 1] == 'E' || s[at - 1] == 'e')) {
            Some(e) => Lexeme::Skip(e),
            None => Lexeme::Broken("unterminated string literal"@),
        }
    } else if c == '"' || c == '`' {
        match quoted_end(s, at + 1, c, false) {
            Some(e) => Lexeme::Skip(e),
            None => Lexeme::Broken("unterminated quoted identifier"@),
        }
    } else if pair_at(s, at, '-', '-') {
        Lexeme::Skip(next_or_end(s, at + 2, '\n'))
    } else if c == '$' {
        match dollar_end(s, at) {
            None => Lexeme::Skip(at + 1),
            Some(Some(e)) => Lexeme::Skip(e),
            Some(None) => Lexeme::Broken(
                "unterminated dollar-quoted string opened with `"@ + s.subrange(
                    at,
                    tag_end(s, at)->0,
                ) + "`"@,
            ),
        }
    } else if c == '?' {
        Lexeme::Question
    } else if pair_at(s, at, '/', '*') {
        match comment_end(s, at + 2, 1, true) {
            Some(e) => Lexeme::Comment(e),
            None => Lexeme::Broken("unterminated block comment"@),
        }
    } else {
        Lexeme::Skip(at + 1)
    }
}

/// Reading goes forward and stays inside the text.
pub proof fn lemma_lexeme_advances(s: Seq<char>, at: int)
    requires
        0 <= at < s.len(),
    ensures
        lexeme(s, at) matches Lexeme::Skip(e) ==> at < e <= s.len(),
        lexeme(s, at) matches Lexeme::Comment(e) ==> at + 4 <= e <= s.len() && pair_at(
            s,
            at,
            '/',
            '*',
        ) && pair_at(s, e - 2, '*', '/'),
{
    lemma_quoted_end(s, at + 1, '\'', at > 0 && (s[at - 1] == 'E' || s[at - 1] == 'e'));
    lemma_quoted_end(s, at + 1, s[at], false);
    lemma_dollar_end(s, at);
    lemma_comment_end(s, at + 2, 1, true);
    if pair_at(s, at, '-', '-') {
        lemma_next_or_end(s, at + 2, '\n');
    }
}

/// The first position at or after `at` that does not hold ASCII white space, or the end.
pub open spec fn blanks_end(t: Seq<char>, at: int) -> int
    decreases t.len() - at,
{
    if !(0 <= at < t.len()) || !ascii_white_space(t[at]) {
        at
    } else {
        blanks_end(t, at + 1)
    }
}

/// The first position at or after `at` that holds ASCII white space, or the end.
pub open spec fn ink_end(t: Seq<char>, at: int) -> int
    decreases t.len() - at,
{
    if !(0 <= at < t.len()) || ascii_white_space(t[at]) {
        at
    } else {
        ink_end(t, at + 1)
    }
}

/// Both searches stay inside the text.
pub proof fn lemma_runs(t: Seq<char>, at: int)
    requires
        0 <= at <= t.len(),
    ensures
        at <= blanks_end(t, at) <= t.len(),
        at <= ink_end(t, at) <= t.len(),
        blanks_end(t, at) < t.len() ==> !ascii_white_space(t[blanks_end(t, at)]),
        at < t.len() && !ascii_white_space(t[at]) ==> at < ink_end(t, at),
    decreases t.len() - at,
{
    if at < t.len() {
        lemma_runs(t, at + 1);
    }
}

/// Where the words at or after `at` that begin with the marker stand.
pub open spec fn markers(t: Seq<char>, at: int) -> Seq<(int, int)>
    decreases t.len() - at,
{
    if !(0 <= at < t.len()) {
        Seq::empty()
    } else {
        let a = blanks_end(t, at);
        let e = ink_end(t, a);
        proof {
            lemma_runs(t, at);
            lemma_runs(t, a);
        }
        if a >= t.len() {
            Seq::empty()
        } else if stands_at(t.subrange(a, e), 0, MARKER@) {
            seq![(a, e)] + markers(t, e)
        } else {
            markers(t, e)
        }
    }
}

/// The slot that a comment body declares. A body is a sentinel where one word of it begins
/// with the marker, what follows the marker is an identifier, and there is text on at most
/// one side of that word; that text is the joiner. Every other body is an ordinary comment.
pub open spec fn sentinel(body: Seq<char>) -> Option<SlotView> {
    let t = trimmed(body);
    let found = markers(t, 0);
    if found.len() != 1 {
        None
    } else {
        let (a, e) = found[0];
        let name = t.subrange(a, e).skip(MARKER@.len() as int);
        let before = trimmed(t.take(a));
        let after = trimmed(t.skip(e));
        if !identifier(name) || (before.len() > 0 && after.len() > 0) {
            None
        } else if before.len() == 0 {
            Some(SlotView { name, joiner: after, before: false })
        } else {
            Some(SlotView { name, joiner: before, before: true })
        }
    }
}

/// Reads the rest of a skeleton from `at`, where `done` is what was read and `start` is
/// where the text that is still open began.
pub open spec fn scan_from(s: Seq<char>, at: int, start: int, done: Layout) -> Result<Layout, Fault>
    decreases s.len() - at,
{
    if !(0 <= at < s.len()) {
        Ok(
            Layout {
                texts: done.texts.push(s.subrange(start, s.len() as int)),
                slots: done.slots,
                late: done.late,
            },
        )
    } else {
        proof {
            lemma_lexeme_advances(s, at);
        }
        match lexeme(s, at) {
            Lexeme::Skip(e) => scan_from(s, e, start, done),
            Lexeme::Question => {
                let late = if done.slots.len() > 0 && done.late is None {
                    Some(byte_at(s, at))
                } else {
                    done.late
                };
                scan_from(s, at + 1, start, Layout { texts: done.texts, slots: done.slots, late })
            },
            Lexeme::Broken(message) => Err(Fault { message, at }),
            Lexeme::Comment(e) => match sentinel(s.subrange(at + 2, e - 2)) {
                None => scan_from(s, e, start, done),
                Some(slot) => if declares(done.slots, slot.name) {
                    Err(
                        Fault {
                            message: "slot `"@ + slot.name + "` is declared more than once"@,
                            at,
                        },
                    )
                } else {
                    scan_from(
                        s,
                        e,
                        e,
                        Layout {
                            texts: done.texts.push(s.subrange(start, at)),
                            slots: done.slots.push(slot),
                            late: done.late,
                        },
                    )
                },
            },
        }
    }
}

/// Nothing read yet.
pub open spec fn blank_layout() -> Layout {
    Layout { texts: Seq::empty(), slots: Seq::empty(), late: None }
}

/// What a skeleton turns out to be.
pub open spec fn layout(s: Seq<char>) -> Result<Layout, Fault> {
    scan_from(s, 0, 0, blank_layout())
}

/// What a skeleton turned out to be: text and gaps, interleaved, with one more text than
/// there are gaps.
pub struct Skeleton {
    /// The literal SQL around the slots.
    pub texts: Vec<String>,
    /// The gaps, in order.
    pub slots: Vec<Slot>,
    /// The same text with every sentinel removed.
    pub sql: String,
    /// The byte at which the first `?` that follows a slot stands.
    pub late_placeholder: Option<usize>,
}

impl View for Skeleton {
    type V = Layout;

    open spec fn view(&self) -> Layout {
        Layout {
            texts: strings(self.texts@),
            slots: slot_views(self.slots@),
            late: place(self.late_placeholder),
        }
    }
}

/// Locates the one word of a comment body that begins with the marker.
fn marker(t: &[char]) -> (r: Option<(usize, usize)>)
    ensures
        match r {
            Some((a, e)) => markers(t@, 0) == seq![(a as int, e as int)] && a <= e <= t.len()
                && stands_at(t@.subrange(a as int, e as int), 0, MARKER@),
            None => markers(t@, 0).len() != 1,
        },
{
    let mark = chars_of(MARKER);
    let mut found: Option<(usize, usize)> = None;
    let ghost mut seen: Seq<(int, int)> = Seq::empty();
    let mut at: usize = 0;
    assert(seen + markers(t@, 0) =~= markers(t@, 0));
    while at < t.len()
        invariant
            at <= t.len(),
            mark@ == MARKER@,
            markers(t@, 0) == seen + markers(t@, at as int),
            match found {
                Some((a, e)) => seen == seq![(a as int, e as int)] && a <= e <= t.len()
                    && stands_at(t@.subrange(a as int, e as int), 0, MARKER@),
                None => seen.len() == 0,
            },
        decreases t.len() - at,
    {
        let ghost from = at as int;
        proof {
            lemma_runs(t@, from);
            lemma_runs(t@, blanks_end(t@, from));
        }
        let mut start: usize = at;
        while start < t.len() && is_ascii_white_space(t[start])
            invariant
                at <= start <= t.len(),
                blanks_end(t@, at as int) == blanks_end(t@, start as int),
            decreases t.len() - start,
        {
            start += 1;
        }
        let mut end: usize = start;
        while end < t.len() && !is_ascii_white_space(t[end])
            invariant
                start <= end <= t.len(),
                ink_end(t@, start as int) == ink_end(t@, end as int),
            decreases t.len() - end,
        {
            end += 1;
        }
        if start < t.len() {
            let word = slice_subrange(t, start, end);
            if has_at(word, 0, mark.as_slice()) {
                if found.is_some() {
                    return None;
                }
                found = Some((start, end));
                proof {
                    let now = seq![(start as int, end as int)];
                    assert(seen + (now + markers(t@, end as int)) =~= now + markers(
                        t@,
                        end as int,
                    ));
                    seen = now;
                }
            }
        }
        at = end;
    }
    assert(seen + markers(t@, at as int) =~= seen);
    found
}

/// Reads a comment body as a sentinel, or decides that it is an ordinary comment.
fn read_sentinel(body: &[char]) -> (r: Option<Slot>)
    ensures
        match r {
            Some(slot) => sentinel(body@) == Some(slot@),
            None => sentinel(body@) is None,
        },
{
    let t = trim(body);
    match marker(t) {
        None => None,
        Some((a, e)) => {
            let word = slice_subrange(t, a, e);
            let skip = chars_of(MARKER).len();
            let name = slice_subrange(word, skip, word.len());
            assert(name@ =~= word@.skip(MARKER@.len() as int));
            if !is_identifier(name) {
                return None;
            }
            let head = slice_subrange(t, 0, a);
            let tail = slice_subrange(t, e, t.len());
            assert(head@ =~= t@.take(a as int));
            assert(tail@ =~= t@.skip(e as int));
            let before = trim(head);
            let after = trim(tail);
            if before.len() > 0 && after.len() > 0 {
                None
            } else if before.len() == 0 {
                Some(Slot { name: string_of(name), joiner: string_of(after), before: false })
            } else {
                Some(Slot { name: string_of(name), joiner: string_of(before), before: true })
            }
        },
    }
}

/// Whether a slot of this name is among `slots`.
pub fn is_declared(slots: &[Slot], name: &str) -> (b: bool)
    ensures
        b == declares(slot_views(slots@), name@),
{
    let mut i: usize = 0;
    while i < slots.len()
        invariant
            i <= slots.len(),
            forall|j: int| 0 <= j < i ==> (#[trigger] slot_views(slots@)[j]).name != name@,
        decreases slots.len() - i,
    {
        assert(slot_views(slots@)[i as int] == slots@[i as int]@);
        if same(slots[i].name.as_str(), name) {
            assert(slot_views(slots@)[i as int].name == name@);
            return true;
        }
        i += 1;
    }
    false
}

/// What reading one position of a skeleton found.
enum Found {
    Skip(usize),
    Question,
    Comment(usize),
    Broken(String),
}

/// Reads what begins at `at`.
fn read(s: &[char], at: usize) -> (r: Found)
    requires
        at < s.len(),
    ensures
        match r {
            Found::Skip(e) => lexeme(s@, at as int) == Lexeme::Skip(e as int),
            Found::Question => lexeme(s@, at as int) == Lexeme::Question,
            Found::Comment(e) => lexeme(s@, at as int) == Lexeme::Comment(e as int),
            Found::Broken(message) => lexeme(s@, at as int) == Lexeme::Broken(message@),
        },
{
    let c = s[at];
    if c == '\'' {
        let escapes = at > 0 && (s[at - 1] == 'E' || s[at - 1] == 'e');
        match close_quoted(s, at + 1, c, escapes) {
            Some(e) => Found::Skip(e),
            None => Found::Broken(copy_of("unterminated string literal")),
        }
    } else if c == '"' || c == '`' {
        match close_quoted(s, at + 1, c, false) {
            Some(e) => Found::Skip(e),
            None => Found::Broken(copy_of("unterminated quoted identifier")),
        }
    } else if has_pair(s, at, '-', '-') {
        Found::Skip(seek_char(s, at + 2, '\n'))
    } else if c == '$' {
        match close_dollar(s, at) {
            Dollar::Plain => Found::Skip(at + 1),
            Dollar::Body(e) => Found::Skip(e),
            Dollar::Open(e) => {
                let mut message = copy_of("unterminated dollar-quoted string opened with `");
                message.append(string_of(slice_subrange(s, at, e)).as_str());
                message.append("`");
                Found::Broken(message)
            },
        }
    } else if c == '?' {
        Found::Question
    } else if has_pair(s, at, '/', '*') {
        match close_comment(s, at + 2, true) {
            Some(e) => Found::Comment(e),
            None => Found::Broken(copy_of("unterminated block comment")),
        }
    } else {
        Found::Skip(at + 1)
    }
}

/// Reads a skeleton.
pub fn scan(sql: &str) -> (r: Result<Skeleton, Error>)
    ensures
        match (r, layout(sql@)) {
            (Ok(skeleton), Ok(found)) => skeleton@ == found && skeleton.sql@ == concat(found.texts),
            (Err(Error::Template { message, offset }), Err(fault)) => message@ == fault.message
                && offset == byte_at(sql@, fault.at),
            _ => false,
        },
{
    let chars = chars_of(sql);
    let s = chars.as_slice();
    let mut skeleton = Skeleton {
        texts: Vec::new(),
        slots: Vec::new(),
        sql: String::new(),
        late_placeholder: None,
    };
    let mut start: usize = 0;
    let mut at: usize = 0;
    assert(skeleton@.texts =~= blank_layout().texts);
    assert(skeleton@.slots =~= blank_layout().slots);
    while at < s.len()
        invariant
            start <= at <= s.len(),
            s@ == sql@,
            layout(s@) == scan_from(s@, at as int, start as int, skeleton@),
            skeleton.sql@ == concat(skeleton@.texts),
        decreases s.len() - at,
    {
        proof {
            lemma_lexeme_advances(s@, at as int);
        }
        match read(s, at) {
            Found::Skip(e) => {
                at = e;
            },
            Found::Question => {
                if skeleton.slots.len() > 0 && skeleton.late_placeholder.is_none() {
                    skeleton.late_placeholder = Some(byte_offset(sql, at));
                }
                at += 1;
            },
            Found::Broken(message) => {
                return Err(Error::Template { message, offset: byte_offset(sql, at) });
            },
            Found::Comment(e) => {
                let body = slice_subrange(s, at + 2, e - 2);
                if let Some(slot) = read_sentinel(body) {
                    if is_declared(skeleton.slots.as_slice(), slot.name.as_str()) {
                        let mut message = copy_of("slot `");
                        message.append(slot.name.as_str());
                        message.append("` is declared more than once");
                        return Err(Error::Template { message, offset: byte_offset(sql, at) });
                    }
                    let ghost before = skeleton@;
                    let ghost held = skeleton.slots@;
                    let text = string_of(slice_subrange(s, start, at));
                    skeleton.sql.append(text.as_str());
                    let ghost piece = text@;
                    skeleton.texts.push(text);
                    skeleton.slots.push(slot);
                    proof {
                        assert(skeleton@.texts =~= before.texts.push(piece));
                        assert(skeleton@.slots =~= before.slots.push(slot@));
                        assert(before.texts.push(piece).drop_last() =~= before.texts);
                    }
                    start = e;
                }
                at = e;
            },
        }
    }
    let ghost before = skeleton@;
    let text = string_of(slice_subrange(s, start, s.len()));
    skeleton.sql.append(text.as_str());
    let ghost piece = text@;
    skeleton.texts.push(text);
    proof {
        assert(skeleton@.texts =~= before.texts.push(piece));
        assert(before.texts.push(piece).drop_last() =~= before.texts);
    }
    Ok(skeleton)
}

/// The texts with the comments between them.
pub open spec fn interleaved(texts: Seq<Seq<char>>, between: Seq<Seq<char>>) -> Seq<char>
    decreases texts.len(),
{
    if texts.len() == 0 {
        Seq::empty()
    } else if texts.len() == 1 {
        texts[0]
    } else {
        interleaved(texts.drop_last(), between.drop_last()) + between.last() + texts.last()
    }
}

/// `c` is written as a block comment.
pub open spec fn is_comment(c: Seq<char>) -> bool {
    c.len() >= 4 && pair_at(c, 0, '/', '*') && pair_at(c, c.len() - 2, '*', '/')
}

/// What a layout read so far keeps: as many texts as gaps, gaps with distinct identifiers,
/// and comments that give the text back.
pub open spec fn kept(s: Seq<char>, at: int, start: int, done: Layout, comments: Seq<Seq<char>>) -> bool {
    &&& 0 <= start <= at <= s.len()
    &&& done.texts.len() == done.slots.len()
    &&& comments.len() == done.slots.len()
    &&& forall|i: int| 0 <= i < done.slots.len() ==> identifier(#[trigger] done.slots[i].name)
    &&& forall|i: int, j: int|
        0 <= i < j < done.slots.len() ==> #[trigger] done.slots[i].name != #[trigger] done.slots[j].name
    &&& forall|i: int| 0 <= i < comments.len() ==> is_comment(#[trigger] comments[i])
    &&& interleaved(done.texts.push(s.subrange(start, at)), comments) == s.take(at)
}

/// The texts give the source back.
pub open spec fn covers(found: Layout, comments: Seq<Seq<char>>, s: Seq<char>) -> bool {
    &&& comments.len() == found.slots.len()
    &&& forall|i: int| 0 <= i < comments.len() ==> is_comment(#[trigger] comments[i])
    &&& interleaved(found.texts, comments) == s
}

proof fn lemma_extend(texts: Seq<Seq<char>>, comments: Seq<Seq<char>>, s: Seq<char>, start: int, at: int, next: int)
    requires
        0 <= start <= at <= next <= s.len(),
        comments.len() == texts.len(),
        interleaved(texts.push(s.subrange(start, at)), comments) == s.take(at),
    ensures
        interleaved(texts.push(s.subrange(start, next)), comments) == s.take(next),
{
    let a = texts.push(s.subrange(start, at));
    let b = texts.push(s.subrange(start, next));
    assert(a.drop_last() =~= texts);
    assert(b.drop_last() =~= texts);
    assert(s.subrange(start, next) =~= s.subrange(start, at) + s.subrange(at, next));
    assert(s.take(next) =~= s.take(at) + s.subrange(at, next));
    if texts.len() > 0 {
        let head = interleaved(texts, comments.drop_last()) + comments.last();
        assert(head + s.subrange(start, next) =~= (head + s.subrange(start, at)) + s.subrange(at, next));
    }
}

proof fn lemma_scan_keeps(s: Seq<char>, at: int, start: int, done: Layout, comments: Seq<Seq<char>>)
    requires
        kept(s, at, start, done, comments),
    ensures
        scan_from(s, at, start, done) matches Ok(found) ==> {
            &&& found.texts.len() == found.slots.len() + 1
            &&& forall|i: int| 0 <= i < found.slots.len() ==> identifier(#[trigger] found.slots[i].name)
            &&& forall|i: int, j: int|
                0 <= i < j < found.slots.len() ==> #[trigger] found.slots[i].name
                    != #[trigger] found.slots[j].name
            &&& exists|all: Seq<Seq<char>>| covers(found, all, s)
        },
    decreases s.len() - at,
{
    if at >= s.len() {
        assert(s.take(at) =~= s);
        let found = scan_from(s, at, start, done)->Ok_0;
        assert(covers(found, comments, s));
    } else {
        lemma_lexeme_advances(s, at);
        match lexeme(s, at) {
            Lexeme::Skip(e) => {
                lemma_extend(done.texts, comments, s, start, at, e);
                lemma_scan_keeps(s, e, start, done, comments);
            },
            Lexeme::Question => {
                lemma_extend(done.texts, comments, s, start, at, at + 1);
                let late = if done.slots.len() > 0 && done.late is None {
                    Some(byte_at(s, at))
                } else {
                    done.late
                };
                lemma_scan_keeps(
                    s,
                    at + 1,
                    start,
                    Layout { texts: done.texts, slots: done.slots, late },
                    comments,
                );
            },
            Lexeme::Broken(message) => {},
            Lexeme::Comment(e) => {
                match sentinel(s.subrange(at + 2, e - 2)) {
                    None => {
                        lemma_extend(done.texts, comments, s, start, at, e);
                        lemma_scan_keeps(s, e, start, done, comments);
                    },
                    Some(slot) => {
                        if !declares(done.slots, slot.name) {
                            let next = Layout {
                                texts: done.texts.push(s.subrange(start, at)),
                                slots: done.slots.push(slot),
                                late: done.late,
                            };
                            let comment = s.subrange(at, e);
                            let more = comments.push(comment);
                            assert(is_comment(comment));
                            assert forall|i: int, j: int|
                                0 <= i < j < next.slots.len() implies #[trigger] next.slots[i].name
                                != #[trigger] next.slots[j].name by {
                                if j == done.slots.len() {
                                    assert(next.slots[i] == done.slots[i]);
                                }
                            }
                            let all = next.texts.push(s.subrange(e, e));
                            assert(all.drop_last() =~= next.texts);
                            assert(more.drop_last() =~= comments);
                            assert(s.take(e) =~= s.take(at) + comment + s.subrange(e, e));
                            lemma_scan_keeps(s, e, e, next, more);
                        }
                    },
                }
            },
        }
    }
}

/// A skeleton that is read has one text more than it has slots, its slots have distinct
/// identifiers for names, and its texts with block comments between them are the source:
/// nothing but the sentinels is taken away.
pub proof fn law_layout_keeps_the_source(s: Seq<char>)
    ensures
        layout(s) matches Ok(found) ==> {
            &&& found.texts.len() == found.slots.len() + 1
            &&& forall|i: int| 0 <= i < found.slots.len() ==> identifier(#[trigger] found.slots[i].name)
            &&& forall|i: int, j: int|
                0 <= i < j < found.slots.len() ==> #[trigger] found.slots[i].name
                    != #[trigger] found.slots[j].name
            &&& exists|comments: Seq<Seq<char>>| covers(found, comments, s)
        },
{
    let none = Seq::<Seq<char>>::empty();
    assert(s.subrange(0, 0) =~= s.take(0));
    assert(blank_layout().texts.push(s.subrange(0, 0)) =~= seq![s.take(0)]);
    lemma_scan_keeps(s, 0, 0, blank_layout(), none);
}

/// A skeleton without sentinels is its own text.
pub proof fn law_plain_sql_is_its_own_skeleton(s: Seq<char>)
    ensures
        layout(s) matches Ok(found) ==> found.slots.len() == 0 ==> found.texts == seq![s]
            && concat(found.texts) == s,
{
    law_layout_keeps_the_source(s);
    if let Ok(found) = layout(s) {
        if found.slots.len() == 0 {
            let comments = choose|comments: Seq<Seq<char>>| covers(found, comments, s);
            assert(covers(found, comments, s));
            assert(found.texts =~= seq![s]);
            assert(found.texts.drop_last() =~= Seq::<Seq<char>>::empty());
            assert(concat(found.texts.drop_last()) =~= Seq::<char>::empty());
            assert(concat(found.texts) =~= s);
        }
    }
}

// ---------------------------------------------------------------------------
// What a skeleton is read as
// ---------------------------------------------------------------------------

/// A quoted text is passed over whole, whatever it holds: a sentinel in it is none. A backslash
/// escapes in a string behind an `E`, and nowhere else.
pub proof fn law_a_quoted_text_is_passed_over(
    before: Seq<char>,
    units: Seq<Seq<char>>,
    after: Seq<char>,
    mark: char,
)
    requires
        mark == '\'' || mark == '"' || mark == '`',
        forall|i: int|
            0 <= i < units.len() ==> quotable(
                #[trigger] units[i],
                mark,
                mark == '\'' && before.len() > 0 && (before.last() == 'E' || before.last() == 'e'),
            ),
        after.len() > 0 ==> after[0] != mark,
    ensures
        lexeme(
            before + seq![mark] + run_together(units) + seq![mark] + after,
            before.len() as int,
        ) == Lexeme::Skip((before.len() + run_together(units).len() + 2) as int),
{
    let s = before + seq![mark] + run_together(units) + seq![mark] + after;
    let escapes = mark == '\'' && before.len() > 0 && (before.last() == 'E' || before.last() == 'e');
    law_quotes_close_at_their_mark(before + seq![mark], units, after, mark, escapes);
    assert(s[before.len() as int] == mark);
    if before.len() > 0 {
        assert(s[before.len() - 1] == before.last());
    }
}

/// A line comment is passed over up to the end of its line, and a dollar-quoted text with its tag. A
/// question mark is a placeholder.
pub proof fn law_line_comments_and_dollar_quotes_are_passed_over(
    before: Seq<char>,
    inside: Seq<char>,
    name: Seq<char>,
    after: Seq<char>,
    end: int,
)
    requires
        lacks(inside, '\n'),
        tag(name),
    ensures
        lexeme(before + "--"@ + inside + "\n"@ + after, before.len() as int) == Lexeme::Skip(
            (before.len() + inside.len() + 2) as int,
        ),
        ({
            let mark = "$"@ + name + "$"@;
            let s = before + mark + after;
            stands_at(s, end, mark) && end >= before.len() + mark.len() && (forall|i: int|
                before.len() + mark.len() <= i < end ==> !#[trigger] stands_at(s, i, mark))
                ==> lexeme(s, before.len() as int) == Lexeme::Skip(end + mark.len())
        }),
        lexeme(before + "?"@ + after, before.len() as int) == Lexeme::Question,
{
    reveal_strlit("--");
    reveal_strlit("\n");
    reveal_strlit("$");
    reveal_strlit("?");
    let at = before.len() as int;
    let s = before + "--"@ + inside + "\n"@ + after;
    assert(s[at] == '-' && s[at + 1] == '-');
    let stop = at + 2 + inside.len();
    assert(s[stop] == '\n');
    law_the_next_character_is_the_first(s, at + 2, '\n');
    let found = next_or_end(s, at + 2, '\n');
    if found < stop {
        assert(s[found] == inside[found - at - 2]);
    }
    if found > stop {
        assert(s[stop] != '\n');
    }
    law_a_dollar_quote_ends_at_its_tag(before, name, after, end);
    assert((before + ("$"@ + name + "$"@) + after)[at] == '$');
    assert((before + "?"@ + after)[at] == '?');
}

proof fn lemma_no_markers(t: Seq<char>, at: int)
    requires
        0 <= at,
        forall|i: int| at <= i < t.len() ==> #[trigger] t[i] != '.',
    ensures
        markers(t, at).len() == 0,
    decreases t.len() - at,
{
    if at < t.len() {
        let a = blanks_end(t, at);
        lemma_runs(t, at);
        if a < t.len() {
            let e = ink_end(t, a);
            lemma_runs(t, a);
            lemma_not_marker(t, a, e);
            lemma_no_markers(t, e);
        }
    }
}

proof fn lemma_not_marker(t: Seq<char>, a: int, e: int)
    requires
        0 <= a <= e <= t.len(),
        forall|i: int| a <= i < e ==> #[trigger] t[i] != '.',
    ensures
        !stands_at(t.subrange(a, e), 0, MARKER@),
{
    reveal_strlit("query.");
    let word = t.subrange(a, e);
    if stands_at(word, 0, MARKER@) {
        let front = word.subrange(0, MARKER@.len() as int);
        assert(front[5] == '.');
        assert(front[5] == t[a + 5]);
    }
}

proof fn lemma_ink(t: Seq<char>, at: int, end: int)
    requires
        0 <= at <= end <= t.len(),
        forall|i: int| at <= i < end ==> !ascii_white_space(#[trigger] t[i]),
        end < t.len() ==> ascii_white_space(t[end]),
    ensures
        ink_end(t, at) == end,
    decreases end - at,
{
    if at < end {
        lemma_ink(t, at + 1, end);
    }
}

proof fn lemma_first_marker(t: Seq<char>, at: int, a: int, e: int)
    requires
        0 <= at <= a < e <= t.len(),
        forall|i: int| at <= i < a ==> #[trigger] t[i] != '.',
        a == at || ascii_white_space(t[a - 1]),
        forall|i: int| a <= i < e ==> !ascii_white_space(#[trigger] t[i]),
        e < t.len() ==> ascii_white_space(t[e]),
        stands_at(t.subrange(a, e), 0, MARKER@),
    ensures
        markers(t, at) == seq![(a, e)] + markers(t, e),
    decreases a - at,
{
    lemma_runs(t, at);
    let b = blanks_end(t, at);
    lemma_blanks(t, at);
    if b < a {
        let c = ink_end(t, b);
        lemma_runs(t, b);
        lemma_ink_stops(t, b, a - 1);
        lemma_not_marker(t, b, c);
        lemma_first_marker(t, c, a, e);
    } else {
        if b > a {
            assert(ascii_white_space(t[a]));
        }
        lemma_ink(t, a, e);
    }
}

proof fn lemma_blanks(t: Seq<char>, at: int)
    requires
        0 <= at,
    ensures
        forall|i: int| at <= i < blanks_end(t, at) ==> ascii_white_space(#[trigger] t[i]),
        at <= blanks_end(t, at),
        blanks_end(t, at) < t.len() ==> !ascii_white_space(t[blanks_end(t, at)]),
    decreases t.len() - at,
{
    if at < t.len() && ascii_white_space(t[at]) {
        lemma_blanks(t, at + 1);
    }
}

proof fn lemma_ink_stops(t: Seq<char>, at: int, stop: int)
    requires
        0 <= at <= stop < t.len(),
        ascii_white_space(t[stop]),
    ensures
        ink_end(t, at) <= stop,
    decreases stop - at,
{
    if at < stop && !ascii_white_space(t[at]) {
        lemma_ink_stops(t, at + 1, stop);
    }
}

/// A comment that names a slot declares it: what stands behind the name is a joiner that follows
/// every fragment, and what stands before it one that precedes it. Left out are joiners with a dot
/// in them.
#[verifier::rlimit(50)]
pub proof fn law_a_sentinel_declares_its_slot(
    lead: Seq<char>,
    name: Seq<char>,
    gap: Seq<char>,
    joiner: Seq<char>,
    tail: Seq<char>,
)
    requires
        blank(lead, |c: char| white_space(c)),
        blank(tail, |c: char| white_space(c)),
        blank(gap, |c: char| ascii_white_space(c)),
        gap.len() > 0,
        identifier(name),
        joiner.len() > 0,
        lacks(joiner, '.'),
        !white_space(joiner[0]),
        !white_space(joiner.last()),
    ensures
        sentinel(lead + "query."@ + name + tail) == Some(
            SlotView { name, joiner: Seq::empty(), before: false },
        ),
        sentinel(lead + "query."@ + name + gap + joiner + tail) == Some(
            SlotView { name, joiner, before: false },
        ),
        sentinel(lead + joiner + gap + "query."@ + name + tail) == Some(
            SlotView { name, joiner, before: true },
        ),
{
    reveal_strlit("query.");
    let white = |c: char| white_space(c);
    let none = Seq::<char>::empty();
    let word = "query."@ + name;
    let n = word.len() as int;
    assert forall|i: int| 0 <= i < n implies !ascii_white_space(#[trigger] word[i])
        && !white_space(word[i]) by {
        if i >= 6 {
            assert(word[i] == name[i - 6]);
        }
    }
    assert(word.subrange(0, 6) =~= MARKER@);
    assert(word.skip(MARKER@.len() as int) =~= name);
    assert forall|i: int| 0 <= i < gap.len() implies white(#[trigger] gap[i]) by {
        assert((|c: char| ascii_white_space(c))(gap[i]));
    }
    // The name alone.
    law_trimming_leaves_the_text(lead, word, tail);
    assert(lead + word + tail =~= lead + "query."@ + name + tail);
    lemma_ink(word, 0, n);
    assert(word.subrange(0, n) =~= word);
    lemma_first_marker(word, 0, 0, n);
    lemma_no_markers(word, n);
    assert(markers(word, 0) =~= seq![(0int, n)]);
    assert(word.take(0) =~= none && word.skip(n) =~= none);
    law_trimming_leaves_the_text(none, none, none);
    assert(none + none + none =~= none);
    // The joiner behind it.
    let t = word + gap + joiner;
    assert(t[0] == word[0] && t.last() == joiner.last());
    law_trimming_leaves_the_text(lead, t, tail);
    assert(lead + t + tail =~= lead + "query."@ + name + gap + joiner + tail);
    assert forall|i: int| 0 <= i < n implies !ascii_white_space(#[trigger] t[i]) by {
        assert(t[i] == word[i]);
    }
    assert(t[n] == gap[0]);
    assert((|c: char| ascii_white_space(c))(gap[0]));
    assert(t.subrange(0, n) =~= word);
    lemma_first_marker(t, 0, 0, n);
    assert forall|i: int| n <= i < t.len() implies #[trigger] t[i] != '.' by {
        if i < n + gap.len() {
            assert(t[i] == gap[i - n]);
            assert(white(gap[i - n]));
        } else {
            assert(t[i] == joiner[i - n - gap.len()]);
        }
    }
    lemma_no_markers(t, n);
    assert(markers(t, 0) =~= seq![(0int, n)]);
    assert(t.take(0) =~= none);
    assert(t.skip(n) =~= gap + joiner + none);
    law_trimming_leaves_the_text(gap, joiner, none);
    // The joiner before it.
    let u = joiner + gap + word;
    let a = (joiner.len() + gap.len()) as int;
    let e = u.len() as int;
    assert(u[0] == joiner[0] && u.last() == word.last());
    law_trimming_leaves_the_text(lead, u, tail);
    assert(lead + u + tail =~= lead + joiner + gap + "query."@ + name + tail);
    assert forall|i: int| 0 <= i < a implies #[trigger] u[i] != '.' by {
        if i < joiner.len() {
            assert(u[i] == joiner[i]);
        } else {
            assert(u[i] == gap[i - joiner.len()]);
            assert(white(gap[i - joiner.len()]));
        }
    }
    assert(u[a - 1] == gap[gap.len() - 1]);
    assert((|c: char| ascii_white_space(c))(gap[gap.len() - 1]));
    assert forall|i: int| a <= i < e implies !ascii_white_space(#[trigger] u[i]) by {
        assert(u[i] == word[i - a]);
    }
    assert(u.subrange(a, e) =~= word);
    lemma_first_marker(u, 0, a, e);
    lemma_no_markers(u, e);
    assert(markers(u, 0) =~= seq![(a, e)]);
    assert(u.take(a) =~= none + joiner + gap);
    law_trimming_leaves_the_text(none, joiner, gap);
    assert(u.skip(e) =~= none);
}

/// A part of a skeleton: a character with which nothing begins, a placeholder, or a comment.
pub enum Part {
    Ink(char),
    Question,
    Comment(Seq<char>),
}

/// The part can be written: nothing begins with the character, and nothing ends the comment early.
pub open spec fn writable(part: Part) -> bool {
    match part {
        Part::Ink(c) => c != '\'' && c != '"' && c != '`' && c != '-' && c != '$' && c != '?' && c
            != '/',
        Part::Question => true,
        Part::Comment(body) => lacks(body, '*') && (body.len() > 0 ==> body.last() != '/'),
    }
}

/// The text of a part.
pub open spec fn part_text(part: Part) -> Seq<char> {
    match part {
        Part::Ink(c) => seq![c],
        Part::Question => seq!['?'],
        Part::Comment(body) => seq!['/', '*'] + body + seq!['*', '/'],
    }
}

/// The text of the parts from the `i`th on.
pub open spec fn parts_text(parts: Seq<Part>, i: int) -> Seq<char>
    decreases parts.len() - i,
{
    if !(0 <= i < parts.len()) {
        Seq::empty()
    } else {
        part_text(parts[i]) + parts_text(parts, i + 1)
    }
}

/// The slots that the comments among the parts from the `i`th on declare.
pub open spec fn slots_from(parts: Seq<Part>, i: int) -> Seq<SlotView>
    decreases parts.len() - i,
{
    if !(0 <= i < parts.len()) {
        Seq::empty()
    } else {
        match parts[i] {
            Part::Comment(body) => match sentinel(body) {
                Some(slot) => seq![slot] + slots_from(parts, i + 1),
                None => slots_from(parts, i + 1),
            },
            _ => slots_from(parts, i + 1),
        }
    }
}

/// How many characters stand between the `i`th part and the first placeholder behind a slot, if
/// there is one. `seen` says whether a slot was declared before.
pub open spec fn late_from(parts: Seq<Part>, i: int, seen: bool) -> Option<int>
    decreases parts.len() - i,
{
    if !(0 <= i < parts.len()) {
        None
    } else if parts[i] is Question && seen {
        Some(0)
    } else {
        let slot = parts[i] matches Part::Comment(body) && sentinel(body) is Some;
        match late_from(parts, i + 1, seen || slot) {
            Some(n) => Some(n + part_text(parts[i]).len()),
            None => None,
        }
    }
}

/// No two slots have one name.
pub open spec fn told_apart(slots: Seq<SlotView>) -> bool {
    forall|i: int, j: int|
        0 <= i < j < slots.len() ==> (#[trigger] slots[i]).name != (#[trigger] slots[j]).name
}

proof fn lemma_comment_body(s: Seq<char>, at: int, end: int)
    requires
        0 <= at <= end,
        pair_at(s, end, '*', '/'),
        forall|i: int| at <= i < end ==> #[trigger] s[i] != '*',
        at < end ==> s[end - 1] != '/',
    ensures
        comment_end(s, at, 1, true) == Some(end + 2),
    decreases end - at,
{
    if at < end {
        if at + 1 < end {
            assert(s[at + 1] != '*');
        }
        lemma_comment_body(s, at + 1, end);
    }
}

#[verifier::rlimit(50)]
proof fn lemma_scanned(before: Seq<char>, parts: Seq<Part>, i: int, start: int, done: Layout)
    requires
        0 <= i <= parts.len(),
        0 <= start <= before.len(),
        forall|j: int| 0 <= j < parts.len() ==> writable(#[trigger] parts[j]),
        told_apart(done.slots + slots_from(parts, i)),
        done.late is Some ==> done.slots.len() > 0,
    ensures
        ({
            let s = before + parts_text(parts, i);
            scan_from(s, before.len() as int, start, done) matches Ok(found) && {
                &&& found.slots == done.slots + slots_from(parts, i)
                &&& found.late == match done.late {
                    Some(byte) => Some(byte),
                    None => match late_from(parts, i, done.slots.len() > 0) {
                        Some(n) => Some(byte_at(s, before.len() + n)),
                        None => None,
                    },
                }
            }
        }),
    decreases parts.len() - i,
{
    let s = before + parts_text(parts, i);
    let at = before.len() as int;
    if i < parts.len() {
        let text = part_text(parts[i]);
        let rest = parts_text(parts, i + 1);
        let next = before + text;
        assert(writable(parts[i]));
        assert(s =~= next + rest);
        assert(s[at] == text[0]);
        match parts[i] {
            Part::Ink(c) => {
                assert(lexeme(s, at) == Lexeme::Skip(at + 1));
                lemma_scanned(next, parts, i + 1, start, done);
            },
            Part::Question => {
                assert(lexeme(s, at) == Lexeme::Question);
                let late = if done.slots.len() > 0 && done.late is None {
                    Some(byte_at(s, at))
                } else {
                    done.late
                };
                let after = Layout { texts: done.texts, slots: done.slots, late };
                lemma_scanned(next, parts, i + 1, start, after);
            },
            Part::Comment(body) => {
                let end = at + text.len();
                assert(s[at] == '/' && s[at + 1] == '*' && s[end - 2] == '*' && s[end - 1] == '/');
                assert forall|k: int| at + 2 <= k < end - 2 implies #[trigger] s[k] != '*' by {
                    assert(s[k] == body[k - at - 2]);
                }
                if body.len() > 0 {
                    assert(s[end - 3] == body.last());
                }
                lemma_comment_body(s, at + 2, end - 2);
                assert(lexeme(s, at) == Lexeme::Comment(end));
                assert(s.subrange(at + 2, end - 2) =~= body);
                match sentinel(body) {
                    None => {
                        lemma_scanned(next, parts, i + 1, start, done);
                    },
                    Some(slot) => {
                        let all = done.slots + slots_from(parts, i);
                        assert(all[done.slots.len() as int] == slot);
                        assert forall|k: int| 0 <= k < done.slots.len() implies (
                        #[trigger] done.slots[k]).name != slot.name by {
                            assert(all[k] == done.slots[k]);
                        }
                        assert(!declares(done.slots, slot.name));
                        let after = Layout {
                            texts: done.texts.push(s.subrange(start, at)),
                            slots: done.slots.push(slot),
                            late: done.late,
                        };
                        assert(after.slots + slots_from(parts, i + 1) =~= all);
                        lemma_scanned(next, parts, i + 1, end, after);
                    },
                }
            },
        }
    } else {
        assert(s =~= before);
        assert(done.slots + slots_from(parts, i) =~= done.slots);
    }
}

/// A skeleton has the slots that its comments declare, in order, and it remembers the byte of the
/// first placeholder that stands behind one of them. It is read wherever no two slots have one name.
pub proof fn law_a_skeleton_has_the_slots_of_its_comments(parts: Seq<Part>)
    requires
        forall|j: int| 0 <= j < parts.len() ==> writable(#[trigger] parts[j]),
        told_apart(slots_from(parts, 0)),
    ensures
        layout(parts_text(parts, 0)) matches Ok(found) && found.slots == slots_from(parts, 0)
            && found.late == match late_from(parts, 0, false) {
            Some(n) => Some(byte_at(parts_text(parts, 0), n)),
            None => None,
        },
{
    let none = Seq::<char>::empty();
    assert(blank_layout().slots + slots_from(parts, 0) =~= slots_from(parts, 0));
    lemma_scanned(none, parts, 0, 0, blank_layout());
    assert(none + parts_text(parts, 0) =~= parts_text(parts, 0));
}

proof fn lemma_never_closed(s: Seq<char>, at: int, mark: char)
    requires
        0 <= at,
        forall|i: int| at <= i < s.len() ==> #[trigger] s[i] != mark,
    ensures
        quoted_end(s, at, mark, false) is None,
    decreases s.len() - at,
{
    if at < s.len() {
        lemma_never_closed(s, at + 1, mark);
    }
}

/// What is never closed is refused where it opens: a string or a quoted name without its closing
/// mark, and a comment without its end.
pub proof fn law_what_is_never_closed_is_refused(before: Seq<char>, inside: Seq<char>, mark: char)
    requires
        before.len() > 0 ==> before.last() != 'E' && before.last() != 'e',
    ensures
        (mark == '\'' || mark == '"' || mark == '`') && lacks(inside, mark) ==> lexeme(
            before + seq![mark] + inside,
            before.len() as int,
        ) is Broken,
        lacks(inside, '*') && lacks(inside, '/') ==> lexeme(
            before + seq!['/', '*'] + inside,
            before.len() as int,
        ) is Broken,
{
    let at = before.len() as int;
    let s = before + seq![mark] + inside;
    assert(s[at] == mark);
    if at > 0 {
        assert(s[at - 1] == before.last());
    }
    if lacks(inside, mark) {
        assert forall|i: int| at + 1 <= i < s.len() implies #[trigger] s[i] != mark by {
            assert(s[i] == inside[i - at - 1]);
        }
        lemma_never_closed(s, at + 1, mark);
    }
    let t = before + seq!['/', '*'] + inside;
    assert(t[at] == '/' && t[at + 1] == '*');
    if lacks(inside, '*') && lacks(inside, '/') {
        assert forall|i: int| at + 2 <= i < t.len() implies #[trigger] t[i] != '*' && t[i] != '/' by {
            assert(t[i] == inside[i - at - 2]);
        }
        lemma_comment_open(t, at + 2);
    }
}

proof fn lemma_comment_open(s: Seq<char>, at: int)
    requires
        0 <= at,
        forall|i: int| at <= i < s.len() ==> #[trigger] s[i] != '*' && s[i] != '/',
    ensures
        comment_end(s, at, 1, true) is None,
    decreases s.len() - at,
{
    if at + 1 < s.len() {
        lemma_comment_open(s, at + 1);
    }
}

} // verus!

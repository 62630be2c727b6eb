//! What is wrong with a source, as text.

use vstd::prelude::*;
use vstd::slice::slice_subrange;
use vstd::string::StringExecFns;

use crate::text::{chars_of, copy_of, decimal_of, join, push_char, split, string_of};
#[allow(unused_imports)]
use crate::text::{decimal, joined, lemma_pieces_nonempty, pieces, slices, strings};
#[allow(unused_imports)]
use crate::text::{lacks, lemma_last_piece, lemma_one_piece};

verus! {

/// One thing that is wrong with a source: where, what, and the source itself where it is to be
/// shown.
#[derive(Debug, PartialEq, Eq)]
pub struct Mistake {
    /// The line, counted from one.
    pub line: isize,
    /// The column, counted from one.
    pub column: isize,
    pub message: String,
    pub source: Option<String>,
}

/// A mistake, as contracts speak of it.
pub struct MistakeView {
    pub line: int,
    pub column: int,
    pub message: Seq<char>,
    pub source: Option<Seq<char>>,
}

impl View for Mistake {
    type V = MistakeView;

    open spec fn view(&self) -> MistakeView {
        MistakeView {
            line: self.line as int,
            column: self.column as int,
            message: self.message@,
            source: match self.source {
                Some(source) => Some(source@),
                None => None,
            },
        }
    }
}

/// What a list of mistakes holds.
pub open spec fn mistake_views(mistakes: Seq<Mistake>) -> Seq<MistakeView> {
    mistakes.map_values(|mistake: Mistake| mistake@)
}

/// A whole number in decimal.
pub open spec fn signed(n: int) -> Seq<char> {
    if n < 0 {
        "-"@ + decimal((-n) as nat)
    } else {
        decimal(n as nat)
    }
}

/// A line without the carriage return at its end.
pub open spec fn without_return(line: Seq<char>) -> Seq<char> {
    if line.len() > 0 && line.last() == '\r' {
        line.drop_last()
    } else {
        line
    }
}

/// The `n`th line of a text, counted from zero. A line ends with a line feed, which a carriage
/// return may precede; what follows the last line feed is a line unless it is empty.
pub open spec fn line_at(text: Seq<char>, n: int) -> Option<Seq<char>> {
    let lines = pieces(text, '\n');
    if 0 <= n < lines.len() - 1 {
        Some(without_return(lines[n]))
    } else if n == lines.len() - 1 && lines[n].len() > 0 {
        Some(lines[n])
    } else {
        None
    }
}

/// So many dots.
pub open spec fn dots(n: nat) -> Seq<char> {
    Seq::new(n, |i: int| '.')
}

/// What points at a column.
pub open spec fn pointer(column: int) -> Seq<char> {
    dots(
        if column > 1 {
            (column - 1) as nat
        } else {
            0
        },
    ) + "^"@
}

/// The line that a mistake is in, and what points at it.
pub open spec fn excerpt(mistake: MistakeView) -> Seq<char> {
    match mistake.source {
        Some(source) => match line_at(source, mistake.line - 1) {
            Some(line) => "\n| "@ + line + "\n| "@ + pointer(mistake.column),
            None => Seq::empty(),
        },
        None => Seq::empty(),
    }
}

/// A mistake as text.
pub open spec fn told(mistake: MistakeView) -> Seq<char> {
    "ERROR: <input>:"@ + signed(mistake.line) + ":"@ + signed(mistake.column) + ": "@
        + mistake.message + excerpt(mistake)
}

/// Mistakes as text, each on lines of its own.
pub open spec fn all_told(mistakes: Seq<MistakeView>) -> Seq<char> {
    joined(mistakes.map_values(|mistake: MistakeView| told(mistake)), "\n"@)
}

fn write_signed(n: isize) -> (r: String)
    ensures
        r@ == signed(n as int),
{
    if n < 0 {
        copy_of("-").concat(decimal_of((-(n as i128)) as u128).as_str())
    } else {
        decimal_of(n as u128)
    }
}

fn find_line(text: &str, n: isize) -> (r: Option<String>)
    ensures
        match (r, line_at(text@, n as int)) {
            (Some(line), Some(found)) => line@ == found,
            (None, None) => true,
            _ => false,
        },
{
    let chars = chars_of(text);
    let lines = split(chars.as_slice(), '\n');
    proof {
        lemma_pieces_nonempty(text@, '\n');
    }
    assert(slices(lines@).len() == lines@.len());
    if n < 0 || n as usize >= lines.len() {
        return None;
    }
    let at = n as usize;
    let line = lines[at];
    assert(slices(lines@)[at as int] == line@);
    if at == lines.len() - 1 {
        return if line.len() == 0 {
            None
        } else {
            Some(string_of(line))
        };
    }
    if line.len() > 0 && line[line.len() - 1] == '\r' {
        let head = slice_subrange(line, 0, line.len() - 1);
        assert(head@ =~= line@.drop_last());
        return Some(string_of(head));
    }
    Some(string_of(line))
}

fn write_pointer(column: isize) -> (r: String)
    ensures
        r@ == pointer(column as int),
{
    let mut r = String::new();
    let count: isize = if column > 1 {
        column - 1
    } else {
        0
    };
    let mut i: isize = 0;
    while i < count
        invariant
            0 <= i <= count,
            r@ =~= dots(i as nat),
        decreases count - i,
    {
        push_char(&mut r, '.');
        i += 1;
    }
    r.append("^");
    r
}

impl Mistake {
    /// This mistake as text.
    pub fn tell(&self) -> (r: String)
        ensures
            r@ == told(self@),
    {
        let mut r = copy_of("ERROR: <input>:");
        r.append(write_signed(self.line).as_str());
        r.append(":");
        r.append(write_signed(self.column).as_str());
        r.append(": ");
        r.append(self.message.as_str());
        let ghost head = r@;
        if let Some(source) = &self.source {
            if self.line > isize::MIN {
                if let Some(line) = find_line(source.as_str(), self.line - 1) {
                    r.append("\n| ");
                    r.append(line.as_str());
                    r.append("\n| ");
                    r.append(write_pointer(self.column).as_str());
                }
            }
        }
        assert(r@ =~= head + excerpt(self@));
        r
    }
}

/// Mistakes as text, each on lines of its own.
pub fn tell_all(mistakes: &[Mistake]) -> (r: String)
    ensures
        r@ == all_told(mistake_views(mistakes@)),
{
    let ghost views = mistake_views(mistakes@);
    let mut texts: Vec<String> = Vec::new();
    let mut i: usize = 0;
    while i < mistakes.len()
        invariant
            i <= mistakes.len(),
            texts.len() == i,
            views == mistake_views(mistakes@),
            forall|j: int| 0 <= j < i ==> (#[trigger] texts@[j])@ == told(views[j]),
        decreases mistakes.len() - i,
    {
        texts.push(mistakes[i].tell());
        i += 1;
    }
    assert(strings(texts@) =~= views.map_values(|mistake: MistakeView| told(mistake)));
    join(texts.as_slice(), "\n")
}

// ---------------------------------------------------------------------------
// Laws
// ---------------------------------------------------------------------------

/// What points at a column stands under it, behind a dot for every column before it.
pub proof fn law_a_pointer_stands_under_its_column(column: int)
    requires
        column >= 1,
    ensures
        pointer(column).len() == column,
        pointer(column)[column - 1] == '^',
        forall|i: int| 0 <= i < column - 1 ==> #[trigger] pointer(column)[i] == '.',
{
    reveal_strlit("^");
}

/// The lines of a text are what line feeds part: no line holds one, and a line that a line feed ends
/// loses the carriage return before it.
pub proof fn law_a_line_stands_between_line_feeds(
    before: Seq<char>,
    line: Seq<char>,
    after: Seq<char>,
)
    requires
        lacks(line, '\n'),
    ensures
        ({
            let n = pieces(before, '\n').len() as int;
            let text = before.push('\n') + line;
            &&& line_at(text, n) == if line.len() > 0 {
                Some(line)
            } else {
                None
            }
            &&& line_at(text.push('\n'), n) == Some(without_return(line))
            &&& line_at(text, n + 1) is None
        }),
        lacks(before, '\n') && before.len() > 0 ==> line_at(before, 0) == Some(before),
        without_return(line.push('\r')) == line,
{
    lemma_last_piece(before, line, '\n');
    let text = before.push('\n') + line;
    let none = Seq::<char>::empty();
    lemma_last_piece(text, none, '\n');
    assert(text.push('\n') + none =~= text.push('\n'));
    if lacks(before, '\n') {
        lemma_one_piece(before, '\n');
    }
    assert(line.push('\r').drop_last() =~= line);
}

/// A whole number below zero is told with a minus in front of what it is without it.
pub proof fn law_a_number_is_told_with_its_sign(n: int)
    ensures
        n >= 0 ==> signed(n) == decimal(n as nat),
        n < 0 ==> signed(n).len() > 0 && signed(n)[0] == '-' && signed(n).skip(1) == decimal(
            (0 - n) as nat,
        ),
{
    reveal_strlit("-");
    if n < 0 {
        assert(signed(n).skip(1) =~= decimal((0 - n) as nat));
    }
}

/// Each mistake is told on lines of its own: where it is, what it is, and, where its line is known,
/// the line with what points at it.
pub proof fn law_each_mistake_is_told_where_it_is(
    mistakes: Seq<MistakeView>,
    mistake: MistakeView,
)
    ensures
        mistakes.len() > 0 ==> all_told(mistakes.push(mistake)) == all_told(mistakes) + "\n"@ + told(
            mistake,
        ),
        all_told(seq![mistake]) == told(mistake),
        told(mistake) == "ERROR: <input>:"@ + (signed(mistake.line) + (":"@ + (signed(mistake.column)
            + (": "@ + (mistake.message + excerpt(mistake)))))),
        mistake.source matches Some(source) ==> (line_at(source, mistake.line - 1) matches Some(line)
            ==> excerpt(mistake) == "\n| "@ + (line + ("\n| "@ + pointer(mistake.column)))),
        mistake.source is None ==> excerpt(mistake).len() == 0,
{
    let all = mistakes.push(mistake).map_values(|m: MistakeView| told(m));
    let front = mistakes.map_values(|m: MistakeView| told(m));
    assert(all.drop_last() =~= front);
    assert(all.last() == told(mistake));
    let one = seq![mistake].map_values(|m: MistakeView| told(m));
    assert(one =~= seq![told(mistake)]);
    assert(told(mistake) =~= "ERROR: <input>:"@ + (signed(mistake.line) + (":"@ + (signed(
        mistake.column,
    ) + (": "@ + (mistake.message + excerpt(mistake)))))));
    if let Some(source) = mistake.source {
        if let Some(line) = line_at(source, mistake.line - 1) {
            assert(excerpt(mistake) =~= "\n| "@ + (line + ("\n| "@ + pointer(mistake.column))));
        }
    }
}

} // verus!

//! What a template has to know about the database it is filled in for.

use vstd::prelude::*;

use crate::driver::{MySql, Postgres, Sqlite};
use crate::text::{chars_of, decimal_of, push_char};
#[allow(unused_imports)]
use crate::text::{decimal, lemma_decimal_reads_back, number};
use vstd::string::StringExecFns;

verus! {

/// A database: how it quotes an identifier and how it writes a placeholder.
pub trait Dialect: Sized {
    /// Whether placeholders name the value they stand for.
    spec fn numbers() -> bool;

    /// The mark around a quoted identifier.
    spec fn mark() -> char;

    /// Whether placeholders name the value they stand for.
    fn numbered() -> (b: bool)
        ensures
            b == Self::numbers(),
    ;

    /// The mark around a quoted identifier.
    fn quote() -> (c: char)
        ensures
            c == Self::mark(),
    ;
}

impl Dialect for Postgres {
    open spec fn numbers() -> bool {
        true
    }

    open spec fn mark() -> char {
        '"'
    }

    fn numbered() -> (b: bool) {
        true
    }

    fn quote() -> (c: char) {
        '"'
    }
}

impl Dialect for MySql {
    open spec fn numbers() -> bool {
        false
    }

    open spec fn mark() -> char {
        '`'
    }

    fn numbered() -> (b: bool) {
        false
    }

    fn quote() -> (c: char) {
        '`'
    }
}

impl Dialect for Sqlite {
    open spec fn numbers() -> bool {
        false
    }

    open spec fn mark() -> char {
        '"'
    }

    fn numbered() -> (b: bool) {
        false
    }

    fn quote() -> (c: char) {
        '"'
    }
}

/// The placeholder for the value that is bound as the `n`th.
pub open spec fn placeholder(numbers: bool, n: nat) -> Seq<char> {
    if numbers {
        "$"@ + decimal(n)
    } else {
        "?"@
    }
}

/// Writes the placeholder for the `n`th value.
pub fn write_placeholder(numbers: bool, n: usize) -> (r: String)
    ensures
        r@ == placeholder(numbers, n as nat),
{
    if numbers {
        let mut r = "$".to_owned();
        r.append(decimal_of(n as u128).as_str());
        r
    } else {
        "?".to_owned()
    }
}

/// `name` with every `mark` in it doubled.
pub open spec fn doubled(name: Seq<char>, mark: char) -> Seq<char>
    decreases name.len(),
{
    if name.len() == 0 {
        Seq::empty()
    } else if name.last() == mark {
        doubled(name.drop_last(), mark).push(mark).push(mark)
    } else {
        doubled(name.drop_last(), mark).push(name.last())
    }
}

/// `name` as a quoted identifier.
pub open spec fn quoted(name: Seq<char>, mark: char) -> Seq<char> {
    seq![mark] + doubled(name, mark) + seq![mark]
}

/// Writes `name` as a quoted identifier: a mark inside it is doubled, so that it cannot end
/// the identifier.
pub fn quote_name(name: &str, mark: char) -> (r: String)
    ensures
        r@ == quoted(name@, mark),
{
    let chars = chars_of(name);
    let mut r = String::new();
    push_char(&mut r, mark);
    let mut i: usize = 0;
    assert(r@ =~= seq![mark] + doubled(name@.take(0), mark));
    while i < chars.len()
        invariant
            i <= chars.len(),
            chars@ == name@,
            r@ == seq![mark] + doubled(name@.take(i as int), mark),
        decreases chars.len() - i,
    {
        let ghost now = name@.take(i + 1);
        assert(now.drop_last() =~= name@.take(i as int));
        if chars[i] == mark {
            push_char(&mut r, mark);
        }
        push_char(&mut r, chars[i]);
        assert(r@ =~= seq![mark] + doubled(now, mark));
        i += 1;
    }
    assert(name@.take(i as int) =~= name@);
    push_char(&mut r, mark);
    assert(r@ =~= quoted(name@, mark));
    r
}

// ---------------------------------------------------------------------------
// Laws
// ---------------------------------------------------------------------------

/// The name that a quoted identifier spells, as SQL reads it from behind the opening mark, and
/// what follows the identifier: two marks stand for one, and one alone ends it.
pub open spec fn name_read(s: Seq<char>, mark: char) -> Option<(Seq<char>, Seq<char>)>
    decreases s.len(),
{
    if s.len() == 0 {
        None
    } else if s[0] != mark {
        match name_read(s.skip(1), mark) {
            Some((name, rest)) => Some((seq![s[0]] + name, rest)),
            None => None,
        }
    } else if s.len() > 1 && s[1] == mark {
        match name_read(s.skip(2), mark) {
            Some((name, rest)) => Some((seq![mark] + name, rest)),
            None => None,
        }
    } else {
        Some((Seq::empty(), s.skip(1)))
    }
}

proof fn lemma_doubled_first(name: Seq<char>, mark: char)
    requires
        name.len() > 0,
    ensures
        doubled(name, mark) == (if name[0] == mark {
            seq![mark, mark]
        } else {
            seq![name[0]]
        }) + doubled(name.skip(1), mark),
    decreases name.len(),
{
    let head = if name[0] == mark {
        seq![mark, mark]
    } else {
        seq![name[0]]
    };
    let front = name.drop_last();
    if front.len() == 0 {
        assert(doubled(front, mark) =~= Seq::<char>::empty());
        assert(name.skip(1) =~= Seq::<char>::empty());
        assert(doubled(name, mark) =~= head + doubled(name.skip(1), mark));
    } else {
        lemma_doubled_first(front, mark);
        assert(name.skip(1).drop_last() =~= front.skip(1));
        assert(name.skip(1).last() == name.last());
        assert(doubled(name, mark) =~= head + doubled(name.skip(1), mark));
    }
}

proof fn lemma_name_read(name: Seq<char>, mark: char, rest: Seq<char>)
    requires
        rest.len() > 0 ==> rest[0] != mark,
    ensures
        name_read(doubled(name, mark) + seq![mark] + rest, mark) == Some((name, rest)),
    decreases name.len(),
{
    let s = doubled(name, mark) + seq![mark] + rest;
    if name.len() == 0 {
        assert(s =~= seq![mark] + rest);
        assert(s.skip(1) =~= rest);
        assert(name =~= Seq::<char>::empty());
    } else {
        lemma_doubled_first(name, mark);
        lemma_name_read(name.skip(1), mark, rest);
        let later = doubled(name.skip(1), mark) + seq![mark] + rest;
        if name[0] == mark {
            assert(s =~= seq![mark, mark] + later);
            assert(s.skip(2) =~= later);
            assert(seq![mark] + name.skip(1) =~= name);
        } else {
            assert(s =~= seq![name[0]] + later);
            assert(s.skip(1) =~= later);
            assert(seq![name[0]] + name.skip(1) =~= name);
        }
    }
}

/// A quoted identifier reads back as the name that it was written for, whatever marks the name
/// holds, and ends where it was ended: nothing in a name can leave the quotes.
pub proof fn law_a_quoted_name_reads_back(name: Seq<char>, mark: char, rest: Seq<char>)
    requires
        rest.len() > 0 ==> rest[0] != mark,
    ensures
        (quoted(name, mark) + rest)[0] == mark,
        name_read((quoted(name, mark) + rest).skip(1), mark) == Some((name, rest)),
{
    lemma_name_read(name, mark, rest);
    assert((quoted(name, mark) + rest).skip(1) =~= doubled(name, mark) + seq![mark] + rest);
}

/// PostgreSQL numbers its placeholders and the others do not; MySQL quotes with backticks and the
/// others with double quotes.
pub proof fn law_each_database_has_its_own_marks()
    ensures
        Postgres::numbers() && !MySql::numbers() && !Sqlite::numbers(),
        Postgres::mark() == '"' && MySql::mark() == '`' && Sqlite::mark() == '"',
{
}

/// A numbered placeholder names its value: behind the `$` stands the number under which the value
/// is bound.
pub proof fn law_a_placeholder_names_its_value(n: nat)
    ensures
        placeholder(true, n)[0] == '$',
        number(placeholder(true, n).skip(1)) == n,
        placeholder(false, n) == seq!['?'],
{
    reveal_strlit("$");
    reveal_strlit("?");
    lemma_decimal_reads_back(n);
    assert(placeholder(true, n).skip(1) =~= decimal(n));
    assert(placeholder(false, n) =~= seq!['?']);
}

} // verus!

//! How a dialect's SQL text reads.

use vstd::prelude::*;

use crate::driver::{MySql, Postgres, Sqlite};

verus! {

/// How a placeholder names its value.
#[derive(Debug, Clone, Copy, PartialEq, Eq, Structural)]
pub enum PlaceholderStyle {
    /// `$1`, `$2` and so on.
    Number,
    /// `?`.
    Question,
}

impl PlaceholderStyle {
    /// Whether placeholders carry a number of their own.
    pub fn is_number(self) -> (b: bool)
        ensures
            b == (self == PlaceholderStyle::Number),
    {
        match self {
            PlaceholderStyle::Number => true,
            PlaceholderStyle::Question => false,
        }
    }
}

/// Which stretches of a query's text hold no placeholders, and how each is delimited.
#[derive(Debug, Clone, Copy, PartialEq, Eq, Structural)]
pub struct Quoting {
    /// `$tag$ ... $tag$` bodies are opaque.
    pub dollar: bool,
    /// `/* ... /* ... */ ... */` nests.
    pub nested_block_comments: bool,
    /// `#` starts a line comment.
    pub hash_line_comments: bool,
    /// A backtick quotes an identifier.
    pub backtick_identifiers: bool,
    /// `[ident]` quotes an identifier.
    pub bracket_identifiers: bool,
    /// A backslash escapes inside a quoted run.
    pub backslash_escapes: bool,
}

/// How a dialect's SQL text reads: how it spells a placeholder, and which stretches of text
/// hold none.
#[derive(Debug, Clone, Copy, PartialEq, Eq, Structural)]
pub struct QuerySyntax {
    /// How this dialect spells a placeholder.
    pub placeholder: PlaceholderStyle,
    /// Which stretches of its text hold no placeholders.
    pub quoting: Quoting,
}

/// How to read text whose dialect is not known: by the rules of the SQL standard, which
/// every dialect here extends.
pub open spec fn standard_syntax() -> QuerySyntax {
    QuerySyntax {
        placeholder: PlaceholderStyle::Number,
        quoting: Quoting {
            dollar: false,
            nested_block_comments: false,
            hash_line_comments: false,
            backtick_identifiers: false,
            bracket_identifiers: false,
            backslash_escapes: false,
        },
    }
}

impl QuerySyntax {
    /// How to read text whose dialect is not known.
    pub fn standard() -> (r: QuerySyntax)
        ensures
            r == standard_syntax(),
    {
        QuerySyntax {
            placeholder: PlaceholderStyle::Number,
            quoting: Quoting {
                dollar: false,
                nested_block_comments: false,
                hash_line_comments: false,
                backtick_identifiers: false,
                bracket_identifiers: false,
                backslash_escapes: false,
            },
        }
    }
}

/// Names the driver and hands back the syntax that its SQL is read with.
pub trait QueryDialect: Sized {
    /// Everything that has to be known about the dialect's text.
    spec fn rules() -> QuerySyntax;

    /// Everything that has to be known about the dialect's text.
    fn syntax() -> (r: QuerySyntax)
        ensures
            r == Self::rules(),
    ;
}

impl QueryDialect for Postgres {
    open spec fn rules() -> QuerySyntax {
        QuerySyntax {
            placeholder: PlaceholderStyle::Number,
            quoting: Quoting {
                dollar: true,
                nested_block_comments: true,
                hash_line_comments: false,
                backtick_identifiers: false,
                bracket_identifiers: false,
                backslash_escapes: false,
            },
        }
    }

    fn syntax() -> (r: QuerySyntax) {
        QuerySyntax {
            placeholder: PlaceholderStyle::Number,
            quoting: Quoting {
                dollar: true,
                nested_block_comments: true,
                hash_line_comments: false,
                backtick_identifiers: false,
                bracket_identifiers: false,
                backslash_escapes: false,
            },
        }
    }
}

impl QueryDialect for MySql {
    open spec fn rules() -> QuerySyntax {
        QuerySyntax {
            placeholder: PlaceholderStyle::Question,
            quoting: Quoting {
                dollar: false,
                nested_block_comments: false,
                hash_line_comments: true,
                backtick_identifiers: true,
                bracket_identifiers: false,
                backslash_escapes: true,
            },
        }
    }

    fn syntax() -> (r: QuerySyntax) {
        QuerySyntax {
            placeholder: PlaceholderStyle::Question,
            quoting: Quoting {
                dollar: false,
                nested_block_comments: false,
                hash_line_comments: true,
                backtick_identifiers: true,
                bracket_identifiers: false,
                backslash_escapes: true,
            },
        }
    }
}

impl QueryDialect for Sqlite {
    open spec fn rules() -> QuerySyntax {
        QuerySyntax {
            placeholder: PlaceholderStyle::Question,
            quoting: Quoting {
                dollar: false,
                nested_block_comments: false,
                hash_line_comments: false,
                backtick_identifiers: true,
                bracket_identifiers: true,
                backslash_escapes: false,
            },
        }
    }

    fn syntax() -> (r: QuerySyntax) {
        QuerySyntax {
            placeholder: PlaceholderStyle::Question,
            quoting: Quoting {
                dollar: false,
                nested_block_comments: false,
                hash_line_comments: false,
                backtick_identifiers: true,
                bracket_identifiers: true,
                backslash_escapes: false,
            },
        }
    }
}

// ---------------------------------------------------------------------------
// Laws
// ---------------------------------------------------------------------------

/// What a dialect quotes: dollar-quoted bodies, comments inside comments, line comments behind a
/// `#`, identifiers in backticks or in brackets, and what a backslash escapes.
pub open spec fn quotes(syntax: QuerySyntax) -> (bool, bool, bool, bool, bool, bool) {
    let q = syntax.quoting;
    (
        q.dollar,
        q.nested_block_comments,
        q.hash_line_comments,
        q.backtick_identifiers,
        q.bracket_identifiers,
        q.backslash_escapes,
    )
}

/// PostgreSQL numbers its placeholders, quotes bodies with dollars and nests comments; MySQL and
/// SQLite do none of that. MySQL alone escapes with a backslash and comments behind a `#`, and
/// SQLite alone quotes with brackets; both quote with backticks. What is read without a dialect is
/// numbered and quotes nothing but what every dialect quotes.
pub proof fn law_each_dialect_reads_its_own_text()
    ensures
        Postgres::rules().placeholder == PlaceholderStyle::Number,
        MySql::rules().placeholder == PlaceholderStyle::Question,
        Sqlite::rules().placeholder == PlaceholderStyle::Question,
        quotes(Postgres::rules()) == (true, true, false, false, false, false),
        quotes(MySql::rules()) == (false, false, true, true, false, true),
        quotes(Sqlite::rules()) == (false, false, false, true, true, false),
        standard_syntax().placeholder == PlaceholderStyle::Number,
        quotes(standard_syntax()) == (false, false, false, false, false, false),
{
}

} // verus!

//! A `WHERE` clause and the values that it binds.

use vstd::prelude::*;
use vstd::string::StringExecFns;

use crate::composer::lexer::QueryLexer;
#[allow(unused_imports)]
use crate::composer::lexer::{max_number, number_of, shifted, tokens_of, TokenView};
#[allow(unused_imports)]
use crate::composer::shift::{
    carried, lemma_carried_is_raised, lemma_enclosed_tokens, lemma_plain_run, plain,
    raised_token, raised_tokens, settled, stops,
};
#[allow(unused_imports)]
use crate::composer::syntax::standard_syntax;
use crate::composer::value::{copy_values, Value};
#[allow(unused_imports)]
use crate::composer::value::{value_views, ValueView};
use crate::text::copy_of;

verus! {

/// A clause, as contracts speak of it.
#[verifier::ext_equal]
pub struct ClauseView {
    pub sql: Seq<char>,
    pub values: Seq<ValueView>,
}

/// A contribution to a `WHERE`: SQL text, with no connective around it, and the values that
/// its placeholders reference, numbered as if it were the only thing in the query.
#[derive(Debug, PartialEq, Eq)]
pub struct WhereClause {
    sql: String,
    values: Vec<Value>,
}

impl View for WhereClause {
    type V = ClauseView;

    closed spec fn view(&self) -> ClauseView {
        ClauseView { sql: self.sql@, values: value_views(self.values@) }
    }
}

impl Clone for WhereClause {
    fn clone(&self) -> (r: WhereClause)
        ensures
            r@ == self@,
    {
        WhereClause { sql: self.sql.clone(), values: copy_values(self.values.as_slice()) }
    }
}

impl Default for WhereClause {
    fn default() -> (r: WhereClause)
        ensures
            r@ == (ClauseView { sql: Seq::empty(), values: Seq::empty() }),
    {
        let r = WhereClause { sql: String::new(), values: Vec::new() };
        assert(r@ =~= (ClauseView { sql: Seq::empty(), values: Seq::empty() }));
        r
    }
}

/// A clause with its placeholders shifted past those that exist ahead of it.
pub open spec fn moved(clause: ClauseView, offset: nat) -> ClauseView {
    ClauseView { sql: shifted(clause.sql, standard_syntax().quoting, offset), ..clause }
}

/// Two clauses with a connective between them. Both are parenthesised, and the placeholders
/// of the second stand behind those of the first.
pub open spec fn combined(a: ClauseView, connective: Seq<char>, b: ClauseView) -> ClauseView {
    let offset = max_number(a.sql, standard_syntax().quoting);
    ClauseView {
        sql: "("@ + a.sql + ") "@ + connective + " ("@ + moved(b, offset).sql + ")"@,
        values: a.values + b.values,
    }
}

/// Appends values.
pub fn append_values(into: &mut Vec<Value>, more: Vec<Value>)
    ensures
        value_views(final(into)@) == value_views(old(into)@) + value_views(more@),
{
    let mut more = more;
    let ghost before = value_views(into@);
    let ghost added = value_views(more@);
    into.append(&mut more);
    assert(value_views(into@) =~= before + added);
}

impl WhereClause {
    /// A clause with no bind values.
    pub fn new(sql: &str) -> (r: WhereClause)
        ensures
            r@ == (ClauseView { sql: sql@, values: Seq::empty() }),
    {
        let r = WhereClause { sql: copy_of(sql), values: Vec::new() };
        assert(r@ =~= (ClauseView { sql: sql@, values: Seq::empty() }));
        r
    }

    /// A clause with the values that its placeholders reference.
    pub fn with_values(sql: String, values: Vec<Value>) -> (r: WhereClause)
        ensures
            r@ == (ClauseView { sql: sql@, values: value_views(values@) }),
    {
        WhereClause { sql, values }
    }

    /// A value for one of this clause's own placeholders, in the order of their numbers.
    pub fn bind_value(self, value: Value) -> (r: WhereClause)
        ensures
            r@ == (ClauseView { values: self@.values.push(value@), ..self@ }),
    {
        let ghost before = self@;
        let mut values = self.values;
        values.push(value);
        let r = WhereClause { sql: self.sql, values };
        assert(r@ =~= (ClauseView { values: before.values.push(value@), ..before }));
        r
    }

    /// The same as `bind_value`.
    pub fn bind(self, value: Value) -> (r: WhereClause)
        ensures
            r@ == (ClauseView { values: self@.values.push(value@), ..self@ }),
    {
        self.bind_value(value)
    }

    /// The values that the placeholders reference.
    pub fn values(&self) -> (r: &[Value])
        ensures
            value_views(r@) == self@.values,
    {
        self.values.as_slice()
    }

    /// The SQL text.
    pub fn sql(&self) -> (r: &str)
        ensures
            r@ == self@.sql,
    {
        self.sql.as_str()
    }

    /// Whether there is no condition.
    pub fn is_empty(&self) -> (b: bool)
        ensures
            b == (self@.sql.len() == 0),
    {
        self.sql.as_str().is_empty()
    }

    /// Combines two clauses with `AND`, so that neither replaces the other.
    pub fn and(self, other: WhereClause) -> (r: WhereClause)
        ensures
            r@ == combined(self@, "AND"@, other@),
    {
        self.combine(other, "AND")
    }

    /// Combines two clauses with `OR`.
    pub fn or(self, other: WhereClause) -> (r: WhereClause)
        ensures
            r@ == combined(self@, "OR"@, other@),
    {
        self.combine(other, "OR")
    }

    fn combine(self, other: WhereClause, connective: &str) -> (r: WhereClause)
        ensures
            r@ == combined(self@, connective@, other@),
    {
        let lexer = QueryLexer::standard();
        let offset = lexer.max_placeholder_number(self.sql.as_str());
        let other_sql = lexer.shift_placeholder_numbers(other.sql.as_str(), offset);
        let mut sql = copy_of("(");
        sql.append(self.sql.as_str());
        sql.append(") ");
        sql.append(connective);
        sql.append(" (");
        sql.append(other_sql.as_str());
        sql.append(")");
        let mut values = self.values;
        append_values(&mut values, other.values);
        WhereClause { sql, values }
    }

    /// Shifts this clause's placeholders past those that already exist ahead of it.
    pub fn shift(self, offset: usize) -> (r: WhereClause)
        ensures
            r@ == moved(self@, offset as nat),
    {
        let sql = QueryLexer::standard().shift_placeholder_numbers(self.sql.as_str(), offset);
        WhereClause { sql, values: self.values }
    }
}

// ---------------------------------------------------------------------------
// Laws
// ---------------------------------------------------------------------------

/// Combining keeps every value of both clauses, those of the first in front, whatever the
/// connective.
pub proof fn law_combining_keeps_every_value(
    a: ClauseView,
    connective: Seq<char>,
    b: ClauseView,
)
    ensures
        combined(a, connective, b).values == a.values + b.values,
        combined(a, connective, b).values.len() == a.values.len() + b.values.len(),
{
}

/// Shifting moves placeholders and never values.
pub proof fn law_shifting_keeps_the_values(clause: ClauseView, offset: nat)
    ensures
        moved(clause, offset).values == clause.values,
        moved(clause, 0) == clause,
{
    assert(moved(clause, 0) =~= clause);
}

/// The texts of two combined clauses, one behind the other.
proof fn lemma_combined_tokens(a: ClauseView, connective: Seq<char>, b: ClauseView)
    requires
        connective == "AND"@ || connective == "OR"@,
        settled(a.sql, standard_syntax().quoting),
        settled(b.sql, standard_syntax().quoting),
        max_number(a.sql, standard_syntax().quoting) + max_number(
            b.sql,
            standard_syntax().quoting,
        ) <= usize::MAX,
    ensures
        ({
            let q = standard_syntax().quoting;
            let offset = max_number(a.sql, q);
            let start = 5 + a.sql.len() + connective.len();
            tokens_of(combined(a, connective, b).sql, q) == carried(a.sql, q, 0, 0, 1) + carried(
                b.sql,
                q,
                offset,
                0,
                start as int,
            )
        }),
{
    let q = standard_syntax().quoting;
    let offset = max_number(a.sql, q);
    let w = combined(a, connective, b).sql;
    let second = shifted(b.sql, q, offset);
    let lead = "("@;
    let between = ") "@ + connective + " ("@;
    let close = ")"@;
    lemma_connectives(connective);
    let tail = between + second + close;
    assert(w.subrange(0, w.len() as int) =~= lead + shifted(a.sql, q, 0) + tail);
    lemma_enclosed_tokens(w, q, 0, lead, a.sql, 0, tail);
    let p = w.len() - tail.len();
    assert(w.subrange(p, w.len() as int) =~= between + second + close);
    lemma_enclosed_tokens(w, q, p, between, b.sql, offset, close);
    assert(w[w.len() - 1] == close[0]);
    lemma_plain_run(w, q, w.len() - 1, w.len() as int);
    let first = carried(a.sql, q, 0, 0, 1);
    let rest = carried(b.sql, q, offset, 0, p + between.len());
    assert(rest + Seq::<TokenView>::empty() =~= rest);
}

/// Nothing begins in what stands around two combined clauses.
proof fn lemma_connectives(connective: Seq<char>)
    requires
        connective == "AND"@ || connective == "OR"@,
    ensures
        ({
            let between = ") "@ + connective + " ("@;
            &&& "("@.len() == 1
            &&& ")"@.len() == 1
            &&& between.len() == 4 + connective.len()
            &&& forall|i: int| 0 <= i < "("@.len() ==> plain(#[trigger] "("@[i])
            &&& forall|i: int| 0 <= i < between.len() ==> plain(#[trigger] between[i])
            &&& stops(between[0])
            &&& plain(")"@[0])
            &&& stops(")"@[0])
        }),
{
    reveal_strlit("(");
    reveal_strlit(") ");
    reveal_strlit(" (");
    reveal_strlit(")");
    reveal_strlit("AND");
    reveal_strlit("OR");
}

/// Combining keeps every placeholder of both clauses, in order: those of the first keep their
/// numbers, and those of the second stand behind them. Left out are clauses whose literals or
/// comments run on past their end, and numbers that no machine word holds.
pub proof fn law_combining_keeps_every_placeholder(
    a: ClauseView,
    connective: Seq<char>,
    b: ClauseView,
)
    requires
        connective == "AND"@ || connective == "OR"@,
        settled(a.sql, standard_syntax().quoting),
        settled(b.sql, standard_syntax().quoting),
        max_number(a.sql, standard_syntax().quoting) + max_number(
            b.sql,
            standard_syntax().quoting,
        ) <= usize::MAX,
    ensures
        ({
            let q = standard_syntax().quoting;
            let own = tokens_of(a.sql, q);
            let all = tokens_of(combined(a, connective, b).sql, q);
            &&& own.len() <= all.len()
            &&& raised_tokens(own, all.take(own.len() as int), 0)
            &&& raised_tokens(
                tokens_of(b.sql, q),
                all.skip(own.len() as int),
                max_number(a.sql, q),
            )
        }),
{
    let q = standard_syntax().quoting;
    let offset = max_number(a.sql, q);
    let start = 5 + a.sql.len() + connective.len();
    lemma_combined_tokens(a, connective, b);
    lemma_carried_is_raised(a.sql, q, 0, 0, 1);
    lemma_carried_is_raised(b.sql, q, offset, 0, start as int);
    let first = carried(a.sql, q, 0, 0, 1);
    let rest = carried(b.sql, q, offset, 0, start as int);
    let all = first + rest;
    assert(all.take(first.len() as int) =~= first);
    assert(all.skip(first.len() as int) =~= rest);
}

/// Every placeholder of two combined clauses names the value that it named in its own
/// clause, where the first clause numbers all its values.
pub proof fn law_combining_keeps_each_number_on_its_value(
    a: ClauseView,
    connective: Seq<char>,
    b: ClauseView,
    i: int,
    n: nat,
)
    requires
        connective == "AND"@ || connective == "OR"@,
        settled(a.sql, standard_syntax().quoting),
        settled(b.sql, standard_syntax().quoting),
        max_number(a.sql, standard_syntax().quoting) == a.values.len(),
        a.values.len() + max_number(b.sql, standard_syntax().quoting) <= usize::MAX,
    ensures
        ({
            let q = standard_syntax().quoting;
            let own = tokens_of(a.sql, q);
            let other = tokens_of(b.sql, q);
            let all = tokens_of(combined(a, connective, b).sql, q);
            let values = combined(a, connective, b).values;
            &&& 0 <= i < own.len() && number_of(own[i]) == Some(n) && 1 <= n <= a.values.len()
                ==> number_of(all[i]) == Some(n) && values[n - 1] == a.values[n - 1]
            &&& 0 <= i < other.len() && number_of(other[i]) == Some(n) && 1 <= n
                <= b.values.len() ==> number_of(all[own.len() + i]) == Some(n + a.values.len())
                && values[n + a.values.len() - 1] == b.values[n - 1]
        }),
{
    let q = standard_syntax().quoting;
    let own = tokens_of(a.sql, q);
    let other = tokens_of(b.sql, q);
    let all = tokens_of(combined(a, connective, b).sql, q);
    law_combining_keeps_every_placeholder(a, connective, b);
    let first = all.take(own.len() as int);
    let rest = all.skip(own.len() as int);
    if 0 <= i < own.len() {
        assert(raised_token(own[i], first[i], 0));
        assert(first[i] == all[i]);
    }
    if 0 <= i < other.len() {
        assert(raised_token(other[i], rest[i], a.values.len()));
        assert(rest[i] == all[own.len() + i]);
    }
}

} // verus!

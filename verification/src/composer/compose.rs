//! Splicing clauses into the slots of a base query.

use std::marker::PhantomData;

use vstd::prelude::*;
use vstd::slice::slice_subrange;
use vstd::string::StringExecFns;

use crate::composer::clause::WhereClause;
#[allow(unused_imports)]
use crate::composer::clause::{combined, moved, ClauseView};
use crate::composer::cursor::Cursor;
#[allow(unused_imports)]
use crate::composer::cursor::{boundary, complete, orders, PlaceView};
use crate::composer::error::{Error, QueryComposerError};
#[allow(unused_imports)]
use crate::composer::error::Fault;
#[allow(unused_imports)]
use crate::composer::grouping::{closed, enclosed, law_an_enclosed_condition_holds_together, splits};
use crate::composer::lexer::{Placeholder, QueryLexer, Token};
#[allow(unused_imports)]
use crate::composer::lexer::{
    end_of, in_order, lemma_shifted_nonempty, max_number, number_of, start_of, token_views,
    tokens_of, values_called_for, TokenView,
};
use crate::composer::order::OrderByClause;
#[allow(unused_imports)]
use crate::composer::order::{order_text, KeyView};
use crate::composer::syntax::{QueryDialect, QuerySyntax};
#[allow(unused_imports)]
use crate::composer::syntax::{standard_syntax, PlaceholderStyle, Quoting};
use crate::composer::value::{copy_values, Value};
#[allow(unused_imports)]
use crate::composer::value::{value_views, ValueView};
use crate::text::{chars_of, copy_of, decimal_of, same, string_of};
#[allow(unused_imports)]
use crate::text::decimal;

verus! {

// ---------------------------------------------------------------------------
// Arguments and statements
// ---------------------------------------------------------------------------

/// What a placeholder is bound to: a value, or something that only the driver can encode,
/// which the caller holds under a handle.
#[derive(Debug, PartialEq, Eq)]
pub enum QueryArgument {
    Value(Value),
    Opaque(u64),
}

/// An argument, as contracts speak of it.
pub enum ArgumentView {
    Value(ValueView),
    Opaque(u64),
}

impl View for QueryArgument {
    type V = ArgumentView;

    open spec fn view(&self) -> ArgumentView {
        match self {
            QueryArgument::Value(value) => ArgumentView::Value(value@),
            QueryArgument::Opaque(handle) => ArgumentView::Opaque(*handle),
        }
    }
}

impl Clone for QueryArgument {
    fn clone(&self) -> (r: QueryArgument)
        ensures
            r@ == self@,
    {
        match self {
            QueryArgument::Value(value) => QueryArgument::Value(value.clone()),
            QueryArgument::Opaque(handle) => QueryArgument::Opaque(*handle),
        }
    }
}

impl QueryArgument {
    /// The value, where this is one.
    pub fn value(&self) -> (r: Option<&Value>)
        ensures
            match (r, self@) {
                (Some(value), ArgumentView::Value(held)) => value@ == held,
                (None, ArgumentView::Opaque(_)) => true,
                _ => false,
            },
    {
        match self {
            QueryArgument::Value(value) => Some(value),
            QueryArgument::Opaque(_) => None,
        }
    }
}

/// What a list of arguments holds.
pub open spec fn argument_views(arguments: Seq<QueryArgument>) -> Seq<ArgumentView> {
    arguments.map_values(|argument: QueryArgument| argument@)
}

/// Values as arguments.
pub open spec fn as_arguments(values: Seq<ValueView>) -> Seq<ArgumentView> {
    values.map_values(|value: ValueView| bound(value))
}

/// A value as an argument.
pub open spec fn bound(value: ValueView) -> ArgumentView {
    ArgumentView::Value(value)
}

/// A statement, as contracts speak of it.
#[verifier::ext_equal]
pub struct StatementView {
    pub sql: Seq<char>,
    pub arguments: Seq<ArgumentView>,
}

/// A complete statement: SQL text with every slot spliced, and the arguments in the order
/// that its placeholders reference them.
#[derive(Debug, PartialEq, Eq)]
pub struct QueryStatement {
    sql: String,
    arguments: Vec<QueryArgument>,
}

impl View for QueryStatement {
    type V = StatementView;

    closed spec fn view(&self) -> StatementView {
        StatementView { sql: self.sql@, arguments: argument_views(self.arguments@) }
    }
}

impl Clone for QueryStatement {
    fn clone(&self) -> (r: QueryStatement)
        ensures
            r@ == self@,
    {
        let mut arguments: Vec<QueryArgument> = Vec::new();
        let mut i: usize = 0;
        while i < self.arguments.len()
            invariant
                i <= self.arguments.len(),
                arguments.len() == i,
                forall|j: int| 0 <= j < i ==> (#[trigger] arguments@[j])@ == self.arguments@[j]@,
            decreases self.arguments.len() - i,
        {
            arguments.push(self.arguments[i].clone());
            i += 1;
        }
        assert(argument_views(arguments@) =~= argument_views(self.arguments@));
        QueryStatement { sql: copy_of(self.sql.as_str()), arguments }
    }
}

impl QueryStatement {
    /// The SQL text.
    pub fn sql(&self) -> (r: &str)
        ensures
            r@ == self@.sql,
    {
        self.sql.as_str()
    }

    /// The arguments.
    pub fn arguments(&self) -> (r: &[QueryArgument])
        ensures
            argument_views(r@) == self@.arguments,
    {
        self.arguments.as_slice()
    }
}

// ---------------------------------------------------------------------------
// What composing means
// ---------------------------------------------------------------------------

/// Everything that was handed to a composer.
#[verifier::ext_equal]
pub struct ComposerView {
    pub sql: Seq<char>,
    pub arguments: Seq<ArgumentView>,
    pub wheres: Seq<ClauseView>,
    pub orders: Seq<Seq<KeyView>>,
    pub cursor: Option<Seq<PlaceView>>,
}

/// The cursor, where there is one, has all its values.
pub open spec fn positioned(c: ComposerView) -> bool {
    match c.cursor {
        Some(keys) => complete(keys),
        None => true,
    }
}

/// The keys of the first `n` orderings, as tie-breakers in order.
pub open spec fn tied(orders: Seq<Seq<KeyView>>, n: nat) -> Seq<KeyView>
    decreases n,
{
    if n == 0 {
        Seq::empty()
    } else {
        tied(orders, (n - 1) as nat) + orders[n - 1]
    }
}

/// The ordering that was asked for.
pub open spec fn asked_order(c: ComposerView) -> Seq<KeyView> {
    tied(c.orders, c.orders.len())
}

/// A cursor that was cut for another ordering than the one that is asked for. One without keys
/// stands for the first page, under any ordering.
pub open spec fn disagrees(c: ComposerView) -> bool {
    c.orders.len() > 0 && match c.cursor {
        Some(keys) => keys.len() > 0 && orders(keys) != asked_order(c),
        None => false,
    }
}

/// The ordering of a query: the one that was asked for, or else the cursor's.
pub open spec fn order_of(c: ComposerView) -> Seq<KeyView> {
    if c.orders.len() > 0 {
        asked_order(c)
    } else {
        match c.cursor {
            Some(keys) => orders(keys),
            None => Seq::empty(),
        }
    }
}

/// Every condition: those that were pushed, and then the cursor's.
pub open spec fn conditions(c: ComposerView) -> Seq<ClauseView> {
    match c.cursor {
        Some(keys) => c.wheres.push(boundary(keys)),
        None => c.wheres,
    }
}

/// The first `n` conditions together. Empty ones are dropped.
pub open spec fn all_of(clauses: Seq<ClauseView>, n: nat) -> Option<ClauseView>
    decreases n,
{
    if n == 0 {
        None
    } else {
        with(all_of(clauses, (n - 1) as nat), clauses[n - 1])
    }
}

/// A condition and one more.
pub open spec fn with(held: Option<ClauseView>, clause: ClauseView) -> Option<ClauseView> {
    if clause.sql.len() == 0 {
        held
    } else {
        match held {
            Some(held) => Some(combined(held, "AND"@, clause)),
            None => Some(clause),
        }
    }
}

/// How many of the first `n` conditions are not empty.
pub open spec fn kept(clauses: Seq<ClauseView>, n: nat) -> nat
    decreases n,
{
    if n == 0 {
        0
    } else if clauses[n - 1].sql.len() == 0 {
        kept(clauses, (n - 1) as nat)
    } else {
        kept(clauses, (n - 1) as nat) + 1
    }
}

/// The condition of a query is a single one, and was pushed. Where there are several, each is
/// in parentheses already.
pub open spec fn stands_alone(c: ComposerView) -> bool {
    &&& kept(conditions(c), conditions(c).len()) == 1
    &&& match c.cursor {
        Some(keys) => keys.len() == 0,
        None => true,
    }
}

/// A clause that can stand beside an `AND`.
pub open spec fn held_together(clause: ClauseView, q: Quoting) -> ClauseView {
    ClauseView { sql: enclosed(clause.sql, q), ..clause }
}

/// The condition of a query, its placeholders behind those of the base query. One that was
/// pushed alone is enclosed where it has an `OR` of its own, so that the base query's own
/// condition applies to all of it.
pub open spec fn condition_of(c: ComposerView, offset: nat, q: Quoting) -> ClauseView {
    match all_of(conditions(c), conditions(c).len()) {
        Some(clause) => moved(
            if stands_alone(c) {
                held_together(clause, q)
            } else {
                clause
            },
            offset,
        ),
        None => ClauseView { sql: Seq::empty(), values: Seq::empty() },
    }
}

/// What goes into a slot of some name.
pub open spec fn fragment_for(
    name: Seq<char>,
    where_sql: Seq<char>,
    order_sql: Seq<char>,
) -> Seq<char> {
    if name == "where"@ {
        where_sql
    } else if name == "order_by"@ {
        order_sql
    } else {
        Seq::empty()
    }
}

/// A fragment with the suffix of its slot. Both go where there is no fragment.
pub open spec fn filled(fragment: Seq<char>, suffix: Seq<char>) -> Seq<char> {
    if fragment.len() > 0 {
        fragment + suffix
    } else {
        Seq::empty()
    }
}

/// The text from `last` on with the tokens from the `i`th on replaced, behind what was
/// written. A bare `?` gets a number where it is a placeholder.
pub open spec fn spliced_from(
    s: Seq<char>,
    tokens: Seq<TokenView>,
    style: PlaceholderStyle,
    where_sql: Seq<char>,
    order_sql: Seq<char>,
    i: int,
    last: int,
    seen: nat,
    out: Seq<char>,
) -> Seq<char>
    decreases tokens.len() - i,
{
    if !(0 <= i < tokens.len()) {
        out + s.subrange(last, s.len() as int)
    } else {
        match tokens[i] {
            TokenView::Slot { start, end, name, suffix } => spliced_from(
                s,
                tokens,
                style,
                where_sql,
                order_sql,
                i + 1,
                end,
                seen,
                out + s.subrange(last, start) + filled(
                    fragment_for(name, where_sql, order_sql),
                    suffix,
                ),
            ),
            TokenView::Question { start, end } if style == PlaceholderStyle::Question => {
                spliced_from(
                    s,
                    tokens,
                    style,
                    where_sql,
                    order_sql,
                    i + 1,
                    end,
                    seen + 1,
                    out + s.subrange(last, start) + "$"@ + decimal(seen + 1),
                )
            },
            _ => spliced_from(
                s,
                tokens,
                style,
                where_sql,
                order_sql,
                i + 1,
                last,
                seen,
                out,
            ),
        }
    }
}

/// A base query with its slots spliced, every placeholder numbered.
pub open spec fn spliced(
    s: Seq<char>,
    syntax: QuerySyntax,
    where_sql: Seq<char>,
    order_sql: Seq<char>,
) -> Seq<char> {
    spliced_from(
        s,
        tokens_of(s, syntax.quoting),
        syntax.placeholder,
        where_sql,
        order_sql,
        0,
        0,
        0,
        Seq::empty(),
    )
}

/// A token that is a slot of this name.
pub open spec fn slot_named(token: TokenView, slot: Seq<char>) -> bool {
    match token {
        TokenView::Slot { name, .. } => name == slot,
        _ => false,
    }
}

/// There is a slot of this name.
pub open spec fn has_slot(tokens: Seq<TokenView>, slot: Seq<char>) -> bool {
    exists|i: int| 0 <= i < tokens.len() && slot_named(#[trigger] tokens[i], slot)
}

/// The text from `last` on with the numbered placeholders from the `i`th token on written as
/// `?`, each with the argument that its number names.
pub open spec fn unnumbered_from(
    s: Seq<char>,
    tokens: Seq<TokenView>,
    arguments: Seq<ArgumentView>,
    i: int,
    last: int,
    out: Seq<char>,
    picked: Seq<ArgumentView>,
) -> Result<StatementView, Fault>
    decreases tokens.len() - i,
{
    if !(0 <= i < tokens.len()) {
        Ok(StatementView { sql: out + s.subrange(last, s.len() as int), arguments: picked })
    } else {
        match tokens[i] {
            TokenView::Number { start, end, number } => if 1 <= number <= arguments.len() {
                unnumbered_from(
                    s,
                    tokens,
                    arguments,
                    i + 1,
                    end,
                    out + s.subrange(last, start) + "?"@,
                    picked.push(arguments[number - 1]),
                )
            } else {
                Err(Fault::BindMismatch { placeholders: number, arguments: arguments.len() })
            },
            _ => unnumbered_from(s, tokens, arguments, i + 1, last, out, picked),
        }
    }
}

/// A numbered statement in the spelling of a dialect: as it is, or with a `?` for every
/// reference and the arguments in textual order.
pub open spec fn spelled(sql: Seq<char>, arguments: Seq<ArgumentView>, syntax: QuerySyntax) -> Result<
    StatementView,
    Fault,
> {
    if syntax.placeholder == PlaceholderStyle::Number {
        Ok(StatementView { sql, arguments })
    } else {
        unnumbered_from(
            sql,
            tokens_of(sql, syntax.quoting),
            arguments,
            0,
            0,
            Seq::empty(),
            Seq::empty(),
        )
    }
}

/// The arguments of a numbered statement: those of the base query, and then those of the
/// condition.
pub open spec fn all_arguments(c: ComposerView, clause: ClauseView) -> Seq<ArgumentView> {
    c.arguments + as_arguments(clause.values)
}

/// The statement once the fragments are known.
pub open spec fn assembled(
    c: ComposerView,
    syntax: QuerySyntax,
    clause: ClauseView,
    order_sql: Seq<char>,
) -> Result<StatementView, Fault> {
    let tokens = tokens_of(c.sql, syntax.quoting);
    let sql = spliced(c.sql, syntax, clause.sql, order_sql);
    let arguments = all_arguments(c, clause);
    let required = max_number(sql, syntax.quoting);
    if clause.sql.len() > 0 && !has_slot(tokens, "where"@) {
        Err(Fault::MissingSlot { name: "where"@ })
    } else if order_sql.len() > 0 && c.orders.len() > 0 && !has_slot(tokens, "order_by"@) {
        Err(Fault::MissingSlot { name: "order_by"@ })
    } else if required != arguments.len() {
        Err(Fault::BindMismatch { placeholders: required, arguments: arguments.len() })
    } else {
        spelled(sql, arguments, syntax)
    }
}

/// The statement that a composer was told to build, or why there is none.
pub open spec fn composed(c: ComposerView, syntax: QuerySyntax) -> Result<StatementView, Fault> {
    match values_called_for(tokens_of(c.sql, syntax.quoting), syntax.placeholder) {
        Err(number) => Err(Fault::UnsupportedPlaceholder { number }),
        Ok(required) => if required != c.arguments.len() {
            Err(Fault::BindMismatch { placeholders: required, arguments: c.arguments.len() })
        } else if disagrees(c) {
            Err(Fault::CursorMismatch)
        } else {
            assembled(
                c,
                syntax,
                condition_of(c, required, syntax.quoting),
                order_text(order_of(c)),
            )
        },
    }
}

// ---------------------------------------------------------------------------
// Composing
// ---------------------------------------------------------------------------

/// What clauses hold.
pub open spec fn clause_views(clauses: Seq<WhereClause>) -> Seq<ClauseView> {
    clauses.map_values(|clause: WhereClause| clause@)
}

/// What orderings hold.
pub open spec fn order_views(orders: Seq<OrderByClause>) -> Seq<Seq<KeyView>> {
    orders.map_values(|order: OrderByClause| order@)
}

/// What a cursor that may be missing holds.
pub open spec fn cursor_seen(cursor: Option<Cursor>) -> Option<Seq<PlaceView>> {
    match cursor {
        Some(cursor) => Some(cursor@),
        None => None,
    }
}

/// Splices conditions and orderings into the `/* query.<name> */` slots of a base query. The
/// base query is only scanned for its own slots and placeholders.
pub struct QueryComposer<DB> {
    sql: String,
    arguments: Vec<QueryArgument>,
    wheres: Vec<WhereClause>,
    orders: Vec<OrderByClause>,
    cursor: Option<Cursor>,
    dialect: PhantomData<DB>,
}

impl<DB> View for QueryComposer<DB> {
    type V = ComposerView;

    closed spec fn view(&self) -> ComposerView {
        ComposerView {
            sql: self.sql@,
            arguments: argument_views(self.arguments@),
            wheres: clause_views(self.wheres@),
            orders: order_views(self.orders@),
            cursor: cursor_seen(self.cursor),
        }
    }
}

/// Appends what stands between two positions.
fn append_span(out: &mut String, s: &[char], from: usize, to: usize)
    requires
        from <= to <= s@.len(),
    ensures
        final(out)@ == old(out)@ + s@.subrange(from as int, to as int),
{
    out.append(string_of(slice_subrange(s, from, to)).as_str());
}

/// A condition and one more.
fn join_clause(held: Option<WhereClause>, clause: WhereClause) -> (r: Option<WhereClause>)
    ensures
        seen_clause(r) == with(seen_clause(held), clause@),
{
    if clause.is_empty() {
        return held;
    }
    match held {
        Some(held) => Some(held.and(clause)),
        None => Some(clause),
    }
}

/// Encloses a condition that has an `OR` of its own.
fn enclose(clause: WhereClause, syntax: QuerySyntax) -> (r: WhereClause)
    ensures
        r@ == held_together(clause@, syntax.quoting),
{
    let s = chars_of(clause.sql());
    if !QueryLexer::new(syntax).has_top_level_or(s.as_slice()) {
        assert(held_together(clause@, syntax.quoting) =~= clause@);
        return clause;
    }
    let mut sql = copy_of("(");
    sql.append(clause.sql());
    sql.append(")");
    WhereClause::with_values(sql, copy_values(clause.values()))
}

/// A cursor without keys has no condition.
proof fn lemma_no_boundary(keys: Seq<PlaceView>)
    requires
        keys.len() == 0,
    ensures
        boundary(keys).sql.len() == 0,
{
}

/// A clause that may be missing.
pub open spec fn seen_clause(clause: Option<WhereClause>) -> Option<ClauseView> {
    match clause {
        Some(clause) => Some(clause@),
        None => None,
    }
}

/// Whether there is a slot of this name.
fn find_slot(tokens: &[Token], slot: &str) -> (b: bool)
    ensures
        b == has_slot(token_views(tokens@), slot@),
{
    let ghost views = token_views(tokens@);
    let mut i: usize = 0;
    while i < tokens.len()
        invariant
            i <= tokens.len(),
            views == token_views(tokens@),
            forall|j: int| 0 <= j < i ==> !slot_named(#[trigger] views[j], slot@),
        decreases tokens.len() - i,
    {
        assert(views[i as int] == tokens@[i as int]@);
        if let Token::Slot { name, .. } = &tokens[i] {
            if same(name.as_str(), slot) {
                assert(slot_named(views[i as int], slot@));
                return true;
            }
        }
        i += 1;
    }
    false
}

/// Replaces the slots of a text by fragments, and numbers each bare `?` where it is a
/// placeholder.
pub fn splice_tokens(
    s: &[char],
    tokens: &[Token],
    style: PlaceholderStyle,
    where_sql: &str,
    order_sql: &str,
) -> (r: String)
    requires
        in_order(token_views(tokens@), s@.len() as int),
    ensures
        r@ == spliced_from(
            s@,
            token_views(tokens@),
            style,
            where_sql@,
            order_sql@,
            0,
            0,
            0,
            Seq::empty(),
        ),
{
    let ghost views = token_views(tokens@);
    let ghost whole = spliced_from(s@, views, style, where_sql@, order_sql@, 0, 0, 0, Seq::empty());
    let mut out = String::new();
    let mut last: usize = 0;
    let mut seen: usize = 0;
    let mut i: usize = 0;
    while i < tokens.len()
        invariant
            i <= tokens.len(),
            seen <= i,
            last <= s.len(),
            views == token_views(tokens@),
            in_order(views, s@.len() as int),
            i < views.len() ==> last <= start_of(views[i as int]),
            whole == spliced_from(
                s@,
                views,
                style,
                where_sql@,
                order_sql@,
                i as int,
                last as int,
                seen as nat,
                out@,
            ),
        decreases tokens.len() - i,
    {
        assert(views[i as int] == tokens@[i as int]@);
        assert(i + 1 < views.len() ==> end_of(views[i as int]) <= start_of(views[i + 1]));
        match &tokens[i] {
            Token::Slot { start, end, name, suffix } => {
                append_span(&mut out, s, last, *start);
                let fragment = if same(name.as_str(), "where") {
                    where_sql
                } else if same(name.as_str(), "order_by") {
                    order_sql
                } else {
                    ""
                };
                proof {
                    reveal_strlit("");
                    assert(fragment@ =~= fragment_for(name@, where_sql@, order_sql@));
                }
                let ghost before = out@;
                if !fragment.is_empty() {
                    out.append(fragment);
                    out.append(suffix.as_str());
                }
                assert(out@ =~= before + filled(fragment@, suffix@));
                last = *end;
            },
            Token::Placeholder(Placeholder::Question { start, end }) => {
                if !style.is_number() {
                    append_span(&mut out, s, last, *start);
                    seen += 1;
                    out.append("$");
                    out.append(decimal_of(seen as u128).as_str());
                    last = *end;
                }
            },
            Token::Placeholder(_) => {},
        }
        i += 1;
    }
    append_span(&mut out, s, last, s.len());
    out
}

/// Writes the numbered placeholders of a statement as `?`, one for each reference.
pub fn render_question_placeholders(
    lexer: &QueryLexer,
    sql: &str,
    arguments: &[QueryArgument],
) -> (r: Result<QueryStatement, Error>)
    ensures
        match (
            r,
            unnumbered_from(
                sql@,
                tokens_of(sql@, lexer@.quoting),
                argument_views(arguments@),
                0,
                0,
                Seq::empty(),
                Seq::empty(),
            ),
        ) {
            (Ok(statement), Ok(found)) => statement@ == found,
            (Err(error), Err(fault)) => error@ == fault,
            _ => false,
        },
{
    let s = chars_of(sql);
    let tokens = lexer.scan_chars(s.as_slice());
    let ghost views = token_views(tokens@);
    let ghost given = argument_views(arguments@);
    let ghost whole = unnumbered_from(sql@, views, given, 0, 0, Seq::empty(), Seq::empty());
    let mut out = String::new();
    let mut picked: Vec<QueryArgument> = Vec::new();
    let mut last: usize = 0;
    let mut i: usize = 0;
    assert(argument_views(picked@) =~= Seq::<ArgumentView>::empty());
    assert(out@ =~= Seq::<char>::empty());
    while i < tokens.len()
        invariant
            i <= tokens.len(),
            last <= s.len(),
            s@ == sql@,
            views == token_views(tokens@),
            views == tokens_of(sql@, lexer@.quoting),
            given == argument_views(arguments@),
            in_order(views, s@.len() as int),
            i < views.len() ==> last <= start_of(views[i as int]),
            whole == unnumbered_from(sql@, views, given, 0, 0, Seq::empty(), Seq::empty()),
            whole == unnumbered_from(
                s@,
                views,
                given,
                i as int,
                last as int,
                out@,
                argument_views(picked@),
            ),
        decreases tokens.len() - i,
    {
        assert(views[i as int] == tokens@[i as int]@);
        assert(i + 1 < views.len() ==> end_of(views[i as int]) <= start_of(views[i + 1]));
        if let Token::Placeholder(Placeholder::Number { start, end, number }) = &tokens[i] {
            if *number < 1 || *number > arguments.len() {
                let error = QueryComposerError::BindMismatch {
                    required: *number,
                    bound: arguments.len(),
                };
                return Err(Error::from(error));
            }
            append_span(&mut out, s.as_slice(), last, *start);
            out.append("?");
            let ghost held = argument_views(picked@);
            let argument = arguments[*number - 1].clone();
            assert(given[*number - 1] == argument@);
            picked.push(argument);
            assert(argument_views(picked@) =~= held.push(argument@));
            last = *end;
        }
        i += 1;
    }
    append_span(&mut out, s.as_slice(), last, s.len());
    Ok(QueryStatement { sql: out, arguments: picked })
}

impl<DB: QueryDialect> QueryComposer<DB> {
    /// Starts composing a base query, with zero or more slots.
    pub fn new(sql: &str) -> (r: QueryComposer<DB>)
        ensures
            r@ == (ComposerView {
                sql: sql@,
                arguments: Seq::empty(),
                wheres: Seq::empty(),
                orders: Seq::empty(),
                cursor: None,
            }),
    {
        let r = QueryComposer {
            sql: copy_of(sql),
            arguments: Vec::new(),
            wheres: Vec::new(),
            orders: Vec::new(),
            cursor: None,
            dialect: PhantomData,
        };
        assert(r@ =~= (ComposerView {
            sql: sql@,
            arguments: Seq::empty(),
            wheres: Seq::empty(),
            orders: Seq::empty(),
            cursor: None,
        }));
        r
    }

    fn argue(&mut self, argument: QueryArgument)
        ensures
            final(self)@ == (ComposerView {
                arguments: old(self)@.arguments.push(argument@),
                ..old(self)@
            }),
    {
        let ghost before = self@;
        self.arguments.push(argument);
        assert(self@ =~= (ComposerView { arguments: before.arguments.push(argument@), ..before }));
    }

    /// A value for one of the base query's own placeholders, in the order of declaration.
    pub fn bind_value(&mut self, value: Value) -> (r: &mut Self)
        ensures
            r@ == (ComposerView {
                arguments: old(self)@.arguments.push(ArgumentView::Value(value@)),
                ..old(self)@
            }),
            *final(self) == *final(r),
    {
        self.argue(QueryArgument::Value(value));
        self
    }

    /// The same for something that no value can hold. The caller keeps it under the handle.
    pub fn bind(&mut self, handle: u64) -> (r: &mut Self)
        ensures
            r@ == (ComposerView {
                arguments: old(self)@.arguments.push(ArgumentView::Opaque(handle)),
                ..old(self)@
            }),
            *final(self) == *final(r),
    {
        self.argue(QueryArgument::Opaque(handle));
        self
    }

    /// Applies a cursor. A second one replaces the first.
    pub fn with_cursor(&mut self, cursor: Cursor) -> (r: &mut Self)
        ensures
            r@ == (ComposerView { cursor: Some(cursor@), ..old(self)@ }),
            *final(self) == *final(r),
    {
        self.cursor = Some(cursor);
        self
    }

    /// Adds a condition to those that are there.
    pub fn push_where(&mut self, filter: WhereClause) -> (r: &mut Self)
        ensures
            r@ == (ComposerView { wheres: old(self)@.wheres.push(filter@), ..old(self)@ }),
            *final(self) == *final(r),
    {
        let ghost before = self@;
        self.wheres.push(filter);
        assert(self@ =~= (ComposerView { wheres: before.wheres.push(filter@), ..before }));
        self
    }

    /// Adds an ordering behind those that are there, as a tie-breaker.
    pub fn push_order_by(&mut self, order_by: OrderByClause) -> (r: &mut Self)
        ensures
            r@ == (ComposerView { orders: old(self)@.orders.push(order_by@), ..old(self)@ }),
            *final(self) == *final(r),
    {
        let ghost before = self@;
        self.orders.push(order_by);
        assert(self@ =~= (ComposerView { orders: before.orders.push(order_by@), ..before }));
        self
    }

    /// The condition of the query.
    fn compose_where(&self, offset: usize) -> (r: WhereClause)
        requires
            positioned(self@),
        ensures
            r@ == condition_of(self@, offset as nat, DB::rules().quoting),
    {
        let ghost clauses = conditions(self@);
        let mut held: Option<WhereClause> = None;
        let mut count: usize = 0;
        let mut i: usize = 0;
        while i < self.wheres.len()
            invariant
                i <= self.wheres.len(),
                count <= i,
                clauses == conditions(self@),
                self@.wheres == clause_views(self.wheres@),
                seen_clause(held) == all_of(clauses, i as nat),
                count == kept(clauses, i as nat),
            decreases self.wheres.len() - i,
        {
            assert(clauses[i as int] == self.wheres@[i as int]@);
            if !self.wheres[i].is_empty() {
                count += 1;
            }
            held = join_clause(held, self.wheres[i].clone());
            i += 1;
        }
        let mut alone = count == 1;
        if let Some(cursor) = &self.cursor {
            assert(clauses[i as int] == boundary(cursor@));
            if cursor.is_empty() {
                proof {
                    lemma_no_boundary(cursor@);
                }
            } else {
                alone = false;
            }
            held = join_clause(held, cursor.to_where_clause());
        }
        assert(alone == stands_alone(self@));
        match held {
            Some(clause) => {
                if alone {
                    return enclose(clause, DB::syntax()).shift(offset);
                }
                clause.shift(offset)
            },
            None => WhereClause::default(),
        }
    }

    /// The ordering of the query.
    fn compose_order_by(&self) -> (r: Result<OrderByClause, Error>)
        ensures
            match r {
                Ok(order) => !disagrees(self@) && order@ == order_of(self@),
                Err(error) => disagrees(self@) && error@ == Fault::CursorMismatch,
            },
    {
        if self.orders.len() == 0 {
            return match &self.cursor {
                Some(cursor) => Ok(cursor.to_order_by_clause()),
                None => Ok(OrderByClause::default()),
            };
        }
        let ghost views = order_views(self.orders@);
        let mut asked = OrderByClause::default();
        let mut i: usize = 0;
        while i < self.orders.len()
            invariant
                i <= self.orders.len(),
                views == order_views(self.orders@),
                asked@ == tied(views, i as nat),
            decreases self.orders.len() - i,
        {
            assert(views[i as int] == self.orders@[i as int]@);
            asked.extend(self.orders[i].clone());
            i += 1;
        }
        if let Some(cursor) = &self.cursor {
            if !cursor.is_empty() && !cursor.to_order_by_clause().matches(&asked) {
                return Err(Error::CursorMismatch);
            }
        }
        Ok(asked)
    }

    /// The statement, once the fragments are known.
    fn assemble(&self, clause: WhereClause, order_sql: &str) -> (r: Result<QueryStatement, Error>)
        ensures
            match (r, assembled(self@, DB::rules(), clause@, order_sql@)) {
                (Ok(statement), Ok(found)) => statement@ == found,
                (Err(error), Err(fault)) => error@ == fault,
                _ => false,
            },
    {
        let syntax = DB::syntax();
        let lexer = QueryLexer::new(syntax);
        let s = chars_of(self.sql.as_str());
        let tokens = lexer.scan_chars(s.as_slice());
        let sql = splice_tokens(
            s.as_slice(),
            tokens.as_slice(),
            syntax.placeholder,
            clause.sql(),
            order_sql,
        );
        if !clause.is_empty() && !find_slot(tokens.as_slice(), "where") {
            return Err(Error::from(QueryComposerError::MissingSlot { name: "where" }));
        }
        if !order_sql.is_empty() && self.orders.len() > 0 && !find_slot(
            tokens.as_slice(),
            "order_by",
        ) {
            return Err(Error::from(QueryComposerError::MissingSlot { name: "order_by" }));
        }
        let arguments = self.gather(&clause);
        let required = lexer.max_placeholder_number(sql.as_str());
        if required != arguments.len() {
            assert(argument_views(arguments@).len() == arguments@.len());
            return Err(
                Error::from(
                    QueryComposerError::BindMismatch { required, bound: arguments.len() },
                ),
            );
        }
        if syntax.placeholder.is_number() {
            return Ok(QueryStatement { sql, arguments });
        }
        render_question_placeholders(&lexer, sql.as_str(), arguments.as_slice())
    }

    /// The arguments of the base query, and then those of the condition.
    fn gather(&self, clause: &WhereClause) -> (r: Vec<QueryArgument>)
        ensures
            argument_views(r@) == all_arguments(self@, clause@),
    {
        let mut r: Vec<QueryArgument> = Vec::new();
        let mut i: usize = 0;
        let ghost own = argument_views(self.arguments@);
        while i < self.arguments.len()
            invariant
                i <= self.arguments.len(),
                r.len() == i,
                own == argument_views(self.arguments@),
                forall|j: int| 0 <= j < i ==> (#[trigger] r@[j])@ == own[j],
            decreases self.arguments.len() - i,
        {
            r.push(self.arguments[i].clone());
            i += 1;
        }
        let values = clause.values();
        let ghost views = value_views(values@);
        let mut k: usize = 0;
        while k < values.len()
            invariant
                k <= values.len(),
                r.len() == own.len() + k,
                views == value_views(values@),
                forall|j: int| 0 <= j < own.len() ==> (#[trigger] r@[j])@ == own[j],
                forall|j: int|
                    own.len() <= j < own.len() + k ==> (#[trigger] r@[j])@ == bound(
                        views[j - own.len()],
                    ),
            decreases values.len() - k,
        {
            assert(views[k as int] == values@[k as int]@);
            r.push(QueryArgument::Value(values[k].clone()));
            k += 1;
        }
        assert(argument_views(r@) =~= own + as_arguments(views));
        r
    }

    /// Splices the clauses into their slots: the final text, and the arguments in the order
    /// that its placeholders reference them.
    ///
    /// A slot without anything to put in it is dropped, with its suffix. A `?` cannot be
    /// written down before its position is known, so everything is numbered on the way, and
    /// written back as `?` at the end for a dialect that has no numbers: one for each
    /// reference.
    pub fn compose(&self) -> (r: Result<QueryStatement, Error>)
        requires
            positioned(self@),
        ensures
            match (r, composed(self@, DB::rules())) {
                (Ok(statement), Ok(found)) => statement@ == found,
                (Err(error), Err(fault)) => error@ == fault,
                _ => false,
            },
    {
        let lexer = QueryLexer::new(DB::syntax());
        let tokens = lexer.scan_chars(chars_of(self.sql.as_str()).as_slice());
        let required = match lexer.count_placeholders(tokens.as_slice()) {
            Ok(required) => required,
            Err(error) => {
                return Err(Error::from(error));
            },
        };
        if required != self.arguments.len() {
            assert(self@.arguments.len() == self.arguments@.len());
            return Err(
                Error::from(
                    QueryComposerError::BindMismatch { required, bound: self.arguments.len() },
                ),
            );
        }
        let order = match self.compose_order_by() {
            Ok(order) => order,
            Err(error) => {
                return Err(error);
            },
        };
        let clause = self.compose_where(required);
        self.assemble(clause, order.sql().as_str())
    }
}

// ---------------------------------------------------------------------------
// Laws
// ---------------------------------------------------------------------------

/// The values of the first `n` conditions that are not empty, in order.
pub open spec fn kept_values(clauses: Seq<ClauseView>, n: nat) -> Seq<ValueView>
    decreases n,
{
    if n == 0 {
        Seq::empty()
    } else if clauses[n - 1].sql.len() == 0 {
        kept_values(clauses, (n - 1) as nat)
    } else {
        kept_values(clauses, (n - 1) as nat) + clauses[n - 1].values
    }
}

proof fn lemma_all_of(clauses: Seq<ClauseView>, n: nat)
    requires
        n <= clauses.len(),
    ensures
        match all_of(clauses, n) {
            Some(clause) => clause.values == kept_values(clauses, n) && clause.sql.len() > 0,
            None => kept_values(clauses, n).len() == 0 && forall|i: int|
                0 <= i < n ==> (#[trigger] clauses[i]).sql.len() == 0,
        },
    decreases n,
{
    if n > 0 {
        lemma_all_of(clauses, (n - 1) as nat);
        let last = clauses[n - 1];
        if last.sql.len() > 0 {
            match all_of(clauses, (n - 1) as nat) {
                Some(held) => {
                    reveal_strlit("(");
                },
                None => {
                    assert(kept_values(clauses, n) =~= last.values);
                },
            }
        }
    }
}

/// Every condition applies: a tenant's scope, a filter and a cursor all bind their values, in
/// the order that they were given, and none replaces another.
pub proof fn law_every_condition_binds_its_values(c: ComposerView, offset: nat, q: Quoting)
    ensures
        condition_of(c, offset, q).values == kept_values(conditions(c), conditions(c).len()),
{
    lemma_all_of(conditions(c), conditions(c).len());
}

/// A condition is dropped only where it is empty.
pub proof fn law_only_empty_conditions_are_dropped(clauses: Seq<ClauseView>)
    ensures
        all_of(clauses, clauses.len()) is None <==> forall|i: int|
            0 <= i < clauses.len() ==> (#[trigger] clauses[i]).sql.len() == 0,
{
    lemma_all_of(clauses, clauses.len());
    if all_of(clauses, clauses.len()) is Some {
        lemma_kept(clauses, clauses.len());
    }
}

proof fn lemma_kept(clauses: Seq<ClauseView>, n: nat)
    requires
        n <= clauses.len(),
        all_of(clauses, n) is Some,
    ensures
        exists|i: int| 0 <= i < n && (#[trigger] clauses[i]).sql.len() > 0,
    decreases n,
{
    if clauses[n - 1].sql.len() == 0 {
        lemma_kept(clauses, (n - 1) as nat);
    }
}

/// Where placeholders carry numbers, the arguments are those of the base query and then those
/// of the conditions. An ordering never adds one.
pub proof fn law_an_ordering_binds_nothing(c: ComposerView, syntax: QuerySyntax)
    requires
        syntax.placeholder == PlaceholderStyle::Number,
    ensures
        composed(c, syntax) matches Ok(statement) ==> statement.arguments == c.arguments
            + as_arguments(kept_values(conditions(c), conditions(c).len())),
{
    if let Ok(required) = values_called_for(tokens_of(c.sql, syntax.quoting), syntax.placeholder) {
        law_every_condition_binds_its_values(c, required, syntax.quoting);
    }
}

/// Where placeholders carry numbers, the highest one is the number of arguments.
pub proof fn law_numbers_reach_every_argument(c: ComposerView, syntax: QuerySyntax)
    requires
        syntax.placeholder == PlaceholderStyle::Number,
    ensures
        composed(c, syntax) matches Ok(statement) ==> max_number(statement.sql, syntax.quoting)
            == statement.arguments.len(),
{
}

/// How many of the tokens from the `i`th on are numbered placeholders.
pub open spec fn references(tokens: Seq<TokenView>, i: int) -> nat
    decreases tokens.len() - i,
{
    if !(0 <= i < tokens.len()) {
        0
    } else {
        references(tokens, i + 1) + if number_of(tokens[i]) is Some {
            1nat
        } else {
            0nat
        }
    }
}

/// The arguments that the numbered placeholders from the `i`th token on name, in textual
/// order.
pub open spec fn named_arguments(
    tokens: Seq<TokenView>,
    arguments: Seq<ArgumentView>,
    i: int,
) -> Seq<ArgumentView>
    decreases tokens.len() - i,
{
    if !(0 <= i < tokens.len()) {
        Seq::empty()
    } else {
        match number_of(tokens[i]) {
            Some(number) => seq![arguments[number - 1]] + named_arguments(tokens, arguments, i + 1),
            None => named_arguments(tokens, arguments, i + 1),
        }
    }
}

proof fn lemma_unnumbered(
    s: Seq<char>,
    tokens: Seq<TokenView>,
    arguments: Seq<ArgumentView>,
    i: int,
    last: int,
    out: Seq<char>,
    picked: Seq<ArgumentView>,
)
    requires
        0 <= i <= tokens.len(),
    ensures
        unnumbered_from(s, tokens, arguments, i, last, out, picked) matches Ok(statement)
            ==> statement.arguments == picked + named_arguments(tokens, arguments, i)
            && statement.arguments.len() == picked.len() + references(tokens, i),
    decreases tokens.len() - i,
{
    if i < tokens.len() {
        match tokens[i] {
            TokenView::Number { start, end, number } => {
                if 1 <= number <= arguments.len() {
                    let next = out + s.subrange(last, start) + "?"@;
                    let more = picked.push(arguments[number - 1]);
                    lemma_unnumbered(s, tokens, arguments, i + 1, end, next, more);
                    assert(picked + named_arguments(tokens, arguments, i) =~= more
                        + named_arguments(tokens, arguments, i + 1));
                }
            },
            _ => {
                lemma_unnumbered(s, tokens, arguments, i + 1, last, out, picked);
            },
        }
    } else {
        assert(picked + named_arguments(tokens, arguments, i) =~= picked);
    }
}

/// Where placeholders are bound by position, there is an argument for every reference, in the
/// order of the text: a slot ahead of the base query's own placeholders binds ahead of them.
pub proof fn law_positions_bind_in_textual_order(
    sql: Seq<char>,
    arguments: Seq<ArgumentView>,
    syntax: QuerySyntax,
)
    requires
        syntax.placeholder == PlaceholderStyle::Question,
    ensures
        spelled(sql, arguments, syntax) matches Ok(statement) ==> statement.arguments
            == named_arguments(tokens_of(sql, syntax.quoting), arguments, 0)
            && statement.arguments.len() == references(tokens_of(sql, syntax.quoting), 0),
{
    lemma_unnumbered(
        sql,
        tokens_of(sql, syntax.quoting),
        arguments,
        0,
        0,
        Seq::empty(),
        Seq::empty(),
    );
    let named = named_arguments(tokens_of(sql, syntax.quoting), arguments, 0);
    assert(Seq::<ArgumentView>::empty() + named =~= named);
}

/// A cursor that was cut for another ordering than the one that is asked for is never used.
pub proof fn law_a_changed_ordering_is_refused(c: ComposerView, syntax: QuerySyntax)
    requires
        disagrees(c),
    ensures
        composed(c, syntax) is Err,
{
}

/// A condition that has nowhere to go is refused, and never dropped.
pub proof fn law_a_condition_without_a_slot_is_refused(c: ComposerView, syntax: QuerySyntax)
    requires
        !has_slot(tokens_of(c.sql, syntax.quoting), "where"@),
        exists|i: int|
            0 <= i < conditions(c).len() && (#[trigger] conditions(c)[i]).sql.len() > 0,
    ensures
        composed(c, syntax) is Err,
{
    let clauses = conditions(c);
    lemma_all_of(clauses, clauses.len());
    if let Ok(required) = values_called_for(tokens_of(c.sql, syntax.quoting), syntax.placeholder) {
        if let Some(clause) = all_of(clauses, clauses.len()) {
            let whole = enclosed(clause.sql, syntax.quoting);
            reveal_strlit("(");
            lemma_shifted_nonempty(clause.sql, standard_syntax().quoting, required);
            lemma_shifted_nonempty(whole, standard_syntax().quoting, required);
        }
    }
}

proof fn lemma_spliced_plain(
    s: Seq<char>,
    tokens: Seq<TokenView>,
    where_sql: Seq<char>,
    order_sql: Seq<char>,
    i: int,
)
    requires
        0 <= i <= tokens.len(),
        forall|j: int| 0 <= j < tokens.len() ==> !((#[trigger] tokens[j]) is Slot),
    ensures
        spliced_from(
            s,
            tokens,
            PlaceholderStyle::Number,
            where_sql,
            order_sql,
            i,
            0,
            0,
            Seq::empty(),
        ) == s,
    decreases tokens.len() - i,
{
    if i < tokens.len() {
        assert(!(tokens[i] is Slot));
        lemma_spliced_plain(s, tokens, where_sql, order_sql, i + 1);
    } else {
        assert(Seq::<char>::empty() + s.subrange(0, s.len() as int) =~= s);
    }
}

/// A numbered query without slots comes out as it went in, with the arguments it was given.
pub proof fn law_a_query_without_slots_is_untouched(c: ComposerView, syntax: QuerySyntax)
    requires
        syntax.placeholder == PlaceholderStyle::Number,
        c.cursor is None,
        c.wheres.len() == 0,
        c.orders.len() == 0,
        max_number(c.sql, syntax.quoting) == c.arguments.len(),
        forall|j: int|
            0 <= j < tokens_of(c.sql, syntax.quoting).len() ==> !((#[trigger] tokens_of(
                c.sql,
                syntax.quoting,
            )[j]) is Slot),
    ensures
        composed(c, syntax) == Ok::<StatementView, Fault>(
            StatementView { sql: c.sql, arguments: c.arguments },
        ),
{
    let clause = condition_of(c, c.arguments.len(), syntax.quoting);
    let order_sql = order_text(order_of(c));
    lemma_spliced_plain(c.sql, tokens_of(c.sql, syntax.quoting), clause.sql, order_sql, 0);
    assert(all_arguments(c, clause) =~= c.arguments);
}

proof fn lemma_kept_one(clauses: Seq<ClauseView>, n: nat)
    requires
        n <= clauses.len(),
    ensures
        kept(clauses, n) == 0 <==> all_of(clauses, n) is None,
        kept(clauses, n) == 1 ==> exists|i: int|
            0 <= i < n && all_of(clauses, n) == Some(#[trigger] clauses[i]),
    decreases n,
{
    if n > 0 {
        lemma_kept_one(clauses, (n - 1) as nat);
        if clauses[n - 1].sql.len() > 0 {
            if kept(clauses, n) == 1 {
                assert(all_of(clauses, n) == Some(clauses[n - 1]));
            }
        } else if kept(clauses, n) == 1 {
            let i = choose|i: int|
                0 <= i < n - 1 && all_of(clauses, (n - 1) as nat) == Some(#[trigger] clauses[i]);
            assert(all_of(clauses, n) == Some(clauses[i]));
        }
    }
}

/// The base query's own condition applies to every alternative of a condition that is pushed
/// alone: it is spliced with no `OR` outside parentheses, and with nothing else changed but for
/// the numbers of its placeholders. Left out is a condition that does not close what it begins.
pub proof fn law_a_pushed_condition_holds_together(c: ComposerView, offset: nat, q: Quoting)
    requires
        stands_alone(c),
        forall|i: int| 0 <= i < c.wheres.len() ==> closed((#[trigger] c.wheres[i]).sql, q),
    ensures
        exists|i: int|
            0 <= i < c.wheres.len() && condition_of(c, offset, q) == moved(
                held_together(#[trigger] c.wheres[i], q),
                offset,
            ) && !splits(held_together(c.wheres[i], q).sql, q),
{
    let all = conditions(c);
    if let Some(keys) = c.cursor {
        lemma_no_boundary(keys);
        assert(all[c.wheres.len() as int].sql.len() == 0);
    }
    lemma_kept_one(all, all.len());
    let i = choose|i: int|
        0 <= i < all.len() && all_of(all, all.len()) == Some(#[trigger] all[i]);
    lemma_all_of(all, all.len());
    assert(i < c.wheres.len());
    assert(all[i] == c.wheres[i]);
    assert(closed(c.wheres[i].sql, q));
    law_an_enclosed_condition_holds_together(c.wheres[i].sql, q);
    assert(condition_of(c, offset, q) == moved(held_together(c.wheres[i], q), offset));
}

/// A cursor without keys is the first page: a query composes with it as it does without one.
pub proof fn law_a_cursor_without_keys_is_the_first_page(c: ComposerView, syntax: QuerySyntax)
    requires
        c.cursor is None,
    ensures
        composed(ComposerView { cursor: Some(Seq::empty()), ..c }, syntax) == composed(c, syntax),
{
    let first = ComposerView { cursor: Some(Seq::empty()), ..c };
    let none = Seq::<PlaceView>::empty();
    let more = conditions(first);
    let n = c.wheres.len();
    lemma_no_boundary(none);
    assert(orders(none) =~= Seq::<KeyView>::empty());
    assert(more == c.wheres.push(boundary(none)));
    assert(more[n as int].sql.len() == 0);
    lemma_same_front(c.wheres, boundary(none), n);
    assert(all_of(more, n + 1) == all_of(c.wheres, n));
    assert(kept(more, n + 1) == kept(c.wheres, n));
    assert(more.len() == n + 1);
    assert(asked_order(first) == asked_order(c));
    assert(order_of(first) =~= order_of(c));
    if let Ok(required) = values_called_for(tokens_of(c.sql, syntax.quoting), syntax.placeholder) {
        let clause = condition_of(c, required, syntax.quoting);
        assert(condition_of(first, required, syntax.quoting) == clause);
        assert(all_arguments(first, clause) == all_arguments(c, clause));
    }
}

proof fn lemma_same_front(clauses: Seq<ClauseView>, clause: ClauseView, n: nat)
    requires
        n <= clauses.len(),
    ensures
        all_of(clauses.push(clause), n) == all_of(clauses, n),
        kept(clauses.push(clause), n) == kept(clauses, n),
    decreases n,
{
    if n > 0 {
        lemma_same_front(clauses, clause, (n - 1) as nat);
        assert(clauses.push(clause)[n - 1] == clauses[n - 1]);
    }
}

proof fn lemma_tied(orders: Seq<Seq<KeyView>>, n: nat)
    requires
        n <= orders.len(),
    ensures
        tied(orders, n) == orders.take(n as int).flatten_alt(),
    decreases n,
{
    if n > 0 {
        lemma_tied(orders, (n - 1) as nat);
        assert(orders.take(n as int).drop_last() =~= orders.take(n - 1));
    } else {
        assert(orders.take(0) =~= Seq::<Seq<KeyView>>::empty());
    }
}

/// A query is ordered by every ordering that was pushed, one behind another, and by the cursor's
/// own keys exactly where none was.
pub proof fn law_every_pushed_ordering_applies(c: ComposerView)
    ensures
        c.orders.len() > 0 ==> order_of(c) == c.orders.flatten_alt(),
        c.orders.len() == 0 ==> match c.cursor {
            Some(keys) => order_of(c) == Seq::new(keys.len(), |i: int| keys[i].order),
            None => order_of(c) == Seq::<KeyView>::empty(),
        },
{
    lemma_tied(c.orders, c.orders.len());
    assert(c.orders.take(c.orders.len() as int) =~= c.orders);
    if let Some(keys) = c.cursor {
        assert(orders(keys) =~= Seq::new(keys.len(), |i: int| keys[i].order));
    }
}

/// Conditions are joined so that all of them have to hold: each in parentheses of its own, with
/// `AND` between them, in the order in which they were pushed and the cursor's last.
pub proof fn law_every_condition_has_to_hold(c: ComposerView, held: ClauseView, clause: ClauseView)
    ensures
        clause.sql.len() > 0 ==> with(None, clause) == Some(clause),
        clause.sql.len() > 0 ==> (with(Some(held), clause) matches Some(both) && both.sql == "("@
            + held.sql + ") AND ("@ + moved(
            clause,
            max_number(held.sql, standard_syntax().quoting),
        ).sql + ")"@),
        clause.sql.len() == 0 ==> with(Some(held), clause) == Some(held) && with(None, clause)
            is None,
        conditions(c).take(c.wheres.len() as int) == c.wheres,
        c.cursor is None ==> conditions(c).len() == c.wheres.len(),
        c.cursor matches Some(keys) ==> conditions(c).len() == c.wheres.len() + 1
            && conditions(c).last() == boundary(keys),
{
    reveal_strlit(") AND (");
    reveal_strlit(") ");
    reveal_strlit("AND");
    reveal_strlit(" (");
    assert(") "@ + "AND"@ + " ("@ =~= ") AND ("@);
    let raised = moved(clause, max_number(held.sql, standard_syntax().quoting)).sql;
    assert("("@ + held.sql + ") "@ + "AND"@ + " ("@ + raised + ")"@ =~= "("@ + held.sql + ") AND ("@
        + raised + ")"@);
    assert(conditions(c).take(c.wheres.len() as int) =~= c.wheres);
}

/// A query is composed only with as many arguments as its own text calls for, with a slot for every
/// pushed ordering and condition, and with a cursor that was cut for the ordering that is asked
/// for. An ordering that only the cursor brings needs no slot.
#[verifier::rlimit(50)]
pub proof fn law_nothing_is_dropped_unseen(c: ComposerView, syntax: QuerySyntax)
    ensures
        ({
            let tokens = tokens_of(c.sql, syntax.quoting);
            let called = values_called_for(tokens, syntax.placeholder);
            let cut_otherwise = c.orders.len() > 0 && (c.cursor matches Some(keys) && keys.len() > 0
                && Seq::new(keys.len(), |i: int| keys[i].order) != c.orders.flatten_alt());
            &&& called matches Err(number) ==> composed(c, syntax) == Err::<StatementView, Fault>(
                Fault::UnsupportedPlaceholder { number },
            )
            &&& called matches Ok(n) ==> n != c.arguments.len() ==> composed(c, syntax) == Err::<
                StatementView,
                Fault,
            >(Fault::BindMismatch { placeholders: n, arguments: c.arguments.len() })
            &&& called == Ok::<nat, nat>(c.arguments.len()) ==> (composed(c, syntax) == Err::<
                StatementView,
                Fault,
            >(Fault::CursorMismatch) <==> cut_otherwise)
            &&& composed(c, syntax) is Ok ==> {
                &&& called == Ok::<nat, nat>(c.arguments.len())
                &&& !cut_otherwise
                &&& c.orders.len() > 0 && order_text(c.orders.flatten_alt()).len() > 0 ==> has_slot(
                    tokens,
                    "order_by"@,
                )
                &&& (exists|i: int|
                    0 <= i < conditions(c).len() && (#[trigger] conditions(c)[i]).sql.len() > 0)
                    ==> has_slot(tokens, "where"@)
            }
            &&& composed(c, syntax) == Err::<StatementView, Fault>(
                Fault::MissingSlot { name: "order_by"@ },
            ) ==> c.orders.len() > 0 && !has_slot(tokens, "order_by"@)
        }),
{
    law_every_pushed_ordering_applies(c);
    lemma_tied(c.orders, c.orders.len());
    assert(c.orders.take(c.orders.len() as int) =~= c.orders);
    if let Some(keys) = c.cursor {
        assert(orders(keys) =~= Seq::new(keys.len(), |i: int| keys[i].order));
    }
    reveal_strlit("where");
    reveal_strlit("order_by");
    assert("where"@.len() == 5 && "order_by"@.len() == 8);
    let tokens = tokens_of(c.sql, syntax.quoting);
    if !has_slot(tokens, "where"@) && exists|i: int|
        0 <= i < conditions(c).len() && (#[trigger] conditions(c)[i]).sql.len() > 0 {
        law_a_condition_without_a_slot_is_refused(c, syntax);
    }
    if composed(c, syntax) == Err::<StatementView, Fault>(Fault::CursorMismatch) && !disagrees(c) {
        let offset = c.arguments.len();
        let clause = condition_of(c, offset, syntax.quoting);
        let sql = spliced(c.sql, syntax, clause.sql, order_text(order_of(c)));
        lemma_spelled_faults(
            sql,
            tokens_of(sql, syntax.quoting),
            all_arguments(c, clause),
            0,
            0,
            Seq::empty(),
            Seq::empty(),
        );
    }
    if composed(c, syntax) == Err::<StatementView, Fault>(
        Fault::MissingSlot { name: "order_by"@ },
    ) {
        let offset = c.arguments.len();
        let clause = condition_of(c, offset, syntax.quoting);
        let sql = spliced(c.sql, syntax, clause.sql, order_text(order_of(c)));
        lemma_spelled_faults(
            sql,
            tokens_of(sql, syntax.quoting),
            all_arguments(c, clause),
            0,
            0,
            Seq::empty(),
            Seq::empty(),
        );
    }
}

proof fn lemma_spelled_faults(
    s: Seq<char>,
    tokens: Seq<TokenView>,
    arguments: Seq<ArgumentView>,
    i: int,
    last: int,
    out: Seq<char>,
    picked: Seq<ArgumentView>,
)
    ensures
        unnumbered_from(s, tokens, arguments, i, last, out, picked) matches Err(fault) ==> fault
            is BindMismatch,
    decreases tokens.len() - i,
{
    if 0 <= i < tokens.len() {
        match tokens[i] {
            TokenView::Number { start, end, number } => {
                if 1 <= number <= arguments.len() {
                    lemma_spelled_faults(
                        s,
                        tokens,
                        arguments,
                        i + 1,
                        end,
                        out + s.subrange(last, start) + "?"@,
                        picked.push(arguments[number - 1]),
                    );
                }
            },
            _ => {
                lemma_spelled_faults(s, tokens, arguments, i + 1, last, out, picked);
            },
        }
    }
}

} // verus!

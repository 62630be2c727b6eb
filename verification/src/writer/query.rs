//! A query that was already written, and what is layered over it.

use core::marker::PhantomData;

use vstd::prelude::*;

use crate::text::{copy_of, same};
#[allow(unused_imports)]
use crate::text::strings;
use crate::writer::error::Error;
#[allow(unused_imports)]
use crate::writer::error::ErrorView;
#[allow(unused_imports)]
use crate::writer::filter::{
    literal_views, parenthesized, values_in, written as condition_tree, LiteralView,
};
use crate::writer::filter::{parenthesize, Filter, Literal};
#[allow(unused_imports)]
use crate::writer::placeholder::{
    arity, can_number, index_views, numbered_node, written, WriteFault,
};
use crate::writer::placeholder::{number_node, write_out, Refusal};
use crate::writer::sort::Sort;
#[allow(unused_imports)]
use crate::writer::sort::key_terms;
use crate::writer::syntax::Syntax;
use crate::writer::tree::{
    changed, copy_expr, copy_term, look_at_names, look_at_order, look_at_select, make_binary,
    parse_expression, parse_statements, parse_terms, show, term_expr, Change, Grammar, Grouping,
    Node, Operator,
};
#[allow(unused_imports)]
use crate::writer::tree::{
    expr_tree, expr_trees, names_of, own_terms, query_tree, sql_expression, sql_shown,
    sql_statements, sql_terms, statement_tree, term_tree, term_trees, LimitTree, NodeTree,
    OrderTree, QueryTree, SelectTree, SqlTree, TermTree,
};
#[allow(unused_imports)]
use crate::writer::filter::well_nested;

verus! {

// ---------------------------------------------------------------------------
// What can be layered over a query
// ---------------------------------------------------------------------------

/// A condition, ready to join onto a query's `WHERE`, and the values that it binds.
pub struct FilterExpr {
    pub(crate) expr: Option<sqlparser::ast::Expr>,
    pub(crate) values: Vec<Literal>,
}

/// A condition and its values, as contracts speak of them.
pub struct FilterAsked {
    pub expr: Option<SqlTree>,
    pub values: Seq<LiteralView>,
}

impl View for FilterExpr {
    type V = FilterAsked;

    closed spec fn view(&self) -> FilterAsked {
        FilterAsked {
            expr: match self.expr {
                Some(expr) => Some(expr_tree(expr)),
                None => None,
            },
            values: literal_views(self.values@),
        }
    }
}

/// An ordering, ready to write into a query.
pub struct SortExpr {
    pub(crate) terms: Vec<sqlparser::ast::OrderByExpr>,
}

impl View for SortExpr {
    type V = Seq<TermTree>;

    closed spec fn view(&self) -> Seq<TermTree> {
        term_trees(self.terms@)
    }
}

/// A fragment of SQL as a condition. It has to be one complete expression.
pub open spec fn fragment_condition(grammar: Grammar, fragment: Seq<char>) -> Result<
    FilterAsked,
    ErrorView,
> {
    match sql_expression(grammar, fragment) {
        Err(source) => Err(ErrorView::Fragment { fragment, source }),
        Ok((tree, None)) => Ok(FilterAsked { expr: Some(tree), values: Seq::empty() }),
        Ok((_, Some(rest))) => Err(ErrorView::Trailing { fragment, rest }),
    }
}

/// A fragment of SQL as an ordering. It has to be terms and nothing else.
pub open spec fn fragment_order(grammar: Grammar, fragment: Seq<char>) -> Result<
    Seq<TermTree>,
    ErrorView,
> {
    match sql_terms(grammar, fragment) {
        Err(source) => Err(ErrorView::Fragment { fragment, source }),
        Ok((terms, None)) => Ok(terms),
        Ok((_, Some(rest))) => Err(ErrorView::Trailing { fragment, rest }),
    }
}

/// What was asked for agrees with what was made of it.
pub open spec fn filter_seen(
    r: Result<FilterExpr, Error>,
    asked: Result<FilterAsked, ErrorView>,
) -> bool {
    match (r, asked) {
        (Ok(filter), Ok(found)) => filter@ == found,
        (Err(error), Err(found)) => error@ == found,
        _ => false,
    }
}

/// What was asked for agrees with what was made of it.
pub open spec fn sort_seen(
    r: Result<SortExpr, Error>,
    asked: Result<Seq<TermTree>, ErrorView>,
) -> bool {
    match (r, asked) {
        (Ok(sort), Ok(found)) => sort@ == found,
        (Err(error), Err(found)) => error@ == found,
        _ => false,
    }
}

/// Anything that a query can be filtered by: a fragment of SQL, which nothing but the parser
/// checks, or a filter that went through an allowlist.
pub trait IntoFilterExpr: Sized {
    /// The condition that this is in a grammar, or why it is none.
    spec fn asks(&self, grammar: Grammar) -> Result<FilterAsked, ErrorView>;

    /// Turns this into a condition.
    fn into_filter_expr<DB: Syntax>(self) -> (r: Result<FilterExpr, Error>)
        ensures
            filter_seen(r, self.asks(DB::reads())),
    ;
}

/// Anything that a query can be ordered by: a fragment of SQL, or an ordering that went
/// through an allowlist.
pub trait IntoSortExpr: Sized {
    /// The terms that this is in a grammar, or why it is none.
    spec fn asks(&self, grammar: Grammar) -> Result<Seq<TermTree>, ErrorView>;

    /// Turns this into an ordering.
    fn into_sort_expr<DB: Syntax>(self) -> (r: Result<SortExpr, Error>)
        ensures
            sort_seen(r, self.asks(DB::reads())),
    ;
}

fn read_condition(grammar: Grammar, fragment: &str) -> (r: Result<FilterExpr, Error>)
    ensures
        filter_seen(r, fragment_condition(grammar, fragment@)),
{
    match parse_expression(grammar, fragment) {
        Err(source) => Err(Error::Fragment { fragment: copy_of(fragment), source }),
        Ok((_, Some(rest))) => Err(Error::Trailing { fragment: copy_of(fragment), rest }),
        Ok((expr, None)) => {
            let values: Vec<Literal> = Vec::new();
            assert(literal_views(values@) =~= Seq::<LiteralView>::empty());
            Ok(FilterExpr { expr: Some(expr), values })
        },
    }
}

fn read_order(grammar: Grammar, fragment: &str) -> (r: Result<SortExpr, Error>)
    ensures
        sort_seen(r, fragment_order(grammar, fragment@)),
{
    match parse_terms(grammar, fragment) {
        Err(source) => Err(Error::Fragment { fragment: copy_of(fragment), source }),
        Ok((_, Some(rest))) => Err(Error::Trailing { fragment: copy_of(fragment), rest }),
        Ok((terms, None)) => Ok(SortExpr { terms }),
    }
}

impl IntoFilterExpr for &str {
    open spec fn asks(&self, grammar: Grammar) -> Result<FilterAsked, ErrorView> {
        fragment_condition(grammar, (*self)@)
    }

    fn into_filter_expr<DB: Syntax>(self) -> (r: Result<FilterExpr, Error>) {
        read_condition(DB::grammar(), self)
    }
}

impl IntoFilterExpr for &String {
    open spec fn asks(&self, grammar: Grammar) -> Result<FilterAsked, ErrorView> {
        fragment_condition(grammar, (*self)@)
    }

    fn into_filter_expr<DB: Syntax>(self) -> (r: Result<FilterExpr, Error>) {
        read_condition(DB::grammar(), self.as_str())
    }
}

impl IntoFilterExpr for String {
    open spec fn asks(&self, grammar: Grammar) -> Result<FilterAsked, ErrorView> {
        fragment_condition(grammar, self@)
    }

    fn into_filter_expr<DB: Syntax>(self) -> (r: Result<FilterExpr, Error>) {
        read_condition(DB::grammar(), self.as_str())
    }
}

impl IntoFilterExpr for &Filter {
    /// One that was never resolved still holds what a client sent, and is refused. One that
    /// asks for nothing adds no condition at all.
    open spec fn asks(&self, grammar: Grammar) -> Result<FilterAsked, ErrorView> {
        if !(*self)@.resolved {
            Err(ErrorView::Unresolved)
        } else {
            match (*self)@.condition {
                None => Ok(FilterAsked { expr: None, values: Seq::empty() }),
                Some(condition) => Ok(
                    FilterAsked {
                        expr: Some(condition_tree(condition, 0)),
                        values: values_in(condition),
                    },
                ),
            }
        }
    }

    fn into_filter_expr<DB: Syntax>(self) -> (r: Result<FilterExpr, Error>) {
        if !self.is_resolved() {
            return Err(Error::Unresolved);
        }
        let mut values: Vec<Literal> = Vec::new();
        let ghost none = literal_views(values@);
        assert(none =~= Seq::<LiteralView>::empty());
        match self.condition() {
            None => Ok(FilterExpr { expr: None, values }),
            Some(condition) => {
                let expr = condition.write(&mut values);
                assert(none + values_in(condition@) =~= values_in(condition@));
                Ok(FilterExpr { expr: Some(expr), values })
            },
        }
    }
}

impl IntoSortExpr for &str {
    open spec fn asks(&self, grammar: Grammar) -> Result<Seq<TermTree>, ErrorView> {
        fragment_order(grammar, (*self)@)
    }

    fn into_sort_expr<DB: Syntax>(self) -> (r: Result<SortExpr, Error>) {
        read_order(DB::grammar(), self)
    }
}

impl IntoSortExpr for &String {
    open spec fn asks(&self, grammar: Grammar) -> Result<Seq<TermTree>, ErrorView> {
        fragment_order(grammar, (*self)@)
    }

    fn into_sort_expr<DB: Syntax>(self) -> (r: Result<SortExpr, Error>) {
        read_order(DB::grammar(), self.as_str())
    }
}

impl IntoSortExpr for String {
    open spec fn asks(&self, grammar: Grammar) -> Result<Seq<TermTree>, ErrorView> {
        fragment_order(grammar, self@)
    }

    fn into_sort_expr<DB: Syntax>(self) -> (r: Result<SortExpr, Error>) {
        read_order(DB::grammar(), self.as_str())
    }
}

impl IntoSortExpr for &Sort {
    /// One that was never resolved still holds what a client sent, and is refused.
    open spec fn asks(&self, grammar: Grammar) -> Result<Seq<TermTree>, ErrorView> {
        if (*self)@.resolved {
            Ok(key_terms((*self)@.keys))
        } else {
            Err(ErrorView::Unresolved)
        }
    }

    fn into_sort_expr<DB: Syntax>(self) -> (r: Result<SortExpr, Error>) {
        if self.is_resolved() {
            Ok(SortExpr { terms: self.order_by() })
        } else {
            Err(Error::Unresolved)
        }
    }
}

// ---------------------------------------------------------------------------
// What a writer holds
// ---------------------------------------------------------------------------

/// A value that is bound: one of this library's, or one that only the driver can encode,
/// which the caller knows by a number.
#[derive(Debug, PartialEq, Eq)]
pub enum Bind {
    Literal(Literal),
    Opaque(u64),
}

/// A value that is bound, as contracts speak of it.
pub enum BindView {
    Literal(LiteralView),
    Opaque(u64),
}

impl View for Bind {
    type V = BindView;

    open spec fn view(&self) -> BindView {
        match self {
            Bind::Literal(value) => BindView::Literal(value@),
            Bind::Opaque(handle) => BindView::Opaque(*handle),
        }
    }
}

impl Clone for Bind {
    fn clone(&self) -> (r: Bind)
        ensures
            r@ == self@,
    {
        match self {
            Bind::Literal(value) => Bind::Literal(value.clone()),
            Bind::Opaque(handle) => Bind::Opaque(*handle),
        }
    }
}

/// What a list of bound values holds.
pub open spec fn bind_views(binds: Seq<Bind>) -> Seq<BindView> {
    binds.map_values(|bind: Bind| bind@)
}

/// One of this library's values, bound.
pub open spec fn bound_literal(value: LiteralView) -> BindView {
    BindView::Literal(value)
}

/// Values of this library, bound.
pub open spec fn bound_literals(values: Seq<LiteralView>) -> Seq<BindView> {
    values.map_values(|value: LiteralView| bound_literal(value))
}

/// What a writer holds: the query, what was layered over it, how many values its placeholders
/// claim, the values that were bound, and the first thing that went wrong.
#[verifier::ext_equal]
pub struct WriterView {
    pub statement: QueryTree,
    pub filters: Seq<SqlTree>,
    pub order: Seq<TermTree>,
    pub limit: Option<u64>,
    pub arity: nat,
    pub binds: Seq<BindView>,
    pub failure: Option<ErrorView>,
}

/// The one query that a text holds, or why it does not.
pub open spec fn opened(grammar: Grammar, sql: Seq<char>) -> Result<QueryTree, ErrorView> {
    match sql_statements(grammar, sql) {
        Err(source) => Err(ErrorView::Query(source)),
        Ok(statements) => if statements.len() != 1 {
            Err(ErrorView::NotQuery)
        } else {
            match statements[0] {
                Some(query) => Ok(query),
                None => Err(ErrorView::NotQuery),
            }
        },
    }
}

/// A writer over a query, whose own placeholders are numbered first.
pub open spec fn started(query: QueryTree) -> WriterView {
    WriterView {
        statement: numbered_node(NodeTree::Whole(query), 0)->Whole_0,
        filters: Seq::empty(),
        order: Seq::empty(),
        limit: None,
        arity: arity(NodeTree::Whole(query)),
        binds: Seq::empty(),
        failure: None,
    }
}

/// A writer in which something went wrong. The first failure is the one that is kept.
pub open spec fn failed(w: WriterView, error: ErrorView) -> WriterView {
    if w.failure is None {
        WriterView { failure: Some(error), ..w }
    } else {
        w
    }
}

/// What is asked for can be numbered behind what a writer holds.
pub open spec fn filter_fits(w: WriterView, asked: Result<FilterAsked, ErrorView>) -> bool {
    asked matches Ok(filter) ==> (filter.expr matches Some(tree) ==> can_number(
        NodeTree::Condition(tree),
        w.arity,
    ))
}

/// A writer with one more condition, whose placeholders claim the values behind those that
/// are claimed. The values that the condition brings are bound behind those that are bound.
pub open spec fn filtered(w: WriterView, asked: Result<FilterAsked, ErrorView>) -> WriterView {
    match asked {
        Err(error) => failed(w, error),
        Ok(filter) => match filter.expr {
            None => WriterView { binds: w.binds + bound_literals(filter.values), ..w },
            Some(tree) => WriterView {
                filters: w.filters.push(
                    numbered_node(NodeTree::Condition(tree), w.arity)->Condition_0,
                ),
                arity: w.arity + arity(NodeTree::Condition(tree)),
                binds: w.binds + bound_literals(filter.values),
                ..w
            },
        },
    }
}

/// What is asked for can be numbered behind what a writer holds.
pub open spec fn sort_fits(w: WriterView, asked: Result<Seq<TermTree>, ErrorView>) -> bool {
    asked matches Ok(terms) ==> can_number(NodeTree::Terms(terms), w.arity)
}

/// A writer with more terms to order by, behind those that it has.
pub open spec fn sorted(w: WriterView, asked: Result<Seq<TermTree>, ErrorView>) -> WriterView {
    match asked {
        Err(error) => failed(w, error),
        Ok(terms) => WriterView {
            order: w.order + numbered_node(NodeTree::Terms(terms), w.arity)->Terms_0,
            arity: w.arity + arity(NodeTree::Terms(terms)),
            ..w
        },
    }
}

// ---------------------------------------------------------------------------
// What a writer renders
// ---------------------------------------------------------------------------

/// A `GROUP BY` is there.
pub open spec fn groups(grouping: Grouping) -> bool {
    match grouping {
        Grouping::All => true,
        Grouping::By(exprs, modifiers) => exprs > 0 || modifiers > 0,
    }
}

/// What a query selects by, joined with the first `n` conditions. What is there is kept, and
/// an `OR` on either side keeps its meaning.
pub open spec fn conjoined(selection: Option<SqlTree>, filters: Seq<SqlTree>, n: nat) -> Option<
    SqlTree,
>
    decreases n,
{
    if n == 0 {
        selection
    } else {
        match conjoined(selection, filters, (n - 1) as nat) {
            None => Some(filters[n - 1]),
            Some(existing) => Some(
                SqlTree::Binary(
                    Operator::And,
                    Box::new(parenthesized(existing)),
                    Box::new(parenthesized(filters[n - 1])),
                ),
            ),
        }
    }
}

/// A query with its conditions, or why it cannot have any.
pub open spec fn with_filters(query: QueryTree, filters: Seq<SqlTree>) -> Result<
    QueryTree,
    ErrorView,
> {
    if filters.len() == 0 {
        Ok(query)
    } else {
        match query.select {
            None => Err(ErrorView::SetOperation),
            Some(select) => if groups(select.grouping) {
                Err(ErrorView::Grouped)
            } else {
                Ok(
                    QueryTree {
                        select: Some(
                            SelectTree {
                                selection: conjoined(select.selection, filters, filters.len()),
                                ..select
                            },
                        ),
                        ..query
                    },
                )
            },
        }
    }
}

/// What makes an expression the same column as another: its names, whatever their quotes, or
/// else its text.
pub enum Identity {
    Named(Seq<Seq<char>>),
    Shown(Seq<char>),
}

/// What makes an expression the same column as another.
pub open spec fn identity(tree: SqlTree) -> Identity {
    match names_of(tree) {
        Some(names) => Identity::Named(names),
        None => Identity::Shown(sql_shown(NodeTree::Condition(tree))),
    }
}

/// A term orders by the same column.
pub open spec fn orders_by(terms: Seq<TermTree>, tree: SqlTree) -> bool {
    exists|i: int| 0 <= i < terms.len() && identity((#[trigger] terms[i]).expr) == identity(tree)
}

/// The first `n` terms, each column only where it is named first.
pub open spec fn first_mentions(terms: Seq<TermTree>, n: nat) -> Seq<TermTree>
    decreases n,
{
    if n == 0 {
        Seq::empty()
    } else {
        let kept = first_mentions(terms, (n - 1) as nat);
        if orders_by(kept, terms[n - 1].expr) {
            kept
        } else {
            kept.push(terms[n - 1])
        }
    }
}

/// A query with its ordering in front of the one that it had.
pub open spec fn with_order(query: QueryTree, order: Seq<TermTree>) -> QueryTree {
    if order.len() == 0 {
        query
    } else {
        let terms = order + own_terms(query.order);
        QueryTree { order: OrderTree::Terms(first_mentions(terms, terms.len()), 0), ..query }
    }
}

/// A query with its limit, in place of the one that it had.
pub open spec fn with_limit(query: QueryTree, limit: Option<u64>) -> QueryTree {
    match limit {
        Some(rows) => QueryTree { limit: LimitTree::Rows(rows), ..query },
        None => query,
    }
}

/// The statement of a writer, before its placeholders are written out.
pub open spec fn assembled(w: WriterView) -> Result<QueryTree, ErrorView> {
    match w.failure {
        Some(error) => Err(error),
        None => match with_filters(w.statement, w.filters) {
            Err(error) => Err(error),
            Ok(query) => Ok(with_limit(with_order(query, w.order), w.limit)),
        },
    }
}

/// What a writer renders: the statement, and the value that each placeholder takes.
pub open spec fn rendered<DB: Syntax>(w: WriterView) -> Result<(Seq<char>, Seq<nat>), ErrorView> {
    match assembled(w) {
        Err(error) => Err(error),
        Ok(query) => match written::<DB>(sql_shown(NodeTree::Whole(query)), w.arity) {
            Ok(found) => Ok(found),
            Err(WriteFault::Orphaned) => Err(ErrorView::Orphaned),
            Err(WriteFault::Positional) => Err(ErrorView::Positional),
        },
    }
}

/// Every value that a placeholder takes is there.
pub open spec fn all_below(order: Seq<nat>, n: nat) -> bool {
    forall|i: int| 0 <= i < order.len() ==> (#[trigger] order[i]) < n
}

/// The statement of a writer and its values in the order in which the driver takes them: as
/// they were given where placeholders name them, as they render where they are bound by
/// position.
pub open spec fn finished<DB: Syntax>(w: WriterView) -> Result<
    (Seq<char>, Seq<BindView>),
    ErrorView,
> {
    match rendered::<DB>(w) {
        Err(error) => Err(error),
        Ok((sql, order)) => if w.binds.len() != w.arity {
            Err(ErrorView::Arity { wanted: w.arity, given: w.binds.len() })
        } else if !DB::by_position() {
            Ok((sql, w.binds))
        } else if !all_below(order, w.binds.len()) {
            Err(ErrorView::Arity { wanted: w.arity, given: w.binds.len() })
        } else {
            Ok((sql, Seq::new(order.len(), |i: int| w.binds[order[i] as int])))
        },
    }
}

/// What makes an expression the same column as another, as plain values.
enum Mark {
    Named(Vec<String>),
    Shown(String),
}

spec fn mark_view(mark: Mark) -> Identity {
    match mark {
        Mark::Named(names) => Identity::Named(strings(names@)),
        Mark::Shown(text) => Identity::Shown(text@),
    }
}

fn identify(expr: &sqlparser::ast::Expr) -> (r: Mark)
    ensures
        mark_view(r) == identity(expr_tree(*expr)),
{
    match look_at_names(expr) {
        Some(names) => Mark::Named(names),
        None => {
            let node = Node::Condition(copy_expr(expr));
            Mark::Shown(show(&node))
        },
    }
}

fn same_names(a: &Vec<String>, b: &Vec<String>) -> (r: bool)
    ensures
        r == (strings(a@) == strings(b@)),
{
    if a.len() != b.len() {
        assert(strings(a@).len() != strings(b@).len());
        return false;
    }
    let mut i: usize = 0;
    while i < a.len()
        invariant
            i <= a.len(),
            a.len() == b.len(),
            forall|j: int| 0 <= j < i ==> (#[trigger] a@[j])@ == b@[j]@,
        decreases a.len() - i,
    {
        if !same(a[i].as_str(), b[i].as_str()) {
            assert(strings(a@)[i as int] != strings(b@)[i as int]);
            return false;
        }
        i += 1;
    }
    assert(strings(a@) =~= strings(b@));
    true
}

fn same_mark(a: &Mark, b: &Mark) -> (r: bool)
    ensures
        r == (mark_view(*a) == mark_view(*b)),
{
    match (a, b) {
        (Mark::Named(x), Mark::Named(y)) => same_names(x, y),
        (Mark::Shown(x), Mark::Shown(y)) => same(x.as_str(), y.as_str()),
        _ => false,
    }
}

/// Keeps each column only where it is named first.
fn keep_first_mentions(terms: Vec<sqlparser::ast::OrderByExpr>) -> (r: Vec<
    sqlparser::ast::OrderByExpr,
>)
    ensures
        term_trees(r@) == first_mentions(term_trees(terms@), terms@.len()),
{
    let ghost all = term_trees(terms@);
    let mut kept: Vec<sqlparser::ast::OrderByExpr> = Vec::new();
    let mut marks: Vec<Mark> = Vec::new();
    let mut i: usize = 0;
    assert(term_trees(kept@) =~= Seq::<TermTree>::empty());
    while i < terms.len()
        invariant
            i <= terms.len(),
            all == term_trees(terms@),
            marks.len() == kept.len(),
            term_trees(kept@) == first_mentions(all, i as nat),
            forall|j: int|
                0 <= j < marks@.len() ==> mark_view(#[trigger] marks@[j]) == identity(
                    term_trees(kept@)[j].expr,
                ),
        decreases terms.len() - i,
    {
        assert(all[i as int] == term_tree(terms@[i as int]));
        let mark = identify(term_expr(&terms[i]));
        let ghost before = term_trees(kept@);
        let mut known = false;
        let mut k: usize = 0;
        while k < marks.len()
            invariant
                k <= marks.len(),
                marks.len() == before.len(),
                mark_view(mark) == identity(all[i as int].expr),
                forall|j: int|
                    0 <= j < marks@.len() ==> mark_view(#[trigger] marks@[j]) == identity(
                        before[j].expr,
                    ),
                known ==> orders_by(before, all[i as int].expr),
                !known ==> forall|j: int|
                    0 <= j < k ==> identity((#[trigger] before[j]).expr) != identity(
                        all[i as int].expr,
                    ),
            decreases marks.len() - k,
        {
            if same_mark(&marks[k], &mark) {
                assert(identity(before[k as int].expr) == identity(all[i as int].expr));
                known = true;
            }
            k += 1;
        }
        if !known {
            let term = copy_term(&terms[i]);
            kept.push(term);
            marks.push(mark);
            assert(term_trees(kept@) =~= before.push(all[i as int]));
        }
        i += 1;
    }
    kept
}

fn copy_terms(terms: &Vec<sqlparser::ast::OrderByExpr>) -> (r: Vec<sqlparser::ast::OrderByExpr>)
    ensures
        term_trees(r@) == term_trees(terms@),
{
    let mut r: Vec<sqlparser::ast::OrderByExpr> = Vec::new();
    let mut i: usize = 0;
    while i < terms.len()
        invariant
            i <= terms.len(),
            r.len() == i,
            forall|j: int| 0 <= j < i ==> term_tree(#[trigger] r@[j]) == term_tree(terms@[j]),
        decreases terms.len() - i,
    {
        r.push(copy_term(&terms[i]));
        i += 1;
    }
    assert(term_trees(r@) =~= term_trees(terms@));
    r
}

fn append_terms(
    into: &mut Vec<sqlparser::ast::OrderByExpr>,
    more: Vec<sqlparser::ast::OrderByExpr>,
)
    ensures
        term_trees(final(into)@) == term_trees(old(into)@) + term_trees(more@),
{
    let mut more = more;
    let ghost before = term_trees(into@);
    let ghost added = term_trees(more@);
    into.append(&mut more);
    assert(term_trees(into@) =~= before + added);
}

// ---------------------------------------------------------------------------
// The writer
// ---------------------------------------------------------------------------

/// Adds filters and ordering to a query that was already written.
///
/// The query stays a query: fragments are parsed and grafted onto its syntax tree. A fragment
/// that does not parse is remembered, and the first failure is returned whenever the query is
/// asked for.
pub struct QueryWriter<DB> {
    statement: sqlparser::ast::Query,
    filters: Vec<sqlparser::ast::Expr>,
    order: Vec<sqlparser::ast::OrderByExpr>,
    limit: Option<u64>,
    arity: usize,
    binds: Vec<Bind>,
    failure: Option<Error>,
    database: PhantomData<DB>,
}

impl<DB> View for QueryWriter<DB> {
    type V = WriterView;

    closed spec fn view(&self) -> WriterView {
        WriterView {
            statement: query_tree(self.statement),
            filters: expr_trees(self.filters@),
            order: term_trees(self.order@),
            limit: self.limit,
            arity: self.arity as nat,
            binds: bind_views(self.binds@),
            failure: match self.failure {
                Some(error) => Some(error@),
                None => None,
            },
        }
    }
}

impl<DB: Syntax> QueryWriter<DB> {
    /// Reads the query that is to be rewritten. `None` where its placeholders cannot be
    /// numbered: one asks for a zeroth value, or for more than can be counted.
    pub fn open(sql: &str) -> (r: Result<Option<QueryWriter<DB>>, Error>)
        ensures
            match (r, opened(DB::reads(), sql@)) {
                (Ok(Some(writer)), Ok(query)) => can_number(NodeTree::Whole(query), 0) && writer@
                    == started(query),
                (Ok(None), Ok(query)) => !can_number(NodeTree::Whole(query), 0),
                (Err(error), Err(found)) => error@ == found,
                _ => false,
            },
    {
        let mut statements = match parse_statements(DB::grammar(), sql) {
            Ok(statements) => statements,
            Err(source) => {
                return Err(Error::Query(source));
            },
        };
        let ghost seen = statements@.map_values(
            |statement: Option<sqlparser::ast::Query>| statement_tree(statement),
        );
        assert(seen.len() == statements@.len());
        if statements.len() != 1 {
            return Err(Error::NotQuery);
        }
        assert(seen[0] == statement_tree(statements@[0]));
        let query = match statements.remove(0) {
            Some(query) => query,
            None => {
                return Err(Error::NotQuery);
            },
        };
        let ghost tree = query_tree(query);
        match number_node(Node::Whole(query), 0) {
            Some((Node::Whole(statement), arity)) => {
                let writer = QueryWriter {
                    statement,
                    filters: Vec::new(),
                    order: Vec::new(),
                    limit: None,
                    arity,
                    binds: Vec::new(),
                    failure: None,
                    database: PhantomData,
                };
                assert(writer@ =~= started(tree));
                Ok(Some(writer))
            },
            _ => Ok(None),
        }
    }

    /// Reads the query that is to be rewritten.
    pub fn new(sql: &str) -> (r: Result<QueryWriter<DB>, Error>)
        requires
            opened(DB::reads(), sql@) matches Ok(query) ==> can_number(NodeTree::Whole(query), 0),
        ensures
            match (r, opened(DB::reads(), sql@)) {
                (Ok(writer), Ok(query)) => writer@ == started(query),
                (Err(error), Err(found)) => error@ == found,
                _ => false,
            },
    {
        match QueryWriter::open(sql) {
            Ok(Some(writer)) => Ok(writer),
            Ok(None) => Err(Error::NotQuery),
            Err(error) => Err(error),
        }
    }

    /// Binds the next value. Values are given in the order in which the placeholders claim
    /// them: the query's first, then each fragment's.
    pub fn bind(&mut self, value: Literal) -> (r: &mut Self)
        ensures
            r@ == (WriterView { binds: old(self)@.binds.push(BindView::Literal(value@)), ..old(self)@
            }),
            *final(self) == *final(r),
    {
        let ghost before = self@;
        self.binds.push(Bind::Literal(value));
        assert(self@ =~= (WriterView {
            binds: before.binds.push(BindView::Literal(value@)),
            ..before
        }));
        self
    }

    /// Binds a value that only the driver can encode.
    pub fn bind_opaque(&mut self, handle: u64) -> (r: &mut Self)
        ensures
            r@ == (WriterView { binds: old(self)@.binds.push(BindView::Opaque(handle)), ..old(self)@
            }),
            *final(self) == *final(r),
    {
        let ghost before = self@;
        self.binds.push(Bind::Opaque(handle));
        assert(self@ =~= (WriterView { binds: before.binds.push(BindView::Opaque(handle)), ..before
        }));
        self
    }

    /// Records a failure. The first one is kept: it is the one that explains the rest.
    pub fn fail(&mut self, error: Error)
        ensures
            final(self)@ == failed(old(self)@, error@),
    {
        if self.failure.is_none() {
            self.failure = Some(error);
        }
    }

    /// Joins a condition onto the query's `WHERE` with `AND`, and says whether it could: a
    /// condition whose placeholders cannot be numbered is not added.
    pub fn try_filter<F: IntoFilterExpr>(&mut self, filter: F) -> (b: bool)
        ensures
            b == filter_fits(old(self)@, filter.asks(DB::reads())),
            b ==> final(self)@ == filtered(old(self)@, filter.asks(DB::reads())),
            !b ==> final(self)@ == old(self)@,
    {
        let ghost before = self@;
        let ghost asked = filter.asks(DB::reads());
        let found = match filter.into_filter_expr::<DB>() {
            Ok(found) => found,
            Err(error) => {
                self.fail(error);
                return true;
            },
        };
        let FilterExpr { expr, values } = found;
        let ghost views = literal_views(values@);
        if let Some(expr) = expr {
            match number_node(Node::Condition(expr), self.arity) {
                Some((Node::Condition(numbered), claimed)) => {
                    let ghost held = expr_trees(self.filters@);
                    self.filters.push(numbered);
                    assert(expr_trees(self.filters@) =~= held.push(expr_tree(numbered)));
                    self.arity = self.arity + claimed;
                },
                _ => {
                    return false;
                },
            }
        }
        let ghost binds = bind_views(self.binds@);
        let ghost middle = self@;
        let mut i: usize = 0;
        assert(binds + bound_literals(views.take(0)) =~= binds);
        while i < values.len()
            invariant
                i <= values.len(),
                views == literal_views(values@),
                bind_views(self.binds@) == binds + bound_literals(views.take(i as int)),
                self@.statement == middle.statement,
                self@.filters == middle.filters,
                self@.order == middle.order,
                self@.limit == middle.limit,
                self@.arity == middle.arity,
                self@.failure == middle.failure,
            decreases values.len() - i,
        {
            let ghost held = bind_views(self.binds@);
            let value = values[i].clone();
            self.binds.push(Bind::Literal(value));
            proof {
                assert(views[i as int] == values@[i as int]@);
                assert(bind_views(self.binds@) =~= held.push(BindView::Literal(views[i as int])));
                assert(views.take(i + 1) =~= views.take(i as int).push(views[i as int]));
                assert(bound_literals(views.take(i + 1)) =~= bound_literals(
                    views.take(i as int),
                ).push(bound_literal(views[i as int])));
                assert(bind_views(self.binds@) =~= binds + bound_literals(views.take(i + 1)));
            }
            i += 1;
        }
        assert(views.take(i as int) =~= views);
        assert(self@ =~= filtered(before, asked));
        true
    }

    /// Joins a condition onto the query's `WHERE` with `AND`. What is there is kept and
    /// joined the same way; this never replaces a condition.
    pub fn filter<F: IntoFilterExpr>(&mut self, filter: F) -> (r: &mut Self)
        requires
            filter_fits(old(self)@, filter.asks(DB::reads())),
        ensures
            r@ == filtered(old(self)@, filter.asks(DB::reads())),
            *final(self) == *final(r),
    {
        self.try_filter(filter);
        self
    }

    /// Joins a fragment of SQL onto the query's `WHERE` with `AND`.
    pub fn filter_by(&mut self, fragment: &str) -> (r: &mut Self)
        requires
            filter_fits(old(self)@, fragment_condition(DB::reads(), fragment@)),
        ensures
            r@ == filtered(old(self)@, fragment_condition(DB::reads(), fragment@)),
            *final(self) == *final(r),
    {
        self.try_filter(fragment);
        self
    }

    /// Puts an ordering in front of the query's `ORDER BY`, and says whether it could: one
    /// whose placeholders cannot be numbered is not added.
    pub fn try_sort<S: IntoSortExpr>(&mut self, sort: S) -> (b: bool)
        ensures
            b == sort_fits(old(self)@, sort.asks(DB::reads())),
            b ==> final(self)@ == sorted(old(self)@, sort.asks(DB::reads())),
            !b ==> final(self)@ == old(self)@,
    {
        let ghost before = self@;
        let ghost asked = sort.asks(DB::reads());
        let found = match sort.into_sort_expr::<DB>() {
            Ok(found) => found,
            Err(error) => {
                self.fail(error);
                return true;
            },
        };
        match number_node(Node::Terms(found.terms), self.arity) {
            Some((Node::Terms(numbered), claimed)) => {
                append_terms(&mut self.order, numbered);
                self.arity = self.arity + claimed;
                assert(self@ =~= sorted(before, asked));
                true
            },
            _ => false,
        }
    }

    /// Puts an ordering in front of the query's `ORDER BY`. What the query ordered by moves
    /// behind it as a tiebreaker; a column that is named twice is ordered by once, where it
    /// is named first.
    pub fn sort<S: IntoSortExpr>(&mut self, sort: S) -> (r: &mut Self)
        requires
            sort_fits(old(self)@, sort.asks(DB::reads())),
        ensures
            r@ == sorted(old(self)@, sort.asks(DB::reads())),
            *final(self) == *final(r),
    {
        self.try_sort(sort);
        self
    }

    /// Puts a fragment of SQL in front of the query's `ORDER BY`.
    pub fn order_by(&mut self, fragment: &str) -> (r: &mut Self)
        requires
            sort_fits(old(self)@, fragment_order(DB::reads(), fragment@)),
        ensures
            r@ == sorted(old(self)@, fragment_order(DB::reads(), fragment@)),
            *final(self) == *final(r),
    {
        self.try_sort(fragment);
        self
    }

    /// Sets `LIMIT`, in place of the query's own.
    pub fn limit(&mut self, rows: u64) -> (r: &mut Self)
        ensures
            r@ == (WriterView { limit: Some(rows), ..old(self)@ }),
            *final(self) == *final(r),
    {
        let ghost before = self@;
        self.limit = Some(rows);
        assert(self@ =~= (WriterView { limit: Some(rows), ..before }));
        self
    }

    fn apply_filters(&self, query: sqlparser::ast::Query) -> (r: Result<
        sqlparser::ast::Query,
        Error,
    >)
        ensures
            match (r, with_filters(query_tree(query), self@.filters)) {
                (Ok(done), Ok(found)) => query_tree(done) == found,
                (Err(error), Err(found)) => error@ == found,
                _ => false,
            },
    {
        let ghost tree = query_tree(query);
        assert(self@.filters.len() == self.filters@.len());
        if self.filters.len() == 0 {
            return Ok(query);
        }
        let (grouping, selection) = match look_at_select(&query) {
            Some(select) => select,
            None => {
                return Err(Error::SetOperation);
            },
        };
        let grouped = match grouping {
            Grouping::All => true,
            Grouping::By(exprs, modifiers) => exprs > 0 || modifiers > 0,
        };
        if grouped {
            return Err(Error::Grouped);
        }
        let ghost filters = self@.filters;
        let ghost own = tree.select->0.selection;
        assert(filters[0] == expr_tree(self.filters@[0]));
        let mut joined = match selection {
            None => copy_expr(&self.filters[0]),
            Some(existing) => make_binary(
                Operator::And,
                parenthesize(existing),
                parenthesize(copy_expr(&self.filters[0])),
            ),
        };
        let mut i: usize = 1;
        assert(conjoined(own, filters, 0) == own);
        while i < self.filters.len()
            invariant
                1 <= i <= self.filters.len(),
                filters == self@.filters,
                conjoined(own, filters, i as nat) == Some(expr_tree(joined)),
            decreases self.filters.len() - i,
        {
            assert(filters[i as int] == expr_tree(self.filters@[i as int]));
            joined = make_binary(
                Operator::And,
                parenthesize(joined),
                parenthesize(copy_expr(&self.filters[i])),
            );
            i += 1;
        }
        Ok(changed(&query, Change::Selection(joined)))
    }

    fn apply_order_by(&self, query: sqlparser::ast::Query) -> (r: sqlparser::ast::Query)
        ensures
            query_tree(r) == with_order(query_tree(query), self@.order),
    {
        assert(self@.order.len() == self.order@.len());
        if self.order.len() == 0 {
            return query;
        }
        let mut terms = copy_terms(&self.order);
        append_terms(&mut terms, look_at_order(&query));
        let ghost all = term_trees(terms@);
        assert(all.len() == terms@.len());
        changed(&query, Change::Order(keep_first_mentions(terms)))
    }

    fn apply_limit(&self, query: sqlparser::ast::Query) -> (r: sqlparser::ast::Query)
        ensures
            query_tree(r) == with_limit(query_tree(query), self@.limit),
    {
        match self.limit {
            Some(rows) => changed(&query, Change::Limit(rows)),
            None => query,
        }
    }

    /// Assembles the statement, and says which value each placeholder takes, in the order in
    /// which they render.
    pub fn render(&self) -> (r: Result<(String, Vec<usize>), Error>)
        ensures
            match (r, rendered::<DB>(self@)) {
                (Ok((sql, order)), Ok((text, slots))) => sql@ == text && index_views(order@)
                    == slots,
                (Err(error), Err(found)) => error@ == found,
                _ => false,
            },
    {
        if let Some(failure) = &self.failure {
            return Err(failure.clone());
        }
        let query = match self.apply_filters(changed(&self.statement, Change::Nothing)) {
            Ok(query) => query,
            Err(error) => {
                return Err(error);
            },
        };
        let node = Node::Whole(self.apply_limit(self.apply_order_by(query)));
        let sql = show(&node);
        match write_out::<DB>(sql.as_str(), self.arity) {
            Ok(done) => Ok(done),
            Err(Refusal::Orphaned) => Err(Error::Orphaned),
            Err(Refusal::Positional) => Err(Error::Positional),
        }
    }

    /// Renders the rewritten query.
    pub fn sql(&self) -> (r: Result<String, Error>)
        ensures
            match (r, rendered::<DB>(self@)) {
                (Ok(sql), Ok((text, _))) => sql@ == text,
                (Err(error), Err(found)) => error@ == found,
                _ => false,
            },
    {
        match self.render() {
            Ok((sql, _)) => Ok(sql),
            Err(error) => Err(error),
        }
    }

    /// Renders the query, with its values in the order in which the driver takes them.
    pub fn build(&self) -> (r: Result<(String, Vec<Bind>), Error>)
        ensures
            match (r, finished::<DB>(self@)) {
                (Ok((sql, binds)), Ok((text, values))) => sql@ == text && bind_views(binds@)
                    == values,
                (Err(error), Err(found)) => error@ == found,
                _ => false,
            },
    {
        let (sql, order) = match self.render() {
            Ok(done) => done,
            Err(error) => {
                return Err(error);
            },
        };
        let ghost slots = index_views(order@);
        let ghost values = bind_views(self.binds@);
        assert(values.len() == self.binds@.len());
        let mut binds: Vec<Bind> = Vec::new();
        if self.binds.len() != self.arity {
            return Err(Error::Arity { wanted: self.arity, given: self.binds.len() });
        }
        let positional = DB::positional();
        let count: usize = if positional {
            order.len()
        } else {
            self.binds.len()
        };
        let mut i: usize = 0;
        while i < count
            invariant
                i <= count,
                positional == DB::by_position(),
                count == if positional {
                    order@.len()
                } else {
                    self.binds@.len()
                },
                binds.len() == i,
                slots == index_views(order@),
                values == bind_views(self.binds@),
                values == self@.binds,
                self@.binds.len() == self@.arity,
                self@.arity == self.arity,
                rendered::<DB>(self@) matches Ok((text, found)) && text == sql@ && found == slots,
                forall|j: int|
                    0 <= j < i ==> (#[trigger] binds@[j])@ == (if positional {
                        values[slots[j] as int]
                    } else {
                        values[j]
                    }),
                positional ==> forall|j: int|
                    0 <= j < i ==> (#[trigger] slots[j]) < self@.binds.len(),
            decreases count - i,
        {
            let slot: usize = if positional {
                order[i]
            } else {
                i
            };
            if slot >= self.binds.len() {
                assert(slots[i as int] == slot);
                assert(!all_below(slots, self@.binds.len()));
                return Err(Error::Arity { wanted: self.arity, given: self.binds.len() });
            }
            assert(values[slot as int] == self.binds@[slot as int]@);
            binds.push(self.binds[slot].clone());
            i += 1;
        }
        proof {
            if positional {
                assert(slots.len() == order@.len());
                assert(all_below(slots, self@.binds.len()));
                assert(bind_views(binds@) =~= Seq::new(
                    slots.len(),
                    |j: int| self@.binds[slots[j] as int],
                ));
            } else {
                assert(bind_views(binds@) =~= values);
            }
        }
        Ok((sql, binds))
    }
}

// ---------------------------------------------------------------------------
// Laws
// ---------------------------------------------------------------------------

/// Once something went wrong, that is what is reported, whatever is added after it.
pub proof fn law_the_first_failure_wins<DB: Syntax>(
    w: WriterView,
    filter: Result<FilterAsked, ErrorView>,
    sort: Result<Seq<TermTree>, ErrorView>,
)
    requires
        w.failure is Some,
    ensures
        rendered::<DB>(w) == Err::<(Seq<char>, Seq<nat>), ErrorView>(w.failure->0),
        rendered::<DB>(filtered(w, filter)) == rendered::<DB>(w),
        rendered::<DB>(sorted(w, sort)) == rendered::<DB>(w),
        finished::<DB>(filtered(w, filter)) == Err::<(Seq<char>, Seq<BindView>), ErrorView>(
            w.failure->0,
        ),
{
}

/// What an expression asserts of a row: what each part asserts where `AND` joins it, and what
/// the inside asserts where parentheses stand around it.
pub open spec fn conjuncts(tree: SqlTree) -> Seq<SqlTree>
    decreases tree,
{
    match tree {
        SqlTree::Binary(Operator::And, left, right) => conjuncts(*left) + conjuncts(*right),
        SqlTree::Nested(inner) => conjuncts(*inner),
        _ => seq![tree],
    }
}

proof fn lemma_parenthesized_asserts_the_same(tree: SqlTree)
    ensures
        conjuncts(parenthesized(tree)) == conjuncts(tree),
{
}

/// What the first `n` conditions assert.
pub open spec fn all_conjuncts(filters: Seq<SqlTree>, n: nat) -> Seq<SqlTree>
    decreases n,
{
    if n == 0 {
        Seq::empty()
    } else {
        all_conjuncts(filters, (n - 1) as nat) + conjuncts(filters[n - 1])
    }
}

/// Filtering adds conditions and never replaces one: the rows that are left satisfy what the
/// query asked for and then every condition that was added, in order, and nothing else. An
/// `OR` on either side stays whole.
pub proof fn law_filtering_only_narrows(
    selection: Option<SqlTree>,
    filters: Seq<SqlTree>,
    n: nat,
)
    requires
        n <= filters.len(),
    ensures
        match conjoined(selection, filters, n) {
            Some(tree) => conjuncts(tree) == match selection {
                Some(own) => conjuncts(own),
                None => Seq::empty(),
            } + all_conjuncts(filters, n),
            None => selection is None && n == 0,
        },
    decreases n,
{
    if n == 0 {
        if let Some(own) = selection {
            assert(conjuncts(own) + Seq::<SqlTree>::empty() =~= conjuncts(own));
        }
    } else {
        law_filtering_only_narrows(selection, filters, (n - 1) as nat);
        let before = conjoined(selection, filters, (n - 1) as nat);
        let own = match selection {
            Some(own) => conjuncts(own),
            None => Seq::empty(),
        };
        let last = conjuncts(filters[n - 1]);
        lemma_parenthesized_asserts_the_same(filters[n - 1]);
        match before {
            Some(tree) => {
                lemma_parenthesized_asserts_the_same(tree);
                assert((own + all_conjuncts(filters, (n - 1) as nat)) + last =~= own
                    + all_conjuncts(filters, n));
            },
            None => {
                assert(last =~= own + all_conjuncts(filters, n));
            },
        }
    }
}

/// Everything that is layered over a query leaves the rest of it alone: which tables it reads
/// and what it selects, and its grouping.
pub proof fn law_a_rewrite_leaves_the_rest_alone(w: WriterView)
    ensures
        assembled(w) matches Ok(query) ==> {
            &&& query.rest == w.statement.rest
            &&& query.select is Some == w.statement.select is Some
            &&& query.select matches Some(select) ==> select.grouping
                == w.statement.select->0.grouping
            &&& w.filters.len() == 0 ==> query.select == w.statement.select
            &&& w.order.len() == 0 ==> query.order == w.statement.order
            &&& w.limit is None ==> query.limit == w.statement.limit
        },
{
}

/// Each column is ordered by once, and every column that was named is still ordered by.
pub proof fn law_a_column_is_ordered_by_once(terms: Seq<TermTree>, n: nat)
    requires
        n <= terms.len(),
    ensures
        forall|i: int, j: int|
            0 <= i < j < first_mentions(terms, n).len() ==> identity(
                (#[trigger] first_mentions(terms, n)[i]).expr,
            ) != identity((#[trigger] first_mentions(terms, n)[j]).expr),
        forall|i: int|
            0 <= i < n ==> orders_by(first_mentions(terms, n), (#[trigger] terms[i]).expr),
    decreases n,
{
    if n > 0 {
        law_a_column_is_ordered_by_once(terms, (n - 1) as nat);
        let before = first_mentions(terms, (n - 1) as nat);
        let after = first_mentions(terms, n);
        let last = terms[n - 1];
        assert forall|i: int| 0 <= i < n implies orders_by(after, (#[trigger] terms[i]).expr) by {
            if i < n - 1 {
                assert(orders_by(before, terms[i].expr));
                let k = choose|k: int|
                    0 <= k < before.len() && identity((#[trigger] before[k]).expr) == identity(
                        terms[i].expr,
                    );
                assert(after[k] == before[k]);
            } else if !orders_by(before, last.expr) {
                assert(after[before.len() as int] == last);
            }
        }
        assert forall|i: int, j: int| 0 <= i < j < after.len() implies identity(
            (#[trigger] after[i]).expr,
        ) != identity((#[trigger] after[j]).expr) by {
            assert(after[i] == before[i]);
            if j < before.len() {
                assert(after[j] == before[j]);
            }
        }
    }
}

/// The ordering that was asked for comes first: its first term leads, with the direction that
/// was asked for.
pub proof fn law_the_asked_ordering_leads(query: QueryTree, order: Seq<TermTree>)
    requires
        order.len() > 0,
    ensures
        own_terms(with_order(query, order).order).len() > 0,
        own_terms(with_order(query, order).order)[0] == order[0],
{
    let terms = order + own_terms(query.order);
    lemma_first_leads(terms, terms.len());
    assert(terms[0] == order[0]);
}

proof fn lemma_first_leads(terms: Seq<TermTree>, n: nat)
    requires
        0 < n <= terms.len(),
    ensures
        first_mentions(terms, n).len() > 0,
        first_mentions(terms, n)[0] == terms[0],
    decreases n,
{
    if n > 1 {
        lemma_first_leads(terms, (n - 1) as nat);
    } else {
        assert(first_mentions(terms, 0) =~= Seq::<TermTree>::empty());
        assert(first_mentions(terms, 1) =~= seq![terms[0]]);
    }
}

/// A driver that numbers its placeholders takes the values as they were given.
pub proof fn law_named_values_keep_their_order<DB: Syntax>(w: WriterView)
    requires
        !DB::by_position(),
    ensures
        finished::<DB>(w) matches Ok((_, values)) ==> values == w.binds,
{
}

/// Only a plain `SELECT` without a `GROUP BY` takes conditions: anything else is refused as soon as
/// there is one, and left as it is where there is none.
pub proof fn law_only_a_plain_select_takes_conditions(query: QueryTree, filters: Seq<SqlTree>)
    ensures
        filters.len() == 0 ==> with_filters(query, filters) == Ok::<QueryTree, ErrorView>(query),
        filters.len() > 0 ==> match query.select {
            None => with_filters(query, filters) == Err::<QueryTree, ErrorView>(
                ErrorView::SetOperation,
            ),
            Some(select) => match select.grouping {
                Grouping::By(0, 0) => with_filters(query, filters) is Ok,
                _ => with_filters(query, filters) == Err::<QueryTree, ErrorView>(
                    ErrorView::Grouped,
                ),
            },
        },
{
}

/// A limit takes the place of the query's own, and an ordering leads it: what was asked for comes
/// first and in full, each column once, and the query's own columns follow.
#[verifier::rlimit(50)]
pub proof fn law_a_limit_and_an_ordering_are_set(w: WriterView)
    ensures
        assembled(w) matches Ok(query) ==> {
            &&& w.limit matches Some(rows) ==> query.limit == LimitTree::Rows(rows)
            &&& w.order.len() > 0 ==> {
                let terms = w.order + own_terms(w.statement.order);
                &&& forall|i: int|
                    0 <= i < terms.len() ==> orders_by(
                        own_terms(query.order),
                        (#[trigger] terms[i]).expr,
                    )
                &&& forall|i: int|
                    0 <= i < own_terms(query.order).len() ==> exists|j: int|
                        0 <= j < terms.len() && #[trigger] terms[j] == #[trigger] own_terms(
                            query.order,
                        )[i] && forall|k: int|
                            0 <= k < j ==> identity((#[trigger] terms[k]).expr) != identity(
                                terms[j].expr,
                            )
            }
        },
{
    if let Ok(query) = assembled(w) {
        if w.order.len() > 0 {
            let terms = w.order + own_terms(w.statement.order);
            law_a_column_is_ordered_by_once(terms, terms.len());
            lemma_first_mentioned(terms, terms.len());
            assert(own_terms(query.order) == first_mentions(terms, terms.len()));
        }
    }
}

#[verifier::rlimit(50)]
proof fn lemma_first_mentioned(terms: Seq<TermTree>, n: nat)
    requires
        n <= terms.len(),
    ensures
        forall|i: int|
            0 <= i < first_mentions(terms, n).len() ==> exists|j: int|
                0 <= j < n && #[trigger] terms[j] == #[trigger] first_mentions(terms, n)[i]
                    && forall|k: int|
                    0 <= k < j ==> identity((#[trigger] terms[k]).expr) != identity(terms[j].expr),
    decreases n,
{
    if n > 0 {
        let before = (n - 1) as nat;
        lemma_first_mentioned(terms, before);
        law_a_column_is_ordered_by_once(terms, before);
        let kept = first_mentions(terms, before);
        let all = first_mentions(terms, n);
        assert forall|i: int| 0 <= i < all.len() implies exists|j: int|
            0 <= j < n && #[trigger] terms[j] == #[trigger] all[i] && forall|k: int|
                0 <= k < j ==> identity((#[trigger] terms[k]).expr) != identity(terms[j].expr) by {
            if i < kept.len() {
                assert(all[i] == kept[i]);
                let j = choose|j: int|
                    0 <= j < before && #[trigger] terms[j] == kept[i] && forall|k: int|
                        0 <= k < j ==> identity((#[trigger] terms[k]).expr) != identity(
                            terms[j].expr,
                        );
                assert(terms[j] == all[i]);
            } else {
                let j = n - 1;
                assert(terms[j] == all[i]);
                assert forall|k: int| 0 <= k < j implies identity((#[trigger] terms[k]).expr)
                    != identity(terms[j].expr) by {
                    assert(orders_by(kept, terms[k].expr));
                    if identity(terms[k].expr) == identity(terms[j].expr) {
                        let m = choose|m: int|
                            0 <= m < kept.len() && identity((#[trigger] kept[m]).expr) == identity(
                                terms[k].expr,
                            );
                        assert(identity(kept[m].expr) == identity(terms[j].expr));
                    }
                }
            }
        }
    }
}

/// A text is taken as a query only where it is one statement and that is a query; a fragment only
/// where all of it is read, and it brings no values of its own.
pub proof fn law_only_whole_texts_are_taken(grammar: Grammar, text: Seq<char>)
    ensures
        opened(grammar, text) matches Ok(query) ==> sql_statements(grammar, text) == Ok::<
            Seq<Option<QueryTree>>,
            Seq<char>,
        >(seq![Some(query)]),
        sql_statements(grammar, text) matches Ok(statements) ==> statements.len() == 1
            && statements[0] is Some ==> opened(grammar, text) is Ok,
        fragment_condition(grammar, text) matches Ok(found) ==> {
            &&& found.values.len() == 0
            &&& found.expr is Some
            &&& sql_expression(grammar, text) == Ok::<(SqlTree, Option<Seq<char>>), Seq<char>>(
                (found.expr->0, None),
            )
        },
        sql_expression(grammar, text) matches Ok((_, None)) ==> fragment_condition(
            grammar,
            text,
        ) is Ok,
        fragment_order(grammar, text) matches Ok(terms) ==> sql_terms(grammar, text) == Ok::<
            (Seq<TermTree>, Option<Seq<char>>),
            Seq<char>,
        >((terms, None)),
        sql_terms(grammar, text) matches Ok((_, None)) ==> fragment_order(grammar, text) is Ok,
{
    if let Ok(query) = opened(grammar, text) {
        assert(sql_statements(grammar, text)->Ok_0 =~= seq![Some(query)]);
    }
}

/// A condition or an ordering that was never resolved is refused; a condition that was brings its
/// values in the order in which it holds them, and one that asks for nothing adds nothing.
pub proof fn law_only_resolved_requests_are_taken(filter: &Filter, sort: &Sort, grammar: Grammar)
    ensures
        !filter@.resolved ==> IntoFilterExpr::asks(&filter, grammar) == Err::<
            FilterAsked,
            ErrorView,
        >(ErrorView::Unresolved),
        filter@.resolved ==> (IntoFilterExpr::asks(&filter, grammar) matches Ok(asked) && (
        match filter@.condition {
            None => asked.expr is None && asked.values.len() == 0,
            Some(condition) => asked.expr is Some && asked.values == values_in(condition),
        })),
        !sort@.resolved ==> IntoSortExpr::asks(&sort, grammar) == Err::<Seq<TermTree>, ErrorView>(
            ErrorView::Unresolved,
        ),
        sort@.resolved ==> IntoSortExpr::asks(&sort, grammar) == Ok::<Seq<TermTree>, ErrorView>(
            key_terms(sort@.keys),
        ),
{
}

/// Every layer adds to what is there: a condition stands behind those before it and binds its values
/// behind theirs, an ordering follows those before it, and neither changes anything else.
#[verifier::rlimit(50)]
pub proof fn law_each_layer_adds_to_the_last(
    w: WriterView,
    filter: FilterAsked,
    terms: Seq<TermTree>,
)
    ensures
        ({
            let next = filtered(w, Ok(filter));
            &&& next.statement == w.statement && next.order == w.order && next.limit == w.limit
            &&& next.failure == w.failure
            &&& next.filters.len() == w.filters.len() + if filter.expr is Some {
                1int
            } else {
                0int
            }
            &&& next.filters.take(w.filters.len() as int) == w.filters
            &&& next.binds.len() == w.binds.len() + filter.values.len()
            &&& next.binds.take(w.binds.len() as int) == w.binds
            &&& forall|i: int|
                0 <= i < filter.values.len() ==> #[trigger] next.binds[w.binds.len() + i]
                    == BindView::Literal(filter.values[i])
            &&& filter.expr matches Some(tree) ==> next.arity == w.arity + arity(
                NodeTree::Condition(tree),
            )
            &&& filter.expr is None ==> next.arity == w.arity
        }),
        ({
            let next = sorted(w, Ok(terms));
            &&& next.statement == w.statement && next.filters == w.filters && next.limit == w.limit
            &&& next.failure == w.failure && next.binds == w.binds
            &&& next.order.len() >= w.order.len()
            &&& next.order.take(w.order.len() as int) == w.order
            &&& next.arity == w.arity + arity(NodeTree::Terms(terms))
        }),
{
    let next = filtered(w, Ok(filter));
    assert(next.filters.take(w.filters.len() as int) =~= w.filters);
    assert(next.binds.take(w.binds.len() as int) =~= w.binds);
    assert forall|i: int| 0 <= i < filter.values.len() implies #[trigger] next.binds[w.binds.len()
        + i] == BindView::Literal(filter.values[i]) by {
        assert(bound_literals(filter.values)[i] == bound_literal(filter.values[i]));
    }
    assert(sorted(w, Ok(terms)).order.take(w.order.len() as int) =~= w.order);
}

/// There are as many values as placeholders claim, or the query is refused with both counts. Where
/// values are bound by position, each placeholder gets the value that it claims, in the order of
/// the text.
pub proof fn law_each_placeholder_gets_its_value<DB: Syntax>(w: WriterView)
    ensures
        rendered::<DB>(w) is Ok && w.binds.len() != w.arity ==> finished::<DB>(w) == Err::<
            (Seq<char>, Seq<BindView>),
            ErrorView,
        >(ErrorView::Arity { wanted: w.arity, given: w.binds.len() }),
        finished::<DB>(w) matches Ok((sql, values)) ==> w.binds.len() == w.arity && (rendered::<DB>(
            w,
        ) matches Ok((text, order)) && text == sql && (DB::by_position() ==> values.len()
            == order.len() && forall|i: int|
            0 <= i < order.len() ==> order[i] < w.binds.len() && #[trigger] values[i]
                == w.binds[order[i] as int])),
        rendered::<DB>(w) matches Err(error) ==> finished::<DB>(w) == Err::<
            (Seq<char>, Seq<BindView>),
            ErrorView,
        >(error),
{
}

/// A text of any kind is read as a fragment of SQL, as a condition and as an ordering.
pub proof fn law_a_text_is_read_as_a_fragment(
    slice: &str,
    text: String,
    borrowed: &String,
    grammar: Grammar,
)
    ensures
        IntoFilterExpr::asks(&slice, grammar) == fragment_condition(grammar, slice@),
        IntoFilterExpr::asks(&text, grammar) == fragment_condition(grammar, text@),
        IntoFilterExpr::asks(&borrowed, grammar) == fragment_condition(grammar, borrowed@),
        IntoSortExpr::asks(&slice, grammar) == fragment_order(grammar, slice@),
        IntoSortExpr::asks(&text, grammar) == fragment_order(grammar, text@),
        IntoSortExpr::asks(&borrowed, grammar) == fragment_order(grammar, borrowed@),
{
}

/// What is refused is what a writer reports, and it changes nothing else.
pub proof fn law_a_refused_layer_is_reported(w: WriterView, error: ErrorView)
    requires
        w.failure is None,
    ensures
        filtered(w, Err(error)) == (WriterView { failure: Some(error), ..w }),
        sorted(w, Err(error)) == (WriterView { failure: Some(error), ..w }),
        assembled(filtered(w, Err(error))) == Err::<QueryTree, ErrorView>(error),
{
}

/// Adding conditions never changes how one binds: where the text of the query's own condition and of
/// each that is added means what its tree says, so does the text of all of them together.
pub proof fn law_added_conditions_bind_as_they_were_written(
    selection: Option<SqlTree>,
    filters: Seq<SqlTree>,
    n: nat,
)
    requires
        n <= filters.len(),
        selection matches Some(tree) ==> well_nested(tree),
        forall|i: int| 0 <= i < n ==> well_nested(#[trigger] filters[i]),
    ensures
        conjoined(selection, filters, n) matches Some(tree) ==> well_nested(tree),
    decreases n,
{
    if n > 0 {
        law_added_conditions_bind_as_they_were_written(selection, filters, (n - 1) as nat);
        assert(well_nested(filters[n - 1]));
        reveal_with_fuel(well_nested, 3);
    }
}

} // verus!

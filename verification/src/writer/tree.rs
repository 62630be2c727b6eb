//! Statements and expressions as the SQL parser holds them.

use core::ops::ControlFlow;
use sqlparser::ast::{BinaryOperator, Expr, GroupByExpr, Ident, LimitClause, OrderBy, OrderByExpr};
use sqlparser::ast::{OrderByKind, OrderByOptions, OrderBySort, Query, SetExpr, Statement};
use sqlparser::ast::{UnaryOperator, Value as SqlValue};
use sqlparser::ast::{visit_expressions, visit_expressions_mut};
use sqlparser::dialect::{MySqlDialect, PostgreSqlDialect, SQLiteDialect};
use sqlparser::parser::Parser;
use sqlparser::tokenizer::Token;
use vstd::prelude::*;

use crate::text::join;
#[allow(unused_imports)]
use crate::text::{joined, strings};

verus! {

/// An expression of the `sqlparser` crate.
#[verifier::external_type_specification]
#[verifier::external_body]
pub struct ExSqlExpr(sqlparser::ast::Expr);

/// A term of an `ORDER BY`, of the `sqlparser` crate.
#[verifier::external_type_specification]
#[verifier::external_body]
pub struct ExOrderByExpr(sqlparser::ast::OrderByExpr);

/// A query of the `sqlparser` crate.
#[verifier::external_type_specification]
#[verifier::external_body]
pub struct ExQuery(sqlparser::ast::Query);

/// The grammar that SQL is read with.
#[derive(Debug, Clone, Copy, PartialEq, Eq, Structural)]
pub enum Grammar {
    Postgres,
    MySql,
    Sqlite,
}

/// An operator between two expressions.
#[derive(Debug, Clone, Copy, PartialEq, Eq, Structural)]
pub enum Operator {
    And,
    Or,
    Eq,
    NotEq,
    Lt,
    LtEq,
    Gt,
    GtEq,
}

/// What an expression is, as far as this library builds or reads one. Every other expression
/// is told apart by its number alone.
pub enum SqlTree {
    /// A column whose parts are quoted with `"`.
    Column(Seq<Seq<char>>),
    /// A placeholder, as it is spelled.
    Placeholder(Seq<char>),
    /// The constant `true`.
    Truth,
    /// Two expressions with an operator between them.
    Binary(Operator, Box<SqlTree>, Box<SqlTree>),
    /// `NOT` and an expression.
    Negated(Box<SqlTree>),
    /// An expression in parentheses.
    Nested(Box<SqlTree>),
    /// `IS NULL`.
    IsNull(Box<SqlTree>),
    /// `IS NOT NULL`.
    IsNotNull(Box<SqlTree>),
    /// `IN` and a list.
    InList(Box<SqlTree>, Seq<SqlTree>),
    /// `LIKE` and a pattern, with the character that escapes in it.
    Like(Box<SqlTree>, Box<SqlTree>, char),
    /// Anything else.
    Other(int),
}

/// Which way a term of an `ORDER BY` runs, as far as this library says so.
pub enum Run {
    Asc,
    Desc,
    Other(int),
}

/// What a term of an `ORDER BY` is.
pub struct TermTree {
    pub expr: SqlTree,
    pub run: Run,
}

/// What a `GROUP BY` says.
#[derive(Debug, Clone, Copy, PartialEq, Eq, Structural)]
pub enum Grouping {
    /// `GROUP BY ALL`.
    All,
    /// So many expressions, and so many modifiers. Neither is there without a `GROUP BY`.
    By(usize, usize),
}

/// What a plain `SELECT` says about the rows that it takes.
pub struct SelectTree {
    pub grouping: Grouping,
    pub selection: Option<SqlTree>,
}

/// What a query orders its rows by.
pub enum OrderTree {
    /// The terms of an `ORDER BY`, and what stands behind them: nothing, for the number zero.
    Terms(Seq<TermTree>, int),
    /// No `ORDER BY`, or one that lists no terms.
    Other(int),
}

/// How many rows a query gives.
pub enum LimitTree {
    /// `LIMIT` and a number.
    Rows(u64),
    /// Whatever else the query says.
    Other(int),
}

/// What a query is. Only one whose outermost level is a plain `SELECT` has a `select`; what
/// this library does not touch is told apart by its number alone.
pub struct QueryTree {
    pub select: Option<SelectTree>,
    pub order: OrderTree,
    pub limit: LimitTree,
    pub rest: int,
}

/// What an expression of the `sqlparser` crate is.
pub uninterp spec fn expr_tree(expr: sqlparser::ast::Expr) -> SqlTree;

/// What a term of the `sqlparser` crate is.
pub uninterp spec fn term_tree(term: sqlparser::ast::OrderByExpr) -> TermTree;

/// What a query of the `sqlparser` crate is.
pub uninterp spec fn query_tree(query: sqlparser::ast::Query) -> QueryTree;

/// What a list of expressions is.
pub open spec fn expr_trees(exprs: Seq<sqlparser::ast::Expr>) -> Seq<SqlTree> {
    exprs.map_values(|expr: sqlparser::ast::Expr| expr_tree(expr))
}

/// What a list of terms is.
pub open spec fn term_trees(terms: Seq<sqlparser::ast::OrderByExpr>) -> Seq<TermTree> {
    terms.map_values(|term: sqlparser::ast::OrderByExpr| term_tree(term))
}

// ---------------------------------------------------------------------------
// Reading
// ---------------------------------------------------------------------------

/// The statements that the SQL parser reads from a text, or why it reads none. A statement
/// that is not a query is `None`.
pub uninterp spec fn sql_statements(grammar: Grammar, text: Seq<char>) -> Result<
    Seq<Option<QueryTree>>,
    Seq<char>,
>;

/// The expression that a text begins with and the token behind it, if there is one; or why
/// the SQL parser reads no expression.
pub uninterp spec fn sql_expression(grammar: Grammar, text: Seq<char>) -> Result<
    (SqlTree, Option<Seq<char>>),
    Seq<char>,
>;

/// The terms of an `ORDER BY` that a text begins with and the token behind them, if there is
/// one; or why the SQL parser reads none.
pub uninterp spec fn sql_terms(grammar: Grammar, text: Seq<char>) -> Result<
    (Seq<TermTree>, Option<Seq<char>>),
    Seq<char>,
>;

/// A statement, if it is a query.
pub open spec fn statement_tree(statement: Option<sqlparser::ast::Query>) -> Option<QueryTree> {
    match statement {
        Some(query) => Some(query_tree(query)),
        None => None,
    }
}

/// An optional string.
pub open spec fn text_seen(text: Option<String>) -> Option<Seq<char>> {
    match text {
        Some(text) => Some(text@),
        None => None,
    }
}

/// What reading statements gave.
pub open spec fn statements_seen(r: Result<Vec<Option<sqlparser::ast::Query>>, String>) -> Result<
    Seq<Option<QueryTree>>,
    Seq<char>,
> {
    match r {
        Ok(statements) => Ok(
            statements@.map_values(
                |statement: Option<sqlparser::ast::Query>| statement_tree(statement),
            ),
        ),
        Err(message) => Err(message@),
    }
}

/// What reading an expression gave.
pub open spec fn expression_seen(
    r: Result<(sqlparser::ast::Expr, Option<String>), String>,
) -> Result<(SqlTree, Option<Seq<char>>), Seq<char>> {
    match r {
        Ok((expr, rest)) => Ok((expr_tree(expr), text_seen(rest))),
        Err(message) => Err(message@),
    }
}

/// What reading terms gave.
pub open spec fn terms_seen(
    r: Result<(Vec<sqlparser::ast::OrderByExpr>, Option<String>), String>,
) -> Result<(Seq<TermTree>, Option<Seq<char>>), Seq<char>> {
    match r {
        Ok((terms, rest)) => Ok((term_trees(terms@), text_seen(rest))),
        Err(message) => Err(message@),
    }
}

/// Reads statements: `sqlparser::parser::Parser::parse_sql` in the dialect of a grammar.
/// What comes back depends on the grammar and the text alone.
#[verifier::external_body]
pub(crate) fn parse_statements(grammar: Grammar, text: &str) -> (r: Result<
    Vec<Option<sqlparser::ast::Query>>,
    String,
>)
    ensures
        statements_seen(r) == sql_statements(grammar, text@),
{
    let parsed = match grammar {
        Grammar::Postgres => Parser::parse_sql(&PostgreSqlDialect {}, text),
        Grammar::MySql => Parser::parse_sql(&MySqlDialect {}, text),
        Grammar::Sqlite => Parser::parse_sql(&SQLiteDialect {}, text),
    };
    let query = |statement| match statement {
        Statement::Query(query) => Some(*query),
        _ => None,
    };
    parsed
        .map(|statements| statements.into_iter().map(query).collect())
        .map_err(|error| error.to_string())
}

/// Reads one expression: `sqlparser::parser::Parser::parse_expr` in the dialect of a
/// grammar, and the token that `peek_token` finds behind it, unless that is the end. What
/// comes back depends on the grammar and the text alone.
#[verifier::external_body]
pub(crate) fn parse_expression(grammar: Grammar, text: &str) -> (r: Result<
    (sqlparser::ast::Expr, Option<String>),
    String,
>)
    ensures
        expression_seen(r) == sql_expression(grammar, text@),
{
    let parser = match grammar {
        Grammar::Postgres => Parser::new(&PostgreSqlDialect {}).try_with_sql(text),
        Grammar::MySql => Parser::new(&MySqlDialect {}).try_with_sql(text),
        Grammar::Sqlite => Parser::new(&SQLiteDialect {}).try_with_sql(text),
    };
    let read = |mut parser: Parser<'_>| parser.parse_expr().map(|expr| (expr, parser.peek_token()));
    let rest = |token| match token {
        Token::EOF => None,
        other => Some(other.to_string()),
    };
    let read = parser.and_then(read).map(|(expr, behind)| (expr, rest(behind.token)));
    read.map_err(|error| error.to_string())
}

/// Reads the terms of an `ORDER BY`: `sqlparser::parser::Parser::parse_comma_separated` of
/// `parse_order_by_expr` in the dialect of a grammar, and the token that `peek_token` finds
/// behind them, unless that is the end. What comes back depends on the grammar and the text
/// alone.
#[verifier::external_body]
pub(crate) fn parse_terms(grammar: Grammar, text: &str) -> (r: Result<
    (Vec<sqlparser::ast::OrderByExpr>, Option<String>),
    String,
>)
    ensures
        terms_seen(r) == sql_terms(grammar, text@),
{
    let mut parser = match grammar {
        Grammar::Postgres => Parser::new(&PostgreSqlDialect {}).try_with_sql(text),
        Grammar::MySql => Parser::new(&MySqlDialect {}).try_with_sql(text),
        Grammar::Sqlite => Parser::new(&SQLiteDialect {}).try_with_sql(text),
    }.map_err(|error| error.to_string())?;
    let terms = parser.parse_comma_separated(Parser::parse_order_by_expr);
    let rest = match parser.peek_token().token {
        Token::EOF => None,
        other => Some(other.to_string()),
    };
    terms.map(|terms| (terms, rest)).map_err(|error| error.to_string())
}

// ---------------------------------------------------------------------------
// Building
// ---------------------------------------------------------------------------

/// An expression with nothing below it, to be built.
pub enum Leaf {
    Identifier(String),
    Qualified(Vec<String>),
    Placeholder(String),
    Truth,
}

/// What a leaf becomes.
pub open spec fn leaf_tree(leaf: Leaf) -> SqlTree {
    match leaf {
        Leaf::Identifier(name) => SqlTree::Column(seq![name@]),
        Leaf::Qualified(parts) => SqlTree::Column(strings(parts@)),
        Leaf::Placeholder(text) => SqlTree::Placeholder(text@),
        Leaf::Truth => SqlTree::Truth,
    }
}

/// An expression over one other, to be built.
pub enum Branch {
    Negated(sqlparser::ast::Expr),
    Nested(sqlparser::ast::Expr),
    IsNull(sqlparser::ast::Expr),
    IsNotNull(sqlparser::ast::Expr),
    InList(sqlparser::ast::Expr, Vec<sqlparser::ast::Expr>),
}

/// What a branch becomes.
pub open spec fn branch_tree(branch: Branch) -> SqlTree {
    match branch {
        Branch::Negated(expr) => SqlTree::Negated(Box::new(expr_tree(expr))),
        Branch::Nested(expr) => SqlTree::Nested(Box::new(expr_tree(expr))),
        Branch::IsNull(expr) => SqlTree::IsNull(Box::new(expr_tree(expr))),
        Branch::IsNotNull(expr) => SqlTree::IsNotNull(Box::new(expr_tree(expr))),
        Branch::InList(expr, list) => SqlTree::InList(
            Box::new(expr_tree(expr)),
            expr_trees(list@),
        ),
    }
}

/// Builds a leaf: the variants `Identifier`, `CompoundIdentifier` and `Value` of
/// `sqlparser::ast::Expr`, with identifiers quoted by `"`.
#[verifier::external_body]
pub(crate) fn make_leaf(leaf: Leaf) -> (r: sqlparser::ast::Expr)
    ensures
        expr_tree(r) == leaf_tree(leaf),
{
    let quoted = |part: String| Ident::with_quote('"', part);
    match leaf {
        Leaf::Identifier(name) => Expr::Identifier(quoted(name)),
        Leaf::Qualified(parts) => {
            Expr::CompoundIdentifier(parts.into_iter().map(quoted).collect())
        },
        Leaf::Placeholder(text) => Expr::Value(SqlValue::Placeholder(text).into()),
        Leaf::Truth => Expr::Value(SqlValue::Boolean(true).into()),
    }
}

/// Builds an expression over one other: the variants `UnaryOp`, `Nested`, `IsNull`,
/// `IsNotNull` and `InList` of `sqlparser::ast::Expr`.
#[verifier::external_body]
pub(crate) fn make_branch(branch: Branch) -> (r: sqlparser::ast::Expr)
    ensures
        expr_tree(r) == branch_tree(branch),
{
    match branch {
        Branch::Negated(expr) => Expr::UnaryOp { op: UnaryOperator::Not, expr: Box::new(expr) },
        Branch::Nested(expr) => Expr::Nested(Box::new(expr)),
        Branch::IsNull(expr) => Expr::IsNull(Box::new(expr)),
        Branch::IsNotNull(expr) => Expr::IsNotNull(Box::new(expr)),
        Branch::InList(expr, list) => Expr::InList { expr: Box::new(expr), list, negated: false },
    }
}

/// Builds two expressions with an operator between them: the variant `BinaryOp` of
/// `sqlparser::ast::Expr`.
#[verifier::external_body]
pub(crate) fn make_binary(
    operator: Operator,
    left: sqlparser::ast::Expr,
    right: sqlparser::ast::Expr,
) -> (r: sqlparser::ast::Expr)
    ensures
        expr_tree(r) == SqlTree::Binary(
            operator,
            Box::new(expr_tree(left)),
            Box::new(expr_tree(right)),
        ),
{
    let op = match operator {
        Operator::And => BinaryOperator::And,
        Operator::Or => BinaryOperator::Or,
        Operator::Eq => BinaryOperator::Eq,
        Operator::NotEq => BinaryOperator::NotEq,
        Operator::Lt => BinaryOperator::Lt,
        Operator::LtEq => BinaryOperator::LtEq,
        Operator::Gt => BinaryOperator::Gt,
        Operator::GtEq => BinaryOperator::GtEq,
    };
    Expr::BinaryOp { left: Box::new(left), op, right: Box::new(right) }
}

/// Builds a `LIKE`: the variant `Like` of `sqlparser::ast::Expr`, with the escape character
/// as a quoted string.
#[verifier::external_body]
pub(crate) fn make_like(
    expr: sqlparser::ast::Expr,
    pattern: sqlparser::ast::Expr,
    escape: char,
) -> (r: sqlparser::ast::Expr)
    ensures
        expr_tree(r) == SqlTree::Like(
            Box::new(expr_tree(expr)),
            Box::new(expr_tree(pattern)),
            escape,
        ),
{
    let mark = Expr::Value(SqlValue::SingleQuotedString(escape.to_string()).into());
    Expr::Like {
        negated: false,
        any: false,
        expr: Box::new(expr),
        pattern: Box::new(pattern),
        escape_char: Some(Box::new(mark)),
    }
}

/// Which way a term that this library builds runs.
pub open spec fn run_of(descending: bool) -> Run {
    if descending {
        Run::Desc
    } else {
        Run::Asc
    }
}

/// Builds a term of an `ORDER BY`: `sqlparser::ast::OrderByExpr` with its direction and no
/// other option.
#[verifier::external_body]
pub(crate) fn make_term(expr: sqlparser::ast::Expr, descending: bool) -> (r: sqlparser::ast::OrderByExpr)
    ensures
        term_tree(r) == (TermTree { expr: expr_tree(expr), run: run_of(descending) }),
{
    let sort = Some(match descending {
        false => OrderBySort::Asc,
        true => OrderBySort::Desc,
    });
    OrderByExpr { expr, options: OrderByOptions { sort, nulls_first: None }, with_fill: None }
}

// ---------------------------------------------------------------------------
// Looking
// ---------------------------------------------------------------------------

/// The operator of an expression, if it is one of those that stand between two others.
pub open spec fn top_operator(tree: SqlTree) -> Option<Operator> {
    match tree {
        SqlTree::Binary(operator, _, _) => Some(operator),
        _ => None,
    }
}

/// The identifiers that an expression which this library did not build is made of, without
/// their quotes, if it is a column.
pub uninterp spec fn sql_names(tree: SqlTree) -> Option<Seq<Seq<char>>>;

/// The identifiers that an expression is made of, without their quotes, if it is a column.
pub open spec fn names_of(tree: SqlTree) -> Option<Seq<Seq<char>>> {
    match tree {
        SqlTree::Column(parts) => Some(parts),
        _ => sql_names(tree),
    }
}

/// The names behind an optional list.
pub open spec fn names_seen(names: Option<Vec<String>>) -> Option<Seq<Seq<char>>> {
    match names {
        Some(names) => Some(strings(names@)),
        None => None,
    }
}

/// Looks at the operator of an expression: the field `op` of the variant `BinaryOp` of
/// `sqlparser::ast::Expr`, where it is one of the eight.
#[verifier::external_body]
pub(crate) fn look_at_operator(expr: &sqlparser::ast::Expr) -> (r: Option<Operator>)
    ensures
        r == top_operator(expr_tree(*expr)),
{
    match expr {
        Expr::BinaryOp { op: BinaryOperator::And, .. } => Some(Operator::And),
        Expr::BinaryOp { op: BinaryOperator::Or, .. } => Some(Operator::Or),
        Expr::BinaryOp { op: BinaryOperator::Eq, .. } => Some(Operator::Eq),
        Expr::BinaryOp { op: BinaryOperator::NotEq, .. } => Some(Operator::NotEq),
        Expr::BinaryOp { op: BinaryOperator::Lt, .. } => Some(Operator::Lt),
        Expr::BinaryOp { op: BinaryOperator::LtEq, .. } => Some(Operator::LtEq),
        Expr::BinaryOp { op: BinaryOperator::Gt, .. } => Some(Operator::Gt),
        Expr::BinaryOp { op: BinaryOperator::GtEq, .. } => Some(Operator::GtEq),
        _ => None,
    }
}

/// Looks at the names of a column: the field `value` of the identifiers in the variants
/// `Identifier` and `CompoundIdentifier` of `sqlparser::ast::Expr`. For a column whose
/// parts are quoted with `"` they are the parts; for any other expression they depend on the
/// expression alone.
#[verifier::external_body]
pub(crate) fn look_at_names(expr: &sqlparser::ast::Expr) -> (r: Option<Vec<String>>)
    ensures
        names_seen(r) == match expr_tree(*expr) {
            SqlTree::Column(parts) => Some(parts),
            tree => sql_names(tree),
        },
{
    match expr {
        Expr::Identifier(name) => Some(vec![name.value.clone()]),
        Expr::CompoundIdentifier(parts) => {
            Some(parts.iter().map(|part| part.value.clone()).collect())
        },
        _ => None,
    }
}

/// The expression of a term: the field `expr` of `sqlparser::ast::OrderByExpr`.
#[verifier::external_body]
pub(crate) fn term_expr(term: &sqlparser::ast::OrderByExpr) -> (r: &sqlparser::ast::Expr)
    ensures
        expr_tree(*r) == term_tree(*term).expr,
{
    &term.expr
}

/// Copies an expression: `Clone` of `sqlparser::ast::Expr` keeps what it is.
#[verifier::external_body]
pub(crate) fn copy_expr(expr: &sqlparser::ast::Expr) -> (r: sqlparser::ast::Expr)
    ensures
        expr_tree(r) == expr_tree(*expr),
{
    expr.clone()
}

/// Copies a term: `Clone` of `sqlparser::ast::OrderByExpr` keeps what it is.
#[verifier::external_body]
pub(crate) fn copy_term(term: &sqlparser::ast::OrderByExpr) -> (r: sqlparser::ast::OrderByExpr)
    ensures
        term_tree(r) == term_tree(*term),
{
    term.clone()
}

/// What a `SELECT` says about the rows that it takes, out of a query.
pub open spec fn select_seen(select: Option<(Grouping, Option<sqlparser::ast::Expr>)>) -> Option<
    SelectTree,
> {
    match select {
        Some((grouping, Some(expr))) => Some(
            SelectTree { grouping, selection: Some(expr_tree(expr)) },
        ),
        Some((grouping, None)) => Some(SelectTree { grouping, selection: None }),
        None => None,
    }
}

/// Looks at the outermost level of a query: the fields `group_by` and `selection` of
/// `sqlparser::ast::Select`, where the body of the `sqlparser::ast::Query` is one.
#[verifier::external_body]
pub(crate) fn look_at_select(query: &sqlparser::ast::Query) -> (r: Option<
    (Grouping, Option<sqlparser::ast::Expr>),
>)
    ensures
        select_seen(r) == query_tree(*query).select,
{
    match &*query.body {
        SetExpr::Select(select) => {
            let grouping = match &select.group_by {
                GroupByExpr::All(_) => Grouping::All,
                GroupByExpr::Expressions(exprs, extras) => Grouping::By(exprs.len(), extras.len()),
            };
            Some((grouping, select.selection.clone()))
        },
        _ => None,
    }
}

/// The terms that a query is ordered by; none where it lists none.
pub open spec fn own_terms(order: OrderTree) -> Seq<TermTree> {
    match order {
        OrderTree::Terms(terms, _) => terms,
        OrderTree::Other(_) => Seq::empty(),
    }
}

/// Looks at the ordering of a query: the terms in the field `order_by` of
/// `sqlparser::ast::Query`, where that is a list of expressions.
#[verifier::external_body]
pub(crate) fn look_at_order(query: &sqlparser::ast::Query) -> (r: Vec<sqlparser::ast::OrderByExpr>)
    ensures
        term_trees(r@) == own_terms(query_tree(*query).order),
{
    match &query.order_by {
        Some(OrderBy { kind: OrderByKind::Expressions(terms), .. }) => terms.clone(),
        _ => Vec::new(),
    }
}

/// What is to become of a query.
pub enum Change {
    /// It stays as it is.
    Nothing,
    /// Its rows are selected by this.
    Selection(sqlparser::ast::Expr),
    /// It is ordered by this.
    Order(Vec<sqlparser::ast::OrderByExpr>),
    /// It gives so many rows.
    Limit(u64),
}

/// What a query becomes.
pub open spec fn changed_tree(query: QueryTree, change: Change) -> QueryTree {
    match change {
        Change::Nothing => query,
        Change::Selection(expr) => match query.select {
            Some(select) => QueryTree {
                select: Some(SelectTree { selection: Some(expr_tree(expr)), ..select }),
                ..query
            },
            None => query,
        },
        Change::Order(terms) => QueryTree {
            order: OrderTree::Terms(term_trees(terms@), 0),
            ..query
        },
        Change::Limit(rows) => QueryTree { limit: LimitTree::Rows(rows), ..query },
    }
}

/// Changes a copy of a query: the field `selection` of its `sqlparser::ast::Select`, where
/// its body is one, or the field `order_by` or `limit_clause` of the
/// `sqlparser::ast::Query`. Nothing else of it changes.
#[verifier::external_body]
pub(crate) fn changed(query: &sqlparser::ast::Query, change: Change) -> (r: sqlparser::ast::Query)
    ensures
        query_tree(r) == changed_tree(query_tree(*query), change),
{
    let mut query = query.clone();
    match (change, &mut *query.body) {
        (Change::Selection(expr), SetExpr::Select(select)) => select.selection = Some(expr),
        (Change::Order(terms), _) => {
            let kind = OrderByKind::Expressions(terms);
            query.order_by = Some(OrderBy { kind, interpolate: None });
        },
        (Change::Limit(rows), _) => {
            let limit = Some(Expr::Value(SqlValue::Number(rows.to_string(), false).into()));
            let clause = LimitClause::LimitOffset { limit, offset: None, limit_by: Vec::new() };
            query.limit_clause = Some(clause);
        },
        _ => {},
    }
    query
}

// ---------------------------------------------------------------------------
// Placeholders
// ---------------------------------------------------------------------------

/// Whatever can hold placeholders.
pub enum Node {
    Whole(sqlparser::ast::Query),
    Condition(sqlparser::ast::Expr),
    Terms(Vec<sqlparser::ast::OrderByExpr>),
}

/// What a node is.
pub enum NodeTree {
    Whole(QueryTree),
    Condition(SqlTree),
    Terms(Seq<TermTree>),
}

impl View for Node {
    type V = NodeTree;

    open spec fn view(&self) -> NodeTree {
        match self {
            Node::Whole(query) => NodeTree::Whole(query_tree(*query)),
            Node::Condition(expr) => NodeTree::Condition(expr_tree(*expr)),
            Node::Terms(terms) => NodeTree::Terms(term_trees(terms@)),
        }
    }
}

/// The placeholders of a node, as they are spelled, in the order in which its expressions
/// are visited.
pub uninterp spec fn sql_placeholders(node: NodeTree) -> Seq<Seq<char>>;

/// A node with other spellings for its placeholders.
pub uninterp spec fn sql_respelled(node: NodeTree, texts: Seq<Seq<char>>) -> NodeTree;

/// A query as SQL.
pub uninterp spec fn query_shown(query: QueryTree) -> Seq<char>;

/// An expression as SQL.
pub uninterp spec fn expr_shown(expr: SqlTree) -> Seq<char>;

/// A term of an `ORDER BY` as SQL.
pub uninterp spec fn term_shown(term: TermTree) -> Seq<char>;

/// A node as SQL; the terms of a list stand behind one another with `, ` between them.
pub open spec fn sql_shown(node: NodeTree) -> Seq<char> {
    match node {
        NodeTree::Whole(query) => query_shown(query),
        NodeTree::Condition(expr) => expr_shown(expr),
        NodeTree::Terms(terms) => joined(
            terms.map_values(|term: TermTree| term_shown(term)),
            ", "@,
        ),
    }
}

/// Collects the placeholders of a node: `sqlparser::ast::visit_expressions` visits every
/// expression in an order that depends on the node alone, and the text of each
/// `Value::Placeholder` is taken.
#[verifier::external_body]
pub(crate) fn placeholders(node: &Node) -> (r: Vec<String>)
    ensures
        strings(r@) == sql_placeholders(node@),
{
    let mut texts = Vec::new();
    let take = |expr: &Expr| -> ControlFlow<()> {
        if let Expr::Value(value) = expr {
            if let SqlValue::Placeholder(text) = &value.value { texts.push(text.clone()); }
        }
        ControlFlow::Continue(())
    };
    let _ = match node {
        Node::Whole(query) => visit_expressions(query, take),
        Node::Condition(expr) => visit_expressions(expr, take),
        Node::Terms(terms) => visit_expressions(terms, take),
    };
    texts
}

/// Spells the placeholders of a node anew: `sqlparser::ast::visit_expressions_mut` visits
/// every expression in the order of `visit_expressions`, and each `Value::Placeholder` is
/// given the next text. The node stays what it was but for that: it is the same kind of node,
/// with as many placeholders, spelled as they were given.
#[verifier::external_body]
pub(crate) fn respell(node: Node, texts: Vec<String>) -> (r: Node)
    requires
        texts@.len() == sql_placeholders(node@).len(),
    ensures
        r@ == sql_respelled(node@, strings(texts@)),
        sql_placeholders(r@) == strings(texts@),
        r is Whole == node is Whole,
        r is Condition == node is Condition,
        r is Terms == node is Terms,
{
    let mut node = node;
    let mut texts = texts.into_iter();
    let give = |expr: &mut Expr| -> ControlFlow<()> {
        if let Expr::Value(value) = expr {
            if let SqlValue::Placeholder(text) = &mut value.value { texts.next().map(|t| *text = t); }
        }
        ControlFlow::Continue(())
    };
    let _ = match &mut node {
        Node::Whole(query) => visit_expressions_mut(query, give),
        Node::Condition(expr) => visit_expressions_mut(expr, give),
        Node::Terms(terms) => visit_expressions_mut(terms, give),
    };
    node
}

/// Writes a query as SQL: `Display` of `sqlparser::ast::Query`. The text depends on the query
/// alone.
#[verifier::external_body]
fn show_query(query: &sqlparser::ast::Query) -> (r: String)
    ensures
        r@ == query_shown(query_tree(*query)),
{
    query.to_string()
}

/// Writes an expression as SQL: `Display` of `sqlparser::ast::Expr`. The text depends on the
/// expression alone.
#[verifier::external_body]
fn show_expr(expr: &sqlparser::ast::Expr) -> (r: String)
    ensures
        r@ == expr_shown(expr_tree(*expr)),
{
    expr.to_string()
}

/// Writes a term of an `ORDER BY` as SQL: `Display` of `sqlparser::ast::OrderByExpr`. The text
/// depends on the term alone.
#[verifier::external_body]
fn show_term(term: &sqlparser::ast::OrderByExpr) -> (r: String)
    ensures
        r@ == term_shown(term_tree(*term)),
{
    term.to_string()
}

/// Writes a node as SQL.
pub(crate) fn show(node: &Node) -> (r: String)
    ensures
        r@ == sql_shown(node@),
{
    match node {
        Node::Whole(query) => show_query(query),
        Node::Condition(expr) => show_expr(expr),
        Node::Terms(terms) => {
            let mut texts: Vec<String> = Vec::new();
            let mut i: usize = 0;
            while i < terms.len()
                invariant
                    i <= terms.len(),
                    texts.len() == i,
                    forall|j: int|
                        0 <= j < i ==> (#[trigger] texts@[j])@ == term_shown(term_tree(terms@[j])),
                decreases terms.len() - i,
            {
                texts.push(show_term(&terms[i]));
                i += 1;
            }
            assert(strings(texts@) =~= term_trees(terms@).map_values(
                |term: TermTree| term_shown(term),
            ));
            join(texts.as_slice(), ", ")
        },
    }
}

} // verus!

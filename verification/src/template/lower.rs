//! Lowering a filter expression to SQL.

use vstd::prelude::*;
use vstd::string::StringExecFns;

use crate::expression::{Formula, Literal};
#[allow(unused_imports)]
use crate::expression::{
    alike, all_alike, formula_in, lemma_alike_at, lemma_trees, tree_of, trees_of, LiteralView, Tree,
};
use crate::instant::parse_instant;
#[allow(unused_imports)]
use crate::instant::chrono_parsed;
use crate::template::dialect::{quote_name, Dialect};
#[allow(unused_imports)]
use crate::template::dialect::quoted;
use crate::template::error::Error;
#[allow(unused_imports)]
use crate::template::error::ErrorView;
#[allow(unused_imports)]
use crate::template::fragment::{chars, sql_of, Piece};
use crate::template::fragment::{add_text, add_value, QueryFragment};
#[allow(unused_imports)]
use crate::template::mapping::ColumnView;
use crate::template::mapping::{Column, ColumnType, Mapping};
use crate::template::sort::resolve;
#[allow(unused_imports)]
use crate::template::sort::column_for;
#[allow(unused_imports)]
use crate::template::value::ValueView;
use crate::template::value::{Timestamp, Value};
use crate::pattern::write_pattern;
#[allow(unused_imports)]
use crate::pattern::{is_string_method, like_pattern};
use crate::text::{copy_of, decimal_of, same};
#[allow(unused_imports)]
use crate::text::decimal;

verus! {

/// The text and values of a condition.
pub type Sql = Seq<Piece<ValueView>>;

// ---------------------------------------------------------------------------
// What a lowering is
// ---------------------------------------------------------------------------

/// Why something that no condition can stand for is refused.
pub open spec fn no_lowering(what: Seq<char>) -> ErrorView {
    ErrorView::Unsupported("no SQL lowering for "@ + what)
}

/// The dotted path that an expression names, if it names one.
pub open spec fn dotted_path(tree: Tree) -> Option<Seq<char>>
    decreases tree,
{
    match tree {
        Tree::Ident(name) => Some(name),
        Tree::Select { operand, field, test: false, .. } => match dotted_path(*operand) {
            Some(path) => Some(path + "."@ + field),
            None => None,
        },
        _ => None,
    }
}

/// The column behind a path.
pub open spec fn column_at<M: Mapping>(mapping: &M, path: Seq<char>) -> Result<ColumnView, ErrorView> {
    match column_for(mapping, path) {
        Some(column) => Ok(column),
        None => Err(ErrorView::UnknownColumn(path)),
    }
}

/// The bind value that a constant stands for.
pub open spec fn literal_value(literal: LiteralView) -> Result<ValueView, ErrorView> {
    match literal {
        LiteralView::Bool(b) => Ok(ValueView::Bool(b)),
        LiteralView::Int(n) => Ok(ValueView::Int(n)),
        LiteralView::UInt(n) => if n <= i64::MAX {
            Ok(ValueView::Int(n as i64))
        } else {
            Err(
                ErrorView::TypeMismatch(
                    "`"@ + decimal(n as nat) + "` does not fit in a signed integer"@,
                ),
            )
        },
        LiteralView::Double(bits) => Ok(ValueView::Float(bits)),
        LiteralView::Text(text) => Ok(ValueView::Text(text)),
        LiteralView::Bytes(bytes) => Ok(ValueView::Bytes(bytes)),
        LiteralView::Null => Err(no_lowering("null here"@)),
    }
}

/// One side of a comparison, once it is known what it is.
pub enum OperandView {
    Column(ColumnView, Seq<char>),
    Value(ValueView),
    Null,
}

/// Why a call with the wrong number of arguments is refused.
pub open spec fn arity_error(name: Seq<char>, n: nat) -> ErrorView {
    no_lowering("`"@ + name + "` with "@ + decimal(n) + " arguments"@)
}

/// The instant that `timestamp` of some arguments stands for.
pub open spec fn timestamp_value(args: Seq<Tree>) -> Result<ValueView, ErrorView> {
    if args.len() != 1 {
        Err(arity_error("timestamp"@, args.len()))
    } else {
        match args[0] {
            Tree::Literal(LiteralView::Text(text)) => match chrono_parsed(text) {
                Ok((seconds, nanos)) => Ok(ValueView::Timestamp(Timestamp { seconds, nanos })),
                Err(message) => Err(
                    ErrorView::Parse("`"@ + text + "` is not a timestamp: "@ + message),
                ),
            },
            _ => Err(no_lowering("`timestamp()` with a non-constant argument"@)),
        }
    }
}

/// What one side of a comparison is.
pub open spec fn operand<M: Mapping>(tree: Tree, mapping: &M) -> Result<OperandView, ErrorView> {
    match dotted_path(tree) {
        Some(path) => match column_at(mapping, path) {
            Ok(column) => Ok(OperandView::Column(column, path)),
            Err(error) => Err(error),
        },
        None => match tree {
            Tree::Literal(LiteralView::Null) => Ok(OperandView::Null),
            Tree::Literal(literal) => match literal_value(literal) {
                Ok(value) => Ok(OperandView::Value(value)),
                Err(error) => Err(error),
            },
            Tree::Call { name, target: None, args } if name == "timestamp"@ => {
                match timestamp_value(args) {
                    Ok(value) => Ok(OperandView::Value(value)),
                    Err(error) => Err(error),
                }
            },
            _ => Err(no_lowering("this expression as a value"@)),
        },
    }
}

/// A value can be compared with a column of its own type; an integer also with a column of
/// floating-point numbers.
pub open spec fn comparable(column: ColumnView, value: ValueView) -> bool {
    column.ty == value.ty() || (column.ty == ColumnType::Float && value.ty() == ColumnType::Int)
}

/// Why a value that cannot be compared is refused.
pub open spec fn mismatch_error(column: ColumnView, value: ValueView, path: Seq<char>) -> ErrorView {
    ErrorView::TypeMismatch(
        "`"@ + path + "` is "@ + column.ty.text() + " but was compared against "@
            + value.ty().text(),
    )
}

/// The SQL operator for a comparison.
pub open spec fn sql_operator(operator: Seq<char>) -> Result<Seq<char>, ErrorView> {
    if operator == "_==_"@ {
        Ok(" = "@)
    } else if operator == "_!=_"@ {
        Ok(" <> "@)
    } else if operator == "_<_"@ {
        Ok(" < "@)
    } else if operator == "_<=_"@ {
        Ok(" <= "@)
    } else if operator == "_>_"@ {
        Ok(" > "@)
    } else if operator == "_>=_"@ {
        Ok(" >= "@)
    } else {
        Err(no_lowering("the operator `"@ + operator + "`"@))
    }
}

/// The operator that means the same with its operands swapped.
pub open spec fn flipped(operator: Seq<char>) -> Seq<char> {
    if operator == "_<_"@ {
        "_>_"@
    } else if operator == "_<=_"@ {
        "_>=_"@
    } else if operator == "_>_"@ {
        "_<_"@
    } else if operator == "_>=_"@ {
        "_<=_"@
    } else {
        operator
    }
}

/// A column compared with a value.
pub open spec fn column_value_sql(
    column: ColumnView,
    path: Seq<char>,
    operator: Seq<char>,
    value: ValueView,
    mark: char,
) -> Result<Sql, ErrorView> {
    if !comparable(column, value) {
        Err(mismatch_error(column, value, path))
    } else {
        match sql_operator(operator) {
            Err(error) => Err(error),
            Ok(sql) => Ok(
                (chars(quoted(column.name, mark)) + chars(sql)).push(Piece::Bind(value)),
            ),
        }
    }
}

/// A column compared with null: nothing equals null in SQL, so only being null can be asked.
pub open spec fn null_sql(column: ColumnView, operator: Seq<char>, mark: char) -> Result<Sql, ErrorView> {
    if operator == "_==_"@ {
        Ok(chars(quoted(column.name, mark)) + chars(" IS NULL"@))
    } else if operator == "_!=_"@ {
        Ok(chars(quoted(column.name, mark)) + chars(" IS NOT NULL"@))
    } else {
        Err(
            no_lowering(
                "ordering a column against null: only `==` and `!=` mean anything"@,
            ),
        )
    }
}

/// A comparison of two operands. The column stands on the left, whichever way it was written.
pub open spec fn operands_sql(
    operator: Seq<char>,
    left: OperandView,
    right: OperandView,
    mark: char,
) -> Result<Sql, ErrorView> {
    match (left, right) {
        (OperandView::Column(column, _), OperandView::Null) => null_sql(column, operator, mark),
        (OperandView::Null, OperandView::Column(column, _)) => null_sql(column, operator, mark),
        (OperandView::Column(column, path), OperandView::Value(value)) => column_value_sql(
            column,
            path,
            operator,
            value,
            mark,
        ),
        (OperandView::Value(value), OperandView::Column(column, path)) => column_value_sql(
            column,
            path,
            flipped(operator),
            value,
            mark,
        ),
        (OperandView::Column(a, a_path), OperandView::Column(b, b_path)) => if a.ty != b.ty {
            Err(
                ErrorView::TypeMismatch(
                    "`"@ + a_path + "` is "@ + a.ty.text() + " and `"@ + b_path + "` is "@
                        + b.ty.text(),
                ),
            )
        } else {
            match sql_operator(operator) {
                Err(error) => Err(error),
                Ok(sql) => Ok(
                    chars(quoted(a.name, mark)) + chars(sql) + chars(quoted(b.name, mark)),
                ),
            }
        },
        (OperandView::Null, _) => Err(no_lowering("comparing null to null"@)),
        (_, OperandView::Null) => Err(no_lowering("comparing null to null"@)),
        (OperandView::Value(_), OperandView::Value(_)) => Err(
            no_lowering(
                "a comparison between two constants: it names no column, so it filters nothing"@,
            ),
        ),
    }
}

/// A comparison.
pub open spec fn comparison_sql<M: Mapping>(
    operator: Seq<char>,
    left: Tree,
    right: Tree,
    mapping: &M,
    mark: char,
) -> Result<Sql, ErrorView> {
    match operand(left, mapping) {
        Err(error) => Err(error),
        Ok(left) => match operand(right, mapping) {
            Err(error) => Err(error),
            Ok(right) => operands_sql(operator, left, right, mark),
        },
    }
}

/// The first `n` elements of an `in` list, bound one by one.
pub open spec fn elements_sql<M: Mapping>(
    column: ColumnView,
    path: Seq<char>,
    elements: Seq<Tree>,
    mapping: &M,
    n: nat,
) -> Result<Sql, ErrorView>
    decreases n,
{
    if n == 0 {
        Ok(Seq::empty())
    } else {
        match elements_sql(column, path, elements, mapping, (n - 1) as nat) {
            Err(error) => Err(error),
            Ok(head) => match operand(elements[n - 1], mapping) {
                Err(error) => Err(error),
                Ok(OperandView::Value(value)) => if !comparable(column, value) {
                    Err(mismatch_error(column, value, path))
                } else if n == 1 {
                    Ok(head.push(Piece::Bind(value)))
                } else {
                    Ok((head + chars(", "@)).push(Piece::Bind(value)))
                },
                Ok(_) => Err(no_lowering("a non-constant element in an `in` list"@)),
            },
        }
    }
}

/// Membership in a list. No list has no members.
pub open spec fn membership_sql<M: Mapping>(
    needle: Tree,
    haystack: Tree,
    mapping: &M,
    mark: char,
) -> Result<Sql, ErrorView> {
    match operand(needle, mapping) {
        Err(error) => Err(error),
        Ok(OperandView::Column(column, path)) => match haystack {
            Tree::List { elements, .. } => if elements.len() == 0 {
                Ok(chars("FALSE"@))
            } else {
                match elements_sql(column, path, elements, mapping, elements.len()) {
                    Err(error) => Err(error),
                    Ok(list) => Ok(
                        chars(quoted(column.name, mark)) + chars(" IN ("@) + list + chars(")"@),
                    ),
                }
            },
            _ => Err(no_lowering("`in` over something that is not a list literal"@)),
        },
        Ok(_) => Err(no_lowering("`in` over something that is not a column"@)),
    }
}

/// A string method.
pub open spec fn like_sql<M: Mapping>(
    name: Seq<char>,
    target: Option<Box<Tree>>,
    args: Seq<Tree>,
    mapping: &M,
    mark: char,
) -> Result<Sql, ErrorView> {
    match target {
        None => Err(no_lowering("`"@ + name + "` without a receiver"@)),
        Some(target) => match operand(*target, mapping) {
            Err(error) => Err(error),
            Ok(OperandView::Column(column, path)) => if column.ty != ColumnType::Text {
                Err(
                    ErrorView::TypeMismatch(
                        "`"@ + path + "` is "@ + column.ty.text() + " and has no text to match"@,
                    ),
                )
            } else if args.len() != 1 {
                Err(arity_error(name, args.len()))
            } else {
                match operand(args[0], mapping) {
                    Err(error) => Err(error),
                    Ok(OperandView::Value(ValueView::Text(needle))) => Ok(
                        (chars(quoted(column.name, mark)) + chars(" LIKE "@)).push(
                            Piece::Bind(ValueView::Text(like_pattern(name, needle))),
                        ) + chars(" ESCAPE '!'"@),
                    ),
                    Ok(_) => Err(
                        no_lowering(
                            "`"@ + name + "` with an argument that is not a string constant"@,
                        ),
                    ),
                }
            },
            Ok(_) => Err(
                no_lowering("`"@ + name + "` on something that is not a column"@),
            ),
        },
    }
}

/// The comparison operators.
pub open spec fn is_comparison(name: Seq<char>) -> bool {
    ||| name == "_==_"@
    ||| name == "_!=_"@
    ||| name == "_<_"@
    ||| name == "_<=_"@
    ||| name == "_>_"@
    ||| name == "_>=_"@
}

/// An expression as a SQL condition, or why it cannot be one.
pub open spec fn condition_sql<M: Mapping>(tree: Tree, mapping: &M, mark: char) -> Result<
    Sql,
    ErrorView,
>
    decreases tree,
{
    match tree {
        Tree::Select { operand, field, test: true, .. } => match dotted_path(*operand) {
            None => Err(no_lowering("has() over something that is not a field"@)),
            Some(path) => match column_at(mapping, path + "."@ + field) {
                Err(error) => Err(error),
                Ok(column) => Ok(chars(quoted(column.name, mark)) + chars(" IS NOT NULL"@)),
            },
        },
        Tree::Call { name, target, args } => if name == "_&&_"@ || name == "_||_"@ {
            if args.len() != 2 {
                Err(arity_error(name, args.len()))
            } else {
                match condition_sql(args[0], mapping, mark) {
                    Err(error) => Err(error),
                    Ok(left) => match condition_sql(args[1], mapping, mark) {
                        Err(error) => Err(error),
                        Ok(right) => Ok(
                            chars("("@) + left + chars(
                                if name == "_&&_"@ {
                                    " AND "@
                                } else {
                                    " OR "@
                                },
                            ) + right + chars(")"@),
                        ),
                    },
                }
            }
        } else if name == "!_"@ {
            if args.len() != 1 {
                Err(arity_error(name, args.len()))
            } else {
                match condition_sql(args[0], mapping, mark) {
                    Err(error) => Err(error),
                    Ok(only) => Ok(chars("(NOT "@) + only + chars(")"@)),
                }
            }
        } else if is_comparison(name) {
            if args.len() != 2 {
                Err(arity_error(name, args.len()))
            } else {
                comparison_sql(name, args[0], args[1], mapping, mark)
            }
        } else if name == "@in"@ {
            if args.len() != 2 {
                Err(arity_error(name, args.len()))
            } else {
                membership_sql(args[0], args[1], mapping, mark)
            }
        } else if is_string_method(name) {
            like_sql(name, target, args, mapping, mark)
        } else if name == "_?_:_"@ {
            Err(no_lowering("the ternary operator: write it as `(a && b) || (!a && c)`"@))
        } else {
            Err(no_lowering("the function `"@ + name + "`"@))
        },
        Tree::Literal(LiteralView::Bool(b)) => Ok(
            chars(
                if b {
                    "TRUE"@
                } else {
                    "FALSE"@
                },
            ),
        ),
        Tree::Ident(_) | Tree::Select { .. } => match dotted_path(tree) {
            None => Err(no_lowering("this expression"@)),
            Some(path) => match column_at(mapping, path) {
                Err(error) => Err(error),
                Ok(column) => if column.ty != ColumnType::Bool {
                    Err(
                        ErrorView::TypeMismatch(
                            "`"@ + path + "` is "@ + column.ty.text()
                                + " and cannot stand alone as a condition"@,
                        ),
                    )
                } else {
                    Ok(chars(quoted(column.name, mark)))
                },
            },
        },
        Tree::Comprehension(_) => Err(
            no_lowering(
                "a comprehension macro (`all`, `exists`, `map`, `filter`): these iterate, and a WHERE clause cannot"@,
            ),
        ),
        Tree::MapLiteral(_) | Tree::StructLiteral(_) => Err(no_lowering("a map or struct literal"@)),
        _ => Err(no_lowering("this expression as a condition"@)),
    }
}

// ---------------------------------------------------------------------------
// Lowering
// ---------------------------------------------------------------------------

fn unsupported(what: &str) -> (r: Error)
    ensures
        r@ == no_lowering(what@),
{
    let mut text = copy_of("no SQL lowering for ");
    text.append(what);
    Error::Unsupported(text)
}

/// `a`, then `b`, then `c`.
fn cat(a: &str, b: &str, c: &str) -> (r: String)
    ensures
        r@ == a@ + b@ + c@,
{
    let mut r = copy_of(a);
    r.append(b);
    r.append(c);
    r
}

fn arity(name: &str, n: usize) -> (r: Error)
    ensures
        r@ == arity_error(name@, n as nat),
{
    let mut what = cat("`", name, "` with ");
    what.append(decimal_of(n as u128).as_str());
    what.append(" arguments");
    unsupported(what.as_str())
}

/// The dotted path that an expression names, if it names one.
pub fn column_of(expr: &Formula) -> (r: Option<String>)
    ensures
        match (r, dotted_path(expr@)) {
            (Some(path), Some(found)) => path@ == found,
            (None, None) => true,
            _ => false,
        },
    decreases expr,
{
    match expr {
        Formula::Ident(name) => Some(copy_of(name.as_str())),
        Formula::Select { operand, field, test, .. } => {
            if *test {
                return None;
            }
            match column_of(operand) {
                None => None,
                Some(path) => Some(cat(path.as_str(), ".", field.as_str())),
            }
        },
        _ => None,
    }
}

fn read_literal(literal: &Literal) -> (r: Result<Value, Error>)
    ensures
        match (r, literal_value(literal@)) {
            (Ok(value), Ok(found)) => value@ == found,
            (Err(error), Err(found)) => error@ == found,
            _ => false,
        },
{
    match literal {
        Literal::Bool(b) => Ok(Value::Bool(*b)),
        Literal::Int(n) => Ok(Value::Int(*n)),
        Literal::UInt(n) => {
            if *n <= 0x7fff_ffff_ffff_ffff {
                Ok(Value::Int(*n as i64))
            } else {
                Err(
                    Error::TypeMismatch(
                        cat(
                            "`",
                            decimal_of(*n as u128).as_str(),
                            "` does not fit in a signed integer",
                        ),
                    ),
                )
            }
        },
        Literal::Double(bits) => Ok(Value::Float(*bits)),
        Literal::Text(text) => Ok(Value::Text(copy_of(text.as_str()))),
        Literal::Bytes(bytes) => Ok(Value::Bytes(crate::bytes::copy_bytes(bytes.as_slice()))),
        Literal::Null => Err(unsupported("null here")),
    }
}

/// One side of a comparison.
pub enum Operand {
    Column(Column, String),
    Value(Value),
    Null,
}

impl View for Operand {
    type V = OperandView;

    open spec fn view(&self) -> OperandView {
        match self {
            Operand::Column(column, path) => OperandView::Column(column@, path@),
            Operand::Value(value) => OperandView::Value(value@),
            Operand::Null => OperandView::Null,
        }
    }
}

fn read_timestamp(args: &Vec<Formula>) -> (r: Result<Value, Error>)
    ensures
        match (r, timestamp_value(trees_of(args@))) {
            (Ok(value), Ok(found)) => value@ == found,
            (Err(error), Err(found)) => error@ == found,
            _ => false,
        },
{
    proof {
        lemma_trees(args@);
    }
    if args.len() != 1 {
        return Err(arity("timestamp", args.len()));
    }
    assert(trees_of(args@)[0] == tree_of(args@[0]));
    match &args[0] {
        Formula::Literal(Literal::Text(text)) => match parse_instant(text.as_str()) {
            Ok((seconds, nanos)) => Ok(Value::Timestamp(Timestamp { seconds, nanos })),
            Err(message) => {
                let mut all = cat("`", text.as_str(), "` is not a timestamp: ");
                all.append(message.as_str());
                Err(Error::Parse(all))
            },
        },
        _ => Err(unsupported("`timestamp()` with a non-constant argument")),
    }
}

fn read_operand<M: Mapping>(expr: &Formula, mapping: &M) -> (r: Result<Operand, Error>)
    ensures
        match (r, operand(expr@, mapping)) {
            (Ok(found), Ok(side)) => found@ == side,
            (Err(error), Err(found)) => error@ == found,
            _ => false,
        },
{
    if let Some(path) = column_of(expr) {
        return match resolve(mapping, path.as_str()) {
            Ok(column) => Ok(Operand::Column(column, path)),
            Err(error) => Err(error),
        };
    }
    match expr {
        Formula::Literal(Literal::Null) => Ok(Operand::Null),
        Formula::Literal(literal) => match read_literal(literal) {
            Ok(value) => Ok(Operand::Value(value)),
            Err(error) => Err(error),
        },
        Formula::Call { name, target, args } => {
            if target.is_none() && same(name.as_str(), "timestamp") {
                match read_timestamp(args) {
                    Ok(value) => Ok(Operand::Value(value)),
                    Err(error) => Err(error),
                }
            } else {
                Err(unsupported("this expression as a value"))
            }
        },
        _ => Err(unsupported("this expression as a value")),
    }
}

/// Whether a value can be compared with a column.
fn check(column: &Column, value: &Value, path: &str) -> (r: Result<(), Error>)
    ensures
        comparable(column@, value@) ==> r is Ok,
        !comparable(column@, value@) ==> (r matches Err(error) && error@ == mismatch_error(
            column@,
            value@,
            path@,
        )),
{
    let given = value.ty();
    if column.ty == given || (column.ty == ColumnType::Float && given == ColumnType::Int) {
        return Ok(());
    }
    let mut text = cat("`", path, "` is ");
    text.append(column.ty.name());
    text.append(" but was compared against ");
    text.append(given.name());
    Err(Error::TypeMismatch(text))
}

fn write_operator(operator: &str) -> (r: Result<&'static str, Error>)
    ensures
        match (r, sql_operator(operator@)) {
            (Ok(sql), Ok(found)) => sql@ == found,
            (Err(error), Err(found)) => error@ == found,
            _ => false,
        },
{
    if same(operator, "_==_") {
        Ok(" = ")
    } else if same(operator, "_!=_") {
        Ok(" <> ")
    } else if same(operator, "_<_") {
        Ok(" < ")
    } else if same(operator, "_<=_") {
        Ok(" <= ")
    } else if same(operator, "_>_") {
        Ok(" > ")
    } else if same(operator, "_>=_") {
        Ok(" >= ")
    } else {
        Err(unsupported(cat("the operator `", operator, "`").as_str()))
    }
}

fn flip<'a>(operator: &'a str) -> (r: &'a str)
    ensures
        r@ == flipped(operator@),
{
    if same(operator, "_<_") {
        "_>_"
    } else if same(operator, "_<=_") {
        "_>=_"
    } else if same(operator, "_>_") {
        "_<_"
    } else if same(operator, "_>=_") {
        "_<=_"
    } else {
        operator
    }
}

/// What was written behind what was there, or why nothing was.
pub open spec fn wrote(
    r: Result<(), Error>,
    before: Sql,
    after: Sql,
    sql: Result<Sql, ErrorView>,
) -> bool {
    match (r, sql) {
        (Ok(_), Ok(sql)) => after == before + sql,
        (Err(error), Err(found)) => error@ == found,
        _ => false,
    }
}

fn write_column<DB: Dialect>(out: &mut QueryFragment<DB, Value>, column: &Column)
    requires
        old(out).wf(),
    ensures
        final(out).wf(),
        sql_of(*final(out)) == sql_of(*old(out)) + chars(quoted(column@.name, DB::mark())),
{
    let name = quote_name(column.name.as_str(), DB::quote());
    add_text(out, name.as_str());
}

fn write_column_value<DB: Dialect>(
    column: &Column,
    path: &str,
    operator: &str,
    value: Value,
    out: &mut QueryFragment<DB, Value>,
) -> (r: Result<(), Error>)
    requires
        old(out).wf(),
    ensures
        final(out).wf(),
        wrote(
            r,
            sql_of(*old(out)),
            sql_of(*final(out)),
            column_value_sql(column@, path@, operator@, value@, DB::mark()),
        ),
{
    let ghost before = sql_of(*out);
    if let Err(error) = check(column, &value, path) {
        return Err(error);
    }
    let sql = match write_operator(operator) {
        Ok(sql) => sql,
        Err(error) => {
            return Err(error);
        },
    };
    write_column(out, column);
    add_text(out, sql);
    let ghost bind = value@;
    add_value(out, value);
    assert(sql_of(*out) =~= before + (chars(quoted(column@.name, DB::mark())) + chars(sql@)).push(
        Piece::Bind(bind),
    ));
    Ok(())
}

fn write_null<DB: Dialect>(
    column: &Column,
    operator: &str,
    out: &mut QueryFragment<DB, Value>,
) -> (r: Result<(), Error>)
    requires
        old(out).wf(),
    ensures
        final(out).wf(),
        wrote(r, sql_of(*old(out)), sql_of(*final(out)), null_sql(column@, operator@, DB::mark())),
{
    let ghost before = sql_of(*out);
    let sql = if same(operator, "_==_") {
        " IS NULL"
    } else if same(operator, "_!=_") {
        " IS NOT NULL"
    } else {
        return Err(
            unsupported("ordering a column against null: only `==` and `!=` mean anything"),
        );
    };
    write_column(out, column);
    add_text(out, sql);
    assert(sql_of(*out) =~= before + (chars(quoted(column@.name, DB::mark())) + chars(sql@)));
    Ok(())
}

fn comparison<DB: Dialect, M: Mapping>(
    operator: &str,
    left: &Formula,
    right: &Formula,
    mapping: &M,
    out: &mut QueryFragment<DB, Value>,
) -> (r: Result<(), Error>)
    requires
        old(out).wf(),
    ensures
        final(out).wf(),
        wrote(
            r,
            sql_of(*old(out)),
            sql_of(*final(out)),
            comparison_sql(operator@, left@, right@, mapping, DB::mark()),
        ),
{
    let ghost before = sql_of(*out);
    let left = match read_operand(left, mapping) {
        Ok(side) => side,
        Err(error) => {
            return Err(error);
        },
    };
    let right = match read_operand(right, mapping) {
        Ok(side) => side,
        Err(error) => {
            return Err(error);
        },
    };
    match (left, right) {
        (Operand::Column(column, _), Operand::Null) => write_null(&column, operator, out),
        (Operand::Null, Operand::Column(column, _)) => write_null(&column, operator, out),
        (Operand::Column(column, path), Operand::Value(value)) => write_column_value(
            &column,
            path.as_str(),
            operator,
            value,
            out,
        ),
        (Operand::Value(value), Operand::Column(column, path)) => write_column_value(
            &column,
            path.as_str(),
            flip(operator),
            value,
            out,
        ),
        (Operand::Column(a, a_path), Operand::Column(b, b_path)) => {
            if a.ty != b.ty {
                let mut text = cat("`", a_path.as_str(), "` is ");
                text.append(a.ty.name());
                text.append(" and `");
                text.append(b_path.as_str());
                text.append("` is ");
                text.append(b.ty.name());
                return Err(Error::TypeMismatch(text));
            }
            let sql = match write_operator(operator) {
                Ok(sql) => sql,
                Err(error) => {
                    return Err(error);
                },
            };
            write_column(out, &a);
            add_text(out, sql);
            write_column(out, &b);
            assert(sql_of(*out) =~= before + (chars(quoted(a@.name, DB::mark())) + chars(sql@)
                + chars(quoted(b@.name, DB::mark()))));
            Ok(())
        },
        (Operand::Value(_), Operand::Value(_)) => Err(
            unsupported(
                "a comparison between two constants: it names no column, so it filters nothing",
            ),
        ),
        _ => Err(unsupported("comparing null to null")),
    }
}

proof fn lemma_elements_fail<M: Mapping>(
    column: ColumnView,
    path: Seq<char>,
    elements: Seq<Tree>,
    mapping: &M,
    n: nat,
    m: nat,
)
    requires
        n <= m,
        elements_sql(column, path, elements, mapping, n) is Err,
    ensures
        elements_sql(column, path, elements, mapping, m) == elements_sql(
            column,
            path,
            elements,
            mapping,
            n,
        ),
    decreases m,
{
    if n < m {
        lemma_elements_fail(column, path, elements, mapping, n, (m - 1) as nat);
    }
}

fn write_elements<DB: Dialect, M: Mapping>(
    column: &Column,
    path: &str,
    elements: &Vec<Formula>,
    mapping: &M,
    out: &mut QueryFragment<DB, Value>,
) -> (r: Result<(), Error>)
    requires
        old(out).wf(),
    ensures
        final(out).wf(),
        wrote(
            r,
            sql_of(*old(out)),
            sql_of(*final(out)),
            elements_sql(column@, path@, trees_of(elements@), mapping, elements@.len()),
        ),
{
    let ghost before = sql_of(*out);
    let ghost trees = trees_of(elements@);
    let ghost mut done: Sql = Seq::empty();
    let mut i: usize = 0;
    proof {
        lemma_trees(elements@);
    }
    assert(before + done =~= before);
    while i < elements.len()
        invariant
            i <= elements.len(),
            out.wf(),
            trees == trees_of(elements@),
            trees.len() == elements@.len(),
            forall|j: int| 0 <= j < elements@.len() ==> #[trigger] trees[j] == tree_of(elements@[j]),
            elements_sql(column@, path@, trees, mapping, i as nat) == Ok::<Sql, ErrorView>(done),
            sql_of(*out) == before + done,
        decreases elements.len() - i,
    {
        assert(trees[i as int] == tree_of(elements@[i as int]));
        let found = read_operand(&elements[i], mapping);
        let value = match found {
            Ok(Operand::Value(value)) => value,
            Ok(_) => {
                proof {
                    lemma_elements_fail(
                        column@,
                        path@,
                        trees,
                        mapping,
                        (i + 1) as nat,
                        elements@.len(),
                    );
                }
                return Err(unsupported("a non-constant element in an `in` list"));
            },
            Err(error) => {
                proof {
                    lemma_elements_fail(
                        column@,
                        path@,
                        trees,
                        mapping,
                        (i + 1) as nat,
                        elements@.len(),
                    );
                }
                return Err(error);
            },
        };
        if let Err(error) = check(column, &value, path) {
            proof {
                lemma_elements_fail(column@, path@, trees, mapping, (i + 1) as nat, elements@.len());
            }
            return Err(error);
        }
        if i > 0 {
            add_text(out, ", ");
            proof {
                done = done + chars(", "@);
            }
        }
        let ghost bind = value@;
        add_value(out, value);
        proof {
            done = done.push(Piece::Bind(bind));
            assert(sql_of(*out) =~= before + done);
        }
        i += 1;
    }
    Ok(())
}

fn membership<DB: Dialect, M: Mapping>(
    needle: &Formula,
    haystack: &Formula,
    mapping: &M,
    out: &mut QueryFragment<DB, Value>,
) -> (r: Result<(), Error>)
    requires
        old(out).wf(),
    ensures
        final(out).wf(),
        wrote(
            r,
            sql_of(*old(out)),
            sql_of(*final(out)),
            membership_sql(needle@, haystack@, mapping, DB::mark()),
        ),
{
    let ghost before = sql_of(*out);
    let (column, path) = match read_operand(needle, mapping) {
        Ok(Operand::Column(column, path)) => (column, path),
        Ok(_) => {
            return Err(unsupported("`in` over something that is not a column"));
        },
        Err(error) => {
            return Err(error);
        },
    };
    let elements = match haystack {
        Formula::List { elements, .. } => elements,
        _ => {
            return Err(unsupported("`in` over something that is not a list literal"));
        },
    };
    proof {
        lemma_trees(elements@);
    }
    if elements.len() == 0 {
        add_text(out, "FALSE");
        return Ok(());
    }
    write_column(out, &column);
    add_text(out, " IN (");
    let ghost opened = sql_of(*out);
    if let Err(error) = write_elements(&column, path.as_str(), elements, mapping, out) {
        return Err(error);
    }
    let ghost list = elements_sql(
        column@,
        path@,
        trees_of(elements@),
        mapping,
        elements@.len(),
    )->Ok_0;
    add_text(out, ")");
    assert(sql_of(*out) =~= before + (chars(quoted(column@.name, DB::mark())) + chars(" IN ("@)
        + list + chars(")"@)));
    Ok(())
}

fn like<DB: Dialect, M: Mapping>(
    name: &str,
    target: &Option<Box<Formula>>,
    args: &Vec<Formula>,
    mapping: &M,
    out: &mut QueryFragment<DB, Value>,
) -> (r: Result<(), Error>)
    requires
        old(out).wf(),
    ensures
        final(out).wf(),
        wrote(
            r,
            sql_of(*old(out)),
            sql_of(*final(out)),
            like_sql(
                name@,
                match *target {
                    Some(target) => Some(Box::new(tree_of(*target))),
                    None => None,
                },
                trees_of(args@),
                mapping,
                DB::mark(),
            ),
        ),
{
    let ghost before = sql_of(*out);
    proof {
        lemma_trees(args@);
    }
    let target = match target {
        Some(target) => target,
        None => {
            return Err(unsupported(cat("`", name, "` without a receiver").as_str()));
        },
    };
    let (column, path) = match read_operand(target, mapping) {
        Ok(Operand::Column(column, path)) => (column, path),
        Ok(_) => {
            return Err(
                unsupported(cat("`", name, "` on something that is not a column").as_str()),
            );
        },
        Err(error) => {
            return Err(error);
        },
    };
    if column.ty != ColumnType::Text {
        let mut text = cat("`", path.as_str(), "` is ");
        text.append(column.ty.name());
        text.append(" and has no text to match");
        return Err(Error::TypeMismatch(text));
    }
    if args.len() != 1 {
        return Err(arity(name, args.len()));
    }
    assert(trees_of(args@)[0] == tree_of(args@[0]));
    let needle = match read_operand(&args[0], mapping) {
        Ok(Operand::Value(Value::Text(needle))) => needle,
        Ok(_) => {
            return Err(
                unsupported(
                    cat("`", name, "` with an argument that is not a string constant").as_str(),
                ),
            );
        },
        Err(error) => {
            return Err(error);
        },
    };
    let pattern = write_pattern(name, needle.as_str());
    let ghost bind = pattern@;
    write_column(out, &column);
    add_text(out, " LIKE ");
    add_value(out, Value::Text(pattern));
    add_text(out, " ESCAPE '!'");
    assert(sql_of(*out) =~= before + ((chars(quoted(column@.name, DB::mark())) + chars(" LIKE "@)).push(
        Piece::Bind(ValueView::Text(bind)),
    ) + chars(" ESCAPE '!'"@)));
    Ok(())
}

fn names_comparison(name: &str) -> (b: bool)
    ensures
        b == is_comparison(name@),
{
    same(name, "_==_") || same(name, "_!=_") || same(name, "_<_") || same(name, "_<=_") || same(
        name,
        "_>_",
    ) || same(name, "_>=_")
}

fn names_string_method(name: &str) -> (b: bool)
    ensures
        b == is_string_method(name@),
{
    same(name, "startsWith") || same(name, "endsWith") || same(name, "contains")
}

fn call_condition<DB: Dialect, M: Mapping>(
    expr: &Formula,
    mapping: &M,
    out: &mut QueryFragment<DB, Value>,
) -> (r: Result<(), Error>)
    requires
        old(out).wf(),
        expr is Call,
    ensures
        final(out).wf(),
        wrote(
            r,
            sql_of(*old(out)),
            sql_of(*final(out)),
            condition_sql(expr@, mapping, DB::mark()),
        ),
    decreases expr, 0nat,
{
    let ghost before = sql_of(*out);
    if let Formula::Call { name, target, args } = expr {
        let name = name.as_str();
        proof {
            lemma_trees(args@);
            assert(expr@->args == trees_of(args@));
        }
        let and = same(name, "_&&_");
        if and || same(name, "_||_") {
            if args.len() != 2 {
                return Err(arity(name, args.len()));
            }
            assert(trees_of(args@)[0] == tree_of(args@[0]));
            assert(trees_of(args@)[1] == tree_of(args@[1]));
            let joiner = if and {
                " AND "
            } else {
                " OR "
            };
            add_text(out, "(");
            if let Err(error) = condition(&args[0], mapping, out) {
                return Err(error);
            }
            let ghost left = condition_sql(args@[0]@, mapping, DB::mark())->Ok_0;
            add_text(out, joiner);
            if let Err(error) = condition(&args[1], mapping, out) {
                return Err(error);
            }
            let ghost right = condition_sql(args@[1]@, mapping, DB::mark())->Ok_0;
            add_text(out, ")");
            assert(sql_of(*out) =~= before + (chars("("@) + left + chars(joiner@) + right + chars(
                ")"@,
            )));
            Ok(())
        } else if same(name, "!_") {
            if args.len() != 1 {
                return Err(arity(name, args.len()));
            }
            assert(trees_of(args@)[0] == tree_of(args@[0]));
            add_text(out, "(NOT ");
            if let Err(error) = condition(&args[0], mapping, out) {
                return Err(error);
            }
            let ghost only = condition_sql(args@[0]@, mapping, DB::mark())->Ok_0;
            add_text(out, ")");
            assert(sql_of(*out) =~= before + (chars("(NOT "@) + only + chars(")"@)));
            Ok(())
        } else if names_comparison(name) {
            if args.len() != 2 {
                return Err(arity(name, args.len()));
            }
            assert(trees_of(args@)[0] == tree_of(args@[0]));
            assert(trees_of(args@)[1] == tree_of(args@[1]));
            comparison(name, &args[0], &args[1], mapping, out)
        } else if same(name, "@in") {
            if args.len() != 2 {
                return Err(arity(name, args.len()));
            }
            assert(trees_of(args@)[0] == tree_of(args@[0]));
            assert(trees_of(args@)[1] == tree_of(args@[1]));
            membership(&args[0], &args[1], mapping, out)
        } else if names_string_method(name) {
            like(name, target, args, mapping, out)
        } else if same(name, "_?_:_") {
            Err(unsupported("the ternary operator: write it as `(a && b) || (!a && c)`"))
        } else {
            Err(unsupported(cat("the function `", name, "`").as_str()))
        }
    } else {
        Ok(())
    }
}

/// Writes `expr` as a SQL condition.
fn condition<DB: Dialect, M: Mapping>(
    expr: &Formula,
    mapping: &M,
    out: &mut QueryFragment<DB, Value>,
) -> (r: Result<(), Error>)
    requires
        old(out).wf(),
    ensures
        final(out).wf(),
        wrote(
            r,
            sql_of(*old(out)),
            sql_of(*final(out)),
            condition_sql(expr@, mapping, DB::mark()),
        ),
    decreases expr, 1nat,
{
    let ghost before = sql_of(*out);
    match expr {
        Formula::Call { .. } => call_condition(expr, mapping, out),
        Formula::Literal(Literal::Bool(b)) => {
            if *b {
                add_text(out, "TRUE");
            } else {
                add_text(out, "FALSE");
            }
            Ok(())
        },
        Formula::Select { operand, field, test, .. } if *test => {
            let path = match column_of(operand) {
                Some(path) => cat(path.as_str(), ".", field.as_str()),
                None => {
                    return Err(unsupported("has() over something that is not a field"));
                },
            };
            let column = match resolve(mapping, path.as_str()) {
                Ok(column) => column,
                Err(error) => {
                    return Err(error);
                },
            };
            write_column(out, &column);
            add_text(out, " IS NOT NULL");
            assert(sql_of(*out) =~= before + (chars(quoted(column@.name, DB::mark())) + chars(
                " IS NOT NULL"@,
            )));
            Ok(())
        },
        Formula::Ident(_) | Formula::Select { .. } => {
            let path = match column_of(expr) {
                Some(path) => path,
                None => {
                    return Err(unsupported("this expression"));
                },
            };
            let column = match resolve(mapping, path.as_str()) {
                Ok(column) => column,
                Err(error) => {
                    return Err(error);
                },
            };
            if column.ty != ColumnType::Bool {
                let mut text = cat("`", path.as_str(), "` is ");
                text.append(column.ty.name());
                text.append(" and cannot stand alone as a condition");
                return Err(Error::TypeMismatch(text));
            }
            write_column(out, &column);
            Ok(())
        },
        Formula::Comprehension(_) => Err(
            unsupported(
                "a comprehension macro (`all`, `exists`, `map`, `filter`): these iterate, and a WHERE clause cannot",
            ),
        ),
        Formula::MapLiteral(_) | Formula::StructLiteral(_) => Err(unsupported("a map or struct literal")),
        _ => Err(unsupported("this expression as a condition")),
    }
}

/// Parses CEL source.
pub fn parse(source: &str) -> (r: Result<Formula, Error>)
    ensures
        match (r, formula_in(source@)) {
            (Ok(expr), Ok(tree)) => expr@ == tree,
            (Err(Error::Parse(text)), Err(message)) => text@ == message,
            _ => false,
        },
{
    match crate::expression::parse(source) {
        Ok(expr) => Ok(expr),
        Err(message) => Err(Error::Parse(message)),
    }
}

/// Lowers a parsed expression to a boolean fragment.
pub fn render<DB: Dialect, M: Mapping>(expr: &Formula, mapping: &M) -> (r: Result<
    QueryFragment<DB, Value>,
    Error,
>)
    ensures
        match (r, condition_sql(expr@, mapping, DB::mark())) {
            (Ok(fragment), Ok(sql)) => fragment.wf() && sql_of(fragment) == sql,
            (Err(error), Err(found)) => error@ == found,
            _ => false,
        },
{
    let mut fragment = QueryFragment::new();
    let ghost start = sql_of(fragment);
    assert(start =~= Seq::<Piece<ValueView>>::empty());
    match condition(expr, mapping, &mut fragment) {
        Ok(_) => {
            assert(sql_of(fragment) =~= condition_sql(expr@, mapping, DB::mark())->Ok_0);
            Ok(fragment)
        },
        Err(error) => Err(error),
    }
}

// ---------------------------------------------------------------------------
// Laws
// ---------------------------------------------------------------------------

/// What a place of a condition shows: a character, or that something is bound there.
pub open spec fn place_shown(piece: Piece<ValueView>) -> Option<char> {
    match piece {
        Piece::Char(c) => Some(c),
        Piece::Bind(_) => None,
    }
}

/// The text of a condition, without what is bound.
pub open spec fn outline(sql: Sql) -> Seq<Option<char>> {
    sql.map_values(|piece: Piece<ValueView>| place_shown(piece))
}

proof fn lemma_outline_add(a: Sql, b: Sql)
    ensures
        outline(a + b) == outline(a) + outline(b),
{
    assert(outline(a + b) =~= outline(a) + outline(b));
}

proof fn lemma_outline_bind(a: Sql, value: ValueView)
    ensures
        outline(a.push(Piece::Bind(value))) == outline(a).push(None),
{
    assert(outline(a.push(Piece::Bind(value))) =~= outline(a).push(None));
}

proof fn lemma_alike_path(a: Tree, b: Tree)
    requires
        alike(a, b),
    ensures
        dotted_path(a) == dotted_path(b),
    decreases a,
{
    match (a, b) {
        (Tree::Select { operand: x, test: false, .. }, Tree::Select { operand: y, .. }) => {
            lemma_alike_path(*x, *y);
        },
        _ => {},
    }
}

/// Two sides of a comparison that differ in nothing but a value.
pub open spec fn alike_operands(a: OperandView, b: OperandView) -> bool {
    match (a, b) {
        (OperandView::Column(x, p), OperandView::Column(y, q)) => x == y && p == q,
        (OperandView::Value(x), OperandView::Value(y)) => x.ty() == y.ty(),
        (OperandView::Null, OperandView::Null) => true,
        _ => false,
    }
}

proof fn lemma_alike_operand<M: Mapping>(a: Tree, b: Tree, mapping: &M)
    requires
        alike(a, b),
    ensures
        match (operand(a, mapping), operand(b, mapping)) {
            (Ok(x), Ok(y)) => alike_operands(x, y),
            _ => true,
        },
{
    lemma_alike_path(a, b);
}

proof fn lemma_same_elements<M: Mapping>(
    column: ColumnView,
    path: Seq<char>,
    xs: Seq<Tree>,
    ys: Seq<Tree>,
    mapping: &M,
    n: nat,
)
    requires
        n <= xs.len(),
        xs.len() == ys.len(),
        all_alike(xs, ys, 0),
    ensures
        match (
            elements_sql(column, path, xs, mapping, n),
            elements_sql(column, path, ys, mapping, n),
        ) {
            (Ok(x), Ok(y)) => outline(x) == outline(y),
            _ => true,
        },
    decreases n,
{
    if n > 0 {
        lemma_same_elements(column, path, xs, ys, mapping, (n - 1) as nat);
        lemma_alike_at(xs, ys, 0, n - 1);
        lemma_alike_operand(xs[n - 1], ys[n - 1], mapping);
        match (
            elements_sql(column, path, xs, mapping, (n - 1) as nat),
            elements_sql(column, path, ys, mapping, (n - 1) as nat),
            operand(xs[n - 1], mapping),
            operand(ys[n - 1], mapping),
        ) {
            (Ok(x), Ok(y), Ok(OperandView::Value(v)), Ok(OperandView::Value(u))) => {
                let comma = chars::<ValueView>(", "@);
                lemma_outline_add(x, comma);
                lemma_outline_add(y, comma);
                lemma_outline_bind(x, v);
                lemma_outline_bind(y, u);
                lemma_outline_bind(x + comma, v);
                lemma_outline_bind(y + comma, u);
            },
            _ => {},
        }
    }
}

proof fn lemma_same_comparison(
    operator: Seq<char>,
    a: OperandView,
    b: OperandView,
    c: OperandView,
    d: OperandView,
    mark: char,
)
    requires
        alike_operands(a, c),
        alike_operands(b, d),
    ensures
        match (operands_sql(operator, a, b, mark), operands_sql(operator, c, d, mark)) {
            (Ok(x), Ok(y)) => outline(x) == outline(y),
            _ => true,
        },
{
    match (a, b, c, d) {
        (
            OperandView::Column(column, path),
            OperandView::Value(v),
            OperandView::Column(_, _),
            OperandView::Value(u),
        ) => {
            lemma_same_column_value(column, path, operator, v, u, mark);
        },
        (
            OperandView::Value(v),
            OperandView::Column(column, path),
            OperandView::Value(u),
            OperandView::Column(_, _),
        ) => {
            lemma_same_column_value(column, path, flipped(operator), v, u, mark);
        },
        _ => {},
    }
}

proof fn lemma_same_column_value(
    column: ColumnView,
    path: Seq<char>,
    operator: Seq<char>,
    v: ValueView,
    u: ValueView,
    mark: char,
)
    ensures
        match (
            column_value_sql(column, path, operator, v, mark),
            column_value_sql(column, path, operator, u, mark),
        ) {
            (Ok(x), Ok(y)) => outline(x) == outline(y),
            _ => true,
        },
{
    if let Ok(sql) = sql_operator(operator) {
        let head = chars::<ValueView>(quoted(column.name, mark)) + chars(sql);
        lemma_outline_bind(head, v);
        lemma_outline_bind(head, u);
    }
}

proof fn lemma_same_membership<M: Mapping>(
    a: Tree,
    xs: Tree,
    b: Tree,
    ys: Tree,
    mapping: &M,
    mark: char,
)
    requires
        alike(a, b),
        alike(xs, ys),
    ensures
        match (
            membership_sql(a, xs, mapping, mark),
            membership_sql(b, ys, mapping, mark),
        ) {
            (Ok(x), Ok(y)) => outline(x) == outline(y),
            _ => true,
        },
{
    lemma_alike_operand(a, b, mapping);
    match (operand(a, mapping), operand(b, mapping), xs, ys) {
        (
            Ok(OperandView::Column(column, path)),
            Ok(OperandView::Column(_, _)),
            Tree::List { elements: xs, .. },
            Tree::List { elements: ys, .. },
        ) => {
            lemma_same_elements(column, path, xs, ys, mapping, xs.len());
            match (
                elements_sql(column, path, xs, mapping, xs.len()),
                elements_sql(column, path, ys, mapping, ys.len()),
            ) {
                (Ok(x), Ok(y)) => {
                    let head = chars::<ValueView>(quoted(column.name, mark)) + chars(" IN ("@);
                    lemma_outline_add(head, x);
                    lemma_outline_add(head, y);
                    lemma_outline_add(head + x, chars(")"@));
                    lemma_outline_add(head + y, chars(")"@));
                },
                _ => {},
            }
        },
        _ => {},
    }
}

proof fn lemma_same_like<M: Mapping>(
    name: Seq<char>,
    a: Option<Box<Tree>>,
    xs: Seq<Tree>,
    b: Option<Box<Tree>>,
    ys: Seq<Tree>,
    mapping: &M,
    mark: char,
)
    requires
        match (a, b) {
            (None, None) => true,
            (Some(x), Some(y)) => alike(*x, *y),
            _ => false,
        },
        xs.len() == ys.len(),
        all_alike(xs, ys, 0),
    ensures
        match (
            like_sql(name, a, xs, mapping, mark),
            like_sql(name, b, ys, mapping, mark),
        ) {
            (Ok(x), Ok(y)) => outline(x) == outline(y),
            _ => true,
        },
{
    match (a, b) {
        (Some(x), Some(y)) => {
            lemma_alike_operand(*x, *y, mapping);
            if xs.len() == 1 {
                lemma_alike_at(xs, ys, 0, 0);
                match (operand(*x, mapping), operand(xs[0], mapping), operand(ys[0], mapping)) {
                    (
                        Ok(OperandView::Column(column, _)),
                        Ok(OperandView::Value(ValueView::Text(v))),
                        Ok(OperandView::Value(ValueView::Text(u))),
                    ) => {
                        let head = chars::<ValueView>(quoted(column.name, mark)) + chars(
                            " LIKE "@,
                        );
                        let escape = chars::<ValueView>(" ESCAPE '!'"@);
                        let first = ValueView::Text(like_pattern(name, v));
                        let second = ValueView::Text(like_pattern(name, u));
                        lemma_outline_bind(head, first);
                        lemma_outline_bind(head, second);
                        lemma_outline_add(head.push(Piece::Bind(first)), escape);
                        lemma_outline_add(head.push(Piece::Bind(second)), escape);
                    },
                    _ => {},
                }
            }
        },
        _ => {},
    }
}

/// The text of a condition does not depend on the constants in its filter: they are bound,
/// and never written. Two filters that differ in nothing else lower to the same text.
pub proof fn law_constants_are_never_written<M: Mapping>(
    a: Tree,
    b: Tree,
    mapping: &M,
    mark: char,
)
    requires
        alike(a, b),
    ensures
        match (condition_sql(a, mapping, mark), condition_sql(b, mapping, mark)) {
            (Ok(x), Ok(y)) => outline(x) == outline(y),
            _ => true,
        },
    decreases a,
{
    lemma_alike_path(a, b);
    match (a, b) {
        (
            Tree::Call { name, target: t, args: xs },
            Tree::Call { target: u, args: ys, .. },
        ) => {
            if xs.len() == 2 {
                lemma_alike_at(xs, ys, 0, 0);
                lemma_alike_at(xs, ys, 0, 1);
            }
            if name == "_&&_"@ || name == "_||_"@ {
                if xs.len() == 2 {
                    assert(decreases_to!(a => xs[0]));
                    assert(decreases_to!(a => xs[1]));
                    law_constants_are_never_written(xs[0], ys[0], mapping, mark);
                    law_constants_are_never_written(xs[1], ys[1], mapping, mark);
                    match (
                        condition_sql(xs[0], mapping, mark),
                        condition_sql(xs[1], mapping, mark),
                        condition_sql(ys[0], mapping, mark),
                        condition_sql(ys[1], mapping, mark),
                    ) {
                        (Ok(p), Ok(q), Ok(r), Ok(s)) => {
                            let joiner = chars::<ValueView>(
                                if name == "_&&_"@ {
                                    " AND "@
                                } else {
                                    " OR "@
                                },
                            );
                            lemma_same_pair(p, q, r, s, joiner);
                        },
                        _ => {},
                    }
                }
            } else if name == "!_"@ {
                if xs.len() == 1 {
                    lemma_alike_at(xs, ys, 0, 0);
                    assert(decreases_to!(a => xs[0]));
                    law_constants_are_never_written(xs[0], ys[0], mapping, mark);
                    match (condition_sql(xs[0], mapping, mark), condition_sql(ys[0], mapping, mark)) {
                        (Ok(p), Ok(q)) => {
                            let open = chars::<ValueView>("(NOT "@);
                            lemma_outline_add(open, p);
                            lemma_outline_add(open, q);
                            lemma_outline_add(open + p, chars(")"@));
                            lemma_outline_add(open + q, chars(")"@));
                        },
                        _ => {},
                    }
                }
            } else if is_comparison(name) {
                if xs.len() == 2 {
                    lemma_alike_operand(xs[0], ys[0], mapping);
                    lemma_alike_operand(xs[1], ys[1], mapping);
                    match (
                        operand(xs[0], mapping),
                        operand(xs[1], mapping),
                        operand(ys[0], mapping),
                        operand(ys[1], mapping),
                    ) {
                        (Ok(p), Ok(q), Ok(r), Ok(s)) => {
                            lemma_same_comparison(name, p, q, r, s, mark);
                        },
                        _ => {},
                    }
                }
            } else if name == "@in"@ {
                if xs.len() == 2 {
                    lemma_same_membership(xs[0], xs[1], ys[0], ys[1], mapping, mark);
                }
            } else if is_string_method(name) {
                lemma_same_like(name, t, xs, u, ys, mapping, mark);
            }
        },
        (Tree::Select { operand: x, test: true, .. }, Tree::Select { operand: y, .. }) => {
            lemma_alike_path(*x, *y);
        },
        _ => {},
    }
}

proof fn lemma_same_pair(p: Sql, q: Sql, r: Sql, s: Sql, joiner: Sql)
    requires
        outline(p) == outline(r),
        outline(q) == outline(s),
    ensures
        outline(chars("("@) + p + joiner + q + chars(")"@)) == outline(
            chars("("@) + r + joiner + s + chars(")"@),
        ),
{
    let open = chars::<ValueView>("("@);
    let close = chars::<ValueView>(")"@);
    lemma_outline_add(open, p);
    lemma_outline_add(open, r);
    lemma_outline_add(open + p, joiner);
    lemma_outline_add(open + r, joiner);
    lemma_outline_add(open + p + joiner, q);
    lemma_outline_add(open + r + joiner, s);
    lemma_outline_add(open + p + joiner + q, close);
    lemma_outline_add(open + r + joiner + s, close);
}

/// A comparison reads in either order: `21 < age` is `age > 21`, and turning an operator
/// round twice leaves it as it was.
pub proof fn law_a_comparison_reads_in_either_order(
    operator: Seq<char>,
    column: ColumnView,
    path: Seq<char>,
    value: ValueView,
    mark: char,
)
    ensures
        operands_sql(
            operator,
            OperandView::Value(value),
            OperandView::Column(column, path),
            mark,
        ) == operands_sql(
            flipped(operator),
            OperandView::Column(column, path),
            OperandView::Value(value),
            mark,
        ),
        flipped(flipped(operator)) == operator,
{
    reveal_strlit("_<_");
    reveal_strlit("_<=_");
    reveal_strlit("_>_");
    reveal_strlit("_>=_");
    assert("_<_"@[1] != "_>_"@[1]);
    assert("_<=_"@[1] != "_>=_"@[1]);
    assert("_<_"@.len() == 3 && "_>_"@.len() == 3);
    assert("_<=_"@.len() == 4 && "_>=_"@.len() == 4);
}

/// Every field that an expression names is exposed.
pub open spec fn fields_exposed<M: Mapping>(tree: Tree, mapping: &M) -> bool
    decreases tree, 0int,
{
    match dotted_path(tree) {
        Some(path) => column_for(mapping, path) is Some,
        None => match tree {
            Tree::Select { operand, field, test: true, .. } => match dotted_path(*operand) {
                Some(path) => column_for(mapping, path + "."@ + field) is Some,
                None => true,
            },
            Tree::Call { name, target, args } => {
                &&& match target {
                    Some(target) => is_string_method(name) ==> fields_exposed(*target, mapping),
                    None => true,
                }
                &&& all_exposed(args, mapping, 0)
            },
            Tree::List { elements, .. } => all_exposed(elements, mapping, 0),
            _ => true,
        },
    }
}

/// Every field that the expressions from the `i`th on name is exposed.
pub open spec fn all_exposed<M: Mapping>(trees: Seq<Tree>, mapping: &M, i: int) -> bool
    decreases trees, trees.len() - i,
{
    0 <= i < trees.len() ==> fields_exposed(trees[i], mapping) && all_exposed(
        trees,
        mapping,
        i + 1,
    )
}

proof fn lemma_all_exposed<M: Mapping>(trees: Seq<Tree>, mapping: &M, i: int)
    requires
        0 <= i <= trees.len(),
        forall|j: int| i <= j < trees.len() ==> fields_exposed(#[trigger] trees[j], mapping),
    ensures
        all_exposed(trees, mapping, i),
    decreases trees.len() - i,
{
    if i < trees.len() {
        assert(fields_exposed(trees[i], mapping));
        lemma_all_exposed(trees, mapping, i + 1);
    }
}

proof fn lemma_operand_exposed<M: Mapping>(tree: Tree, mapping: &M)
    requires
        operand(tree, mapping) is Ok,
    ensures
        fields_exposed(tree, mapping),
{
    if dotted_path(tree) is None {
        match tree {
            Tree::Call { args, .. } => {
                assert(args.len() == 1 && args[0] is Literal);
                assert(fields_exposed(args[0], mapping));
                lemma_all_exposed(args, mapping, 0);
            },
            _ => {},
        }
    }
}

proof fn lemma_elements_exposed<M: Mapping>(
    column: ColumnView,
    path: Seq<char>,
    elements: Seq<Tree>,
    mapping: &M,
    n: nat,
)
    requires
        n <= elements.len(),
        elements_sql(column, path, elements, mapping, n) is Ok,
    ensures
        forall|j: int| 0 <= j < n ==> fields_exposed(#[trigger] elements[j], mapping),
    decreases n,
{
    if n > 0 {
        lemma_elements_exposed(column, path, elements, mapping, (n - 1) as nat);
        lemma_operand_exposed(elements[n - 1], mapping);
    }
}

/// The mapping is an allow-list: what lowers to a condition names no field but those that the
/// mapping exposes.
pub proof fn law_only_exposed_fields_are_lowered<M: Mapping>(tree: Tree, mapping: &M, mark: char)
    requires
        condition_sql(tree, mapping, mark) is Ok,
    ensures
        fields_exposed(tree, mapping),
    decreases tree,
{
    match tree {
        Tree::Call { name, target, args } => {
            if name == "_&&_"@ || name == "_||_"@ {
                assert(decreases_to!(tree => args[0]));
                assert(decreases_to!(tree => args[1]));
                law_only_exposed_fields_are_lowered(args[0], mapping, mark);
                law_only_exposed_fields_are_lowered(args[1], mapping, mark);
            } else if name == "!_"@ {
                assert(decreases_to!(tree => args[0]));
                law_only_exposed_fields_are_lowered(args[0], mapping, mark);
            } else if is_comparison(name) {
                lemma_operand_exposed(args[0], mapping);
                lemma_operand_exposed(args[1], mapping);
            } else if name == "@in"@ {
                lemma_operand_exposed(args[0], mapping);
                let elements = args[1]->elements;
                if elements.len() > 0 {
                    match operand(args[0], mapping) {
                        Ok(OperandView::Column(column, path)) => {
                            lemma_elements_exposed(
                                column,
                                path,
                                elements,
                                mapping,
                                elements.len(),
                            );
                        },
                        _ => {},
                    }
                }
                lemma_all_exposed(elements, mapping, 0);
                assert(fields_exposed(args[1], mapping));
            } else {
                assert(is_string_method(name));
                lemma_operand_exposed(*target->0, mapping);
                lemma_operand_exposed(args[0], mapping);
            }
            lemma_not_methods(name);
            lemma_all_exposed(args, mapping, 0);
        },
        _ => {},
    }
}

/// No operator is named like a string method.
proof fn lemma_not_methods(name: Seq<char>)
    ensures
        name == "_&&_"@ || name == "_||_"@ || name == "!_"@ || is_comparison(name) || name
            == "@in"@ ==> !is_string_method(name),
{
    reveal_strlit("_&&_");
    reveal_strlit("_||_");
    reveal_strlit("!_");
    reveal_strlit("@in");
    reveal_strlit("_==_");
    reveal_strlit("_!=_");
    reveal_strlit("_<_");
    reveal_strlit("_<=_");
    reveal_strlit("_>_");
    reveal_strlit("_>=_");
    reveal_strlit("startsWith");
    reveal_strlit("endsWith");
    reveal_strlit("contains");
    assert("startsWith"@.len() == 10 && "endsWith"@.len() == 8 && "contains"@.len() == 8);
}

} // verus!

//! A filter expression as a condition.

use vstd::prelude::*;
use vstd::string::StringExecFns;

use crate::columns::{Columns, QueryResolver};
use crate::composer::clause::WhereClause;
#[allow(unused_imports)]
use crate::composer::clause::ClauseView;
use crate::composer::value::Value;
#[allow(unused_imports)]
use crate::composer::value::{value_views, ValueView};
use crate::expression::{self, Formula, Literal};
#[allow(unused_imports)]
use crate::expression::{
    alike, all_alike, formula_in, lemma_alike_at, lemma_trees, tree_of, trees_of, LiteralView, Tree,
};
use crate::instant::parse_rfc3339;
#[allow(unused_imports)]
use crate::instant::chrono_rfc3339;
use crate::pattern::write_pattern;
#[allow(unused_imports)]
use crate::pattern::{is_string_method, like_pattern};
use crate::text::{chars_of, copy_of, decimal_of, join, same, trim};
#[allow(unused_imports)]
use crate::text::{decimal, joined, strings, trimmed};
#[allow(unused_imports)]
use crate::expression::cel_parsed;
#[allow(unused_imports)]
use crate::mistake::all_told;

verus! {

// ---------------------------------------------------------------------------
// Errors
// ---------------------------------------------------------------------------

/// Why a filter is refused.
#[derive(Debug, PartialEq, Eq)]
pub enum FilterClauseError {
    /// It is no expression.
    Parse(String),
    /// It has no reading as a condition.
    Unsupported(String),
    /// A literal that does not read as the type that a function asks for.
    InvalidLiteral(String),
    /// A field that the columns do not offer.
    UnknownField(String),
}

/// Why a filter is refused, as contracts speak of it.
pub enum FilterFault {
    Parse(Seq<char>),
    Unsupported(Seq<char>),
    InvalidLiteral(Seq<char>),
    UnknownField(Seq<char>),
}

impl View for FilterClauseError {
    type V = FilterFault;

    open spec fn view(&self) -> FilterFault {
        match self {
            FilterClauseError::Parse(text) => FilterFault::Parse(text@),
            FilterClauseError::Unsupported(text) => FilterFault::Unsupported(text@),
            FilterClauseError::InvalidLiteral(text) => FilterFault::InvalidLiteral(text@),
            FilterClauseError::UnknownField(field) => FilterFault::UnknownField(field@),
        }
    }
}

impl FilterFault {
    /// The text that describes an error.
    pub open spec fn text(self) -> Seq<char> {
        match self {
            FilterFault::Parse(text) => text,
            FilterFault::Unsupported(text) => "`"@ + text + "` has no reading as a condition"@,
            FilterFault::InvalidLiteral(text) => text,
            FilterFault::UnknownField(field) => "unknown filter field `"@ + field + "`"@,
        }
    }
}

impl FilterClauseError {
    /// Describes this error.
    pub fn message(&self) -> (r: String)
        ensures
            r@ == self@.text(),
    {
        match self {
            FilterClauseError::Parse(text) => copy_of(text.as_str()),
            FilterClauseError::Unsupported(text) => copy_of("`").concat(text.as_str()).concat(
                "` has no reading as a condition",
            ),
            FilterClauseError::InvalidLiteral(text) => copy_of(text.as_str()),
            FilterClauseError::UnknownField(field) => copy_of("unknown filter field `").concat(
                field.as_str(),
            ).concat("`"),
        }
    }
}

// ---------------------------------------------------------------------------
// Identifiers
// ---------------------------------------------------------------------------

/// The bytes that `uuid` reads from a text, or why it reads none.
pub uninterp spec fn uuid_parsed(text: Seq<char>) -> Result<Seq<u8>, Seq<char>>;

/// What reading an identifier gave.
pub open spec fn uuid_seen(r: Result<[u8; 16], String>) -> Result<Seq<u8>, Seq<char>> {
    match r {
        Ok(bytes) => Ok(bytes@),
        Err(message) => Err(message@),
    }
}

/// Reads an identifier: `uuid::Uuid::parse_str`, as its sixteen bytes. Which depends on the
/// text alone.
#[verifier::external_body]
fn parse_uuid(text: &str) -> (r: Result<[u8; 16], String>)
    ensures
        uuid_seen(r) == uuid_parsed(text@),
{
    uuid::Uuid::parse_str(text).map(|id| id.into_bytes()).map_err(|error| error.to_string())
}

// ---------------------------------------------------------------------------
// What a filter means
// ---------------------------------------------------------------------------

/// A condition: SQL text, and every value that is bound up to its end.
pub type Rendered = Result<(Seq<char>, Seq<ValueView>), FilterFault>;

/// Something that has no reading as a condition.
pub open spec fn unsupported(text: Seq<char>) -> Rendered {
    Err(FilterFault::Unsupported(text))
}

/// The field that a name or a selection means, with dots.
pub open spec fn field_name(tree: Tree) -> Option<Seq<char>>
    decreases tree,
{
    match tree {
        Tree::Ident(name) => Some(name),
        Tree::Select { operand, field, test, .. } => if test {
            None
        } else {
            match field_name(*operand) {
                Some(name) => Some(name + "."@ + field),
                None => None,
            }
        },
        _ => None,
    }
}

/// A name or a selection.
pub open spec fn is_field(tree: Tree) -> bool {
    tree is Ident || tree is Select
}

/// The text that shows what an expression is.
pub open spec fn shown(tree: Tree) -> Seq<char> {
    match tree {
        Tree::Select { shown, .. } => shown,
        Tree::List { shown, .. } => shown,
        Tree::MapLiteral(shown) => shown,
        Tree::StructLiteral(shown) => shown,
        Tree::Comprehension(shown) => shown,
        Tree::Unspecified(shown) => shown,
        _ => Seq::empty(),
    }
}

/// An expression that has no reading as a condition.
pub open spec fn refused(tree: Tree) -> Rendered {
    unsupported(shown(tree) + " has no reading as a condition"@)
}

/// A field, or why there is none.
pub open spec fn field_rendered(tree: Tree, values: Seq<ValueView>) -> Rendered {
    match field_name(tree) {
        Some(name) => Ok((name, values)),
        None => refused(tree),
    }
}

/// The placeholder of one more value.
pub open spec fn bound_next(values: Seq<ValueView>, value: ValueView) -> Rendered {
    Ok(("$"@ + decimal(values.len() + 1), values.push(value)))
}

/// The value of a literal.
pub open spec fn literal_value(literal: LiteralView) -> Result<ValueView, FilterFault> {
    match literal {
        LiteralView::Null => Ok(ValueView::Null),
        LiteralView::Bool(b) => Ok(ValueView::Bool(b)),
        LiteralView::Int(n) => Ok(ValueView::Int(n)),
        LiteralView::UInt(n) => if n <= i64::MAX {
            Ok(ValueView::Int(n as i64))
        } else {
            Err(
                FilterFault::Unsupported(
                    "unsigned literal "@ + decimal(n as nat)
                        + " is too large for the signed integer a bind value carries"@,
                ),
            )
        },
        LiteralView::Double(bits) => Ok(ValueView::Float(bits)),
        LiteralView::Text(text) => Ok(ValueView::Text(text)),
        LiteralView::Bytes(_) => Err(
            FilterFault::Unsupported("a bytes literal has no SQL spelling"@),
        ),
    }
}

/// The SQL operator of a call with two operands.
pub open spec fn binary_operator(name: Seq<char>) -> Option<Seq<char>> {
    if name == "_&&_"@ {
        Some("AND"@)
    } else if name == "_||_"@ {
        Some("OR"@)
    } else if name == "_==_"@ {
        Some("="@)
    } else if name == "_!=_"@ {
        Some("<>"@)
    } else if name == "_<_"@ {
        Some("<"@)
    } else if name == "_<=_"@ {
        Some("<="@)
    } else if name == "_>_"@ {
        Some(">"@)
    } else if name == "_>=_"@ {
        Some(">="@)
    } else if name == "_+_"@ {
        Some("+"@)
    } else if name == "_-_"@ {
        Some("-"@)
    } else if name == "_*_"@ {
        Some("*"@)
    } else if name == "_/_"@ {
        Some("/"@)
    } else if name == "_%_"@ {
        Some("%"@)
    } else {
        None
    }
}

/// The SQL operator of a call with one operand.
pub open spec fn unary_operator(name: Seq<char>) -> Option<Seq<char>> {
    if name == "!_"@ {
        Some("NOT ("@)
    } else if name == "-_"@ {
        Some("-("@)
    } else {
        None
    }
}

/// The literal null.
pub open spec fn is_null(tree: Tree) -> bool {
    tree == Tree::Literal(LiteralView::Null)
}

/// An equality with null on one side, which is a test and no comparison.
pub open spec fn tests_null(name: Seq<char>, left: Tree, right: Tree) -> bool {
    (name == "_==_"@ || name == "_!=_"@) && is_null(left) != is_null(right)
}

/// The test for null.
pub open spec fn null_test(name: Seq<char>) -> Seq<char> {
    if name == "_==_"@ {
        " IS NULL"@
    } else {
        " IS NOT NULL"@
    }
}

/// A call that reads two operands has another number of them.
pub open spec fn two_operands(name: Seq<char>) -> Rendered {
    unsupported("`"@ + name + "` reads two operands"@)
}

/// A call that reads one operand has another number of them.
pub open spec fn one_operand(name: Seq<char>) -> Rendered {
    unsupported("`"@ + name + "` reads one operand"@)
}

/// A call of something that is not a string literal.
pub open spec fn reads_a_string(name: Seq<char>) -> Seq<char> {
    "`"@ + name + "` reads a string literal"@
}

/// A string method.
pub open spec fn like_rendered(
    name: Seq<char>,
    target: Option<Box<Tree>>,
    args: Seq<Tree>,
    values: Seq<ValueView>,
) -> Rendered {
    match target {
        Some(target) if is_field(*target) => if args.len() != 1 {
            one_operand(name)
        } else {
            match args[0] {
                Tree::Literal(LiteralView::Text(text)) => match field_rendered(*target, values) {
                    Ok((field, held)) => Ok(
                        (
                            "("@ + field + ") LIKE $"@ + decimal(held.len() + 1) + " ESCAPE '!'"@,
                            held.push(ValueView::Text(like_pattern(name, text))),
                        ),
                    ),
                    Err(fault) => Err(fault),
                },
                _ => unsupported(reads_a_string(name)),
            }
        },
        _ => unsupported("`"@ + name + "` is called on a field, as `field."@ + name + "(\"...\")`"@),
    }
}

/// The string literal that a constructor is called with.
pub open spec fn constant(name: Seq<char>, target: Option<Box<Tree>>, args: Seq<Tree>) -> Result<
    Seq<char>,
    FilterFault,
> {
    if target is Some || args.len() != 1 {
        Err(FilterFault::Unsupported("`"@ + name + "` is called as `"@ + name + "(\"...\")`"@))
    } else {
        match args[0] {
            Tree::Literal(LiteralView::Text(text)) => Ok(text),
            _ => Err(FilterFault::Unsupported(reads_a_string(name))),
        }
    }
}

/// The microseconds since the epoch of an instant.
pub open spec fn micros(seconds: i64, nanos: u32) -> i64 {
    (seconds * 1_000_000 + nanos as int / 1000) as i64
}

/// The timestamp that a text names.
pub open spec fn timestamp_value(text: Seq<char>) -> Result<ValueView, FilterFault> {
    match chrono_rfc3339(text) {
        Ok((seconds, nanos)) => Ok(ValueView::Timestamp(micros(seconds, nanos))),
        Err(error) => Err(
            FilterFault::InvalidLiteral(
                "`timestamp(\""@ + text + "\")` is not an RFC 3339 timestamp: "@ + error,
            ),
        ),
    }
}

/// The identifier that a text spells.
pub open spec fn uuid_value(text: Seq<char>) -> Result<ValueView, FilterFault> {
    match uuid_parsed(text) {
        Ok(bytes) => Ok(ValueView::Uuid(bytes)),
        Err(error) => Err(
            FilterFault::InvalidLiteral("`uuid(\""@ + text + "\")` is not a UUID: "@ + error),
        ),
    }
}

/// A constructor.
pub open spec fn constructed(
    name: Seq<char>,
    target: Option<Box<Tree>>,
    args: Seq<Tree>,
    values: Seq<ValueView>,
) -> Rendered {
    match constant(name, target, args) {
        Ok(text) => match if name == "timestamp"@ {
            timestamp_value(text)
        } else {
            uuid_value(text)
        } {
            Ok(value) => bound_next(values, value),
            Err(fault) => Err(fault),
        },
        Err(fault) => Err(fault),
    }
}

/// The SQL of an expression, behind the values that are bound already. Every literal is bound,
/// and none is written into the text.
pub open spec fn rendered(tree: Tree, values: Seq<ValueView>) -> Rendered
    decreases tree, 0int,
{
    match tree {
        Tree::Literal(literal) => match literal_value(literal) {
            Ok(value) => bound_next(values, value),
            Err(fault) => Err(fault),
        },
        Tree::Ident(_) | Tree::Select { .. } => field_rendered(tree, values),
        Tree::Call { name, target, args } => if binary_operator(name) is Some {
            if args.len() != 2 {
                two_operands(name)
            } else if tests_null(name, args[0], args[1]) {
                match if is_null(args[0]) {
                    rendered(args[1], values)
                } else {
                    rendered(args[0], values)
                } {
                    Ok((sql, held)) => Ok((sql + null_test(name), held)),
                    Err(fault) => Err(fault),
                }
            } else {
                match rendered(args[0], values) {
                    Ok((left, held)) => match rendered(args[1], held) {
                        Ok((right, all)) => Ok(
                            (
                                "("@ + left + ") "@ + binary_operator(name)->0 + " ("@ + right
                                    + ")"@,
                                all,
                            ),
                        ),
                        Err(fault) => Err(fault),
                    },
                    Err(fault) => Err(fault),
                }
            }
        } else if unary_operator(name) is Some {
            if args.len() != 1 {
                one_operand(name)
            } else {
                match rendered(args[0], values) {
                    Ok((sql, held)) => Ok((unary_operator(name)->0 + sql + ")"@, held)),
                    Err(fault) => Err(fault),
                }
            }
        } else if name == "@in"@ {
            if args.len() != 2 {
                two_operands(name)
            } else {
                match args[1] {
                    Tree::List { elements, .. } => match rendered(args[0], values) {
                        Ok((needle, held)) => {
                            proof {
                                assert(decreases_to!(tree => args[1]));
                                assert(decreases_to!(args[1] => elements));
                            }
                            match items_from(elements, 0, held, Seq::empty()) {
                                Ok((items, all)) => Ok(
                                    (needle + " IN ("@ + joined(items, ", "@) + ")"@, all),
                                ),
                                Err(fault) => Err(fault),
                            }
                        },
                        Err(fault) => Err(fault),
                    },
                    _ => unsupported("`in` reads a list on its right"@),
                }
            }
        } else if is_string_method(name) {
            like_rendered(name, target, args, values)
        } else if name == "timestamp"@ || name == "uuid"@ {
            constructed(name, target, args, values)
        } else {
            unsupported("`"@ + name + "` has no reading as a condition"@)
        },
        _ => refused(tree),
    }
}

/// The SQL of the elements from the `i`th on, behind those that were written.
pub open spec fn items_from(
    elements: Seq<Tree>,
    i: int,
    values: Seq<ValueView>,
    items: Seq<Seq<char>>,
) -> Result<(Seq<Seq<char>>, Seq<ValueView>), FilterFault>
    decreases elements, elements.len() - i,
{
    if !(0 <= i < elements.len()) {
        Ok((items, values))
    } else {
        match rendered(elements[i], values) {
            Ok((item, held)) => items_from(elements, i + 1, held, items.push(item)),
            Err(fault) => Err(fault),
        }
    }
}

/// The expression of a filter, or why it is refused. A blank one has none.
pub open spec fn parsed(filter: Seq<char>) -> Result<Option<Tree>, FilterFault> {
    if trimmed(filter).len() == 0 {
        Ok(None)
    } else {
        match formula_in(filter) {
            Ok(tree) => validated(tree),
            Err(text) => Err(FilterFault::Parse(text)),
        }
    }
}

/// An expression, where it has a reading as a condition.
pub open spec fn validated(tree: Tree) -> Result<Option<Tree>, FilterFault> {
    match rendered(tree, Seq::empty()) {
        Ok(_) => Ok(Some(tree)),
        Err(fault) => Err(fault),
    }
}

/// The condition of a filter that has a reading as one.
pub open spec fn clause_of(filter: Option<Tree>) -> ClauseView {
    match filter {
        Some(tree) => match rendered(tree, Seq::empty()) {
            Ok((sql, values)) => ClauseView { sql, values },
            Err(_) => ClauseView { sql: Seq::empty(), values: Seq::empty() },
        },
        None => ClauseView { sql: Seq::empty(), values: Seq::empty() },
    }
}

/// An expression with every field renamed to the column that it stands for, or the first
/// field that is not offered.
pub open spec fn renamed(tree: Tree, columns: Map<Seq<char>, Seq<char>>) -> Result<Tree, Seq<char>>
    decreases tree, 0int,
{
    match field_name(tree) {
        Some(name) => if columns.dom().contains(name) {
            Ok(Tree::Ident(columns[name]))
        } else {
            Err(name)
        },
        None => match tree {
            Tree::Call { name, target, args } => match target {
                Some(target) => match renamed(*target, columns) {
                    Ok(to) => match renamed_from(args, columns, 0, Seq::empty()) {
                        Ok(done) => Ok(Tree::Call { name, target: Some(Box::new(to)), args: done }),
                        Err(field) => Err(field),
                    },
                    Err(field) => Err(field),
                },
                None => match renamed_from(args, columns, 0, Seq::empty()) {
                    Ok(done) => Ok(Tree::Call { name, target: None, args: done }),
                    Err(field) => Err(field),
                },
            },
            Tree::List { elements, shown } => match renamed_from(
                elements,
                columns,
                0,
                Seq::empty(),
            ) {
                Ok(done) => Ok(Tree::List { elements: done, shown }),
                Err(field) => Err(field),
            },
            _ => Ok(tree),
        },
    }
}

/// Renames the expressions from the `i`th on, behind those that were renamed.
pub open spec fn renamed_from(
    trees: Seq<Tree>,
    columns: Map<Seq<char>, Seq<char>>,
    i: int,
    done: Seq<Tree>,
) -> Result<Seq<Tree>, Seq<char>>
    decreases trees, trees.len() - i,
{
    if !(0 <= i < trees.len()) {
        Ok(done)
    } else {
        match renamed(trees[i], columns) {
            Ok(tree) => renamed_from(trees, columns, i + 1, done.push(tree)),
            Err(field) => Err(field),
        }
    }
}

// ---------------------------------------------------------------------------
// Rendering
// ---------------------------------------------------------------------------

/// What rendering gave.
pub open spec fn shows(
    r: Result<String, FilterClauseError>,
    values: Seq<ValueView>,
    found: Rendered,
) -> bool {
    match (r, found) {
        (Ok(sql), Ok((text, held))) => sql@ == text && values == held,
        (Err(error), Err(fault)) => error@ == fault,
        _ => false,
    }
}

/// A filter that has no reading as a condition.
fn refuse(text: String) -> (r: FilterClauseError)
    ensures
        r@ == FilterFault::Unsupported(text@),
{
    FilterClauseError::Unsupported(text)
}

/// The field that a name or a selection means.
fn name_field(node: &Formula) -> (r: Option<String>)
    ensures
        match (r, field_name(node@)) {
            (Some(name), Some(found)) => name@ == found,
            (None, None) => true,
            _ => false,
        },
    decreases node,
{
    match node {
        Formula::Ident(name) => Some(copy_of(name.as_str())),
        Formula::Select { operand, field, test, .. } => {
            if *test {
                return None;
            }
            match name_field(operand) {
                Some(name) => {
                    let mut all = name;
                    all.append(".");
                    all.append(field.as_str());
                    Some(all)
                },
                None => None,
            }
        },
        _ => None,
    }
}

fn refuse_node(node: &Formula) -> (r: FilterClauseError)
    ensures
        r@ == FilterFault::Unsupported(shown(node@) + " has no reading as a condition"@),
{
    let text = match node {
        Formula::Select { shown, .. } => copy_of(shown.as_str()),
        Formula::List { shown, .. } => copy_of(shown.as_str()),
        Formula::MapLiteral(shown) => copy_of(shown.as_str()),
        Formula::StructLiteral(shown) => copy_of(shown.as_str()),
        Formula::Comprehension(shown) => copy_of(shown.as_str()),
        Formula::Unspecified(shown) => copy_of(shown.as_str()),
        _ => String::new(),
    };
    assert(text@ =~= shown(node@));
    refuse(text.concat(" has no reading as a condition"))
}

fn push_value(values: &mut Vec<Value>, value: Value) -> (r: String)
    ensures
        r@ == "$"@ + decimal(value_views(old(values)@).len() + 1),
        value_views(final(values)@) == value_views(old(values)@).push(value@),
{
    let ghost before = value_views(values@);
    values.push(value);
    assert(value_views(values@) =~= before.push(value@));
    copy_of("$").concat(decimal_of(values.len() as u128).as_str())
}

fn value_of(literal: &Literal) -> (r: Result<Value, FilterClauseError>)
    ensures
        match (r, literal_value(literal@)) {
            (Ok(value), Ok(found)) => value@ == found,
            (Err(error), Err(fault)) => error@ == fault,
            _ => false,
        },
{
    match literal {
        Literal::Null => Ok(Value::Null),
        Literal::Bool(b) => Ok(Value::Bool(*b)),
        Literal::Int(n) => Ok(Value::Int(*n)),
        Literal::UInt(n) => if *n <= i64::MAX as u64 {
            Ok(Value::Int(*n as i64))
        } else {
            Err(
                refuse(
                    copy_of("unsigned literal ").concat(decimal_of(*n as u128).as_str()).concat(
                        " is too large for the signed integer a bind value carries",
                    ),
                ),
            )
        },
        Literal::Double(bits) => Ok(Value::Float(*bits)),
        Literal::Text(text) => Ok(Value::String(copy_of(text.as_str()))),
        Literal::Bytes(_) => Err(refuse(copy_of("a bytes literal has no SQL spelling"))),
    }
}

fn operator_of(name: &str) -> (r: Option<&'static str>)
    ensures
        match (r, binary_operator(name@)) {
            (Some(sql), Some(found)) => sql@ == found,
            (None, None) => true,
            _ => false,
        },
{
    if same(name, "_&&_") {
        Some("AND")
    } else if same(name, "_||_") {
        Some("OR")
    } else if same(name, "_==_") {
        Some("=")
    } else if same(name, "_!=_") {
        Some("<>")
    } else if same(name, "_<_") {
        Some("<")
    } else if same(name, "_<=_") {
        Some("<=")
    } else if same(name, "_>_") {
        Some(">")
    } else if same(name, "_>=_") {
        Some(">=")
    } else if same(name, "_+_") {
        Some("+")
    } else if same(name, "_-_") {
        Some("-")
    } else if same(name, "_*_") {
        Some("*")
    } else if same(name, "_/_") {
        Some("/")
    } else if same(name, "_%_") {
        Some("%")
    } else {
        None
    }
}

fn prefix_of(name: &str) -> (r: Option<&'static str>)
    ensures
        match (r, unary_operator(name@)) {
            (Some(sql), Some(found)) => sql@ == found,
            (None, None) => true,
            _ => false,
        },
{
    if same(name, "!_") {
        Some("NOT (")
    } else if same(name, "-_") {
        Some("-(")
    } else {
        None
    }
}

fn null_literal(node: &Formula) -> (b: bool)
    ensures
        b == is_null(node@),
{
    match node {
        Formula::Literal(Literal::Null) => true,
        _ => false,
    }
}

fn refuse_call(name: &str, text: &str) -> (r: FilterClauseError)
    ensures
        r@ == FilterFault::Unsupported("`"@ + name@ + text@),
{
    refuse(copy_of("`").concat(name).concat(text))
}

fn render_like(
    name: &str,
    target: &Option<Box<Formula>>,
    args: &Vec<Formula>,
    values: &mut Vec<Value>,
) -> (r: Result<String, FilterClauseError>)
    requires
        is_string_method(name@),
    ensures
        shows(
            r,
            value_views(final(values)@),
            like_rendered(
                name@,
                match *target {
                    Some(target) => Some(Box::new(tree_of(*target))),
                    None => None,
                },
                trees_of(args@),
                value_views(old(values)@),
            ),
        ),
{
    proof {
        lemma_trees(args@);
    }
    let on_field = match target {
        Some(target) => match &**target {
            Formula::Ident(_) => true,
            Formula::Select { .. } => true,
            _ => false,
        },
        None => false,
    };
    if let Some(target) = target {
        if on_field {
            if args.len() != 1 {
                return Err(refuse_call(name, "` reads one operand"));
            }
            assert(trees_of(args@)[0] == tree_of(args@[0]));
            let text = match &args[0] {
                Formula::Literal(Literal::Text(text)) => text,
                _ => {
                    return Err(refuse_call(name, "` reads a string literal"));
                },
            };
            let field = match name_field(target) {
                Some(field) => field,
                None => {
                    return Err(refuse_node(target));
                },
            };
            let ghost before = value_views(values@);
            let pattern = Value::String(write_pattern(name, text.as_str()));
            values.push(pattern);
            assert(value_views(values@) =~= before.push(pattern@));
            let mut sql = copy_of("(");
            sql.append(field.as_str());
            sql.append(") LIKE $");
            sql.append(decimal_of(values.len() as u128).as_str());
            sql.append(" ESCAPE '!'");
            return Ok(sql);
        }
    }
    let mut text = copy_of("`");
    text.append(name);
    text.append("` is called on a field, as `field.");
    text.append(name);
    text.append("(\"...\")`");
    Err(refuse(text))
}

fn read_timestamp(text: &str) -> (r: Result<Value, FilterClauseError>)
    ensures
        match (r, timestamp_value(text@)) {
            (Ok(value), Ok(found)) => value@ == found,
            (Err(error), Err(fault)) => error@ == fault,
            _ => false,
        },
{
    match parse_rfc3339(text) {
        Ok((seconds, nanos)) => {
            let micros: i64 = seconds * 1_000_000 + (nanos / 1000) as i64;
            Ok(Value::Timestamp(micros))
        },
        Err(error) => {
            let mut message = copy_of("`timestamp(\"");
            message.append(text);
            message.append("\")` is not an RFC 3339 timestamp: ");
            message.append(error.as_str());
            Err(FilterClauseError::InvalidLiteral(message))
        },
    }
}

fn read_uuid(text: &str) -> (r: Result<Value, FilterClauseError>)
    ensures
        match (r, uuid_value(text@)) {
            (Ok(value), Ok(found)) => value@ == found,
            (Err(error), Err(fault)) => error@ == fault,
            _ => false,
        },
{
    match parse_uuid(text) {
        Ok(bytes) => Ok(Value::Uuid(bytes)),
        Err(error) => {
            let mut message = copy_of("`uuid(\"");
            message.append(text);
            message.append("\")` is not a UUID: ");
            message.append(error.as_str());
            Err(FilterClauseError::InvalidLiteral(message))
        },
    }
}

fn render_constructor(
    name: &str,
    target: &Option<Box<Formula>>,
    args: &Vec<Formula>,
    values: &mut Vec<Value>,
) -> (r: Result<String, FilterClauseError>)
    requires
        name@ == "timestamp"@ || name@ == "uuid"@,
    ensures
        shows(
            r,
            value_views(final(values)@),
            constructed(
                name@,
                match *target {
                    Some(target) => Some(Box::new(tree_of(*target))),
                    None => None,
                },
                trees_of(args@),
                value_views(old(values)@),
            ),
        ),
{
    proof {
        lemma_trees(args@);
    }
    if target.is_some() || args.len() != 1 {
        let mut text = copy_of("`");
        text.append(name);
        text.append("` is called as `");
        text.append(name);
        text.append("(\"...\")`");
        return Err(refuse(text));
    }
    assert(trees_of(args@)[0] == tree_of(args@[0]));
    let text = match &args[0] {
        Formula::Literal(Literal::Text(text)) => text,
        _ => {
            return Err(refuse_call(name, "` reads a string literal"));
        },
    };
    let read = if same(name, "timestamp") {
        read_timestamp(text.as_str())
    } else {
        read_uuid(text.as_str())
    };
    match read {
        Ok(value) => Ok(push_value(values, value)),
        Err(error) => Err(error),
    }
}


/// Writes an expression as SQL, binding each literal behind the values that are there.
fn render(node: &Formula, values: &mut Vec<Value>) -> (r: Result<String, FilterClauseError>)
    ensures
        shows(r, value_views(final(values)@), rendered(node@, value_views(old(values)@))),
    decreases node,
{
    match node {
        Formula::Literal(literal) => match value_of(literal) {
            Ok(value) => Ok(push_value(values, value)),
            Err(error) => Err(error),
        },
        Formula::Ident(_) | Formula::Select { .. } => match name_field(node) {
            Some(name) => Ok(name),
            None => Err(refuse_node(node)),
        },
        Formula::Call { name, target, args } => {
            proof {
                lemma_trees(args@);
            }
            let name = name.as_str();
            if let Some(operator) = operator_of(name) {
                if args.len() != 2 {
                    return Err(refuse_call(name, "` reads two operands"));
                }
                assert(trees_of(args@)[0] == tree_of(args@[0]));
                assert(trees_of(args@)[1] == tree_of(args@[1]));
                assert(decreases_to!(args => args@[0]));
                assert(decreases_to!(args => args@[1]));
                let left_null = null_literal(&args[0]);
                let right_null = null_literal(&args[1]);
                if (same(name, "_==_") || same(name, "_!=_")) && left_null != right_null {
                    let other = if left_null {
                        render(&args[1], values)
                    } else {
                        render(&args[0], values)
                    };
                    let test = if same(name, "_==_") {
                        " IS NULL"
                    } else {
                        " IS NOT NULL"
                    };
                    return match other {
                        Ok(sql) => Ok(sql.concat(test)),
                        Err(error) => Err(error),
                    };
                }
                let left = match render(&args[0], values) {
                    Ok(left) => left,
                    Err(error) => {
                        return Err(error);
                    },
                };
                let right = match render(&args[1], values) {
                    Ok(right) => right,
                    Err(error) => {
                        return Err(error);
                    },
                };
                let mut sql = copy_of("(");
                sql.append(left.as_str());
                sql.append(") ");
                sql.append(operator);
                sql.append(" (");
                sql.append(right.as_str());
                sql.append(")");
                return Ok(sql);
            }
            if let Some(prefix) = prefix_of(name) {
                if args.len() != 1 {
                    return Err(refuse_call(name, "` reads one operand"));
                }
                assert(trees_of(args@)[0] == tree_of(args@[0]));
                assert(decreases_to!(args => args@[0]));
                return match render(&args[0], values) {
                    Ok(sql) => Ok(copy_of(prefix).concat(sql.as_str()).concat(")")),
                    Err(error) => Err(error),
                };
            }
            if same(name, "@in") {
                if args.len() != 2 {
                    return Err(refuse_call(name, "` reads two operands"));
                }
                assert(trees_of(args@)[0] == tree_of(args@[0]));
                assert(trees_of(args@)[1] == tree_of(args@[1]));
                assert(decreases_to!(args => args@[0]));
                assert(decreases_to!(args => args@[1]));
                let elements = match &args[1] {
                    Formula::List { elements, .. } => elements,
                    _ => {
                        return Err(refuse(copy_of("`in` reads a list on its right")));
                    },
                };
                assert(decreases_to!(args@[1] => elements));
                let needle = match render(&args[0], values) {
                    Ok(needle) => needle,
                    Err(error) => {
                        return Err(error);
                    },
                };
                return match render_items(elements, values) {
                    Ok(items) => {
                        let mut sql = needle;
                        sql.append(" IN (");
                        sql.append(join(items.as_slice(), ", ").as_str());
                        sql.append(")");
                        Ok(sql)
                    },
                    Err(error) => Err(error),
                };
            }
            if same(name, "startsWith") || same(name, "endsWith") || same(name, "contains") {
                return render_like(name, target, args, values);
            }
            if same(name, "timestamp") || same(name, "uuid") {
                return render_constructor(name, target, args, values);
            }
            Err(refuse_call(name, "` has no reading as a condition"))
        },
        _ => Err(refuse_node(node)),
    }
}

fn render_items(elements: &Vec<Formula>, values: &mut Vec<Value>) -> (r: Result<
    Vec<String>,
    FilterClauseError,
>)
    ensures
        match (r, items_from(trees_of(elements@), 0, value_views(old(values)@), Seq::empty())) {
            (Ok(items), Ok((found, held))) => strings(items@) == found && value_views(
                final(values)@,
            ) == held,
            (Err(error), Err(fault)) => error@ == fault,
            _ => false,
        },
    decreases elements,
{
    let ghost trees = trees_of(elements@);
    let ghost whole = items_from(trees, 0, value_views(values@), Seq::empty());
    proof {
        lemma_trees(elements@);
    }
    let mut items: Vec<String> = Vec::new();
    let mut i: usize = 0;
    assert(strings(items@) =~= Seq::<Seq<char>>::empty());
    while i < elements.len()
        invariant
            i <= elements.len(),
            trees == trees_of(elements@),
            trees.len() == elements@.len(),
            forall|j: int| 0 <= j < trees.len() ==> #[trigger] trees[j] == tree_of(elements@[j]),
            whole == items_from(trees, 0, value_views(old(values)@), Seq::empty()),
            whole == items_from(trees, i as int, value_views(values@), strings(items@)),
        decreases elements.len() - i,
    {
        assert(trees[i as int] == tree_of(elements@[i as int]));
        assert(decreases_to!(elements => elements@[i as int]));
        match render(&elements[i], values) {
            Ok(item) => {
                let ghost held = strings(items@);
                items.push(item);
                assert(strings(items@) =~= held.push(item@));
            },
            Err(error) => {
                return Err(error);
            },
        }
        i += 1;
    }
    Ok(items)
}

/// Renames every field to the column that it stands for.
fn rename(node: &Formula, columns: &Columns) -> (r: Result<Formula, String>)
    ensures
        match (r, renamed(node@, columns@)) {
            (Ok(done), Ok(tree)) => done@ == tree,
            (Err(field), Err(name)) => field@ == name,
            _ => false,
        },
    decreases node,
{
    if let Some(name) = name_field(node) {
        return match columns.get(name.as_str()) {
            Some(column) => Ok(Formula::Ident(copy_of(column))),
            None => Err(name),
        };
    }
    match node {
        Formula::Call { name, target, args } => {
            let target = match target {
                Some(target) => match rename(target, columns) {
                    Ok(target) => Some(Box::new(target)),
                    Err(field) => {
                        return Err(field);
                    },
                },
                None => None,
            };
            match rename_all(args, columns) {
                Ok(args) => Ok(Formula::Call { name: copy_of(name.as_str()), target, args }),
                Err(field) => Err(field),
            }
        },
        Formula::List { elements, shown } => match rename_all(elements, columns) {
            Ok(elements) => Ok(Formula::List { elements, shown: copy_of(shown.as_str()) }),
            Err(field) => Err(field),
        },
        _ => Ok(node.clone()),
    }
}

fn rename_all(nodes: &Vec<Formula>, columns: &Columns) -> (r: Result<Vec<Formula>, String>)
    ensures
        match (r, renamed_from(trees_of(nodes@), columns@, 0, Seq::empty())) {
            (Ok(done), Ok(trees)) => trees_of(done@) == trees,
            (Err(field), Err(name)) => field@ == name,
            _ => false,
        },
    decreases nodes,
{
    let ghost trees = trees_of(nodes@);
    proof {
        lemma_trees(nodes@);
    }
    let mut done: Vec<Formula> = Vec::new();
    let mut i: usize = 0;
    assert(trees_of(done@) =~= Seq::<Tree>::empty());
    while i < nodes.len()
        invariant
            i <= nodes.len(),
            trees == trees_of(nodes@),
            trees.len() == nodes@.len(),
            forall|j: int| 0 <= j < trees.len() ==> #[trigger] trees[j] == tree_of(nodes@[j]),
            renamed_from(trees, columns@, 0, Seq::empty()) == renamed_from(
                trees,
                columns@,
                i as int,
                trees_of(done@),
            ),
        decreases nodes.len() - i,
    {
        assert(trees[i as int] == tree_of(nodes@[i as int]));
        assert(decreases_to!(nodes => nodes@[i as int]));
        match rename(&nodes[i], columns) {
            Ok(node) => {
                let ghost held = done@;
                done.push(node);
                assert(done@.drop_last() =~= held);
            },
            Err(field) => {
                return Err(field);
            },
        }
        i += 1;
    }
    Ok(done)
}

// ---------------------------------------------------------------------------
// Filters
// ---------------------------------------------------------------------------

/// A filter that was read, and that has a reading as a condition. The empty one has no
/// condition at all.
#[derive(Debug, PartialEq, Eq)]
pub struct FilterClause {
    expr: Option<Formula>,
}

impl View for FilterClause {
    type V = Option<Tree>;

    closed spec fn view(&self) -> Option<Tree> {
        match self.expr {
            Some(expr) => Some(expr@),
            None => None,
        }
    }
}

/// A filter that has a reading as a condition.
pub open spec fn readable(filter: Option<Tree>) -> bool {
    match filter {
        Some(tree) => rendered(tree, Seq::empty()) is Ok,
        None => true,
    }
}

impl FilterClause {
    #[verifier::type_invariant]
    spec fn reads(self) -> bool {
        readable(self@)
    }

    /// Reads a filter. A blank one is the empty filter.
    pub fn parse(filter: &str) -> (r: Result<FilterClause, FilterClauseError>)
        ensures
            match (r, parsed(filter@)) {
                (Ok(clause), Ok(found)) => clause@ == found,
                (Err(error), Err(fault)) => error@ == fault,
                _ => false,
            },
    {
        let text = chars_of(filter);
        if trim(text.as_slice()).len() == 0 {
            return Ok(FilterClause { expr: None });
        }
        match expression::parse(filter) {
            Ok(expr) => FilterClause::of(expr),
            Err(message) => Err(FilterClauseError::Parse(message)),
        }
    }

    /// The filter of an expression, where it has a reading as a condition.
    pub fn of(expr: Formula) -> (r: Result<FilterClause, FilterClauseError>)
        ensures
            match (r, validated(expr@)) {
                (Ok(clause), Ok(found)) => clause@ == found,
                (Err(error), Err(fault)) => error@ == fault,
                _ => false,
            },
    {
        let mut values: Vec<Value> = Vec::new();
        assert(value_views(values@) =~= Seq::<ValueView>::empty());
        match render(&expr, &mut values) {
            Ok(_) => Ok(FilterClause { expr: Some(expr) }),
            Err(error) => Err(error),
        }
    }

    /// Renames every field to the column that it stands for. A field that the columns do not
    /// offer is refused.
    pub fn resolve(self, columns: &Columns) -> (r: Result<FilterClause, FilterClauseError>)
        ensures
            match self@ {
                Some(tree) => match (r, renamed(tree, columns@)) {
                    (Ok(clause), Ok(done)) => clause@ == Some(done),
                    (Err(error), Err(field)) => error@ == FilterFault::UnknownField(field),
                    _ => false,
                },
                None => r matches Ok(clause) && clause@ is None,
            },
    {
        proof {
            use_type_invariant(&self);
        }
        match &self.expr {
            Some(expr) => match rename(expr, columns) {
                Ok(done) => {
                    proof {
                        lemma_renamed(expr@, columns@, Seq::empty());
                    }
                    Ok(FilterClause { expr: Some(done) })
                },
                Err(field) => Err(FilterClauseError::UnknownField(field)),
            },
            None => Ok(FilterClause { expr: None }),
        }
    }

    /// The condition, with every literal bound. The empty filter is the empty clause.
    pub fn to_where_clause(&self) -> (r: WhereClause)
        ensures
            r@ == clause_of(self@),
            readable(self@),
    {
        proof {
            use_type_invariant(self);
        }
        match &self.expr {
            Some(expr) => {
                let mut values: Vec<Value> = Vec::new();
                assert(value_views(values@) =~= Seq::<ValueView>::empty());
                match render(expr, &mut values) {
                    Ok(sql) => WhereClause::with_values(sql, values),
                    Err(_) => WhereClause::default(),
                }
            },
            None => WhereClause::default(),
        }
    }
}

impl QueryResolver for FilterClause {
    type Error = FilterClauseError;

    open spec fn resolves(
        &self,
        columns: Map<Seq<char>, Seq<char>>,
        r: Result<FilterClause, FilterClauseError>,
    ) -> bool {
        match self@ {
            Some(tree) => match (r, renamed(tree, columns)) {
                (Ok(clause), Ok(done)) => clause@ == Some(done),
                (Err(error), Err(field)) => error@ == FilterFault::UnknownField(field),
                _ => false,
            },
            None => r matches Ok(clause) && clause@ is None,
        }
    }

    fn resolve(self, columns: &Columns) -> (r: Result<FilterClause, FilterClauseError>) {
        FilterClause::resolve(self, columns)
    }
}

impl Clone for FilterClause {
    fn clone(&self) -> (r: FilterClause)
        ensures
            r@ == self@,
    {
        proof {
            use_type_invariant(self);
        }
        let expr = match &self.expr {
            Some(expr) => Some(expr.clone()),
            None => None,
        };
        FilterClause { expr }
    }
}

impl Default for FilterClause {
    fn default() -> (r: FilterClause)
        ensures
            r@ is None,
    {
        FilterClause { expr: None }
    }
}

// ---------------------------------------------------------------------------
// Laws
// ---------------------------------------------------------------------------

/// Every field of an expression is offered.
pub open spec fn fields_offered(tree: Tree, columns: Map<Seq<char>, Seq<char>>) -> bool
    decreases tree,
{
    match field_name(tree) {
        Some(name) => columns.dom().contains(name),
        None => match tree {
            Tree::Call { target, args, .. } => {
                &&& match target {
                    Some(target) => fields_offered(*target, columns),
                    None => true,
                }
                &&& forall|i: int|
                    0 <= i < args.len() ==> fields_offered(#[trigger] args[i], columns)
            },
            Tree::List { elements, .. } => forall|i: int|
                0 <= i < elements.len() ==> fields_offered(#[trigger] elements[i], columns),
            _ => true,
        },
    }
}

/// What resolving must not change about a condition: the values that it binds.
pub open spec fn same_values(a: Rendered, b: Rendered) -> bool {
    match (a, b) {
        (Ok((_, held)), Ok((_, kept))) => held == kept,
        (Err(_), _) => true,
        _ => false,
    }
}

pub proof fn lemma_renamed_keeps_kind(tree: Tree, columns: Map<Seq<char>, Seq<char>>)
    ensures
        match renamed(tree, columns) {
            Ok(done) => {
                &&& is_null(done) == is_null(tree)
                &&& is_field(tree) && field_name(tree) is Some ==> is_field(done)
                &&& is_field(tree) && field_name(tree) is None ==> done == tree
                &&& tree matches Tree::Literal(_) ==> done == tree
                &&& tree is List <==> done is List
            },
            Err(_) => true,
        },
{
}

pub proof fn lemma_renamed_from(
    trees: Seq<Tree>,
    columns: Map<Seq<char>, Seq<char>>,
    i: int,
    done: Seq<Tree>,
)
    requires
        0 <= i <= trees.len(),
        done.len() == i,
    ensures
        match renamed_from(trees, columns, i, done) {
            Ok(all) => {
                &&& all.len() == trees.len()
                &&& forall|j: int| 0 <= j < i ==> #[trigger] all[j] == done[j]
                &&& forall|j: int|
                    i <= j < trees.len() ==> renamed(#[trigger] trees[j], columns) == Ok::<
                        Tree,
                        Seq<char>,
                    >(all[j])
            },
            Err(_) => exists|j: int|
                i <= j < trees.len() && renamed(#[trigger] trees[j], columns) is Err,
        },
    decreases trees.len() - i,
{
    if i < trees.len() {
        if let Ok(tree) = renamed(trees[i], columns) {
            lemma_renamed_from(trees, columns, i + 1, done.push(tree));
            if let Ok(all) = renamed_from(trees, columns, i, done) {
                assert(all[i] == done.push(tree)[i]);
                assert forall|j: int| 0 <= j < i implies #[trigger] all[j] == done[j] by {
                    assert(all[j] == done.push(tree)[j]);
                }
            }
        }
    }
}

/// Resolving changes no value: a condition that was readable stays so, and binds what it
/// bound.
pub proof fn lemma_renamed(tree: Tree, columns: Map<Seq<char>, Seq<char>>, values: Seq<ValueView>)
    requires
        renamed(tree, columns) is Ok,
    ensures
        same_values(rendered(tree, values), rendered(renamed(tree, columns)->Ok_0, values)),
    decreases tree, 0int,
{
    lemma_renamed_keeps_kind(tree, columns);
    if field_name(tree) is None {
        match tree {
            Tree::Call { name, target, args } => {
                let all = renamed_from(args, columns, 0, Seq::empty())->Ok_0;
                lemma_renamed_from(args, columns, 0, Seq::empty());
                if args.len() > 0 {
                    assert(renamed(args[0], columns) == Ok::<Tree, Seq<char>>(all[0]));
                    lemma_renamed_keeps_kind(args[0], columns);
                    lemma_renamed(args[0], columns, values);
                }
                if args.len() > 1 {
                    assert(renamed(args[1], columns) == Ok::<Tree, Seq<char>>(all[1]));
                    lemma_renamed_keeps_kind(args[1], columns);
                    lemma_renamed(args[1], columns, values);
                    if let Ok((_, held)) = rendered(args[0], values) {
                        lemma_renamed(args[1], columns, held);
                        if let Tree::List { elements, .. } = args[1] {
                            let to = all[1]->elements;
                            assert(renamed_from(elements, columns, 0, Seq::empty()) == Ok::<
                                Seq<Tree>,
                                Seq<char>,
                            >(to));
                            lemma_renamed_from(elements, columns, 0, Seq::empty());
                            assert(decreases_to!(tree => args[1]));
                            assert(decreases_to!(args[1] => elements));
                            lemma_renamed_items(
                                elements,
                                to,
                                columns,
                                0,
                                held,
                                Seq::empty(),
                                Seq::empty(),
                            );
                        }
                    }
                }
                if let Some(target) = target {
                    lemma_renamed_keeps_kind(*target, columns);
                }
            },
            _ => {},
        }
    }
}

proof fn lemma_renamed_items(
    elements: Seq<Tree>,
    to: Seq<Tree>,
    columns: Map<Seq<char>, Seq<char>>,
    i: int,
    values: Seq<ValueView>,
    items: Seq<Seq<char>>,
    others: Seq<Seq<char>>,
)
    requires
        0 <= i <= elements.len(),
        to.len() == elements.len(),
        forall|j: int|
            0 <= j < elements.len() ==> renamed(#[trigger] elements[j], columns) == Ok::<
                Tree,
                Seq<char>,
            >(to[j]),
    ensures
        match (items_from(elements, i, values, items), items_from(to, i, values, others)) {
            (Ok((_, held)), Ok((_, kept))) => held == kept,
            (Err(_), _) => true,
            _ => false,
        },
    decreases elements, elements.len() - i,
{
    if i < elements.len() {
        assert(renamed(elements[i], columns) == Ok::<Tree, Seq<char>>(to[i]));
        lemma_renamed(elements[i], columns, values);
        if let Ok((item, held)) = rendered(elements[i], values) {
            let (other, _) = rendered(to[i], values)->Ok_0;
            lemma_renamed_items(
                elements,
                to,
                columns,
                i + 1,
                held,
                items.push(item),
                others.push(other),
            );
        }
    }
}

/// Resolving renames fields and changes no value.
pub proof fn law_resolving_keeps_the_values(tree: Tree, columns: Map<Seq<char>, Seq<char>>)
    requires
        readable(Some(tree)),
        renamed(tree, columns) is Ok,
    ensures
        readable(Some(renamed(tree, columns)->Ok_0)),
        clause_of(Some(renamed(tree, columns)->Ok_0)).values == clause_of(Some(tree)).values,
{
    lemma_renamed(tree, columns, Seq::empty());
}

/// The columns are an allowlist: a filter resolves exactly where every field of it is
/// offered, the receiver of a method among them.
pub proof fn law_only_offered_fields_resolve(tree: Tree, columns: Map<Seq<char>, Seq<char>>)
    ensures
        renamed(tree, columns) is Ok <==> fields_offered(tree, columns),
    decreases tree,
{
    if field_name(tree) is None {
        match tree {
            Tree::Call { target, args, .. } => {
                if let Some(target) = target {
                    law_only_offered_fields_resolve(*target, columns);
                }
                lemma_renamed_from(args, columns, 0, Seq::empty());
                assert forall|i: int| 0 <= i < args.len() implies (renamed(
                    #[trigger] args[i],
                    columns,
                ) is Ok <==> fields_offered(args[i], columns)) by {
                    law_only_offered_fields_resolve(args[i], columns);
                }
            },
            Tree::List { elements, .. } => {
                lemma_renamed_from(elements, columns, 0, Seq::empty());
                assert forall|i: int| 0 <= i < elements.len() implies (renamed(
                    #[trigger] elements[i],
                    columns,
                ) is Ok <==> fields_offered(elements[i], columns)) by {
                    law_only_offered_fields_resolve(elements[i], columns);
                }
            },
            _ => {},
        }
    }
}

/// Rendering only adds values, behind those that are there: a literal keeps the number that
/// it was given.
pub proof fn law_rendering_only_adds_values(tree: Tree, values: Seq<ValueView>)
    ensures
        rendered(tree, values) matches Ok((_, held)) ==> values.is_prefix_of(held),
    decreases tree, 0int,
{
    match tree {
        Tree::Call { name, target, args } => {
            if args.len() > 0 {
                law_rendering_only_adds_values(args[0], values);
            }
            if args.len() > 1 {
                law_rendering_only_adds_values(args[1], values);
                if let Ok((_, held)) = rendered(args[0], values) {
                    law_rendering_only_adds_values(args[1], held);
                    if let Tree::List { elements, .. } = args[1] {
                        assert(decreases_to!(tree => args[1]));
                        assert(decreases_to!(args[1] => elements));
                        lemma_items_add(elements, 0, held, Seq::empty());
                    }
                }
            }
        },
        _ => {},
    }
}

pub proof fn lemma_items_add(
    elements: Seq<Tree>,
    i: int,
    values: Seq<ValueView>,
    items: Seq<Seq<char>>,
)
    requires
        0 <= i,
    ensures
        items_from(elements, i, values, items) matches Ok((_, held)) ==> values.is_prefix_of(held),
    decreases elements, elements.len() - i,
{
    if i < elements.len() {
        law_rendering_only_adds_values(elements[i], values);
        if let Ok((item, held)) = rendered(elements[i], values) {
            lemma_items_add(elements, i + 1, held, items.push(item));
        }
    }
}

proof fn lemma_alike_field(a: Tree, b: Tree)
    requires
        alike(a, b),
    ensures
        field_name(a) == field_name(b),
    decreases a,
{
    match (a, b) {
        (Tree::Select { operand: x, test: false, .. }, Tree::Select { operand: y, .. }) => {
            lemma_alike_field(*x, *y);
        },
        _ => {},
    }
}

/// The text of a condition does not depend on the constants in its filter: they are bound,
/// and never written. Two filters that differ in nothing else render to the same text, with
/// as many values.
pub proof fn law_constants_are_never_written(
    a: Tree,
    b: Tree,
    values: Seq<ValueView>,
    others: Seq<ValueView>,
)
    requires
        alike(a, b),
        values.len() == others.len(),
    ensures
        match (rendered(a, values), rendered(b, others)) {
            (Ok((x, held)), Ok((y, kept))) => x == y && held.len() == kept.len(),
            _ => true,
        },
    decreases a, 0int,
{
    lemma_alike_field(a, b);
    match (a, b) {
        (
            Tree::Call { name, target: t, args: xs },
            Tree::Call { target: u, args: ys, .. },
        ) => {
            if xs.len() > 0 {
                lemma_alike_at(xs, ys, 0, 0);
                law_constants_are_never_written(xs[0], ys[0], values, others);
            }
            if xs.len() > 1 {
                lemma_alike_at(xs, ys, 0, 1);
                law_constants_are_never_written(xs[1], ys[1], values, others);
                match (rendered(xs[0], values), rendered(ys[0], others)) {
                    (Ok((_, held)), Ok((_, kept))) => {
                        law_constants_are_never_written(xs[1], ys[1], held, kept);
                        match (xs[1], ys[1]) {
                            (Tree::List { elements: p, .. }, Tree::List { elements: q, .. }) => {
                                assert(decreases_to!(a => xs[1]));
                                assert(decreases_to!(xs[1] => p));
                                lemma_same_items(p, q, 0, held, kept, Seq::empty());
                            },
                            _ => {},
                        }
                    },
                    _ => {},
                }
            }
            match (t, u) {
                (Some(x), Some(y)) => {
                    lemma_alike_field(*x, *y);
                },
                _ => {},
            }
        },
        _ => {},
    }
}

proof fn lemma_same_items(
    xs: Seq<Tree>,
    ys: Seq<Tree>,
    i: int,
    values: Seq<ValueView>,
    others: Seq<ValueView>,
    items: Seq<Seq<char>>,
)
    requires
        0 <= i,
        xs.len() == ys.len(),
        all_alike(xs, ys, 0),
        values.len() == others.len(),
    ensures
        match (items_from(xs, i, values, items), items_from(ys, i, others, items)) {
            (Ok((x, held)), Ok((y, kept))) => x == y && held.len() == kept.len(),
            _ => true,
        },
    decreases xs, xs.len() - i,
{
    if i < xs.len() {
        lemma_alike_at(xs, ys, 0, i);
        law_constants_are_never_written(xs[i], ys[i], values, others);
        match (rendered(xs[i], values), rendered(ys[i], others)) {
            (Ok((item, held)), Ok((_, kept))) => {
                lemma_same_items(xs, ys, i + 1, held, kept, items.push(item));
            },
            _ => {},
        }
    }
}

/// A blank filter asks for nothing. Any other is taken exactly where it is an expression that has a
/// reading as a condition; it then stays that expression, and its condition is that reading.
pub proof fn law_a_filter_is_read_from_its_text(filter: Seq<char>)
    ensures
        trimmed(filter).len() == 0 ==> parsed(filter) == Ok::<Option<Tree>, FilterFault>(None),
        trimmed(filter).len() > 0 ==> match cel_parsed(filter) {
            Ok(tree) => match rendered(tree, Seq::empty()) {
                Ok((sql, values)) => parsed(filter) == Ok::<Option<Tree>, FilterFault>(Some(tree))
                    && clause_of(Some(tree)).sql == sql && clause_of(Some(tree)).values == values,
                Err(fault) => parsed(filter) == Err::<Option<Tree>, FilterFault>(fault),
            },
            Err(mistakes) => parsed(filter) == Err::<Option<Tree>, FilterFault>(
                FilterFault::Parse(all_told(mistakes)),
            ),
        },
        clause_of(None).sql.len() == 0 && clause_of(None).values.len() == 0,
{
}

/// An error tells what has no reading and which field is not offered; what is wrong with a text or a
/// literal it passes on.
pub proof fn law_an_error_tells_what_is_wrong(text: Seq<char>)
    ensures
        FilterFault::Parse(text).text() == text,
        FilterFault::InvalidLiteral(text).text() == text,
        FilterFault::Unsupported(text).text() == "`"@ + (text
            + "` has no reading as a condition"@),
        FilterFault::UnknownField(text).text() == "unknown filter field `"@ + (text + "`"@),
{
    assert(FilterFault::Unsupported(text).text() =~= "`"@ + (text
        + "` has no reading as a condition"@));
    assert(FilterFault::UnknownField(text).text() =~= "unknown filter field `"@ + (text + "`"@));
}

/// A test for null and a lookup in a list are written behind what they are asked of, however that is
/// written: `IS NULL` where null is asked for with `==`, on either side, and `IS NOT NULL` where it
/// is with `!=`.
#[verifier::rlimit(50)]
pub proof fn law_a_test_stands_behind_what_it_tests(
    tree: Tree,
    list: Seq<Tree>,
    shown: Seq<char>,
    values: Seq<ValueView>,
)
    requires
        tree != Tree::Literal(LiteralView::Null),
    ensures
        ({
            let null = Tree::Literal(LiteralView::Null);
            let is = Tree::Call { name: "_==_"@, target: None, args: seq![tree, null] };
            let is_too = Tree::Call { name: "_==_"@, target: None, args: seq![null, tree] };
            let is_not = Tree::Call { name: "_!=_"@, target: None, args: seq![tree, null] };
            let is_not_too = Tree::Call { name: "_!=_"@, target: None, args: seq![null, tree] };
            rendered(tree, values) matches Ok((sql, held)) ==> {
                &&& rendered(is, values) == Ok::<(Seq<char>, Seq<ValueView>), FilterFault>(
                    (sql + " IS NULL"@, held),
                )
                &&& rendered(is_too, values) == rendered(is, values)
                &&& rendered(is_not, values) == Ok::<(Seq<char>, Seq<ValueView>), FilterFault>(
                    (sql + " IS NOT NULL"@, held),
                )
                &&& rendered(is_not_too, values) == rendered(is_not, values)
            }
        }),
        ({
            let lookup = Tree::Call {
                name: "@in"@,
                target: None,
                args: seq![tree, Tree::List { elements: list, shown }],
            };
            rendered(tree, values) matches Ok((sql, held)) ==> (items_from(
                list,
                0,
                held,
                Seq::empty(),
            ) matches Ok((items, all)) ==> rendered(lookup, values) == Ok::<
                (Seq<char>, Seq<ValueView>),
                FilterFault,
            >((sql + " IN ("@ + joined(items, ", "@) + ")"@, all)))
        }),
{
    reveal_strlit("_==_");
    reveal_strlit("_!=_");
    reveal_strlit("_&&_");
    reveal_strlit("_||_");
    reveal_strlit("@in");
    reveal_strlit("_<_");
    reveal_strlit("_<=_");
    reveal_strlit("_>_");
    reveal_strlit("_>=_");
    reveal_strlit("_+_");
    reveal_strlit("_-_");
    reveal_strlit("_*_");
    reveal_strlit("_/_");
    reveal_strlit("_%_");
    reveal_strlit("!_");
    reveal_strlit("-_");
    assert("_==_"@[1] == '=' && "_!=_"@[1] == '!' && "_&&_"@[1] == '&' && "_||_"@[1] == '|');
    assert("@in"@[0] == '@' && "_<_"@[0] == '_' && "_>_"@[0] == '_' && "_+_"@[0] == '_' && "_-_"@[0]
        == '_' && "_*_"@[0] == '_' && "_/_"@[0] == '_' && "_%_"@[0] == '_');
    assert("@in"@.len() == 3 && "!_"@.len() == 2 && "-_"@.len() == 2);
    let null = Tree::Literal(LiteralView::Null);
    let pair = seq![tree, null];
    let turned = seq![null, tree];
    assert(pair[0] == tree && pair[1] == null && turned[0] == null && turned[1] == tree);
    let list_tree = Tree::List { elements: list, shown };
    let looked = seq![tree, list_tree];
    assert(looked[0] == tree && looked[1] == list_tree);
    assert(binary_operator("@in"@) is None);
    assert(unary_operator("@in"@) is None);
}

} // verus!

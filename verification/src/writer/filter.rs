//! A condition, as a request asks for it.

use vstd::prelude::*;
use vstd::slice::slice_subrange;
use vstd::string::StringExecFns;

use crate::expression::{Formula, Literal as Constant};
#[allow(unused_imports)]
use crate::expression::{
    formula_in, lemma_trees, negations_apply, tree_of, trees_of, LiteralView as ConstantView, Tree,
};
use crate::instant::parse_rfc3339;
#[allow(unused_imports)]
use crate::instant::chrono_rfc3339;
#[allow(unused_imports)]
use crate::pattern::like_pattern;
use crate::pattern::write_pattern;
use crate::text::{chars_of, copy_of, decimal_of, same, string_of, trim};
#[allow(unused_imports)]
use crate::text::{decimal, trimmed};
use crate::columns::Columns;
use crate::writer::error::Error;
#[allow(unused_imports)]
use crate::writer::error::ErrorView;
use crate::writer::sort::quoted;
#[allow(unused_imports)]
use crate::writer::sort::column_tree;
use crate::writer::tree::{
    look_at_operator, make_binary, make_branch, make_leaf, make_like, Branch, Leaf, Operator,
};
#[allow(unused_imports)]
use crate::writer::tree::{expr_tree, expr_trees, top_operator, SqlTree};
#[allow(unused_imports)]
use crate::expression::cel_parsed;

verus! {

/// The character that escapes a wildcard of `LIKE`.
pub const ESCAPE: char = '!';

/// A value that a filter wants bound. A floating-point number is held as its bits.
#[derive(Debug, PartialEq, Eq)]
pub enum Literal {
    Bool(bool),
    Int(i64),
    Float(u64),
    Text(String),
    Timestamp { seconds: i64, nanos: u32 },
}

/// A value that a filter wants bound, as contracts speak of it.
pub enum LiteralView {
    Bool(bool),
    Int(i64),
    Float(u64),
    Text(Seq<char>),
    Timestamp { seconds: i64, nanos: u32 },
}

impl View for Literal {
    type V = LiteralView;

    open spec fn view(&self) -> LiteralView {
        match self {
            Literal::Bool(b) => LiteralView::Bool(*b),
            Literal::Int(n) => LiteralView::Int(*n),
            Literal::Float(bits) => LiteralView::Float(*bits),
            Literal::Text(text) => LiteralView::Text(text@),
            Literal::Timestamp { seconds, nanos } => LiteralView::Timestamp {
                seconds: *seconds,
                nanos: *nanos,
            },
        }
    }
}

impl Clone for Literal {
    fn clone(&self) -> (r: Literal)
        ensures
            r@ == self@,
    {
        match self {
            Literal::Bool(b) => Literal::Bool(*b),
            Literal::Int(n) => Literal::Int(*n),
            Literal::Float(bits) => Literal::Float(*bits),
            Literal::Text(text) => Literal::Text(text.clone()),
            Literal::Timestamp { seconds, nanos } => Literal::Timestamp {
                seconds: *seconds,
                nanos: *nanos,
            },
        }
    }
}

/// What a list of values holds.
pub open spec fn literal_views(values: Seq<Literal>) -> Seq<LiteralView> {
    values.map_values(|value: Literal| value@)
}

/// What a filter says, over field names until they are resolved to columns.
#[derive(Debug, PartialEq, Eq)]
pub enum Condition {
    /// A bare field, which is a column that is already a boolean.
    Truthy(String),
    /// A field compared with a value.
    Against { field: String, operator: Operator, value: Literal },
    /// A field compared with null.
    IsNull { field: String, negated: bool },
    /// A field that is one of several values.
    In { field: String, values: Vec<Literal> },
    /// A field that matches a pattern.
    Like { field: String, pattern: String },
    /// What does not hold.
    Not(Box<Condition>),
    /// Several that all hold.
    All(Vec<Condition>),
    /// Several of which one holds.
    Any(Vec<Condition>),
}

/// What a filter says, as contracts speak of it.
pub enum ConditionView {
    Truthy(Seq<char>),
    Against { field: Seq<char>, operator: Operator, value: LiteralView },
    IsNull { field: Seq<char>, negated: bool },
    In { field: Seq<char>, values: Seq<LiteralView> },
    Like { field: Seq<char>, pattern: Seq<char> },
    Not(Box<ConditionView>),
    All(Seq<ConditionView>),
    Any(Seq<ConditionView>),
}

/// What a condition says.
pub open spec fn condition_of(condition: Condition) -> ConditionView
    decreases condition,
{
    match condition {
        Condition::Truthy(field) => ConditionView::Truthy(field@),
        Condition::Against { field, operator, value } => ConditionView::Against {
            field: field@,
            operator,
            value: value@,
        },
        Condition::IsNull { field, negated } => ConditionView::IsNull { field: field@, negated },
        Condition::In { field, values } => ConditionView::In {
            field: field@,
            values: literal_views(values@),
        },
        Condition::Like { field, pattern } => ConditionView::Like {
            field: field@,
            pattern: pattern@,
        },
        Condition::Not(inner) => ConditionView::Not(Box::new(condition_of(*inner))),
        Condition::All(parts) => ConditionView::All(conditions_of(parts@)),
        Condition::Any(parts) => ConditionView::Any(conditions_of(parts@)),
    }
}

/// What a list of conditions says.
pub open spec fn conditions_of(conditions: Seq<Condition>) -> Seq<ConditionView>
    decreases conditions,
{
    if conditions.len() == 0 {
        Seq::empty()
    } else {
        conditions_of(conditions.drop_last()).push(condition_of(conditions.last()))
    }
}

impl View for Condition {
    type V = ConditionView;

    open spec fn view(&self) -> ConditionView {
        condition_of(*self)
    }
}

proof fn lemma_conditions(conditions: Seq<Condition>)
    ensures
        conditions_of(conditions).len() == conditions.len(),
        forall|i: int|
            0 <= i < conditions.len() ==> #[trigger] conditions_of(conditions)[i] == condition_of(
                conditions[i],
            ),
    decreases conditions.len(),
{
    if conditions.len() > 0 {
        lemma_conditions(conditions.drop_last());
    }
}

// ---------------------------------------------------------------------------
// What a filter means
// ---------------------------------------------------------------------------

/// What a field was compared to.
pub enum ComparedView {
    Null,
    Value(LiteralView),
}

/// One side of a comparison, if it is a value. `None` where it is something else, a message
/// where it was meant to be a value and cannot be one.
pub open spec fn literal_of(node: Tree) -> Result<Option<ComparedView>, Seq<char>>
    decreases node,
{
    match node {
        Tree::Call { name, target, args } => if name != "timestamp"@ || target is Some {
            Ok(None)
        } else if args.len() != 1 {
            Err(
                "`timestamp()` takes one string, as in `timestamp(\"2024-01-01T00:00:00Z\")`"@,
            )
        } else {
            match literal_of(args[0]) {
                Err(message) => Err(message),
                Ok(Some(ComparedView::Value(LiteralView::Text(text)))) => match chrono_rfc3339(
                    text,
                ) {
                    Ok((seconds, nanos)) => Ok(
                        Some(ComparedView::Value(LiteralView::Timestamp { seconds, nanos })),
                    ),
                    Err(error) => Err(
                        "`timestamp(\""@ + text + "\")` is not an RFC 3339 date: "@ + error,
                    ),
                },
                Ok(_) => Err("`timestamp()` takes a string, not an expression"@),
            }
        },
        Tree::Literal(constant) => match constant {
            ConstantView::Null => Ok(Some(ComparedView::Null)),
            ConstantView::Bool(b) => Ok(Some(ComparedView::Value(LiteralView::Bool(b)))),
            ConstantView::Int(n) => Ok(Some(ComparedView::Value(LiteralView::Int(n)))),
            ConstantView::UInt(n) => if n <= i64::MAX {
                Ok(Some(ComparedView::Value(LiteralView::Int(n as i64))))
            } else {
                Err("`"@ + decimal(n as nat) + "` is too large to compare against"@)
            },
            ConstantView::Double(bits) => Ok(Some(ComparedView::Value(LiteralView::Float(bits)))),
            ConstantView::Text(text) => Ok(Some(ComparedView::Value(LiteralView::Text(text)))),
            ConstantView::Bytes(_) => Ok(None),
        },
        _ => Ok(None),
    }
}

/// A comparison as the field and what it was compared to, in either order.
pub open spec fn pair_of(args: Seq<Tree>, operator: Seq<char>) -> Result<
    (Seq<char>, ComparedView),
    Seq<char>,
> {
    if args.len() != 2 {
        Err("`"@ + operator + "` compares two things"@)
    } else {
        let left = match args[0] {
            Tree::Ident(field) => match literal_of(args[1]) {
                Err(message) => Err(message),
                Ok(Some(value)) => Ok(Some((field, value))),
                Ok(None) => Ok(None),
            },
            _ => Ok(None),
        };
        let right = match args[1] {
            Tree::Ident(field) => match literal_of(args[0]) {
                Err(message) => Err(message),
                Ok(Some(value)) => Ok(Some((field, value))),
                Ok(None) => Ok(None),
            },
            _ => Ok(None),
        };
        match (left, right) {
            (Err(message), _) => Err(message),
            (Ok(Some(pair)), _) => Ok(pair),
            (Ok(None), Err(message)) => Err(message),
            (Ok(None), Ok(Some(pair))) => Ok(pair),
            (Ok(None), Ok(None)) => Err(
                "a comparison is a field and a value, as in `readCount > 100`"@,
            ),
        }
    }
}

/// The operator that a comparison writes.
pub open spec fn operator_of(name: Seq<char>) -> Option<Operator> {
    if name == "_==_"@ {
        Some(Operator::Eq)
    } else if name == "_!=_"@ {
        Some(Operator::NotEq)
    } else if name == "_<_"@ {
        Some(Operator::Lt)
    } else if name == "_<=_"@ {
        Some(Operator::LtEq)
    } else if name == "_>_"@ {
        Some(Operator::Gt)
    } else if name == "_>=_"@ {
        Some(Operator::GtEq)
    } else {
        None
    }
}

/// A comparison. Nothing equals null in SQL, so a comparison with it asks for null itself.
pub open spec fn lowered_comparison(operator: Operator, name: Seq<char>, args: Seq<Tree>) -> Result<
    ConditionView,
    Seq<char>,
> {
    match pair_of(args, name) {
        Err(message) => Err(message),
        Ok((field, ComparedView::Null)) => if operator == Operator::Eq {
            Ok(ConditionView::IsNull { field, negated: false })
        } else if operator == Operator::NotEq {
            Ok(ConditionView::IsNull { field, negated: true })
        } else {
            Err("`"@ + field + "` can only be compared to null with `==` or `!=`"@)
        },
        Ok((field, ComparedView::Value(value))) => Ok(
            ConditionView::Against { field, operator, value },
        ),
    }
}

/// The values of a list from the `i`th on, behind those that were read.
pub open spec fn items_from(
    field: Seq<char>,
    elements: Seq<Tree>,
    i: int,
    values: Seq<LiteralView>,
) -> Result<Seq<LiteralView>, Seq<char>>
    decreases elements.len() - i,
{
    if !(0 <= i < elements.len()) {
        Ok(values)
    } else {
        match literal_of(elements[i]) {
            Err(message) => Err(message),
            Ok(Some(ComparedView::Value(value))) => items_from(
                field,
                elements,
                i + 1,
                values.push(value),
            ),
            Ok(_) => Err("every item in `"@ + field + " in [...]` has to be a plain value"@),
        }
    }
}

/// Membership in a list.
pub open spec fn lowered_in(args: Seq<Tree>) -> Result<ConditionView, Seq<char>> {
    if args.len() != 2 {
        Err("`in` takes a field and a list"@)
    } else {
        match args[0] {
            Tree::Ident(field) => match args[1] {
                Tree::List { elements, .. } => match items_from(field, elements, 0, Seq::empty()) {
                    Err(message) => Err(message),
                    Ok(values) => if values.len() == 0 {
                        Err("`"@ + field + " in []` matches nothing; leave the filter out instead"@)
                    } else {
                        Ok(ConditionView::In { field, values })
                    },
                },
                _ => Err(
                    "the right of `in` has to be a list, as in `"@ + field + " in [1, 2]`"@,
                ),
            },
            _ => Err("the left of `in` has to be a field"@),
        }
    }
}

/// The string methods.
pub open spec fn is_method(name: Seq<char>) -> bool {
    name == "startsWith"@ || name == "endsWith"@ || name == "contains"@
}

/// A string method, as a pattern that is matched.
pub open spec fn lowered_method(name: Seq<char>, target: Tree, args: Seq<Tree>) -> Result<
    ConditionView,
    Seq<char>,
> {
    match target {
        Tree::Ident(field) => {
            let first = if args.len() > 0 {
                literal_of(args[0])
            } else {
                Ok(None)
            };
            match first {
                Err(message) => Err(message),
                Ok(Some(ComparedView::Value(LiteralView::Text(text)))) => if is_method(name) {
                    Ok(ConditionView::Like { field, pattern: like_pattern(name, text) })
                } else {
                    Err(
                        "`"@ + field + "."@ + name
                            + "` is not something this filter language does; it has `startsWith`, `endsWith` and `contains`"@,
                    )
                },
                Ok(_) => Err("`"@ + field + "."@ + name + "` takes one string"@),
            }
        },
        _ => Err("`"@ + name + "` has to be called on a field"@),
    }
}

/// How a request's author would name an expression.
pub open spec fn described(node: Tree) -> Seq<char> {
    match node {
        Tree::Literal(_) => "a bare value"@,
        Tree::List { .. } => "a list"@,
        Tree::MapLiteral(_) => "a map"@,
        Tree::Select { .. } => "a field of a field"@,
        Tree::StructLiteral(_) => "a struct"@,
        Tree::Comprehension(_) => "a macro"@,
        _ => "that"@,
    }
}

/// `s` without the `c` that it begins with.
pub open spec fn without_leading(s: Seq<char>, c: char) -> Seq<char>
    decreases s.len(),
{
    if s.len() > 0 && s[0] == c {
        without_leading(s.skip(1), c)
    } else {
        s
    }
}

/// `s` without the `c` that it ends with.
pub open spec fn without_trailing(s: Seq<char>, c: char) -> Seq<char>
    decreases s.len(),
{
    if s.len() > 0 && s.last() == c {
        without_trailing(s.drop_last(), c)
    } else {
        s
    }
}

/// An operator as a request's author wrote it: without the marks for its operands.
pub open spec fn readable(name: Seq<char>) -> Seq<char> {
    without_leading(without_trailing(without_leading(name, '_'), '_'), '@')
}

/// What an expression says as a condition, or why it says nothing.
pub open spec fn lowered(node: Tree) -> Result<ConditionView, Seq<char>>
    decreases node, 0nat,
{
    match node {
        Tree::Ident(field) => Ok(ConditionView::Truthy(field)),
        Tree::Call { name, target, args } => match target {
            Some(target) => lowered_method(name, *target, args),
            None => if name == "_&&_"@ {
                match lowered_all(args, args.len()) {
                    Ok(parts) => Ok(ConditionView::All(parts)),
                    Err(message) => Err(message),
                }
            } else if name == "_||_"@ {
                match lowered_all(args, args.len()) {
                    Ok(parts) => Ok(ConditionView::Any(parts)),
                    Err(message) => Err(message),
                }
            } else if name == "!_"@ {
                if args.len() > 0 {
                    match lowered(args[0]) {
                        Ok(inner) => Ok(ConditionView::Not(Box::new(inner))),
                        Err(message) => Err(message),
                    }
                } else {
                    arbitrary()
                }
            } else if name == "@in"@ {
                lowered_in(args)
            } else {
                match operator_of(name) {
                    Some(operator) => lowered_comparison(operator, name, args),
                    None => Err(
                        "`"@ + readable(name) + "` is not something this filter language does"@,
                    ),
                }
            },
        },
        _ => Err(
            described(node)
                + " is not a condition; a filter is comparisons joined with `&&`, `||` and `!`"@,
        ),
    }
}

/// What the first `n` expressions say, or why the first of them that says nothing does.
pub open spec fn lowered_all(nodes: Seq<Tree>, n: nat) -> Result<Seq<ConditionView>, Seq<char>>
    decreases nodes, n,
{
    if n == 0 || n > nodes.len() {
        Ok(Seq::empty())
    } else {
        match lowered_all(nodes, (n - 1) as nat) {
            Err(message) => Err(message),
            Ok(parts) => match lowered(nodes[n - 1]) {
                Err(message) => Err(message),
                Ok(part) => Ok(parts.push(part)),
            },
        }
    }
}

proof fn lemma_lowered_fails(nodes: Seq<Tree>, n: nat, m: nat)
    requires
        n <= m <= nodes.len(),
        lowered_all(nodes, n) is Err,
    ensures
        lowered_all(nodes, m) == lowered_all(nodes, n),
    decreases m,
{
    if n < m {
        lemma_lowered_fails(nodes, n, (m - 1) as nat);
    }
}

/// What a filter says, or why it is refused. A blank one says nothing.
pub open spec fn parsed(filter: Seq<char>) -> Result<Option<ConditionView>, Seq<char>> {
    if trimmed(filter).len() == 0 {
        Ok(None)
    } else {
        match formula_in(filter) {
            Err(errors) => Err("`"@ + filter + "` is not a CEL expression: "@ + errors),
            Ok(tree) => match lowered(tree) {
                Ok(condition) => Ok(Some(condition)),
                Err(message) => Err(message),
            },
        }
    }
}

// ---------------------------------------------------------------------------
// Reading
// ---------------------------------------------------------------------------

/// What a field was compared to.
pub enum Compared {
    Null,
    Value(Literal),
}

impl View for Compared {
    type V = ComparedView;

    open spec fn view(&self) -> ComparedView {
        match self {
            Compared::Null => ComparedView::Null,
            Compared::Value(value) => ComparedView::Value(value@),
        }
    }
}

/// `a`, then `b`, then `c`.
fn cat(a: &str, b: &str, c: &str) -> (r: String)
    ensures
        r@ == a@ + b@ + c@,
{
    let mut r = copy_of(a);
    r.append(b);
    r.append(c);
    r
}

/// What was read agrees with what was there.
pub open spec fn compared_seen(
    r: Result<Option<Compared>, String>,
    found: Result<Option<ComparedView>, Seq<char>>,
) -> bool {
    match (r, found) {
        (Ok(Some(value)), Ok(Some(seen))) => value@ == seen,
        (Ok(None), Ok(None)) => true,
        (Err(message), Err(text)) => message@ == text,
        _ => false,
    }
}

/// Reads one side of a comparison, if it is a value.
pub fn literal(node: &Formula) -> (r: Result<Option<Compared>, String>)
    ensures
        compared_seen(r, literal_of(node@)),
    decreases node,
{
    match node {
        Formula::Call { name, target, args } => {
            if !same(name.as_str(), "timestamp") || target.is_some() {
                return Ok(None);
            }
            proof {
                lemma_trees(args@);
            }
            if args.len() != 1 {
                return Err(
                    copy_of(
                        "`timestamp()` takes one string, as in `timestamp(\"2024-01-01T00:00:00Z\")`",
                    ),
                );
            }
            assert(trees_of(args@)[0] == tree_of(args@[0]));
            match literal(&args[0]) {
                Err(message) => Err(message),
                Ok(Some(Compared::Value(Literal::Text(text)))) => match parse_rfc3339(
                    text.as_str(),
                ) {
                    Ok((seconds, nanos)) => Ok(
                        Some(Compared::Value(Literal::Timestamp { seconds, nanos })),
                    ),
                    Err(error) => {
                        let mut message = cat(
                            "`timestamp(\"",
                            text.as_str(),
                            "\")` is not an RFC 3339 date: ",
                        );
                        message.append(error.as_str());
                        Err(message)
                    },
                },
                Ok(_) => Err(copy_of("`timestamp()` takes a string, not an expression")),
            }
        },
        Formula::Literal(constant) => match constant {
            Constant::Null => Ok(Some(Compared::Null)),
            Constant::Bool(b) => Ok(Some(Compared::Value(Literal::Bool(*b)))),
            Constant::Int(n) => Ok(Some(Compared::Value(Literal::Int(*n)))),
            Constant::UInt(n) => {
                if *n <= 0x7fff_ffff_ffff_ffff {
                    Ok(Some(Compared::Value(Literal::Int(*n as i64))))
                } else {
                    Err(
                        cat(
                            "`",
                            decimal_of(*n as u128).as_str(),
                            "` is too large to compare against",
                        ),
                    )
                }
            },
            Constant::Double(bits) => Ok(Some(Compared::Value(Literal::Float(*bits)))),
            Constant::Text(text) => Ok(
                Some(Compared::Value(Literal::Text(copy_of(text.as_str())))),
            ),
            Constant::Bytes(_) => Ok(None),
        },
        _ => Ok(None),
    }
}

/// Splits a comparison into the field and what it was compared to.
fn pair(args: &Vec<Formula>, operator: &str) -> (r: Result<(String, Compared), String>)
    ensures
        match (r, pair_of(trees_of(args@), operator@)) {
            (Ok((field, value)), Ok((name, seen))) => field@ == name && value@ == seen,
            (Err(message), Err(text)) => message@ == text,
            _ => false,
        },
{
    proof {
        lemma_trees(args@);
    }
    if args.len() != 2 {
        return Err(cat("`", operator, "` compares two things"));
    }
    assert(trees_of(args@)[0] == tree_of(args@[0]));
    assert(trees_of(args@)[1] == tree_of(args@[1]));
    if let Formula::Ident(field) = &args[0] {
        match literal(&args[1]) {
            Err(message) => {
                return Err(message);
            },
            Ok(Some(value)) => {
                return Ok((copy_of(field.as_str()), value));
            },
            Ok(None) => {},
        }
    }
    if let Formula::Ident(field) = &args[1] {
        match literal(&args[0]) {
            Err(message) => {
                return Err(message);
            },
            Ok(Some(value)) => {
                return Ok((copy_of(field.as_str()), value));
            },
            Ok(None) => {},
        }
    }
    Err(copy_of("a comparison is a field and a value, as in `readCount > 100`"))
}

fn read_operator(name: &str) -> (r: Option<Operator>)
    ensures
        r == operator_of(name@),
{
    if same(name, "_==_") {
        Some(Operator::Eq)
    } else if same(name, "_!=_") {
        Some(Operator::NotEq)
    } else if same(name, "_<_") {
        Some(Operator::Lt)
    } else if same(name, "_<=_") {
        Some(Operator::LtEq)
    } else if same(name, "_>_") {
        Some(Operator::Gt)
    } else if same(name, "_>=_") {
        Some(Operator::GtEq)
    } else {
        None
    }
}

/// What was lowered agrees with what was there.
pub open spec fn condition_seen(
    r: Result<Condition, String>,
    found: Result<ConditionView, Seq<char>>,
) -> bool {
    match (r, found) {
        (Ok(condition), Ok(seen)) => condition@ == seen,
        (Err(message), Err(text)) => message@ == text,
        _ => false,
    }
}

fn lower_comparison(operator: Operator, name: &str, args: &Vec<Formula>) -> (r: Result<
    Condition,
    String,
>)
    ensures
        condition_seen(r, lowered_comparison(operator, name@, trees_of(args@))),
{
    match pair(args, name) {
        Err(message) => Err(message),
        Ok((field, Compared::Null)) => {
            if operator == Operator::Eq {
                Ok(Condition::IsNull { field, negated: false })
            } else if operator == Operator::NotEq {
                Ok(Condition::IsNull { field, negated: true })
            } else {
                Err(
                    cat("`", field.as_str(), "` can only be compared to null with `==` or `!=`"),
                )
            }
        },
        Ok((field, Compared::Value(value))) => Ok(Condition::Against { field, operator, value }),
    }
}

fn lower_in(args: &Vec<Formula>) -> (r: Result<Condition, String>)
    ensures
        condition_seen(r, lowered_in(trees_of(args@))),
{
    proof {
        lemma_trees(args@);
    }
    if args.len() != 2 {
        return Err(copy_of("`in` takes a field and a list"));
    }
    assert(trees_of(args@)[0] == tree_of(args@[0]));
    assert(trees_of(args@)[1] == tree_of(args@[1]));
    let field = match &args[0] {
        Formula::Ident(field) => field,
        _ => {
            return Err(copy_of("the left of `in` has to be a field"));
        },
    };
    let elements = match &args[1] {
        Formula::List { elements, .. } => elements,
        _ => {
            return Err(
                cat(
                    "the right of `in` has to be a list, as in `",
                    field.as_str(),
                    " in [1, 2]`",
                ),
            );
        },
    };
    let ghost trees = trees_of(elements@);
    let ghost whole = lowered_in(trees_of(args@));
    let mut values: Vec<Literal> = Vec::new();
    let mut i: usize = 0;
    proof {
        lemma_trees(elements@);
    }
    assert(literal_views(values@) =~= Seq::<LiteralView>::empty());
    while i < elements.len()
        invariant
            i <= elements.len(),
            trees.len() == elements@.len(),
            forall|j: int| 0 <= j < elements@.len() ==> #[trigger] trees[j] == tree_of(elements@[j]),
            items_from(field@, trees, 0, Seq::empty()) == items_from(
                field@,
                trees,
                i as int,
                literal_views(values@),
            ),
            items_from(field@, trees, 0, Seq::empty()) matches Err(message) ==> whole == Err::<
                ConditionView,
                Seq<char>,
            >(message),
            whole == lowered_in(trees_of(args@)),
        decreases elements.len() - i,
    {
        assert(trees[i as int] == tree_of(elements@[i as int]));
        match literal(&elements[i]) {
            Err(message) => {
                return Err(message);
            },
            Ok(Some(Compared::Value(value))) => {
                let ghost held = literal_views(values@);
                values.push(value);
                assert(literal_views(values@) =~= held.push(value@));
            },
            Ok(_) => {
                return Err(
                    cat("every item in `", field.as_str(), " in [...]` has to be a plain value"),
                );
            },
        }
        i += 1;
    }
    assert(literal_views(values@).len() == values@.len());
    if values.len() == 0 {
        return Err(
            cat("`", field.as_str(), " in []` matches nothing; leave the filter out instead"),
        );
    }
    Ok(Condition::In { field: copy_of(field.as_str()), values })
}

fn names_method(name: &str) -> (b: bool)
    ensures
        b == is_method(name@),
{
    same(name, "startsWith") || same(name, "endsWith") || same(name, "contains")
}

fn lower_method(name: &str, target: &Formula, args: &Vec<Formula>) -> (r: Result<
    Condition,
    String,
>)
    ensures
        condition_seen(r, lowered_method(name@, target@, trees_of(args@))),
{
    proof {
        lemma_trees(args@);
    }
    let field = match target {
        Formula::Ident(field) => field,
        _ => {
            return Err(cat("`", name, "` has to be called on a field"));
        },
    };
    let first = if args.len() > 0 {
        assert(trees_of(args@)[0] == tree_of(args@[0]));
        literal(&args[0])
    } else {
        Ok(None)
    };
    match first {
        Err(message) => Err(message),
        Ok(Some(Compared::Value(Literal::Text(text)))) => {
            if names_method(name) {
                Ok(
                    Condition::Like {
                        field: copy_of(field.as_str()),
                        pattern: write_pattern(name, text.as_str()),
                    },
                )
            } else {
                let mut message = cat("`", field.as_str(), ".");
                message.append(name);
                message.append(
                    "` is not something this filter language does; it has `startsWith`, `endsWith` and `contains`",
                );
                Err(message)
            }
        },
        Ok(_) => {
            let mut message = cat("`", field.as_str(), ".");
            message.append(name);
            message.append("` takes one string");
            Err(message)
        },
    }
}

fn describe(node: &Formula) -> (r: &'static str)
    ensures
        r@ == described(node@),
{
    match node {
        Formula::Literal(_) => "a bare value",
        Formula::List { .. } => "a list",
        Formula::MapLiteral(_) => "a map",
        Formula::Select { .. } => "a field of a field",
        Formula::StructLiteral(_) => "a struct",
        Formula::Comprehension(_) => "a macro",
        _ => "that",
    }
}

fn drop_leading<'a>(s: &'a [char], c: char) -> (r: &'a [char])
    ensures
        r@ == without_leading(s@, c),
{
    let mut a: usize = 0;
    assert(s@.skip(0) =~= s@);
    while a < s.len() && s[a] == c
        invariant
            a <= s.len(),
            without_leading(s@, c) == without_leading(s@.skip(a as int), c),
        decreases s.len() - a,
    {
        assert(s@.skip(a as int)[0] == s@[a as int]);
        assert(s@.skip(a as int).skip(1) =~= s@.skip(a + 1));
        a += 1;
    }
    proof {
        if a < s.len() {
            assert(s@.skip(a as int)[0] == s@[a as int]);
        }
        assert(s@.subrange(a as int, s@.len() as int) =~= s@.skip(a as int));
    }
    slice_subrange(s, a, s.len())
}

fn drop_trailing<'a>(s: &'a [char], c: char) -> (r: &'a [char])
    ensures
        r@ == without_trailing(s@, c),
{
    let mut b: usize = s.len();
    assert(s@.take(b as int) =~= s@);
    while b > 0 && s[b - 1] == c
        invariant
            b <= s.len(),
            without_trailing(s@, c) == without_trailing(s@.take(b as int), c),
        decreases b,
    {
        assert(s@.take(b as int).last() == s@[b - 1]);
        assert(s@.take(b as int).drop_last() =~= s@.take(b - 1));
        b -= 1;
    }
    proof {
        if b > 0 {
            assert(s@.take(b as int).last() == s@[b - 1]);
        }
        assert(s@.subrange(0, b as int) =~= s@.take(b as int));
    }
    slice_subrange(s, 0, b)
}

fn write_readable(name: &str) -> (r: String)
    ensures
        r@ == readable(name@),
{
    let text = chars_of(name);
    let inner = drop_trailing(drop_leading(text.as_slice(), '_'), '_');
    string_of(drop_leading(inner, '@'))
}

impl Condition {
    /// Turns one expression into a condition, or says why it cannot.
    pub fn lower(node: &Formula) -> (r: Result<Condition, String>)
        requires
            negations_apply(node@),
        ensures
            condition_seen(r, lowered(node@)),
        decreases node,
    {
        match node {
            Formula::Ident(field) => Ok(Condition::Truthy(copy_of(field.as_str()))),
            Formula::Call { name, target, args } => {
                proof {
                    lemma_trees(args@);
                }
                if let Some(target) = target {
                    return lower_method(name.as_str(), target, args);
                }
                let and = same(name.as_str(), "_&&_");
                if and || same(name.as_str(), "_||_") {
                    let ghost trees = trees_of(args@);
                    let mut parts: Vec<Condition> = Vec::new();
                    let mut i: usize = 0;
                    while i < args.len()
                        invariant
                            i <= args.len(),
                            trees == trees_of(args@),
                            trees.len() == args@.len(),
                            forall|j: int|
                                0 <= j < args@.len() ==> #[trigger] trees[j] == tree_of(args@[j]),
                            forall|j: int|
                                0 <= j < args@.len() ==> negations_apply(#[trigger] trees[j]),
                            node matches Formula::Call { args: a, name: n, target: None } && a
                                == args && n == name,
                            lowered_all(trees, i as nat) == Ok::<Seq<ConditionView>, Seq<char>>(
                                conditions_of(parts@),
                            ),
                            and == (name@ == "_&&_"@),
                            and || name@ == "_||_"@,
                        decreases args.len() - i,
                    {
                        assert(trees[i as int] == tree_of(args@[i as int]));
                        assert(negations_apply(trees[i as int]));
                        match Condition::lower(&args[i]) {
                            Ok(part) => {
                                let ghost held = parts@;
                                parts.push(part);
                                assert(parts@.drop_last() =~= held);
                            },
                            Err(message) => {
                                proof {
                                    lemma_lowered_fails(trees, (i + 1) as nat, args@.len());
                                }
                                return Err(message);
                            },
                        }
                        i += 1;
                    }
                    if and {
                        Ok(Condition::All(parts))
                    } else {
                        Ok(Condition::Any(parts))
                    }
                } else if same(name.as_str(), "!_") {
                    assert(trees_of(args@)[0] == tree_of(args@[0]));
                    assert(negations_apply(trees_of(args@)[0]));
                    match Condition::lower(&args[0]) {
                        Ok(inner) => Ok(Condition::Not(Box::new(inner))),
                        Err(message) => Err(message),
                    }
                } else if same(name.as_str(), "@in") {
                    lower_in(args)
                } else {
                    match read_operator(name.as_str()) {
                        Some(operator) => lower_comparison(operator, name.as_str(), args),
                        None => Err(
                            cat(
                                "`",
                                write_readable(name.as_str()).as_str(),
                                "` is not something this filter language does",
                            ),
                        ),
                    }
                }
            },
            _ => {
                let mut message = copy_of(describe(node));
                message.append(
                    " is not a condition; a filter is comparisons joined with `&&`, `||` and `!`",
                );
                Err(message)
            },
        }
    }
}

// ---------------------------------------------------------------------------
// Resolving
// ---------------------------------------------------------------------------

/// A condition with its fields renamed to columns, or the first field that has none.
pub open spec fn renamed(condition: ConditionView, columns: Map<Seq<char>, Seq<char>>) -> Result<
    ConditionView,
    Seq<char>,
>
    decreases condition, 0nat,
{
    match condition {
        ConditionView::Truthy(field) => if columns.dom().contains(field) {
            Ok(ConditionView::Truthy(columns[field]))
        } else {
            Err(field)
        },
        ConditionView::Against { field, operator, value } => if columns.dom().contains(field) {
            Ok(ConditionView::Against { field: columns[field], operator, value })
        } else {
            Err(field)
        },
        ConditionView::IsNull { field, negated } => if columns.dom().contains(field) {
            Ok(ConditionView::IsNull { field: columns[field], negated })
        } else {
            Err(field)
        },
        ConditionView::In { field, values } => if columns.dom().contains(field) {
            Ok(ConditionView::In { field: columns[field], values })
        } else {
            Err(field)
        },
        ConditionView::Like { field, pattern } => if columns.dom().contains(field) {
            Ok(ConditionView::Like { field: columns[field], pattern })
        } else {
            Err(field)
        },
        ConditionView::Not(inner) => match renamed(*inner, columns) {
            Ok(inner) => Ok(ConditionView::Not(Box::new(inner))),
            Err(field) => Err(field),
        },
        ConditionView::All(parts) => match renamed_all(parts, columns, parts.len()) {
            Ok(parts) => Ok(ConditionView::All(parts)),
            Err(field) => Err(field),
        },
        ConditionView::Any(parts) => match renamed_all(parts, columns, parts.len()) {
            Ok(parts) => Ok(ConditionView::Any(parts)),
            Err(field) => Err(field),
        },
    }
}

/// The first `n` conditions with their fields renamed, or the first field that has no
/// column.
pub open spec fn renamed_all(
    parts: Seq<ConditionView>,
    columns: Map<Seq<char>, Seq<char>>,
    n: nat,
) -> Result<Seq<ConditionView>, Seq<char>>
    decreases parts, n,
{
    if n == 0 || n > parts.len() {
        Ok(Seq::empty())
    } else {
        match renamed_all(parts, columns, (n - 1) as nat) {
            Err(field) => Err(field),
            Ok(done) => match renamed(parts[n - 1], columns) {
                Err(field) => Err(field),
                Ok(part) => Ok(done.push(part)),
            },
        }
    }
}

proof fn lemma_renamed_fails(
    parts: Seq<ConditionView>,
    columns: Map<Seq<char>, Seq<char>>,
    n: nat,
    m: nat,
)
    requires
        n <= m <= parts.len(),
        renamed_all(parts, columns, n) is Err,
    ensures
        renamed_all(parts, columns, m) == renamed_all(parts, columns, n),
    decreases m,
{
    if n < m {
        lemma_renamed_fails(parts, columns, n, (m - 1) as nat);
    }
}

fn rename(field: &str, columns: &Columns) -> (r: Result<String, String>)
    ensures
        match r {
            Ok(column) => columns@.dom().contains(field@) && columns@[field@] == column@,
            Err(name) => !columns@.dom().contains(field@) && name@ == field@,
        },
{
    match columns.get(field) {
        Some(column) => Ok(copy_of(column)),
        None => Err(copy_of(field)),
    }
}

fn copy_literals(values: &Vec<Literal>) -> (r: Vec<Literal>)
    ensures
        literal_views(r@) == literal_views(values@),
{
    let mut r: Vec<Literal> = Vec::new();
    let mut i: usize = 0;
    while i < values.len()
        invariant
            i <= values.len(),
            r.len() == i,
            forall|j: int| 0 <= j < i ==> (#[trigger] r@[j])@ == values@[j]@,
        decreases values.len() - i,
    {
        r.push(values[i].clone());
        i += 1;
    }
    assert(literal_views(r@) =~= literal_views(values@));
    r
}

impl Clone for Condition {
    fn clone(&self) -> (r: Condition)
        ensures
            r@ == self@,
        decreases self,
    {
        match self {
            Condition::Truthy(field) => Condition::Truthy(copy_of(field.as_str())),
            Condition::Against { field, operator, value } => Condition::Against {
                field: copy_of(field.as_str()),
                operator: *operator,
                value: value.clone(),
            },
            Condition::IsNull { field, negated } => Condition::IsNull {
                field: copy_of(field.as_str()),
                negated: *negated,
            },
            Condition::In { field, values } => Condition::In {
                field: copy_of(field.as_str()),
                values: copy_literals(values),
            },
            Condition::Like { field, pattern } => Condition::Like {
                field: copy_of(field.as_str()),
                pattern: copy_of(pattern.as_str()),
            },
            Condition::Not(inner) => Condition::Not(Box::new((&**inner).clone())),
            Condition::All(parts) => Condition::All(copy_conditions(parts)),
            Condition::Any(parts) => Condition::Any(copy_conditions(parts)),
        }
    }
}

fn copy_conditions(parts: &Vec<Condition>) -> (r: Vec<Condition>)
    ensures
        conditions_of(r@) == conditions_of(parts@),
    decreases parts,
{
    let mut r: Vec<Condition> = Vec::new();
    let mut i: usize = 0;
    while i < parts.len()
        invariant
            i <= parts.len(),
            r.len() == i,
            forall|j: int|
                0 <= j < i ==> condition_of(#[trigger] r@[j]) == condition_of(parts@[j]),
        decreases parts.len() - i,
    {
        assert(decreases_to!(parts => parts@[i as int]));
        r.push(parts[i].clone());
        i += 1;
    }
    proof {
        lemma_conditions(r@);
        lemma_conditions(parts@);
        assert(conditions_of(r@) =~= conditions_of(parts@));
    }
    r
}

impl Condition {
    /// Renames the fields that this condition names, and refuses any that have no column.
    pub fn resolve(&self, columns: &Columns) -> (r: Result<Condition, String>)
        ensures
            condition_seen(r, renamed(self@, columns@)),
        decreases self, 0nat,
    {
        match self {
            Condition::Truthy(field) => match rename(field.as_str(), columns) {
                Ok(column) => Ok(Condition::Truthy(column)),
                Err(field) => Err(field),
            },
            Condition::Against { field, operator, value } => match rename(
                field.as_str(),
                columns,
            ) {
                Ok(column) => Ok(
                    Condition::Against { field: column, operator: *operator, value: value.clone() },
                ),
                Err(field) => Err(field),
            },
            Condition::IsNull { field, negated } => match rename(field.as_str(), columns) {
                Ok(column) => Ok(Condition::IsNull { field: column, negated: *negated }),
                Err(field) => Err(field),
            },
            Condition::In { field, values } => match rename(field.as_str(), columns) {
                Ok(column) => Ok(Condition::In { field: column, values: copy_literals(values) }),
                Err(field) => Err(field),
            },
            Condition::Like { field, pattern } => match rename(field.as_str(), columns) {
                Ok(column) => Ok(
                    Condition::Like { field: column, pattern: copy_of(pattern.as_str()) },
                ),
                Err(field) => Err(field),
            },
            Condition::Not(inner) => match inner.resolve(columns) {
                Ok(inner) => Ok(Condition::Not(Box::new(inner))),
                Err(field) => Err(field),
            },
            Condition::All(parts) => {
                proof {
                    lemma_conditions(parts@);
                }
                match Condition::resolve_all(parts, columns) {
                    Ok(parts) => Ok(Condition::All(parts)),
                    Err(field) => Err(field),
                }
            },
            Condition::Any(parts) => {
                proof {
                    lemma_conditions(parts@);
                }
                match Condition::resolve_all(parts, columns) {
                    Ok(parts) => Ok(Condition::Any(parts)),
                    Err(field) => Err(field),
                }
            },
        }
    }

    fn resolve_all(parts: &Vec<Condition>, columns: &Columns) -> (r: Result<
        Vec<Condition>,
        String,
    >)
        ensures
            match (r, renamed_all(conditions_of(parts@), columns@, parts@.len())) {
                (Ok(done), Ok(found)) => conditions_of(done@) == found,
                (Err(field), Err(name)) => field@ == name,
                _ => false,
            },
        decreases parts, 0nat,
    {
        let ghost views = conditions_of(parts@);
        let mut done: Vec<Condition> = Vec::new();
        let mut i: usize = 0;
        proof {
            lemma_conditions(parts@);
        }
        while i < parts.len()
            invariant
                i <= parts.len(),
                views == conditions_of(parts@),
                views.len() == parts@.len(),
                forall|j: int|
                    0 <= j < parts@.len() ==> #[trigger] views[j] == condition_of(parts@[j]),
                renamed_all(views, columns@, i as nat) == Ok::<Seq<ConditionView>, Seq<char>>(
                    conditions_of(done@),
                ),
            decreases parts.len() - i,
        {
            assert(views[i as int] == condition_of(parts@[i as int]));
            assert(decreases_to!(parts => parts@[i as int]));
            match parts[i].resolve(columns) {
                Ok(part) => {
                    let ghost held = done@;
                    done.push(part);
                    assert(done@.drop_last() =~= held);
                },
                Err(field) => {
                    proof {
                        lemma_renamed_fails(views, columns@, (i + 1) as nat, parts@.len());
                    }
                    return Err(field);
                },
            }
            i += 1;
        }
        Ok(done)
    }
}

// ---------------------------------------------------------------------------
// Writing
// ---------------------------------------------------------------------------

/// The values that a condition binds, in the order in which its placeholders are written.
pub open spec fn values_in(condition: ConditionView) -> Seq<LiteralView>
    decreases condition,
{
    match condition {
        ConditionView::Truthy(_) => Seq::empty(),
        ConditionView::Against { value, .. } => seq![value],
        ConditionView::IsNull { .. } => Seq::empty(),
        ConditionView::In { values, .. } => values,
        ConditionView::Like { pattern, .. } => seq![LiteralView::Text(pattern)],
        ConditionView::Not(inner) => values_in(*inner),
        ConditionView::All(parts) => values_in_all(parts),
        ConditionView::Any(parts) => values_in_all(parts),
    }
}

/// The values that several conditions bind.
pub open spec fn values_in_all(parts: Seq<ConditionView>) -> Seq<LiteralView>
    decreases parts,
{
    if parts.len() == 0 {
        Seq::empty()
    } else {
        values_in_all(parts.drop_last()) + values_in(parts.last())
    }
}

/// The placeholder that takes the `n`th value, counting from one.
pub open spec fn takes(n: nat) -> SqlTree {
    SqlTree::Placeholder("$"@ + decimal(n))
}

/// In parentheses where joining with `AND` would change what an expression means: `AND`
/// binds tighter than `OR`.
pub open spec fn parenthesized(tree: SqlTree) -> SqlTree {
    if top_operator(tree) == Some(Operator::Or) {
        SqlTree::Nested(Box::new(tree))
    } else {
        tree
    }
}

/// One of several conditions that an operator joins.
pub open spec fn wrapped(tree: SqlTree, operator: Operator) -> SqlTree {
    if operator == Operator::And {
        parenthesized(tree)
    } else {
        tree
    }
}

/// A condition as an expression, behind `n` values that are bound already.
pub open spec fn written(condition: ConditionView, n: nat) -> SqlTree
    decreases condition, 0nat,
{
    match condition {
        ConditionView::Truthy(column) => column_tree(column),
        ConditionView::Against { field, operator, value } => SqlTree::Binary(
            operator,
            Box::new(column_tree(field)),
            Box::new(takes(n + 1)),
        ),
        ConditionView::IsNull { field, negated } => if negated {
            SqlTree::IsNotNull(Box::new(column_tree(field)))
        } else {
            SqlTree::IsNull(Box::new(column_tree(field)))
        },
        ConditionView::In { field, values } => SqlTree::InList(
            Box::new(column_tree(field)),
            Seq::new(values.len(), |i: int| takes((n + 1 + i) as nat)),
        ),
        ConditionView::Like { field, pattern } => SqlTree::Like(
            Box::new(column_tree(field)),
            Box::new(takes(n + 1)),
            ESCAPE,
        ),
        ConditionView::Not(inner) => {
            let tree = written(*inner, n);
            SqlTree::Negated(
                Box::new(
                    if top_operator(tree) == Some(Operator::And) || top_operator(tree) == Some(
                        Operator::Or,
                    ) {
                        SqlTree::Nested(Box::new(tree))
                    } else {
                        tree
                    },
                ),
            )
        },
        ConditionView::All(parts) => written_all(parts, Operator::And, parts.len(), n),
        ConditionView::Any(parts) => written_all(parts, Operator::Or, parts.len(), n),
    }
}

/// The first `k` conditions with an operator between them. None at all always hold.
pub open spec fn written_all(
    parts: Seq<ConditionView>,
    operator: Operator,
    k: nat,
    n: nat,
) -> SqlTree
    decreases parts, k,
{
    if k == 0 || k > parts.len() {
        SqlTree::Truth
    } else {
        let last = wrapped(
            written(parts[k - 1], n + values_in_all(parts.take(k - 1)).len()),
            operator,
        );
        if k == 1 {
            last
        } else {
            SqlTree::Binary(
                operator,
                Box::new(written_all(parts, operator, (k - 1) as nat, n)),
                Box::new(last),
            )
        }
    }
}

/// Takes the next placeholder, and records the value that it binds.
fn placeholder(value: Literal, values: &mut Vec<Literal>) -> (r: sqlparser::ast::Expr)
    ensures
        expr_tree(r) == takes(old(values)@.len() + 1),
        literal_views(final(values)@) == literal_views(old(values)@).push(value@),
        final(values)@.len() == old(values)@.len() + 1,
{
    let ghost held = literal_views(values@);
    values.push(value);
    assert(literal_views(values@) =~= held.push(value@));
    make_leaf(Leaf::Placeholder(copy_of("$").concat(decimal_of(values.len() as u128).as_str())))
}

/// Wraps an expression in parentheses if joining it with `AND` would otherwise change what
/// it means.
pub(crate) fn parenthesize(expr: sqlparser::ast::Expr) -> (r: sqlparser::ast::Expr)
    ensures
        expr_tree(r) == parenthesized(expr_tree(expr)),
{
    if look_at_operator(&expr) == Some(Operator::Or) {
        make_branch(Branch::Nested(expr))
    } else {
        expr
    }
}

impl Condition {
    /// Writes the condition as an expression, and collects the values that it binds.
    pub(crate) fn write(&self, values: &mut Vec<Literal>) -> (r: sqlparser::ast::Expr)
        ensures
            expr_tree(r) == written(self@, old(values)@.len()),
            literal_views(final(values)@) == literal_views(old(values)@) + values_in(self@),
            final(values)@.len() == old(values)@.len() + values_in(self@).len(),
        decreases self, 0nat,
    {
        let ghost held = literal_views(values@);
        match self {
            Condition::Truthy(column) => {
                assert(held + Seq::<LiteralView>::empty() =~= held);
                quoted(column.as_str())
            },
            Condition::Against { field, operator, value } => {
                let right = placeholder(value.clone(), values);
                assert(held.push(value@) =~= held + seq![value@]);
                make_binary(*operator, quoted(field.as_str()), right)
            },
            Condition::IsNull { field, negated } => {
                assert(held + Seq::<LiteralView>::empty() =~= held);
                let column = quoted(field.as_str());
                if *negated {
                    make_branch(Branch::IsNotNull(column))
                } else {
                    make_branch(Branch::IsNull(column))
                }
            },
            Condition::In { field, values: items } => {
                let ghost n = values@.len();
                let ghost views = literal_views(items@);
                let mut list: Vec<sqlparser::ast::Expr> = Vec::new();
                let mut i: usize = 0;
                assert(held + views.take(0) =~= held);
                while i < items.len()
                    invariant
                        i <= items.len(),
                        list.len() == i,
                        views == literal_views(items@),
                        values@.len() == n + i,
                        literal_views(values@) == held + views.take(i as int),
                        forall|j: int|
                            0 <= j < i ==> expr_tree(#[trigger] list@[j]) == takes(
                                (n + 1 + j) as nat,
                            ),
                    decreases items.len() - i,
                {
                    let item = placeholder(items[i].clone(), values);
                    list.push(item);
                    proof {
                        assert(views[i as int] == items@[i as int]@);
                        assert(views.take(i + 1) =~= views.take(i as int).push(views[i as int]));
                        assert((held + views.take(i as int)).push(views[i as int]) =~= held
                            + views.take(i + 1));
                    }
                    i += 1;
                }
                assert(views.take(i as int) =~= views);
                assert(expr_trees(list@) =~= Seq::new(
                    views.len(),
                    |j: int| takes((n + 1 + j) as nat),
                ));
                make_branch(Branch::InList(quoted(field.as_str()), list))
            },
            Condition::Like { field, pattern } => {
                let value = Literal::Text(copy_of(pattern.as_str()));
                assert(held.push(value@) =~= held + seq![value@]);
                let right = placeholder(value, values);
                make_like(quoted(field.as_str()), right, ESCAPE)
            },
            Condition::Not(inner) => {
                let expr = inner.write(values);
                let operator = look_at_operator(&expr);
                if operator == Some(Operator::And) || operator == Some(Operator::Or) {
                    let nested = make_branch(Branch::Nested(expr));
                    make_branch(Branch::Negated(nested))
                } else {
                    make_branch(Branch::Negated(expr))
                }
            },
            Condition::All(parts) => {
                proof {
                    lemma_conditions(parts@);
                }
                Condition::join(parts, Operator::And, values)
            },
            Condition::Any(parts) => {
                proof {
                    lemma_conditions(parts@);
                }
                Condition::join(parts, Operator::Or, values)
            },
        }
    }

    /// Joins conditions with one operator. Only an `OR` underneath an `AND` needs
    /// parentheses.
    fn join(parts: &Vec<Condition>, operator: Operator, values: &mut Vec<Literal>) -> (r:
        sqlparser::ast::Expr)
        ensures
            expr_tree(r) == written_all(
                conditions_of(parts@),
                operator,
                parts@.len(),
                old(values)@.len(),
            ),
            literal_views(final(values)@) == literal_views(old(values)@) + values_in_all(
                conditions_of(parts@),
            ),
            final(values)@.len() == old(values)@.len() + values_in_all(
                conditions_of(parts@),
            ).len(),
        decreases parts, 0nat,
    {
        let ghost views = conditions_of(parts@);
        let ghost held = literal_views(values@);
        let ghost n = values@.len();
        proof {
            lemma_conditions(parts@);
        }
        if parts.len() == 0 {
            assert(held + values_in_all(views) =~= held);
            return make_leaf(Leaf::Truth);
        }
        assert(views[0] == condition_of(parts@[0]));
        assert(decreases_to!(parts => parts@[0]));
        let first = parts[0].write(values);
        let mut left = if operator == Operator::And {
            parenthesize(first)
        } else {
            first
        };
        let mut i: usize = 1;
        proof {
            assert(views.take(0) =~= Seq::<ConditionView>::empty());
            assert(values_in_all(views.take(0)).len() == 0);
            assert(views.take(1).drop_last() =~= views.take(0));
            assert(views.take(1).last() == views[0]);
            assert(values_in_all(views.take(1)) =~= values_in(views[0]));
        }
        while i < parts.len()
            invariant
                1 <= i <= parts.len(),
                views == conditions_of(parts@),
                views.len() == parts@.len(),
                forall|j: int|
                    0 <= j < parts@.len() ==> #[trigger] views[j] == condition_of(parts@[j]),
                expr_tree(left) == written_all(views, operator, i as nat, n),
                literal_views(values@) == held + values_in_all(views.take(i as int)),
                values@.len() == n + values_in_all(views.take(i as int)).len(),
            decreases parts.len() - i,
        {
            assert(views[i as int] == condition_of(parts@[i as int]));
            assert(decreases_to!(parts => parts@[i as int]));
            let ghost before = literal_views(values@);
            let next = parts[i].write(values);
            let right = if operator == Operator::And {
                parenthesize(next)
            } else {
                next
            };
            left = make_binary(operator, left, right);
            proof {
                let now = views.take(i + 1);
                assert(now.drop_last() =~= views.take(i as int));
                assert(now.last() == views[i as int]);
                assert(before + values_in(views[i as int]) =~= held + values_in_all(now));
            }
            i += 1;
        }
        assert(views.take(i as int) =~= views);
        left
    }
}

// ---------------------------------------------------------------------------
// The filter
// ---------------------------------------------------------------------------

/// A filter, as contracts speak of it.
pub struct FilterState {
    pub condition: Option<ConditionView>,
    /// Whether the names are columns.
    pub resolved: bool,
}

/// A condition, as a request asked for it: parsed from a `filter` value, then resolved
/// against the columns that a query chose to offer. Values are bound, never written in.
#[derive(Debug, PartialEq, Eq)]
pub struct Filter {
    condition: Option<Condition>,
    resolved: bool,
}

/// What an optional condition says.
pub open spec fn said(condition: Option<Condition>) -> Option<ConditionView> {
    match condition {
        Some(condition) => Some(condition@),
        None => None,
    }
}

impl View for Filter {
    type V = FilterState;

    closed spec fn view(&self) -> FilterState {
        FilterState { condition: said(self.condition), resolved: self.resolved }
    }
}

impl Clone for Filter {
    fn clone(&self) -> (r: Filter)
        ensures
            r@ == self@,
    {
        let condition = match &self.condition {
            Some(condition) => Some(condition.clone()),
            None => None,
        };
        Filter { condition, resolved: self.resolved }
    }
}

/// A filter with its fields resolved to columns. One that is resolved stays as it is.
pub open spec fn resolved(filter: FilterState, columns: Map<Seq<char>, Seq<char>>) -> Result<
    FilterState,
    ErrorView,
> {
    if filter.resolved {
        Ok(filter)
    } else {
        match filter.condition {
            None => Ok(FilterState { condition: None, resolved: true }),
            Some(condition) => match renamed(condition, columns) {
                Ok(found) => Ok(FilterState { condition: Some(found), resolved: true }),
                Err(field) => Err(ErrorView::Field(field)),
            },
        }
    }
}

impl Filter {
    /// Reads a `filter` value. Blank means that nothing was asked for.
    pub fn parse(filter: &str) -> (r: Result<Filter, Error>)
        ensures
            match (r, parsed(filter@)) {
                (Ok(found), Ok(condition)) => found@ == (FilterState {
                    condition,
                    resolved: false,
                }),
                (Err(error), Err(message)) => error@ == ErrorView::Filter(message),
                _ => false,
            },
    {
        let text = chars_of(filter);
        if trim(text.as_slice()).len() == 0 {
            return Ok(Filter { condition: None, resolved: false });
        }
        match crate::expression::parse(filter) {
            Err(errors) => {
                let mut message = cat("`", filter, "` is not a CEL expression: ");
                message.append(errors.as_str());
                Err(Error::Filter(message))
            },
            Ok(tree) => match Condition::lower(&tree) {
                Ok(condition) => Ok(Filter { condition: Some(condition), resolved: false }),
                Err(message) => Err(Error::Filter(message)),
            },
        }
    }

    /// Renames every field to the column that it stands for. A field that the columns do not
    /// offer is refused. What is resolved already stays as it is.
    pub fn resolve(self, columns: &Columns) -> (r: Result<Filter, Error>)
        ensures
            match (r, resolved(self@, columns@)) {
                (Ok(filter), Ok(found)) => filter@ == found,
                (Err(error), Err(found)) => error@ == found,
                _ => false,
            },
    {
        if self.resolved {
            return Ok(self);
        }
        match &self.condition {
            None => Ok(Filter { condition: None, resolved: true }),
            Some(condition) => match condition.resolve(columns) {
                Ok(found) => Ok(Filter { condition: Some(found), resolved: true }),
                Err(field) => Err(Error::Field(field)),
            },
        }
    }

    /// Whether nothing is filtered on.
    pub fn is_empty(&self) -> (b: bool)
        ensures
            b == (self@.condition is None),
    {
        self.condition.is_none()
    }

    /// Whether the names are columns.
    pub fn is_resolved(&self) -> (b: bool)
        ensures
            b == self@.resolved,
    {
        self.resolved
    }

    /// What this filter says.
    pub fn condition(&self) -> (r: &Option<Condition>)
        ensures
            said(*r) == self@.condition,
    {
        &self.condition
    }
}

// ---------------------------------------------------------------------------
// Laws
// ---------------------------------------------------------------------------

/// Resolving twice gives what resolving once gave.
pub proof fn law_resolving_twice_changes_nothing(
    filter: FilterState,
    columns: Map<Seq<char>, Seq<char>>,
    others: Map<Seq<char>, Seq<char>>,
)
    ensures
        resolved(filter, columns) matches Ok(once) ==> once.resolved && resolved(once, others)
            == Ok::<FilterState, ErrorView>(once),
{
}

/// The fields that a condition names.
pub open spec fn fields_in(condition: ConditionView) -> Set<Seq<char>>
    decreases condition,
{
    match condition {
        ConditionView::Truthy(field) => set![field],
        ConditionView::Against { field, .. } => set![field],
        ConditionView::IsNull { field, .. } => set![field],
        ConditionView::In { field, .. } => set![field],
        ConditionView::Like { field, .. } => set![field],
        ConditionView::Not(inner) => fields_in(*inner),
        ConditionView::All(parts) => fields_in_all(parts),
        ConditionView::Any(parts) => fields_in_all(parts),
    }
}

/// The fields that several conditions name.
pub open spec fn fields_in_all(parts: Seq<ConditionView>) -> Set<Seq<char>>
    decreases parts,
{
    if parts.len() == 0 {
        Set::empty()
    } else {
        fields_in_all(parts.drop_last()).union(fields_in(parts.last()))
    }
}

/// The columns are an allowlist: a condition is renamed exactly where every field that it
/// names is offered. Renaming keeps the values that it binds.
pub proof fn law_only_offered_fields_resolve(
    condition: ConditionView,
    columns: Map<Seq<char>, Seq<char>>,
)
    ensures
        renamed(condition, columns) is Ok <==> fields_in(condition).subset_of(columns.dom()),
        renamed(condition, columns) matches Err(field) ==> fields_in(condition).contains(field)
            && !columns.dom().contains(field),
        renamed(condition, columns) matches Ok(found) ==> values_in(found) == values_in(condition),
    decreases condition, 0nat,
{
    match condition {
        ConditionView::Not(inner) => {
            law_only_offered_fields_resolve(*inner, columns);
        },
        ConditionView::All(parts) => {
            lemma_all_offered(parts, columns, parts.len());
            assert(parts.take(parts.len() as int) =~= parts);
        },
        ConditionView::Any(parts) => {
            lemma_all_offered(parts, columns, parts.len());
            assert(parts.take(parts.len() as int) =~= parts);
        },
        ConditionView::Truthy(field) => {
            assert(fields_in(condition).contains(field));
        },
        ConditionView::Against { field, .. } => {
            assert(fields_in(condition).contains(field));
        },
        ConditionView::IsNull { field, .. } => {
            assert(fields_in(condition).contains(field));
        },
        ConditionView::In { field, .. } => {
            assert(fields_in(condition).contains(field));
        },
        ConditionView::Like { field, .. } => {
            assert(fields_in(condition).contains(field));
        },
    }
}

proof fn lemma_all_offered(
    parts: Seq<ConditionView>,
    columns: Map<Seq<char>, Seq<char>>,
    n: nat,
)
    requires
        n <= parts.len(),
    ensures
        renamed_all(parts, columns, n) is Ok <==> fields_in_all(parts.take(n as int)).subset_of(
            columns.dom(),
        ),
        renamed_all(parts, columns, n) matches Err(field) ==> fields_in_all(
            parts.take(n as int),
        ).contains(field) && !columns.dom().contains(field),
        renamed_all(parts, columns, n) matches Ok(done) ==> values_in_all(done) == values_in_all(
            parts.take(n as int),
        ),
    decreases parts, n,
{
    if n == 0 {
        assert(fields_in_all(parts.take(0)) =~= Set::empty());
    } else {
        lemma_all_offered(parts, columns, (n - 1) as nat);
        law_only_offered_fields_resolve(parts[n - 1], columns);
        let now = parts.take(n as int);
        let before = parts.take(n - 1);
        assert(now.drop_last() =~= before);
        assert(now.last() == parts[n - 1]);
        let rest = fields_in_all(before);
        let last = fields_in(parts[n - 1]);
        assert(fields_in_all(now) == rest.union(last));
        if rest.union(last).subset_of(columns.dom()) {
            assert(rest.subset_of(columns.dom())) by {
                assert forall|f: Seq<char>| rest.contains(f) implies columns.dom().contains(f) by {
                    assert(rest.union(last).contains(f));
                }
            }
            assert(last.subset_of(columns.dom())) by {
                assert forall|f: Seq<char>| last.contains(f) implies columns.dom().contains(f) by {
                    assert(rest.union(last).contains(f));
                }
            }
        }
        if let Ok(done) = renamed_all(parts, columns, (n - 1) as nat) {
            if let Ok(part) = renamed(parts[n - 1], columns) {
                assert(done.push(part).drop_last() =~= done);
            }
        }
    }
}

/// Two conditions that say the same but for the values that they bind.
pub open spec fn alike_conditions(a: ConditionView, b: ConditionView) -> bool
    decreases a, 0int,
{
    match (a, b) {
        (ConditionView::Truthy(x), ConditionView::Truthy(y)) => x == y,
        (
            ConditionView::Against { field: x, operator: o, .. },
            ConditionView::Against { field: y, operator: p, .. },
        ) => x == y && o == p,
        (
            ConditionView::IsNull { field: x, negated: m },
            ConditionView::IsNull { field: y, negated: n },
        ) => x == y && m == n,
        (
            ConditionView::In { field: x, values: v },
            ConditionView::In { field: y, values: u },
        ) => x == y && v.len() == u.len(),
        (ConditionView::Like { field: x, .. }, ConditionView::Like { field: y, .. }) => x == y,
        (ConditionView::Not(x), ConditionView::Not(y)) => alike_conditions(*x, *y),
        (ConditionView::All(xs), ConditionView::All(ys)) => xs.len() == ys.len()
            && all_alike_conditions(xs, ys, 0),
        (ConditionView::Any(xs), ConditionView::Any(ys)) => xs.len() == ys.len()
            && all_alike_conditions(xs, ys, 0),
        _ => false,
    }
}

/// Conditions that are alike from the `i`th on.
pub open spec fn all_alike_conditions(
    xs: Seq<ConditionView>,
    ys: Seq<ConditionView>,
    i: int,
) -> bool
    decreases xs, xs.len() - i,
{
    0 <= i < xs.len() ==> alike_conditions(xs[i], ys[i]) && all_alike_conditions(xs, ys, i + 1)
}

proof fn lemma_alike_condition_at(
    xs: Seq<ConditionView>,
    ys: Seq<ConditionView>,
    i: int,
    j: int,
)
    requires
        0 <= i <= j < xs.len(),
        all_alike_conditions(xs, ys, i),
    ensures
        alike_conditions(xs[j], ys[j]),
    decreases j - i,
{
    if i < j {
        lemma_alike_condition_at(xs, ys, i + 1, j);
    }
}

/// The expression that a condition becomes does not depend on the values in it: they are
/// bound, and never written. Two conditions that differ in nothing else become the same
/// expression, with as many values.
pub proof fn law_values_are_never_written(a: ConditionView, b: ConditionView, n: nat)
    requires
        alike_conditions(a, b),
    ensures
        written(a, n) == written(b, n),
        values_in(a).len() == values_in(b).len(),
    decreases a, 0nat,
{
    match (a, b) {
        (ConditionView::In { values: v, .. }, ConditionView::In { values: u, .. }) => {
            assert(Seq::new(v.len(), |i: int| takes((n + 1 + i) as nat)) =~= Seq::new(
                u.len(),
                |i: int| takes((n + 1 + i) as nat),
            ));
        },
        (ConditionView::Not(x), ConditionView::Not(y)) => {
            law_values_are_never_written(*x, *y, n);
        },
        (ConditionView::All(xs), ConditionView::All(ys)) => {
            lemma_same_written(xs, ys, Operator::And, xs.len(), n);
            assert(xs.take(xs.len() as int) =~= xs);
            assert(ys.take(ys.len() as int) =~= ys);
        },
        (ConditionView::Any(xs), ConditionView::Any(ys)) => {
            lemma_same_written(xs, ys, Operator::Or, xs.len(), n);
            assert(xs.take(xs.len() as int) =~= xs);
            assert(ys.take(ys.len() as int) =~= ys);
        },
        _ => {},
    }
}

proof fn lemma_same_written(
    xs: Seq<ConditionView>,
    ys: Seq<ConditionView>,
    operator: Operator,
    k: nat,
    n: nat,
)
    requires
        k <= xs.len(),
        xs.len() == ys.len(),
        all_alike_conditions(xs, ys, 0),
    ensures
        written_all(xs, operator, k, n) == written_all(ys, operator, k, n),
        values_in_all(xs.take(k as int)).len() == values_in_all(ys.take(k as int)).len(),
    decreases xs, k,
{
    if k > 0 {
        lemma_same_written(xs, ys, operator, (k - 1) as nat, n);
        lemma_alike_condition_at(xs, ys, 0, k - 1);
        let before = values_in_all(xs.take(k - 1)).len();
        law_values_are_never_written(xs[k - 1], ys[k - 1], n + before);
        assert(xs.take(k as int).drop_last() =~= xs.take(k - 1));
        assert(ys.take(k as int).drop_last() =~= ys.take(k - 1));
        assert(xs.take(k as int).last() == xs[k - 1]);
        assert(ys.take(k as int).last() == ys[k - 1]);
    }
}

/// An expression whose text means what its tree says: no `OR` stands bare under an `AND`, and
/// neither stands bare under a `NOT`, since both bind tighter.
pub open spec fn well_nested(tree: SqlTree) -> bool
    decreases tree,
{
    match tree {
        SqlTree::Binary(operator, left, right) => {
            &&& well_nested(*left) && well_nested(*right)
            &&& operator == Operator::And ==> top_operator(*left) != Some(Operator::Or)
                && top_operator(*right) != Some(Operator::Or)
        },
        SqlTree::Negated(inner) => {
            &&& well_nested(*inner)
            &&& top_operator(*inner) != Some(Operator::And)
            &&& top_operator(*inner) != Some(Operator::Or)
        },
        SqlTree::Nested(inner) => well_nested(*inner),
        _ => true,
    }
}

/// Writing a condition down never changes how it binds: what it joins stays together.
pub proof fn law_a_condition_binds_as_it_was_written(condition: ConditionView, n: nat)
    ensures
        well_nested(written(condition, n)),
    decreases condition, 0nat,
{
    match condition {
        ConditionView::Against { .. } => {
            reveal_with_fuel(well_nested, 2);
        },
        ConditionView::Not(inner) => {
            reveal_with_fuel(well_nested, 3);
            law_a_condition_binds_as_it_was_written(*inner, n);
        },
        ConditionView::All(parts) => {
            lemma_joined_nested(parts, Operator::And, parts.len(), n);
        },
        ConditionView::Any(parts) => {
            lemma_joined_nested(parts, Operator::Or, parts.len(), n);
        },
        _ => {},
    }
}

proof fn lemma_joined_nested(parts: Seq<ConditionView>, operator: Operator, k: nat, n: nat)
    requires
        operator == Operator::And || operator == Operator::Or,
        k <= parts.len(),
    ensures
        well_nested(written_all(parts, operator, k, n)),
        operator == Operator::And ==> top_operator(written_all(parts, operator, k, n)) != Some(
            Operator::Or,
        ),
    decreases parts, k,
{
    reveal_with_fuel(well_nested, 3);
    if k > 0 {
        lemma_joined_nested(parts, operator, (k - 1) as nat, n);
        law_a_condition_binds_as_it_was_written(
            parts[k - 1],
            n + values_in_all(parts.take(k - 1)).len(),
        );
    }
}

/// A blank filter asks for nothing. Any other is taken exactly where it is an expression that says
/// something as a condition, and it is then that condition.
pub proof fn law_a_filter_is_read_from_its_text(filter: Seq<char>)
    ensures
        trimmed(filter).len() == 0 ==> parsed(filter) == Ok::<Option<ConditionView>, Seq<char>>(
            None,
        ),
        trimmed(filter).len() > 0 ==> match cel_parsed(filter) {
            Ok(tree) => match lowered(tree) {
                Ok(condition) => parsed(filter) == Ok::<Option<ConditionView>, Seq<char>>(
                    Some(condition),
                ),
                Err(message) => parsed(filter) == Err::<Option<ConditionView>, Seq<char>>(message),
            },
            Err(_) => parsed(filter) is Err,
        },
{
}

/// An operator is told as it was written, without the marks for its operands.
#[verifier::rlimit(50)]
pub proof fn law_an_operator_is_told_as_it_was_written(sign: Seq<char>)
    requires
        sign.len() > 0,
        sign[0] != '_' && sign[0] != '@',
        sign.last() != '_',
    ensures
        readable("_"@ + sign + "_"@) == sign,
        readable(sign + "_"@) == sign,
        readable("@"@ + sign) == sign,
        readable(sign) == sign,
{
    reveal_strlit("_");
    reveal_strlit("@");
    let both = "_"@ + sign + "_"@;
    let tail = sign + "_"@;
    assert(without_leading(sign, '_') == sign);
    assert(without_leading(sign, '@') == sign);
    assert(both[0] == '_');
    assert(both.skip(1) =~= tail);
    assert(tail[0] == sign[0]);
    assert(without_leading(tail, '_') == tail);
    assert(without_leading(both, '_') == tail);
    assert(tail.last() == '_');
    assert(tail.drop_last() =~= sign);
    assert(without_trailing(sign, '_') == sign);
    assert(without_trailing(tail, '_') == sign);
    let marked = "@"@ + sign;
    assert(marked[0] == '@' && marked.last() == sign.last());
    assert(marked.skip(1) =~= sign);
    assert(without_leading(marked, '_') == marked);
    assert(without_trailing(marked, '_') == marked);
    assert(without_leading(marked, '@') == without_leading(sign, '@'));
}

/// A comparison of a field with a value says the same whichever of the two is written first.
#[verifier::rlimit(50)]
pub proof fn law_a_comparison_reads_in_either_order(
    operator: Operator,
    name: Seq<char>,
    field: Seq<char>,
    value: Tree,
)
    requires
        !(value is Ident),
    ensures
        lowered_comparison(operator, name, seq![value, Tree::Ident(field)]) == lowered_comparison(
            operator,
            name,
            seq![Tree::Ident(field), value],
        ),
        lowered_comparison(operator, name, seq![Tree::Ident(field), value]) matches Ok(condition)
            ==> match condition {
            ConditionView::Against { field: column, operator: asked, value: held } => column == field
                && asked == operator && literal_of(value) == Ok::<Option<ComparedView>, Seq<char>>(
                Some(ComparedView::Value(held)),
            ),
            ConditionView::IsNull { field: column, negated } => column == field && literal_of(value)
                == Ok::<Option<ComparedView>, Seq<char>>(Some(ComparedView::Null)) && (negated
                <==> operator == Operator::NotEq),
            _ => false,
        },
{
    let first = seq![Tree::Ident(field), value];
    let second = seq![value, Tree::Ident(field)];
    assert(first[0] == Tree::Ident(field) && first[1] == value);
    assert(second[1] == Tree::Ident(field) && second[0] == value);
    assert(literal_of(Tree::Ident(field)) == Ok::<Option<ComparedView>, Seq<char>>(None));
}

} // verus!

//! Filter expressions, as the CEL parser reads them.

use cel::common::ast::{Expr as CelExpr, LiteralValue};
use cel::parser::Parser;
use cel::IdedExpr;
use vstd::prelude::*;

use crate::bytes::copy_bytes;
use crate::mistake::{tell_all, Mistake};
#[allow(unused_imports)]
use crate::mistake::{all_told, mistake_views, MistakeView};

verus! {

/// A parsed expression of the `cel` crate.
#[verifier::external_type_specification]
#[verifier::external_body]
pub struct ExIdedExpr(cel::IdedExpr);

/// A literal of the `cel` crate.
#[verifier::external_type_specification]
#[verifier::external_body]
pub struct ExLiteralValue(cel::common::ast::LiteralValue);

/// A constant. A floating-point number is held as its bits.
#[derive(Debug, PartialEq, Eq)]
pub enum Literal {
    Null,
    Bool(bool),
    Int(i64),
    UInt(u64),
    Double(u64),
    Text(String),
    Bytes(Vec<u8>),
}

/// A constant, as contracts speak of it.
pub enum LiteralView {
    Null,
    Bool(bool),
    Int(i64),
    UInt(u64),
    Double(u64),
    Text(Seq<char>),
    Bytes(Seq<u8>),
}

impl View for Literal {
    type V = LiteralView;

    open spec fn view(&self) -> LiteralView {
        match self {
            Literal::Null => LiteralView::Null,
            Literal::Bool(b) => LiteralView::Bool(*b),
            Literal::Int(n) => LiteralView::Int(*n),
            Literal::UInt(n) => LiteralView::UInt(*n),
            Literal::Double(bits) => LiteralView::Double(*bits),
            Literal::Text(text) => LiteralView::Text(text@),
            Literal::Bytes(bytes) => LiteralView::Bytes(bytes@),
        }
    }
}

/// An expression. What a map, a struct or a comprehension holds is left out: none of them
/// can be part of a condition. Whatever a message may have to show carries the text that
/// shows it.
#[derive(Debug, PartialEq, Eq)]
pub enum Formula {
    /// A name.
    Ident(String),
    /// A field of something, or the question whether it is set.
    Select { operand: Box<Formula>, field: String, test: bool, shown: String },
    /// An operator, a function or a method.
    Call { name: String, target: Option<Box<Formula>>, args: Vec<Formula> },
    /// A list.
    List { elements: Vec<Formula>, shown: String },
    /// A constant.
    Literal(Literal),
    /// A map.
    MapLiteral(String),
    /// A struct.
    StructLiteral(String),
    /// A macro that iterates.
    Comprehension(String),
    /// Nothing at all.
    Unspecified(String),
}

/// An expression, as contracts speak of it.
pub enum Tree {
    Ident(Seq<char>),
    Select { operand: Box<Tree>, field: Seq<char>, test: bool, shown: Seq<char> },
    Call { name: Seq<char>, target: Option<Box<Tree>>, args: Seq<Tree> },
    List { elements: Seq<Tree>, shown: Seq<char> },
    Literal(LiteralView),
    MapLiteral(Seq<char>),
    StructLiteral(Seq<char>),
    Comprehension(Seq<char>),
    Unspecified(Seq<char>),
}

/// What an expression means.
pub open spec fn tree_of(expr: Formula) -> Tree
    decreases expr,
{
    match expr {
        Formula::Ident(name) => Tree::Ident(name@),
        Formula::Select { operand, field, test, shown } => Tree::Select {
            operand: Box::new(tree_of(*operand)),
            field: field@,
            test,
            shown: shown@,
        },
        Formula::Call { name, target, args } => Tree::Call {
            name: name@,
            target: match target {
                Some(target) => Some(Box::new(tree_of(*target))),
                None => None,
            },
            args: trees_of(args@),
        },
        Formula::List { elements, shown } => Tree::List {
            elements: trees_of(elements@),
            shown: shown@,
        },
        Formula::Literal(literal) => Tree::Literal(literal@),
        Formula::MapLiteral(shown) => Tree::MapLiteral(shown@),
        Formula::StructLiteral(shown) => Tree::StructLiteral(shown@),
        Formula::Comprehension(shown) => Tree::Comprehension(shown@),
        Formula::Unspecified(shown) => Tree::Unspecified(shown@),
    }
}

/// What a list of expressions means.
pub open spec fn trees_of(exprs: Seq<Formula>) -> Seq<Tree>
    decreases exprs,
{
    if exprs.len() == 0 {
        Seq::empty()
    } else {
        trees_of(exprs.drop_last()).push(tree_of(exprs.last()))
    }
}

/// Each expression of a list keeps its place.
pub proof fn lemma_trees(exprs: Seq<Formula>)
    ensures
        trees_of(exprs).len() == exprs.len(),
        forall|i: int| 0 <= i < exprs.len() ==> #[trigger] trees_of(exprs)[i] == tree_of(exprs[i]),
    decreases exprs.len(),
{
    if exprs.len() > 0 {
        lemma_trees(exprs.drop_last());
    }
}

impl View for Formula {
    type V = Tree;

    open spec fn view(&self) -> Tree {
        tree_of(*self)
    }
}

impl Clone for Literal {
    fn clone(&self) -> (r: Literal)
        ensures
            r@ == self@,
    {
        match self {
            Literal::Null => Literal::Null,
            Literal::Bool(b) => Literal::Bool(*b),
            Literal::Int(n) => Literal::Int(*n),
            Literal::UInt(n) => Literal::UInt(*n),
            Literal::Double(bits) => Literal::Double(*bits),
            Literal::Text(text) => Literal::Text(text.clone()),
            Literal::Bytes(bytes) => Literal::Bytes(copy_bytes(bytes.as_slice())),
        }
    }
}

impl Clone for Formula {
    fn clone(&self) -> (r: Formula)
        ensures
            r@ == self@,
        decreases self,
    {
        match self {
            Formula::Ident(name) => Formula::Ident(name.clone()),
            Formula::Select { operand, field, test, shown } => {
                let operand = Box::new((&**operand).clone());
                Formula::Select { operand, field: field.clone(), test: *test, shown: shown.clone() }
            },
            Formula::Call { name, target, args } => {
                let target = match target {
                    Some(target) => Some(Box::new((&**target).clone())),
                    None => None,
                };
                let args = copy_formulas(args);
                Formula::Call { name: name.clone(), target, args }
            },
            Formula::List { elements, shown } => {
                let elements = copy_formulas(elements);
                Formula::List { elements, shown: shown.clone() }
            },
            Formula::Literal(literal) => Formula::Literal(literal.clone()),
            Formula::MapLiteral(shown) => Formula::MapLiteral(shown.clone()),
            Formula::StructLiteral(shown) => Formula::StructLiteral(shown.clone()),
            Formula::Comprehension(shown) => Formula::Comprehension(shown.clone()),
            Formula::Unspecified(shown) => Formula::Unspecified(shown.clone()),
        }
    }
}

/// Copies a list of expressions.
fn copy_formulas(exprs: &Vec<Formula>) -> (r: Vec<Formula>)
    ensures
        trees_of(r@) == trees_of(exprs@),
    decreases exprs,
{
    let mut r: Vec<Formula> = Vec::new();
    let mut i: usize = 0;
    while i < exprs.len()
        invariant
            i <= exprs.len(),
            r.len() == i,
            forall|j: int| 0 <= j < i ==> tree_of(#[trigger] r@[j]) == tree_of(exprs@[j]),
        decreases exprs.len() - i,
    {
        assert(decreases_to!(exprs => exprs@[i as int]));
        r.push(exprs[i].clone());
        i += 1;
    }
    proof {
        lemma_trees(r@);
        lemma_trees(exprs@);
        assert(trees_of(r@) =~= trees_of(exprs@));
    }
    r
}

/// What an expression of the `cel` crate holds.
pub uninterp spec fn cel_tree(expr: cel::IdedExpr) -> Tree;

/// What a literal of the `cel` crate holds.
pub uninterp spec fn cel_literal(literal: cel::common::ast::LiteralValue) -> LiteralView;

/// What the CEL parser makes of a source: an expression, or what is wrong with it.
pub uninterp spec fn cel_parsed(source: Seq<char>) -> Result<Tree, Seq<MistakeView>>;

/// The expression that a source spells, or the text that says what is wrong with it.
pub open spec fn formula_in(source: Seq<char>) -> Result<Tree, Seq<char>> {
    match cel_parsed(source) {
        Ok(tree) => Ok(tree),
        Err(mistakes) => Err(all_told(mistakes)),
    }
}

/// One node of an expression of the `cel` crate, with what lies below it still closed.
enum Node {
    Ident(String),
    Select(cel::IdedExpr, String, bool, String),
    Call(String, Option<cel::IdedExpr>, Vec<cel::IdedExpr>),
    List(Vec<cel::IdedExpr>, String),
    Literal(cel::common::ast::LiteralValue),
    MapLiteral(String),
    StructLiteral(String),
    Comprehension(String),
    Unspecified(String),
}

/// What a list of expressions of the `cel` crate holds.
spec fn cel_trees(exprs: Seq<cel::IdedExpr>) -> Seq<Tree> {
    exprs.map_values(|expr: cel::IdedExpr| cel_tree(expr))
}

/// What a node holds.
spec fn node_tree(node: Node) -> Tree {
    match node {
        Node::Ident(name) => Tree::Ident(name@),
        Node::Select(operand, field, test, shown) => Tree::Select {
            operand: Box::new(cel_tree(operand)),
            field: field@,
            test,
            shown: shown@,
        },
        Node::Call(name, target, args) => Tree::Call {
            name: name@,
            target: match target {
                Some(target) => Some(Box::new(cel_tree(target))),
                None => None,
            },
            args: cel_trees(args@),
        },
        Node::List(elements, shown) => Tree::List {
            elements: cel_trees(elements@),
            shown: shown@,
        },
        Node::Literal(literal) => Tree::Literal(cel_literal(literal)),
        Node::MapLiteral(shown) => Tree::MapLiteral(shown@),
        Node::StructLiteral(shown) => Tree::StructLiteral(shown@),
        Node::Comprehension(shown) => Tree::Comprehension(shown@),
        Node::Unspecified(shown) => Tree::Unspecified(shown@),
    }
}

/// Every negation in an expression negates one thing.
pub open spec fn negations_apply(tree: Tree) -> bool
    decreases tree,
{
    match tree {
        Tree::Select { operand, .. } => negations_apply(*operand),
        Tree::Call { name, target, args } => {
            &&& name == "!_"@ && target is None ==> args.len() == 1
            &&& match target {
                Some(target) => negations_apply(*target),
                None => true,
            }
            &&& forall|i: int| 0 <= i < args.len() ==> negations_apply(#[trigger] args[i])
        },
        Tree::List { elements, .. } => forall|i: int|
            0 <= i < elements.len() ==> negations_apply(#[trigger] elements[i]),
        _ => true,
    }
}

/// What a parse gave.
spec fn parse_seen(r: Result<cel::IdedExpr, Vec<Mistake>>) -> Result<Tree, Seq<MistakeView>> {
    match r {
        Ok(expr) => Ok(cel_tree(expr)),
        Err(mistakes) => Err(mistake_views(mistakes@)),
    }
}

/// Reads a source: `cel::parser::Parser::parse` gives an expression or its errors, and which
/// depends on the source alone. The fields of each `cel::ParseError` are moved one for one; its
/// `Display` is not used, since the width that it asks for has a limit. An expression holds a
/// `!` as a call with one argument.
#[verifier::external_body]
fn cel_parse(source: &str) -> (r: Result<cel::IdedExpr, Vec<Mistake>>)
    ensures
        parse_seen(r) == cel_parsed(source@),
        parse_seen(r) matches Ok(tree) ==> negations_apply(tree),
{
    let moved = |error: cel::ParseError| Mistake {
        line: error.pos.0,
        column: error.pos.1,
        message: error.msg,
        source: error.source_info.map(|info| info.source.clone()),
    };
    Parser::new().parse(source).map_err(|all| all.errors.into_iter().map(moved).collect())
}

/// Opens one node of an expression: the public fields of `cel::common::ast::Expr`, moved one
/// for one, with what its `Debug` prints. What an expression holds is what its node and the
/// expressions below it hold.
#[verifier::external_body]
fn open(expr: cel::IdedExpr) -> (r: Node)
    ensures
        node_tree(r) == cel_tree(expr),
{
    let shown = format!("{:?}", expr.expr);
    match expr.expr {
        CelExpr::Ident(name) => Node::Ident(name),
        CelExpr::Select(select) => Node::Select(*select.operand, select.field, select.test, shown),
        CelExpr::Call(call) => Node::Call(call.func_name, call.target.map(|t| *t), call.args),
        CelExpr::List(list) => Node::List(list.elements, shown),
        CelExpr::Literal(literal) => Node::Literal(literal),
        CelExpr::Map(_) => Node::MapLiteral(shown),
        CelExpr::Struct(_) => Node::StructLiteral(shown),
        CelExpr::Comprehension(_) => Node::Comprehension(shown),
        CelExpr::Unspecified => Node::Unspecified(shown),
    }
}

/// Opens a literal: the value inside `cel::common::ast::LiteralValue`, moved one for one.
#[verifier::external_body]
fn open_literal(literal: cel::common::ast::LiteralValue) -> (r: Literal)
    ensures
        r@ == cel_literal(literal),
{
    match literal {
        LiteralValue::Null => Literal::Null,
        LiteralValue::Boolean(b) => Literal::Bool(*b),
        LiteralValue::Int(n) => Literal::Int(*n),
        LiteralValue::UInt(n) => Literal::UInt(*n),
        LiteralValue::Double(number) => Literal::Double(number.to_bits()),
        LiteralValue::String(text) => Literal::Text(text.inner().to_owned()),
        LiteralValue::Bytes(bytes) => Literal::Bytes(bytes.inner().to_owned()),
    }
}

/// Takes an expression over from the `cel` crate.
fn taken(expr: cel::IdedExpr) -> (r: Formula)
    ensures
        r@ == cel_tree(expr),
    decreases cel_tree(expr),
{
    match open(expr) {
        Node::Ident(name) => Formula::Ident(name),
        Node::Select(operand, field, test, shown) => {
            proof {
                let whole = cel_tree(expr);
                assert(decreases_to!(whole => *(whole->operand)));
            }
            let operand = taken(operand);
            Formula::Select { operand: Box::new(operand), field, test, shown }
        },
        Node::Call(name, target, args) => {
            assert(cel_tree(expr)->args == cel_trees(args@));
            let target = match target {
                Some(target) => {
                    proof {
                        let whole = cel_tree(expr);
                        assert(decreases_to!(whole => whole->target));
                        assert(decreases_to!(whole->target => *(whole->target->0)));
                    }
                    Some(Box::new(taken(target)))
                },
                None => None,
            };
            let mut rest = args;
            let mut all: Vec<Formula> = Vec::new();
            let ghost whole = cel_trees(args@);
            assert(trees_of(all@) + cel_trees(rest@) =~= whole);
            while rest.len() > 0
                invariant
                    trees_of(all@) + cel_trees(rest@) == whole,
                    cel_tree(expr) matches Tree::Call { args, .. } && args == whole,
                decreases rest.len(),
            {
                let ghost held = rest@;
                let next = rest.remove(0);
                proof {
                    lemma_trees(all@);
                    assert(next == held[0]);
                    assert(whole[all@.len() as int] == cel_trees(held)[0]);
                    assert(decreases_to!(cel_tree(expr) => cel_tree(next)));
                }
                let ghost before = all@;
                let child = taken(next);
                all.push(child);
                proof {
                    assert(all@.drop_last() =~= before);
                    assert(rest@ =~= held.drop_first());
                    assert(trees_of(all@) + cel_trees(rest@) =~= trees_of(before) + cel_trees(
                        held,
                    ));
                }
            }
            assert(trees_of(all@) + cel_trees(rest@) =~= trees_of(all@));
            Formula::Call { name, target, args: all }
        },
        Node::List(elements, shown) => {
            let mut rest = elements;
            let mut all: Vec<Formula> = Vec::new();
            let ghost whole = cel_trees(elements@);
            assert(trees_of(all@) + cel_trees(rest@) =~= whole);
            while rest.len() > 0
                invariant
                    trees_of(all@) + cel_trees(rest@) == whole,
                    cel_tree(expr) matches Tree::List { elements, .. } && elements == whole,
                decreases rest.len(),
            {
                let ghost held = rest@;
                let next = rest.remove(0);
                proof {
                    lemma_trees(all@);
                    assert(next == held[0]);
                    assert(whole[all@.len() as int] == cel_trees(held)[0]);
                    assert(decreases_to!(cel_tree(expr) => cel_tree(next)));
                }
                let ghost before = all@;
                let child = taken(next);
                all.push(child);
                proof {
                    assert(all@.drop_last() =~= before);
                    assert(rest@ =~= held.drop_first());
                    assert(trees_of(all@) + cel_trees(rest@) =~= trees_of(before) + cel_trees(
                        held,
                    ));
                }
            }
            assert(trees_of(all@) + cel_trees(rest@) =~= trees_of(all@));
            Formula::List { elements: all, shown }
        },
        Node::Literal(literal) => Formula::Literal(open_literal(literal)),
        Node::MapLiteral(shown) => Formula::MapLiteral(shown),
        Node::StructLiteral(shown) => Formula::StructLiteral(shown),
        Node::Comprehension(shown) => Formula::Comprehension(shown),
        Node::Unspecified(shown) => Formula::Unspecified(shown),
    }
}

/// Parses CEL source.
pub fn parse(source: &str) -> (r: Result<Formula, String>)
    ensures
        match (r, formula_in(source@)) {
            (Ok(expr), Ok(tree)) => expr@ == tree,
            (Err(message), Err(text)) => message@ == text,
            _ => false,
        },
        r matches Ok(expr) ==> negations_apply(expr@),
{
    match cel_parse(source) {
        Ok(expr) => Ok(taken(expr)),
        Err(mistakes) => Err(tell_all(mistakes.as_slice())),
    }
}

// ---------------------------------------------------------------------------
// Expressions that differ in their constants
// ---------------------------------------------------------------------------

/// Two constants of one kind. A flag is what it is: it decides what a condition says.
pub open spec fn alike_literals(a: LiteralView, b: LiteralView) -> bool {
    match (a, b) {
        (LiteralView::Null, LiteralView::Null) => true,
        (LiteralView::Bool(x), LiteralView::Bool(y)) => x == y,
        (LiteralView::Int(_), LiteralView::Int(_)) => true,
        (LiteralView::UInt(_), LiteralView::UInt(_)) => true,
        (LiteralView::Double(_), LiteralView::Double(_)) => true,
        (LiteralView::Text(_), LiteralView::Text(_)) => true,
        (LiteralView::Bytes(_), LiteralView::Bytes(_)) => true,
        _ => false,
    }
}

/// Two expressions that say the same but for the constants in them.
pub open spec fn alike(a: Tree, b: Tree) -> bool
    decreases a, 0int,
{
    match (a, b) {
        (Tree::Ident(x), Tree::Ident(y)) => x == y,
        (
            Tree::Select { operand: x, field: f, test: t, .. },
            Tree::Select { operand: y, field: g, test: u, .. },
        ) => f == g && t == u && alike(*x, *y),
        (
            Tree::Call { name: f, target: t, args: xs },
            Tree::Call { name: g, target: u, args: ys },
        ) => {
            &&& f == g
            &&& match (t, u) {
                (None, None) => true,
                (Some(x), Some(y)) => alike(*x, *y),
                _ => false,
            }
            &&& xs.len() == ys.len()
            &&& all_alike(xs, ys, 0)
        },
        (Tree::List { elements: xs, .. }, Tree::List { elements: ys, .. }) => xs.len() == ys.len()
            && all_alike(xs, ys, 0),
        (Tree::Literal(x), Tree::Literal(y)) => alike_literals(x, y),
        (Tree::MapLiteral(_), Tree::MapLiteral(_)) => true,
        (Tree::StructLiteral(_), Tree::StructLiteral(_)) => true,
        (Tree::Comprehension(_), Tree::Comprehension(_)) => true,
        (Tree::Unspecified(_), Tree::Unspecified(_)) => true,
        _ => false,
    }
}

/// Expressions that are alike from the `i`th on.
pub open spec fn all_alike(xs: Seq<Tree>, ys: Seq<Tree>, i: int) -> bool
    decreases xs, xs.len() - i,
{
    0 <= i < xs.len() ==> alike(xs[i], ys[i]) && all_alike(xs, ys, i + 1)
}

/// Each of them is.
pub proof fn lemma_alike_at(xs: Seq<Tree>, ys: Seq<Tree>, i: int, j: int)
    requires
        0 <= i <= j < xs.len(),
        all_alike(xs, ys, i),
    ensures
        alike(xs[j], ys[j]),
    decreases j - i,
{
    if i < j {
        lemma_alike_at(xs, ys, i + 1, j);
    }
}

} // verus!

//! Which filters lower to a condition, and which are refused.

use vstd::prelude::*;

#[allow(unused_imports)]
use crate::expression::{LiteralView, Tree};
#[allow(unused_imports)]
use crate::instant::chrono_parsed;
#[allow(unused_imports)]
use crate::meaning::{
    cel_op, compares, lemma_comparison_names, lemma_other_names, path_in, tests_text,
};
#[allow(unused_imports)]
use crate::pattern::is_string_method;
#[allow(unused_imports)]
use crate::template::lower::{
    comparison_sql, condition_sql, dotted_path, elements_sql, is_comparison, operand, OperandView,
};
#[allow(unused_imports)]
use crate::template::mapping::{ColumnType, ColumnView, Mapping};
#[allow(unused_imports)]
use crate::template::sort::column_for;

verus! {

/// The column that an expression names, if it names one that the mapping exposes.
pub open spec fn column_named<M: Mapping>(tree: Tree, mapping: &M) -> Option<ColumnView> {
    match path_in(tree) {
        Some(path) => column_for(mapping, path),
        None => None,
    }
}

/// The type of a constant, if an expression is one that a value can hold.
pub open spec fn constant_type(tree: Tree) -> Option<ColumnType> {
    match tree {
        Tree::Literal(literal) => match literal {
            LiteralView::Bool(_) => Some(ColumnType::Bool),
            LiteralView::Int(_) => Some(ColumnType::Int),
            LiteralView::UInt(n) => if n <= i64::MAX {
                Some(ColumnType::Int)
            } else {
                None
            },
            LiteralView::Double(_) => Some(ColumnType::Float),
            LiteralView::Text(_) => Some(ColumnType::Text),
            LiteralView::Bytes(_) => Some(ColumnType::Bytes),
            LiteralView::Null => None,
        },
        Tree::Call { name, target: None, args } => if name == "timestamp"@ && args.len() == 1 {
            match args[0] {
                Tree::Literal(LiteralView::Text(text)) => if chrono_parsed(text) is Ok {
                    Some(ColumnType::Timestamp)
                } else {
                    None
                },
                _ => None,
            }
        } else {
            None
        },
        _ => None,
    }
}

/// The literal null.
pub open spec fn names_null(tree: Tree) -> bool {
    tree matches Tree::Literal(LiteralView::Null)
}

/// A column takes a constant of its own type, and a column of floating-point numbers a whole
/// number too.
pub open spec fn takes_constant(column: ColumnView, tree: Tree) -> bool {
    match constant_type(tree) {
        Some(ty) => ty == column.ty || (ty == ColumnType::Int && column.ty == ColumnType::Float),
        None => false,
    }
}

/// Two sides can be compared: a column with a constant that it takes, in either order, with
/// another column of its type, or, for being equal or not, with null.
pub open spec fn sides_compare<M: Mapping>(
    name: Seq<char>,
    left: Tree,
    right: Tree,
    mapping: &M,
) -> bool {
    match (column_named(left, mapping), column_named(right, mapping)) {
        (Some(a), Some(b)) => a.ty == b.ty,
        (Some(a), None) => takes_constant(a, right) || (names_null(right) && (name == "_==_"@ || name
            == "_!=_"@)),
        (None, Some(b)) => takes_constant(b, left) || (names_null(left) && (name == "_==_"@ || name
            == "_!=_"@)),
        (None, None) => false,
    }
}

/// A filter that is a condition over columns that the mapping exposes, with every comparison
/// between values of one type.
pub open spec fn sound<M: Mapping>(tree: Tree, mapping: &M) -> bool
    decreases tree,
{
    match tree {
        Tree::Literal(LiteralView::Bool(_)) => true,
        Tree::Select { operand, field, test: true, .. } => match path_in(*operand) {
            Some(path) => column_for(mapping, path + "."@ + field) is Some,
            None => false,
        },
        Tree::Ident(_) | Tree::Select { .. } => column_named(tree, mapping) matches Some(column)
            && column.ty == ColumnType::Bool,
        Tree::Call { name, target, args } => if name == "_&&_"@ || name == "_||_"@ {
            args.len() == 2 && sound(args[0], mapping) && sound(args[1], mapping)
        } else if name == "!_"@ {
            args.len() == 1 && sound(args[0], mapping)
        } else if cel_op(name) matches Some(op) && compares(op) {
            args.len() == 2 && sides_compare(name, args[0], args[1], mapping)
        } else if name == "@in"@ {
            args.len() == 2 && (column_named(args[0], mapping) matches Some(column) && (
            args[1] matches Tree::List { elements, .. } && forall|i: int|
                0 <= i < elements.len() ==> takes_constant(column, #[trigger] elements[i])))
        } else if tests_text(name) {
            target matches Some(target) && (column_named(*target, mapping) matches Some(column)
                && column.ty == ColumnType::Text) && args.len() == 1 && args[0]
                matches Tree::Literal(LiteralView::Text(_))
        } else {
            false
        },
        _ => false,
    }
}

proof fn lemma_path(tree: Tree)
    ensures
        dotted_path(tree) == path_in(tree),
    decreases tree,
{
    if let Tree::Select { operand, test: false, .. } = tree {
        lemma_path(*operand);
    }
}

/// What a side of a comparison is found to be.
proof fn lemma_operand<M: Mapping>(tree: Tree, mapping: &M)
    ensures
        match operand(tree, mapping) {
            Ok(OperandView::Column(column, _)) => column_named(tree, mapping) == Some(column)
                && constant_type(tree) is None && !names_null(tree),
            Ok(OperandView::Value(value)) => column_named(tree, mapping) is None && constant_type(
                tree,
            ) == Some(value.ty()) && !names_null(tree),
            Ok(OperandView::Null) => column_named(tree, mapping) is None && constant_type(
                tree,
            ) is None && names_null(tree),
            Err(_) => column_named(tree, mapping) is None && constant_type(tree) is None
                && !names_null(tree),
        },
{
    lemma_path(tree);
}

proof fn lemma_comparison<M: Mapping>(
    name: Seq<char>,
    left: Tree,
    right: Tree,
    mapping: &M,
    mark: char,
)
    requires
        is_comparison(name),
    ensures
        comparison_sql(name, left, right, mapping, mark) is Ok <==> sides_compare(
            name,
            left,
            right,
            mapping,
        ),
{
    lemma_operand(left, mapping);
    lemma_operand(right, mapping);
    lemma_comparison_names();
}

proof fn lemma_elements<M: Mapping>(
    column: ColumnView,
    path: Seq<char>,
    elements: Seq<Tree>,
    mapping: &M,
    n: nat,
)
    requires
        n <= elements.len(),
    ensures
        elements_sql(column, path, elements, mapping, n) is Ok <==> forall|i: int|
            0 <= i < n ==> takes_constant(column, #[trigger] elements[i]),
    decreases n,
{
    if n > 0 {
        lemma_elements(column, path, elements, mapping, (n - 1) as nat);
        lemma_operand(elements[n - 1], mapping);
        let before = forall|i: int|
            0 <= i < n - 1 ==> takes_constant(column, #[trigger] elements[i]);
        assert((forall|i: int| 0 <= i < n ==> takes_constant(column, #[trigger] elements[i])) == (
        before && takes_constant(column, elements[n - 1])));
    }
}

/// A filter lowers to a condition exactly where it is sound: every field that it names is
/// exposed, and every comparison is between values of one type. Nothing sound is refused, and
/// nothing else is let through.
pub proof fn law_a_filter_lowers_exactly_where_it_is_sound<M: Mapping>(
    tree: Tree,
    mapping: &M,
    mark: char,
)
    ensures
        condition_sql(tree, mapping, mark) is Ok <==> sound(tree, mapping),
    decreases tree,
{
    lemma_path(tree);
    match tree {
        Tree::Call { name, target, args } => {
            lemma_other_names(name);
            lemma_comparison_names();
            if name == "_&&_"@ || name == "_||_"@ {
                if args.len() == 2 {
                    assert(decreases_to!(tree => args[0]));
                    assert(decreases_to!(tree => args[1]));
                    law_a_filter_lowers_exactly_where_it_is_sound(args[0], mapping, mark);
                    law_a_filter_lowers_exactly_where_it_is_sound(args[1], mapping, mark);
                }
            } else if name == "!_"@ {
                if args.len() == 1 {
                    assert(decreases_to!(tree => args[0]));
                    law_a_filter_lowers_exactly_where_it_is_sound(args[0], mapping, mark);
                }
            } else if is_comparison(name) {
                assert(cel_op(name) is Some && compares(cel_op(name)->0));
                if args.len() == 2 {
                    lemma_comparison(name, args[0], args[1], mapping, mark);
                }
            } else {
                assert(!(cel_op(name) matches Some(op) && compares(op)));
                if name == "@in"@ {
                    if args.len() == 2 {
                        lemma_operand(args[0], mapping);
                        if let Tree::List { elements, .. } = args[1] {
                            if let Ok(OperandView::Column(column, path)) = operand(
                                args[0],
                                mapping,
                            ) {
                                lemma_elements(column, path, elements, mapping, elements.len());
                            }
                        }
                    }
                } else if is_string_method(name) {
                    if let Some(target) = target {
                        lemma_operand(*target, mapping);
                        if args.len() == 1 {
                            lemma_operand(args[0], mapping);
                            lemma_path(args[0]);
                        }
                    }
                }
            }
        },
        Tree::Select { operand, test: true, .. } => {
            lemma_path(*operand);
        },
        _ => {},
    }
}

} // verus!

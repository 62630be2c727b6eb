//! What conditions mean.
//!
//! A filter expression is read by the rules of CEL, a condition by the rules of SQL, each on its
//! own: an expression means a value for every row, and a text means what the SQL that it spells
//! means. Neither knows how the one is made from the other.

use vstd::prelude::*;

#[allow(unused_imports)]
use crate::expression::{LiteralView, Tree};
#[allow(unused_imports)]
use crate::pattern::like;
#[allow(unused_imports)]
use crate::text::decimal;

verus! {

// ---------------------------------------------------------------------------
// Values
// ---------------------------------------------------------------------------

/// A value of a row. A condition is a flag too, or null where it is unknown. An instant counts
/// nanoseconds since the epoch.
pub enum Cell {
    Null,
    Flag(bool),
    Number(int),
    Float(u64),
    Text(Seq<char>),
    Bytes(Seq<u8>),
    Instant(int),
    Id(Seq<u8>),
}

/// An operator between two values.
pub enum Op {
    And,
    Or,
    Eq,
    NotEq,
    Lt,
    LtEq,
    Gt,
    GtEq,
    Add,
    Sub,
    Mul,
    Div,
    Rem,
}

/// What depends on the database: how values are ordered, how they are reckoned with, and what
/// the texts of an instant and an identifier stand for.
pub struct World {
    /// Negative where the first value lies below the second, positive where it lies above.
    pub sign: spec_fn(Cell, Cell) -> int,
    pub reckon: spec_fn(Op, Cell, Cell) -> Cell,
    pub minus: spec_fn(Cell) -> Cell,
    pub instant: spec_fn(Seq<char>) -> Cell,
    pub id: spec_fn(Seq<char>) -> Cell,
}

/// Of two values, one lies below the other as the other lies above the one.
pub open spec fn ordered(w: World) -> bool {
    forall|a: Cell, b: Cell| #[trigger] (w.sign)(a, b) == -(w.sign)(b, a)
}

/// Both hold. What is false decides, and what is unknown leaves it open.
pub open spec fn both(a: Cell, b: Cell) -> Cell {
    if a == Cell::Flag(false) || b == Cell::Flag(false) {
        Cell::Flag(false)
    } else if a == Cell::Flag(true) && b == Cell::Flag(true) {
        Cell::Flag(true)
    } else {
        Cell::Null
    }
}

/// One of the two holds. What is true decides, and what is unknown leaves it open.
pub open spec fn either(a: Cell, b: Cell) -> Cell {
    if a == Cell::Flag(true) || b == Cell::Flag(true) {
        Cell::Flag(true)
    } else if a == Cell::Flag(false) && b == Cell::Flag(false) {
        Cell::Flag(false)
    } else {
        Cell::Null
    }
}

/// The opposite.
pub open spec fn opposite(a: Cell) -> Cell {
    match a {
        Cell::Flag(b) => Cell::Flag(!b),
        _ => Cell::Null,
    }
}

/// A comparison. With a value that is missing it is unknown.
pub open spec fn compared(w: World, op: Op, a: Cell, b: Cell) -> Cell {
    if a is Null || b is Null {
        Cell::Null
    } else {
        let sign = (w.sign)(a, b);
        Cell::Flag(
            match op {
                Op::Eq => sign == 0,
                Op::NotEq => sign != 0,
                Op::Lt => sign < 0,
                Op::LtEq => sign <= 0,
                Op::Gt => sign > 0,
                _ => sign >= 0,
            },
        )
    }
}

/// An operator that compares.
pub open spec fn compares(op: Op) -> bool {
    op is Eq || op is NotEq || op is Lt || op is LtEq || op is Gt || op is GtEq
}

/// What an operator makes of two values.
pub open spec fn applied(w: World, op: Op, a: Cell, b: Cell) -> Cell {
    if op is And {
        both(a, b)
    } else if op is Or {
        either(a, b)
    } else if compares(op) {
        compared(w, op, a, b)
    } else {
        (w.reckon)(op, a, b)
    }
}

// ---------------------------------------------------------------------------
// What a filter expression means
// ---------------------------------------------------------------------------

/// The value of a constant.
pub open spec fn constant(literal: LiteralView) -> Cell {
    match literal {
        LiteralView::Null => Cell::Null,
        LiteralView::Bool(b) => Cell::Flag(b),
        LiteralView::Int(n) => Cell::Number(n as int),
        LiteralView::UInt(n) => Cell::Number(n as int),
        LiteralView::Double(bits) => Cell::Float(bits),
        LiteralView::Text(text) => Cell::Text(text),
        LiteralView::Bytes(bytes) => Cell::Bytes(bytes),
    }
}

/// The path of a field.
pub open spec fn path_in(tree: Tree) -> Option<Seq<char>>
    decreases tree,
{
    match tree {
        Tree::Ident(name) => Some(name),
        Tree::Select { operand, field, test: false, .. } => match path_in(*operand) {
            Some(path) => Some(path + "."@ + field),
            None => None,
        },
        _ => None,
    }
}

/// The operator that a call of two operands names.
pub open spec fn cel_op(name: Seq<char>) -> Option<Op> {
    if name == "_&&_"@ {
        Some(Op::And)
    } else if name == "_||_"@ {
        Some(Op::Or)
    } else if name == "_==_"@ {
        Some(Op::Eq)
    } else if name == "_!=_"@ {
        Some(Op::NotEq)
    } else if name == "_<_"@ {
        Some(Op::Lt)
    } else if name == "_<=_"@ {
        Some(Op::LtEq)
    } else if name == "_>_"@ {
        Some(Op::Gt)
    } else if name == "_>=_"@ {
        Some(Op::GtEq)
    } else if name == "_+_"@ {
        Some(Op::Add)
    } else if name == "_-_"@ {
        Some(Op::Sub)
    } else if name == "_*_"@ {
        Some(Op::Mul)
    } else if name == "_/_"@ {
        Some(Op::Div)
    } else if name == "_%_"@ {
        Some(Op::Rem)
    } else {
        None
    }
}

/// A text holds another somewhere.
pub open spec fn holds(text: Seq<char>, needle: Seq<char>) -> bool {
    exists|k: int| 0 <= k <= text.len() && needle.is_prefix_of(#[trigger] text.skip(k))
}

/// What a string method says of a text.
pub open spec fn text_test(name: Seq<char>, text: Cell, needle: Cell) -> Cell {
    match (text, needle) {
        (Cell::Text(text), Cell::Text(needle)) => if name == "startsWith"@ {
            Cell::Flag(needle.is_prefix_of(text))
        } else if name == "endsWith"@ {
            Cell::Flag(needle.is_suffix_of(text))
        } else if name == "contains"@ {
            Cell::Flag(holds(text, needle))
        } else {
            Cell::Null
        },
        _ => Cell::Null,
    }
}

/// A string method of CEL.
pub open spec fn tests_text(name: Seq<char>) -> bool {
    name == "startsWith"@ || name == "endsWith"@ || name == "contains"@
}

/// The literal null.
pub open spec fn null_constant(tree: Tree) -> bool {
    tree == Tree::Literal(LiteralView::Null)
}

/// The value of an expression in a row whose fields hold what `field` says. An equality with
/// the literal null on one side asks whether the other side is missing.
pub open spec fn meant(tree: Tree, w: World, field: spec_fn(Seq<char>) -> Cell) -> Cell
    decreases tree, 0int,
{
    match path_in(tree) {
        Some(path) => field(path),
        None => match tree {
            Tree::Literal(literal) => constant(literal),
            Tree::Select { operand, field: last, .. } => match path_in(*operand) {
                Some(path) => Cell::Flag(!(field(path + "."@ + last) is Null)),
                None => Cell::Null,
            },
            Tree::Call { name, target, args } => if cel_op(name) is Some {
                let op = cel_op(name)->0;
                if args.len() != 2 {
                    Cell::Null
                } else if (op is Eq || op is NotEq) && null_constant(args[0]) != null_constant(
                    args[1],
                ) {
                    let other = if null_constant(args[0]) {
                        meant(args[1], w, field)
                    } else {
                        meant(args[0], w, field)
                    };
                    Cell::Flag(other is Null == op is Eq)
                } else {
                    applied(w, op, meant(args[0], w, field), meant(args[1], w, field))
                }
            } else if name == "!_"@ {
                if args.len() == 1 {
                    opposite(meant(args[0], w, field))
                } else {
                    Cell::Null
                }
            } else if name == "-_"@ {
                if args.len() == 1 {
                    (w.minus)(meant(args[0], w, field))
                } else {
                    Cell::Null
                }
            } else if name == "@in"@ {
                if args.len() == 2 {
                    match args[1] {
                        Tree::List { elements, .. } => {
                            proof {
                                assert(decreases_to!(tree => args[1]));
                                assert(decreases_to!(args[1] => elements));
                            }
                            member(meant(args[0], w, field), elements, elements.len(), w, field)
                        },
                        _ => Cell::Null,
                    }
                } else {
                    Cell::Null
                }
            } else {
                match (target, args.len() == 1) {
                    (Some(target), true) => text_test(
                        name,
                        meant(*target, w, field),
                        meant(args[0], w, field),
                    ),
                    (None, true) => match args[0] {
                        Tree::Literal(LiteralView::Text(text)) => if name == "timestamp"@ {
                            (w.instant)(text)
                        } else if name == "uuid"@ {
                            (w.id)(text)
                        } else {
                            Cell::Null
                        },
                        _ => Cell::Null,
                    },
                    _ => Cell::Null,
                }
            },
            _ => Cell::Null,
        },
    }
}

/// A value is one of the first `n` elements.
pub open spec fn member(
    x: Cell,
    elements: Seq<Tree>,
    n: nat,
    w: World,
    field: spec_fn(Seq<char>) -> Cell,
) -> Cell
    decreases elements, n,
{
    if n == 0 || n > elements.len() {
        Cell::Flag(false)
    } else {
        either(
            member(x, elements, (n - 1) as nat, w, field),
            compared(w, Op::Eq, x, meant(elements[n - 1], w, field)),
        )
    }
}

// ---------------------------------------------------------------------------
// What SQL means, and how it is spelled
// ---------------------------------------------------------------------------

/// An expression of SQL. A parameter is told by whatever the text tells it by.
pub enum Sql<P> {
    Name(Seq<char>),
    Param(P),
    Flag(bool),
    Binary(Op, Box<Sql<P>>, Box<Sql<P>>),
    Not(Box<Sql<P>>),
    Minus(Box<Sql<P>>),
    Paren(Box<Sql<P>>),
    IsNull(Box<Sql<P>>),
    IsNotNull(Box<Sql<P>>),
    In(Box<Sql<P>>, Seq<Sql<P>>),
    Like(Box<Sql<P>>, Box<Sql<P>>),
}

/// What a row and the bound values hold.
#[verifier::reject_recursive_types(P)]
pub struct Row<P> {
    pub column: spec_fn(Seq<char>) -> Cell,
    pub bound: spec_fn(P) -> Cell,
}

/// What `LIKE` says of a text, with `!` as the escape.
pub open spec fn liked(text: Cell, pattern: Cell) -> Cell {
    match (text, pattern) {
        (Cell::Text(text), Cell::Text(pattern)) => Cell::Flag(like(pattern, text)),
        _ => Cell::Null,
    }
}

/// The value of an expression in a row.
pub open spec fn sql<P>(e: Sql<P>, w: World, row: Row<P>) -> Cell
    decreases e, 0int,
{
    match e {
        Sql::Name(name) => (row.column)(name),
        Sql::Param(p) => (row.bound)(p),
        Sql::Flag(b) => Cell::Flag(b),
        Sql::Binary(op, left, right) => applied(w, op, sql(*left, w, row), sql(*right, w, row)),
        Sql::Not(inner) => opposite(sql(*inner, w, row)),
        Sql::Minus(inner) => (w.minus)(sql(*inner, w, row)),
        Sql::Paren(inner) => sql(*inner, w, row),
        Sql::IsNull(inner) => Cell::Flag(sql(*inner, w, row) is Null),
        Sql::IsNotNull(inner) => Cell::Flag(!(sql(*inner, w, row) is Null)),
        Sql::In(needle, list) => among(sql(*needle, w, row), list, list.len(), w, row),
        Sql::Like(text, pattern) => liked(sql(*text, w, row), sql(*pattern, w, row)),
    }
}

/// A value is one of the first `n` of a list.
pub open spec fn among<P>(x: Cell, list: Seq<Sql<P>>, n: nat, w: World, row: Row<P>) -> Cell
    decreases list, n,
{
    if n == 0 || n > list.len() {
        Cell::Flag(false)
    } else {
        either(
            among(x, list, (n - 1) as nat, w, row),
            compared(w, Op::Eq, x, sql(list[n - 1], w, row)),
        )
    }
}

/// The word of an operator.
pub open spec fn word(op: Op) -> Seq<char> {
    match op {
        Op::And => " AND "@,
        Op::Or => " OR "@,
        Op::Eq => " = "@,
        Op::NotEq => " <> "@,
        Op::Lt => " < "@,
        Op::LtEq => " <= "@,
        Op::Gt => " > "@,
        Op::GtEq => " >= "@,
        Op::Add => " + "@,
        Op::Sub => " - "@,
        Op::Mul => " * "@,
        Op::Div => " / "@,
        Op::Rem => " % "@,
    }
}

/// How tightly an operator binds.
pub open spec fn strength(op: Op) -> int {
    match op {
        Op::Or => 1,
        Op::And => 2,
        Op::Add => 5,
        Op::Sub => 5,
        Op::Mul => 6,
        Op::Div => 6,
        Op::Rem => 6,
        _ => 4,
    }
}

/// How tightly an expression holds together.
pub open spec fn tightness<P>(e: Sql<P>) -> int {
    match e {
        Sql::Binary(op, _, _) => strength(op),
        Sql::Not(_) => 3,
        Sql::Minus(_) => 7,
        Sql::IsNull(_) => 4,
        Sql::IsNotNull(_) => 4,
        Sql::In(_, _) => 4,
        Sql::Like(_, _) => 4,
        _ => 8,
    }
}

/// The text of an expression is read as this expression: nothing in it binds less tightly than
/// what stands around it.
pub open spec fn grouped<P>(e: Sql<P>) -> bool
    decreases e,
{
    match e {
        Sql::Binary(op, left, right) => {
            &&& grouped(*left) && grouped(*right)
            &&& tightness(*left) >= strength(op) && (compares(op) ==> tightness(*left) > 4)
            &&& tightness(*right) > strength(op) || (tightness(*right) == strength(op) && (op is And
                || op is Or))
        },
        Sql::Not(inner) => grouped(*inner) && tightness(*inner) >= 3,
        Sql::Minus(inner) => grouped(*inner) && tightness(*inner) > 7,
        Sql::Paren(inner) => grouped(*inner),
        Sql::IsNull(inner) => grouped(*inner) && tightness(*inner) > 4,
        Sql::IsNotNull(inner) => grouped(*inner) && tightness(*inner) > 4,
        Sql::In(needle, list) => {
            &&& grouped(*needle) && tightness(*needle) > 4
            &&& forall|i: int| 0 <= i < list.len() ==> grouped(#[trigger] list[i])
        },
        Sql::Like(text, pattern) => {
            &&& grouped(*text) && tightness(*text) > 4
            &&& grouped(*pattern) && tightness(*pattern) > 4
        },
        _ => true,
    }
}

/// How a text is written down: a column, a parameter, and everything else.
#[verifier::reject_recursive_types(P)]
#[verifier::reject_recursive_types(T)]
pub struct Hand<P, T> {
    pub name: spec_fn(Seq<char>) -> Seq<T>,
    pub param: spec_fn(P) -> Seq<T>,
    pub text: spec_fn(Seq<char>) -> Seq<T>,
}

/// An expression as text.
pub open spec fn spelled<P, T>(e: Sql<P>, h: Hand<P, T>) -> Seq<T>
    decreases e, 0int,
{
    match e {
        Sql::Name(name) => (h.name)(name),
        Sql::Param(p) => (h.param)(p),
        Sql::Flag(b) => (h.text)(
            if b {
                "TRUE"@
            } else {
                "FALSE"@
            },
        ),
        Sql::Binary(op, left, right) => spelled(*left, h) + (h.text)(word(op)) + spelled(
            *right,
            h,
        ),
        Sql::Not(inner) => (h.text)("NOT "@) + spelled(*inner, h),
        Sql::Minus(inner) => (h.text)("-"@) + spelled(*inner, h),
        Sql::Paren(inner) => (h.text)("("@) + spelled(*inner, h) + (h.text)(")"@),
        Sql::IsNull(inner) => spelled(*inner, h) + (h.text)(" IS NULL"@),
        Sql::IsNotNull(inner) => spelled(*inner, h) + (h.text)(" IS NOT NULL"@),
        Sql::In(needle, list) => spelled(*needle, h) + (h.text)(" IN ("@) + listed(
            list,
            list.len(),
            h,
        ) + (h.text)(")"@),
        Sql::Like(text, pattern) => spelled(*text, h) + (h.text)(" LIKE "@) + spelled(*pattern, h)
            + (h.text)(" ESCAPE '!'"@),
    }
}

/// The first `n` of a list as text.
pub open spec fn listed<P, T>(list: Seq<Sql<P>>, n: nat, h: Hand<P, T>) -> Seq<T>
    decreases list, n,
{
    if n == 0 || n > list.len() {
        Seq::empty()
    } else if n == 1 {
        spelled(list[0], h)
    } else {
        listed(list, (n - 1) as nat, h) + (h.text)(", "@) + spelled(list[n - 1], h)
    }
}

/// How text with numbered parameters is written: a column as it is, a parameter as `$1`, `$2`
/// and so on.
pub open spec fn numbered_hand() -> Hand<nat, char> {
    Hand {
        name: |name: Seq<char>| name,
        param: |n: nat| "$"@ + decimal(n),
        text: |text: Seq<char>| text,
    }
}

// ---------------------------------------------------------------------------
// How the two readings meet
// ---------------------------------------------------------------------------

/// No two operators have one name, and none is named like a negation, a membership or a method.
pub proof fn lemma_other_names(name: Seq<char>)
    ensures
        cel_op("!_"@) is None,
        cel_op("-_"@) is None,
        cel_op("@in"@) is None,
        cel_op("timestamp"@) is None,
        cel_op("uuid"@) is None,
        cel_op("startsWith"@) is None,
        cel_op("endsWith"@) is None,
        cel_op("contains"@) is None,
        "!_"@ != "-_"@,
        "@in"@ != "!_"@,
        "@in"@ != "-_"@,
        "startsWith"@ != "endsWith"@,
        "startsWith"@ != "contains"@,
        "endsWith"@ != "contains"@,
        "timestamp"@ != "uuid"@,
        name == "startsWith"@ || name == "endsWith"@ || name == "contains"@ || name
            == "timestamp"@ || name == "uuid"@ ==> name != "!_"@ && name != "-_"@ && name
            != "@in"@,
        name == "startsWith"@ || name == "endsWith"@ || name == "contains"@ ==> name
            != "timestamp"@ && name != "uuid"@,
{
    reveal_strlit("_&&_");
    reveal_strlit("_||_");
    reveal_strlit("_==_");
    reveal_strlit("_!=_");
    reveal_strlit("_<_");
    reveal_strlit("_<=_");
    reveal_strlit("_>_");
    reveal_strlit("_>=_");
    reveal_strlit("_+_");
    reveal_strlit("_-_");
    reveal_strlit("_*_");
    reveal_strlit("_/_");
    reveal_strlit("_%_");
    reveal_strlit("!_");
    reveal_strlit("-_");
    reveal_strlit("@in");
    reveal_strlit("timestamp");
    reveal_strlit("uuid");
    reveal_strlit("startsWith");
    reveal_strlit("endsWith");
    reveal_strlit("contains");
    assert("!_"@.len() == 2 && "-_"@.len() == 2 && "@in"@.len() == 3 && "timestamp"@.len() == 9
        && "uuid"@.len() == 4 && "startsWith"@.len() == 10 && "endsWith"@.len() == 8
        && "contains"@.len() == 8);
    assert("!_"@[0] != "-_"@[0]);
    assert("@in"@[0] == '@');
    assert("uuid"@[0] == 'u');
    assert("endsWith"@[0] != "contains"@[0]);
}

/// The six comparisons have six names, and none joins conditions.
pub proof fn lemma_comparison_names()
    ensures
        cel_op("_&&_"@) == Some(Op::And),
        cel_op("_||_"@) == Some(Op::Or),
        cel_op("_==_"@) == Some(Op::Eq),
        cel_op("_!=_"@) == Some(Op::NotEq),
        cel_op("_<_"@) == Some(Op::Lt),
        cel_op("_<=_"@) == Some(Op::LtEq),
        cel_op("_>_"@) == Some(Op::Gt),
        cel_op("_>=_"@) == Some(Op::GtEq),
{
    reveal_strlit("_&&_");
    reveal_strlit("_||_");
    reveal_strlit("_==_");
    reveal_strlit("_!=_");
    reveal_strlit("_<_");
    reveal_strlit("_<=_");
    reveal_strlit("_>_");
    reveal_strlit("_>=_");
    assert("_&&_"@[1] == '&' && "_||_"@[1] == '|' && "_==_"@[1] == '=' && "_!=_"@[1] == '!');
    assert("_<_"@[1] == '<' && "_<=_"@[1] == '<' && "_>_"@[1] == '>' && "_>=_"@[1] == '>');
    assert("_<_"@.len() == 3 && "_<=_"@.len() == 4 && "_>_"@.len() == 3 && "_>=_"@.len() == 4);
}

/// Turning a comparison round and swapping its sides says the same.
pub proof fn lemma_turned(w: World, a: Cell, b: Cell)
    requires
        ordered(w),
    ensures
        compared(w, Op::Lt, a, b) == compared(w, Op::Gt, b, a),
        compared(w, Op::LtEq, a, b) == compared(w, Op::GtEq, b, a),
        compared(w, Op::Gt, a, b) == compared(w, Op::Lt, b, a),
        compared(w, Op::GtEq, a, b) == compared(w, Op::LtEq, b, a),
        compared(w, Op::Eq, a, b) == compared(w, Op::Eq, b, a),
        compared(w, Op::NotEq, a, b) == compared(w, Op::NotEq, b, a),
{
    assert((w.sign)(a, b) == -(w.sign)(b, a));
}

// ---------------------------------------------------------------------------
// Orderings
// ---------------------------------------------------------------------------

/// One term of an `ORDER BY`: what rows are ordered by, and whether the largest comes first.
pub struct SqlTerm {
    pub name: Seq<char>,
    pub descending: bool,
}

/// The first `n` terms of an `ORDER BY` as SQL spells them, with their names written by `name`.
pub open spec fn terms_spelled(
    terms: Seq<SqlTerm>,
    n: nat,
    name: spec_fn(Seq<char>) -> Seq<char>,
) -> Seq<char>
    decreases n,
{
    if n == 0 || n > terms.len() {
        Seq::empty()
    } else {
        let last = name(terms[n - 1].name) + if terms[n - 1].descending {
            " DESC"@
        } else {
            " ASC"@
        };
        if n == 1 {
            last
        } else {
            terms_spelled(terms, (n - 1) as nat, name) + ", "@ + last
        }
    }
}

} // verus!

//! A filter, the condition that it is read as, and the expression that it is written as say the
//! same of every row.

use vstd::prelude::*;

#[allow(unused_imports)]
use crate::expression::{LiteralView as ConstantView, Tree};
#[allow(unused_imports)]
use crate::instant::chrono_rfc3339;
#[allow(unused_imports)]
use crate::meaning::{
    applied, both, cel_op, compared, compares, either, lemma_comparison_names, lemma_other_names,
    liked, meant, member, null_constant, opposite, path_in, tests_text, Cell, Op, World,
};
#[allow(unused_imports)]
use crate::pattern::{
    law_contains_matches_inside, law_ends_with_matches_suffixes, law_starts_with_matches_prefixes,
};
#[allow(unused_imports)]
use crate::text::{decimal, lemma_decimal_reads_back, number, pieces};
#[allow(unused_imports)]
use crate::writer::filter::{
    items_from, literal_of, lowered, lowered_all, lowered_in, operator_of, parenthesized, renamed,
    renamed_all, takes, values_in, values_in_all, wrapped, written, written_all, ComparedView,
    ConditionView, LiteralView,
};
#[allow(unused_imports)]
use crate::writer::query::{assembled, conjoined, first_mentions, identity, orders_by, WriterView};
#[allow(unused_imports)]
use crate::writer::sort::column_tree;
#[allow(unused_imports)]
use crate::writer::tree::{own_terms, LimitTree, Operator, QueryTree, Run, SqlTree, TermTree};

verus! {

// ---------------------------------------------------------------------------
// What each of them means
// ---------------------------------------------------------------------------

/// What a value is.
pub open spec fn literal_cell(value: LiteralView) -> Cell {
    match value {
        LiteralView::Bool(b) => Cell::Flag(b),
        LiteralView::Int(n) => Cell::Number(n as int),
        LiteralView::Float(bits) => Cell::Float(bits),
        LiteralView::Text(text) => Cell::Text(text),
        LiteralView::Timestamp { seconds, nanos } => Cell::Instant(
            seconds * 1_000_000_000 + nanos,
        ),
    }
}

/// What an operator of the syntax tree does.
pub open spec fn meaning_of(operator: Operator) -> Op {
    match operator {
        Operator::And => Op::And,
        Operator::Or => Op::Or,
        Operator::Eq => Op::Eq,
        Operator::NotEq => Op::NotEq,
        Operator::Lt => Op::Lt,
        Operator::LtEq => Op::LtEq,
        Operator::Gt => Op::Gt,
        Operator::GtEq => Op::GtEq,
    }
}

/// A world in which the text of an instant is read as `chrono` reads an RFC 3339 date.
pub open spec fn dated(w: World) -> World {
    World {
        instant: |text: Seq<char>|
            match chrono_rfc3339(text) {
                Ok((seconds, nanos)) => Cell::Instant(seconds * 1_000_000_000 + nanos),
                Err(_) => Cell::Null,
            },
        ..w
    }
}

/// What a condition says of a row whose fields hold what `field` says.
pub open spec fn condition_holds(
    c: ConditionView,
    w: World,
    field: spec_fn(Seq<char>) -> Cell,
) -> Cell
    decreases c, 0nat,
{
    match c {
        ConditionView::Truthy(name) => field(name),
        ConditionView::Against { field: name, operator, value } => applied(
            w,
            meaning_of(operator),
            field(name),
            literal_cell(value),
        ),
        ConditionView::IsNull { field: name, negated } => Cell::Flag(
            (field(name) is Null) != negated,
        ),
        ConditionView::In { field: name, values } => one_of(field(name), values, values.len(), w),
        ConditionView::Like { field: name, pattern } => liked(field(name), Cell::Text(pattern)),
        ConditionView::Not(inner) => opposite(condition_holds(*inner, w, field)),
        ConditionView::All(parts) => joined_hold(parts, Op::And, parts.len(), w, field),
        ConditionView::Any(parts) => joined_hold(parts, Op::Or, parts.len(), w, field),
    }
}

/// The first `n` conditions hold together, as an operator joins them. None at all always hold.
pub open spec fn joined_hold(
    parts: Seq<ConditionView>,
    op: Op,
    n: nat,
    w: World,
    field: spec_fn(Seq<char>) -> Cell,
) -> Cell
    decreases parts, n,
{
    if n == 0 || n > parts.len() {
        Cell::Flag(true)
    } else if n == 1 {
        condition_holds(parts[0], w, field)
    } else {
        applied(
            w,
            op,
            joined_hold(parts, op, (n - 1) as nat, w, field),
            condition_holds(parts[n - 1], w, field),
        )
    }
}

/// A value is one of the first `n`.
pub open spec fn one_of(x: Cell, values: Seq<LiteralView>, n: nat, w: World) -> Cell
    decreases n,
{
    if n == 0 || n > values.len() {
        Cell::Flag(false)
    } else {
        either(
            one_of(x, values, (n - 1) as nat, w),
            compared(w, Op::Eq, x, literal_cell(values[n - 1])),
        )
    }
}

/// What a row, the bound values and expressions that are not looked into hold.
pub struct Ground {
    pub column: spec_fn(Seq<Seq<char>>) -> Cell,
    pub bound: spec_fn(Seq<char>) -> Cell,
    pub other: spec_fn(int) -> Cell,
}

/// The value of an expression of a syntax tree.
pub open spec fn evaluated(tree: SqlTree, w: World, ground: Ground) -> Cell
    decreases tree, 0nat,
{
    match tree {
        SqlTree::Column(parts) => (ground.column)(parts),
        SqlTree::Placeholder(text) => (ground.bound)(text),
        SqlTree::Truth => Cell::Flag(true),
        SqlTree::Binary(operator, left, right) => applied(
            w,
            meaning_of(operator),
            evaluated(*left, w, ground),
            evaluated(*right, w, ground),
        ),
        SqlTree::Negated(inner) => opposite(evaluated(*inner, w, ground)),
        SqlTree::Nested(inner) => evaluated(*inner, w, ground),
        SqlTree::IsNull(inner) => Cell::Flag(evaluated(*inner, w, ground) is Null),
        SqlTree::IsNotNull(inner) => Cell::Flag(!(evaluated(*inner, w, ground) is Null)),
        SqlTree::InList(needle, list) => in_list(
            evaluated(*needle, w, ground),
            list,
            list.len(),
            w,
            ground,
        ),
        SqlTree::Like(text, pattern, escape) => if escape == '!' {
            liked(evaluated(*text, w, ground), evaluated(*pattern, w, ground))
        } else {
            Cell::Null
        },
        SqlTree::Other(id) => (ground.other)(id),
    }
}

/// A value is one of the first `n` of a list.
pub open spec fn in_list(x: Cell, list: Seq<SqlTree>, n: nat, w: World, ground: Ground) -> Cell
    decreases list, n,
{
    if n == 0 || n > list.len() {
        Cell::Flag(false)
    } else {
        either(
            in_list(x, list, (n - 1) as nat, w, ground),
            compared(w, Op::Eq, x, evaluated(list[n - 1], w, ground)),
        )
    }
}

/// A row with values bound to `$1`, `$2` and so on.
pub open spec fn ground(
    column: spec_fn(Seq<Seq<char>>) -> Cell,
    other: spec_fn(int) -> Cell,
    values: Seq<LiteralView>,
) -> Ground {
    Ground {
        column,
        bound: |text: Seq<char>| literal_cell(values[number(text.skip(1)) - 1]),
        other,
    }
}

/// What the columns hold, by their names: a dot stands between the parts of a name.
pub open spec fn by_name(column: spec_fn(Seq<Seq<char>>) -> Cell) -> spec_fn(Seq<char>) -> Cell {
    |name: Seq<char>| column(pieces(name, '.'))
}

/// What the fields hold, where each stands for a column.
pub open spec fn through(
    columns: Map<Seq<char>, Seq<char>>,
    field: spec_fn(Seq<char>) -> Cell,
) -> spec_fn(Seq<char>) -> Cell {
    |name: Seq<char>| field(columns[name])
}

// ---------------------------------------------------------------------------
// Writing
// ---------------------------------------------------------------------------

proof fn lemma_takes(
    n: nat,
    values: Seq<LiteralView>,
    w: World,
    column: spec_fn(Seq<Seq<char>>) -> Cell,
    other: spec_fn(int) -> Cell,
)
    ensures
        evaluated(takes(n), w, ground(column, other, values)) == literal_cell(values[n - 1]),
{
    reveal_strlit("$");
    lemma_decimal_reads_back(n);
    let text = "$"@ + decimal(n);
    assert(text.skip(1) =~= decimal(n));
}

proof fn lemma_comparing(operator: Operator, a: SqlTree, b: SqlTree, w: World, g: Ground)
    ensures
        evaluated(SqlTree::Binary(operator, Box::new(a), Box::new(b)), w, g) == applied(
            w,
            meaning_of(operator),
            evaluated(a, w, g),
            evaluated(b, w, g),
        ),
{
}

/// `all` holds the values `own` behind the first `n`.
pub open spec fn holds_at(all: Seq<LiteralView>, n: nat, own: Seq<LiteralView>) -> bool {
    &&& n + own.len() <= all.len()
    &&& forall|i: int| 0 <= i < own.len() ==> all[n + i] == #[trigger] own[i]
}

proof fn lemma_list(
    own: Seq<LiteralView>,
    k: nat,
    n: nat,
    all: Seq<LiteralView>,
    x: Cell,
    w: World,
    column: spec_fn(Seq<Seq<char>>) -> Cell,
    other: spec_fn(int) -> Cell,
)
    requires
        k <= own.len(),
        holds_at(all, n, own),
    ensures
        in_list(
            x,
            Seq::new(own.len(), |i: int| takes((n + 1 + i) as nat)),
            k,
            w,
            ground(column, other, all),
        ) == one_of(x, own, k, w),
    decreases k,
{
    if k > 0 {
        let list = Seq::new(own.len(), |i: int| takes((n + 1 + i) as nat));
        lemma_list(own, (k - 1) as nat, n, all, x, w, column, other);
        lemma_takes((n + k) as nat, all, w, column, other);
        assert(list[k - 1] == takes((n + k) as nat));
        assert(all[n + (k - 1)] == own[k - 1]);
    }
}

proof fn lemma_written(
    c: ConditionView,
    n: nat,
    all: Seq<LiteralView>,
    w: World,
    column: spec_fn(Seq<Seq<char>>) -> Cell,
    other: spec_fn(int) -> Cell,
)
    requires
        holds_at(all, n, values_in(c)),
    ensures
        evaluated(written(c, n), w, ground(column, other, all)) == condition_holds(
            c,
            w,
            by_name(column),
        ),
    decreases c, 0nat,
{
    let g = ground(column, other, all);
    let tree = written(c, n);
    match c {
        ConditionView::Truthy(_) => {},
        ConditionView::Against { field, operator, value } => {
            lemma_takes(n + 1, all, w, column, other);
            assert(all[n as int] == values_in(c)[0]);
            assert(evaluated(column_tree(field), w, g) == by_name(column)(field));
            assert(evaluated(takes(n + 1), w, g) == literal_cell(value));
            lemma_comparing(operator, column_tree(field), takes(n + 1), w, g);
        },
        ConditionView::IsNull { field, .. } => {
            assert(evaluated(column_tree(field), w, g) == by_name(column)(field));
        },
        ConditionView::Like { field, pattern } => {
            lemma_takes(n + 1, all, w, column, other);
            assert(all[n as int] == values_in(c)[0]);
            assert(evaluated(column_tree(field), w, g) == by_name(column)(field));
            assert(evaluated(takes(n + 1), w, g) == Cell::Text(pattern));
        },
        ConditionView::In { field, values } => {
            assert(evaluated(column_tree(field), w, g) == by_name(column)(field));
            lemma_list(values, values.len(), n, all, by_name(column)(field), w, column, other);
        },
        ConditionView::Not(inner) => {
            lemma_written(*inner, n, all, w, column, other);
            let within = written(*inner, n);
            let nested = SqlTree::Nested(Box::new(within));
            assert(evaluated(nested, w, g) == evaluated(within, w, g));
            assert(tree == SqlTree::Negated(Box::new(nested)) || tree == SqlTree::Negated(
                Box::new(within),
            ));
            assert(evaluated(tree, w, g) == opposite(evaluated(within, w, g)));
        },
        ConditionView::All(parts) => {
            assert(parts.take(parts.len() as int) =~= parts);
            lemma_written_all(parts, Operator::And, parts.len(), n, all, w, column, other);
        },
        ConditionView::Any(parts) => {
            assert(parts.take(parts.len() as int) =~= parts);
            lemma_written_all(parts, Operator::Or, parts.len(), n, all, w, column, other);
        },
    }
}

proof fn lemma_written_all(
    parts: Seq<ConditionView>,
    operator: Operator,
    k: nat,
    n: nat,
    all: Seq<LiteralView>,
    w: World,
    column: spec_fn(Seq<Seq<char>>) -> Cell,
    other: spec_fn(int) -> Cell,
)
    requires
        k <= parts.len(),
        holds_at(all, n, values_in_all(parts.take(k as int))),
    ensures
        evaluated(written_all(parts, operator, k, n), w, ground(column, other, all))
            == joined_hold(parts, meaning_of(operator), k, w, by_name(column)),
    decreases parts, k,
{
    if k > 0 {
        let g = ground(column, other, all);
        let now = values_in_all(parts.take(k as int));
        let before = values_in_all(parts.take(k - 1));
        let own = values_in(parts[k - 1]);
        assert(parts.take(k as int).drop_last() =~= parts.take(k - 1));
        assert(parts.take(k as int).last() == parts[k - 1]);
        assert(now == before + own);
        assert(holds_at(all, n, before)) by {
            assert forall|i: int| 0 <= i < before.len() implies all[n + i]
                == #[trigger] before[i] by {
                assert(now[i] == before[i]);
            }
        }
        assert(holds_at(all, n + before.len(), own)) by {
            assert forall|i: int| 0 <= i < own.len() implies all[n + before.len() + i]
                == #[trigger] own[i] by {
                assert(now[before.len() + i] == own[i]);
            }
        }
        lemma_written_all(parts, operator, (k - 1) as nat, n, all, w, column, other);
        lemma_written(parts[k - 1], n + before.len(), all, w, column, other);
        let last = written(parts[k - 1], n + before.len());
        assert(evaluated(wrapped(last, operator), w, g) == evaluated(last, w, g));
    }
}

/// Writing a condition keeps its meaning: the expression holds of a row, or fails, or is
/// unknown, exactly where the condition does, with its own values bound to its placeholders.
pub proof fn law_writing_keeps_the_meaning(
    c: ConditionView,
    w: World,
    column: spec_fn(Seq<Seq<char>>) -> Cell,
    other: spec_fn(int) -> Cell,
)
    ensures
        evaluated(written(c, 0), w, ground(column, other, values_in(c))) == condition_holds(
            c,
            w,
            by_name(column),
        ),
{
    lemma_written(c, 0, values_in(c), w, column, other);
}

// ---------------------------------------------------------------------------
// Resolving
// ---------------------------------------------------------------------------

/// Resolving a condition keeps its meaning, with each field read from the column that it stands
/// for.
pub proof fn law_resolving_keeps_the_meaning(
    c: ConditionView,
    columns: Map<Seq<char>, Seq<char>>,
    w: World,
    field: spec_fn(Seq<char>) -> Cell,
)
    ensures
        renamed(c, columns) matches Ok(done) ==> condition_holds(done, w, field)
            == condition_holds(c, w, through(columns, field)),
    decreases c, 0nat,
{
    if renamed(c, columns) is Ok {
        match c {
            ConditionView::Not(inner) => {
                law_resolving_keeps_the_meaning(*inner, columns, w, field);
            },
            ConditionView::All(parts) => {
                lemma_renamed_all(parts, columns, Op::And, parts.len(), w, field);
            },
            ConditionView::Any(parts) => {
                lemma_renamed_all(parts, columns, Op::Or, parts.len(), w, field);
            },
            _ => {},
        }
    }
}

proof fn lemma_renamed_all(
    parts: Seq<ConditionView>,
    columns: Map<Seq<char>, Seq<char>>,
    op: Op,
    n: nat,
    w: World,
    field: spec_fn(Seq<char>) -> Cell,
)
    requires
        n <= parts.len(),
        renamed_all(parts, columns, n) is Ok,
    ensures
        renamed_all(parts, columns, n)->Ok_0.len() == n,
        joined_hold(renamed_all(parts, columns, n)->Ok_0, op, n, w, field) == joined_hold(
            parts,
            op,
            n,
            w,
            through(columns, field),
        ),
    decreases parts, n,
{
    if n > 0 {
        lemma_renamed_all(parts, columns, op, (n - 1) as nat, w, field);
        law_resolving_keeps_the_meaning(parts[n - 1], columns, w, field);
        let less = renamed_all(parts, columns, (n - 1) as nat)->Ok_0;
        let last = renamed(parts[n - 1], columns)->Ok_0;
        lemma_joined_front(less, last, op, (n - 1) as nat, w, field);
        assert(less.push(last)[n - 1] == last);
        assert(renamed_all(parts, columns, n)->Ok_0 == less.push(last));
    }
}

proof fn lemma_joined_front(
    parts: Seq<ConditionView>,
    last: ConditionView,
    op: Op,
    n: nat,
    w: World,
    field: spec_fn(Seq<char>) -> Cell,
)
    requires
        n <= parts.len(),
    ensures
        joined_hold(parts.push(last), op, n, w, field) == joined_hold(parts, op, n, w, field),
    decreases n,
{
    if n > 0 {
        lemma_joined_front(parts, last, op, (n - 1) as nat, w, field);
        assert(parts.push(last)[n - 1] == parts[n - 1]);
        assert(parts.push(last)[0] == parts[0]);
    }
}

// ---------------------------------------------------------------------------
// Reading
// ---------------------------------------------------------------------------

/// An expression that the CEL grammar can spell: a junction joins two, a negation negates one,
/// and a method takes one argument; and that compares with the field on the left, unless it asks
/// for equality.
pub open spec fn spelled_out(tree: Tree) -> bool
    decreases tree,
{
    match tree {
        Tree::Call { name, target, args } => match target {
            Some(_) => args.len() == 1,
            None => if name == "_&&_"@ || name == "_||_"@ {
                args.len() == 2 && spelled_out(args[0]) && spelled_out(args[1])
            } else if name == "!_"@ {
                args.len() == 1 && spelled_out(args[0])
            } else {
                name == "_==_"@ || name == "_!=_"@ || (args.len() > 0 && args[0] is Ident)
            },
        },
        _ => true,
    }
}

proof fn lemma_literal(node: Tree, w: World, field: spec_fn(Seq<char>) -> Cell)
    requires
        literal_of(node) matches Ok(Some(_)),
    ensures
        match literal_of(node)->Ok_0->0 {
            ComparedView::Null => null_constant(node),
            ComparedView::Value(value) => !null_constant(node) && meant(node, dated(w), field)
                == literal_cell(value),
        },
{
    lemma_other_names("timestamp"@);
    if let Tree::Call { name, target, args } = node {
        assert(literal_of(args[0]) is Ok);
    }
}

proof fn lemma_items(
    name: Seq<char>,
    elements: Seq<Tree>,
    i: int,
    values: Seq<LiteralView>,
    x: Cell,
    w: World,
    field: spec_fn(Seq<char>) -> Cell,
)
    requires
        0 <= i <= elements.len(),
        values.len() == i,
        items_from(name, elements, i, values) is Ok,
        one_of(x, values, i as nat, dated(w)) == member(x, elements, i as nat, dated(w), field),
    ensures
        ({
            let all = items_from(name, elements, i, values)->Ok_0;
            &&& all.len() == elements.len()
            &&& one_of(x, all, all.len(), dated(w)) == member(
                x,
                elements,
                elements.len(),
                dated(w),
                field,
            )
        }),
    decreases elements.len() - i,
{
    if i < elements.len() {
        lemma_literal(elements[i], w, field);
        let value = literal_of(elements[i])->Ok_0->0->Value_0;
        let next = values.push(value);
        lemma_one_of_front(x, values, value, i as nat, dated(w));
        assert(next[i] == value);
        lemma_items(name, elements, i + 1, next, x, w, field);
    }
}

proof fn lemma_one_of_front(
    x: Cell,
    values: Seq<LiteralView>,
    last: LiteralView,
    n: nat,
    w: World,
)
    requires
        n <= values.len(),
    ensures
        one_of(x, values.push(last), n, w) == one_of(x, values, n, w),
    decreases n,
{
    if n > 0 {
        lemma_one_of_front(x, values, last, (n - 1) as nat, w);
        assert(values.push(last)[n - 1] == values[n - 1]);
    }
}

proof fn lemma_compared_alike(w: World, op: Op, a: Cell, b: Cell)
    requires
        crate::meaning::ordered(w),
        op is Eq || op is NotEq,
    ensures
        compared(w, op, a, b) == compared(w, op, b, a),
{
    crate::meaning::lemma_turned(w, a, b);
}

proof fn lemma_lowered(tree: Tree, w: World, field: spec_fn(Seq<char>) -> Cell)
    requires
        crate::meaning::ordered(w),
        spelled_out(tree),
        lowered(tree) is Ok,
    ensures
        condition_holds(lowered(tree)->Ok_0, dated(w), field) == meant(tree, dated(w), field),
    decreases tree, 0nat,
{
    let d = dated(w);
    assert(crate::meaning::ordered(d)) by {
        assert forall|a: Cell, b: Cell| #[trigger] (d.sign)(a, b) == -(d.sign)(b, a) by {
            assert((w.sign)(a, b) == -(w.sign)(b, a));
        }
    }
    if let Tree::Call { name, target, args } = tree {
        lemma_other_names(name);
        lemma_comparison_names();
        assert(path_in(tree) is None);
        match target {
            Some(target) => {
                lemma_literal(args[0], w, field);
                let held = field((*target)->Ident_0);
                let needle = literal_of(args[0])->Ok_0->0->Value_0->Text_0;
                if let Cell::Text(text) = held {
                    law_starts_with_matches_prefixes(needle, text);
                    law_ends_with_matches_suffixes(needle, text);
                    law_contains_matches_inside(needle, text);
                }
                assert(meant(*target, d, field) == held);
                assert(meant(args[0], d, field) == Cell::Text(needle));
                assert(condition_holds(lowered(tree)->Ok_0, d, field) == meant(tree, d, field));
            },
            None => {
                if name == "_&&_"@ || name == "_||_"@ {
                    assert(decreases_to!(tree => args[0]));
                    assert(decreases_to!(tree => args[1]));
                    reveal_with_fuel(lowered_all, 3);
                    lemma_lowered(args[0], w, field);
                    lemma_lowered(args[1], w, field);
                    let parts = lowered_all(args, 2)->Ok_0;
                    assert(parts[0] == lowered(args[0])->Ok_0);
                    assert(parts[1] == lowered(args[1])->Ok_0);
                    assert(parts.len() == 2);
                    let op = cel_op(name)->0;
                    assert(joined_hold(parts, op, 1, d, field) == condition_holds(
                        parts[0],
                        d,
                        field,
                    ));
                    assert(joined_hold(parts, op, 2, d, field) == applied(
                        d,
                        op,
                        joined_hold(parts, op, 1, d, field),
                        condition_holds(parts[1], d, field),
                    ));
                    assert(condition_holds(lowered(tree)->Ok_0, d, field) == joined_hold(
                        parts,
                        op,
                        2,
                        d,
                        field,
                    ));
                    assert(meant(tree, d, field) == applied(
                        d,
                        op,
                        meant(args[0], d, field),
                        meant(args[1], d, field),
                    ));
                } else if name == "!_"@ {
                    assert(decreases_to!(tree => args[0]));
                    lemma_lowered(args[0], w, field);
                    assert(condition_holds(lowered(tree)->Ok_0, d, field) == meant(tree, d, field));
                } else if name == "@in"@ {
                    let at = args[0]->Ident_0;
                    let elements = args[1]->elements;
                    let none = Seq::<LiteralView>::empty();
                    assert(lowered(tree) == lowered_in(args));
                    lemma_items(at, elements, 0, none, field(at), w, field);
                    assert(meant(args[0], d, field) == field(at));
                    assert(meant(tree, d, field) == member(
                        field(at),
                        elements,
                        elements.len(),
                        d,
                        field,
                    ));
                    let values = items_from(at, elements, 0, none)->Ok_0;
                    assert(lowered(tree)->Ok_0 == ConditionView::In { field: at, values });
                    assert(condition_holds(lowered(tree)->Ok_0, d, field) == meant(tree, d, field));
                } else {
                    let op = cel_op(name)->0;
                    assert(operator_of(name) is Some);
                    assert(meaning_of(operator_of(name)->0) == op);
                    match (args[0], args[1]) {
                        (Tree::Ident(at), _) if literal_of(args[1]) matches Ok(Some(_)) => {
                            lemma_literal(args[1], w, field);
                            assert(meant(args[0], d, field) == field(at));
                        },
                        (_, Tree::Ident(at)) => {
                            lemma_literal(args[0], w, field);
                            assert(meant(args[1], d, field) == field(at));
                            lemma_compared_alike(
                                d,
                                op,
                                meant(args[0], d, field),
                                meant(args[1], d, field),
                            );
                        },
                        _ => {},
                    }
                }
            },
        }
    }
}

/// A filter and the expression that it is written as say the same of every row: the expression
/// holds, or fails, or is unknown, exactly where the filter does, with each field read from the
/// column that it stands for, and the filter's own constants bound to the placeholders. Left out
/// is a comparison by order with the constant on the left, which keeps its operator.
pub proof fn law_an_expression_means_what_its_filter_means(
    tree: Tree,
    columns: Map<Seq<char>, Seq<char>>,
    w: World,
    column: spec_fn(Seq<Seq<char>>) -> Cell,
    other: spec_fn(int) -> Cell,
)
    requires
        crate::meaning::ordered(w),
        spelled_out(tree),
    ensures
        lowered(tree) matches Ok(asked) ==> (renamed(asked, columns) matches Ok(c) ==> evaluated(
            written(c, 0),
            dated(w),
            ground(column, other, values_in(c)),
        ) == meant(tree, dated(w), through(columns, by_name(column)))),
{
    if let Ok(asked) = lowered(tree) {
        if let Ok(c) = renamed(asked, columns) {
            law_writing_keeps_the_meaning(c, dated(w), column, other);
            law_resolving_keeps_the_meaning(asked, columns, dated(w), by_name(column));
            lemma_lowered(tree, w, through(columns, by_name(column)));
        }
    }
}

/// A constant that a filter can compare with, other than null.
pub open spec fn bindable(tree: Tree) -> bool {
    match tree {
        Tree::Literal(literal) => match literal {
            ConstantView::Null => false,
            ConstantView::Bytes(_) => false,
            ConstantView::UInt(n) => n <= i64::MAX,
            _ => true,
        },
        Tree::Call { name, target, args } => name == "timestamp"@ && target is None && args.len()
            == 1 && (args[0] matches Tree::Literal(ConstantView::Text(text)) && chrono_rfc3339(
            text,
        ) is Ok),
        _ => false,
    }
}

/// A field and a constant on the two sides, in either order; or a field and null, for being equal
/// or not.
pub open spec fn sides_compare(name: Seq<char>, left: Tree, right: Tree) -> bool {
    let with_null = name == "_==_"@ || name == "_!=_"@;
    ||| left is Ident && (bindable(right) || (null_constant(right) && with_null))
    ||| right is Ident && (bindable(left) || (null_constant(left) && with_null))
}

/// An expression that says something as a condition.
pub open spec fn sound(tree: Tree) -> bool
    decreases tree,
{
    match tree {
        Tree::Ident(_) => true,
        Tree::Call { name, target: Some(target), args } => tests_text(name) && *target is Ident
            && args.len() > 0 && args[0] matches Tree::Literal(ConstantView::Text(_)),
        Tree::Call { name, args, .. } => if name == "_&&_"@ || name == "_||_"@ {
            forall|i: int| 0 <= i < args.len() ==> sound(#[trigger] args[i])
        } else if name == "!_"@ {
            args.len() > 0 && sound(args[0])
        } else if name == "@in"@ {
            args.len() == 2 && args[0] is Ident && (args[1] matches Tree::List { elements, .. }
                && elements.len() > 0 && forall|i: int|
                0 <= i < elements.len() ==> bindable(#[trigger] elements[i]))
        } else {
            cel_op(name) matches Some(op) && compares(op) && args.len() == 2 && sides_compare(
                name,
                args[0],
                args[1],
            )
        },
        _ => false,
    }
}

proof fn lemma_bindable(tree: Tree)
    ensures
        literal_of(tree) matches Ok(Some(ComparedView::Value(_))) <==> bindable(tree),
        literal_of(tree) == Ok::<Option<ComparedView>, Seq<char>>(Some(ComparedView::Null))
            <==> null_constant(tree),
        literal_of(tree) matches Ok(Some(ComparedView::Value(LiteralView::Text(_)))) <==> tree
            matches Tree::Literal(ConstantView::Text(_)),
    decreases tree,
{
    if let Tree::Call { args, .. } = tree {
        if args.len() == 1 {
            assert(decreases_to!(tree => args[0]));
            lemma_bindable(args[0]);
        }
    }
}

proof fn lemma_bindable_items(
    name: Seq<char>,
    elements: Seq<Tree>,
    i: int,
    values: Seq<LiteralView>,
)
    requires
        0 <= i <= elements.len(),
        values.len() == i,
    ensures
        items_from(name, elements, i, values) is Ok <==> forall|j: int|
            i <= j < elements.len() ==> bindable(#[trigger] elements[j]),
        items_from(name, elements, i, values) matches Ok(all) ==> all.len() == elements.len(),
    decreases elements.len() - i,
{
    if i < elements.len() {
        lemma_bindable(elements[i]);
        if let Ok(Some(ComparedView::Value(value))) = literal_of(elements[i]) {
            lemma_bindable_items(name, elements, i + 1, values.push(value));
        }
    }
}

proof fn lemma_sound_all(nodes: Seq<Tree>, n: nat)
    requires
        n <= nodes.len(),
        forall|i: int|
            0 <= i < nodes.len() ==> (lowered(#[trigger] nodes[i]) is Ok <==> sound(nodes[i])),
    ensures
        lowered_all(nodes, n) is Ok <==> forall|i: int|
            0 <= i < n ==> sound(#[trigger] nodes[i]),
    decreases n,
{
    if n > 0 {
        lemma_sound_all(nodes, (n - 1) as nat);
        let before = forall|i: int| 0 <= i < n - 1 ==> sound(#[trigger] nodes[i]);
        assert(lowered(nodes[n - 1]) is Ok <==> sound(nodes[n - 1]));
        assert((forall|i: int| 0 <= i < n ==> sound(#[trigger] nodes[i])) == (before && sound(
            nodes[n - 1],
        )));
    }
}

/// A filter is taken exactly where it says something as a condition: nothing that does is refused,
/// and nothing else is let through. Every negation negates something, as the parser has it.
pub proof fn law_a_filter_is_taken_exactly_where_it_is_sound(tree: Tree)
    requires
        crate::expression::negations_apply(tree),
    ensures
        lowered(tree) is Ok <==> sound(tree),
    decreases tree,
{
    if let Tree::Call { name, target, args } = tree {
        lemma_other_names(name);
        lemma_comparison_names();
        match target {
            Some(target) => {
                if args.len() > 0 {
                    lemma_bindable(args[0]);
                }
            },
            None => {
                if name == "_&&_"@ || name == "_||_"@ {
                    assert forall|i: int| 0 <= i < args.len() implies (lowered(
                        #[trigger] args[i],
                    ) is Ok <==> sound(args[i])) by {
                        assert(decreases_to!(tree => args[i]));
                        law_a_filter_is_taken_exactly_where_it_is_sound(args[i]);
                    }
                    lemma_sound_all(args, args.len());
                } else if name == "!_"@ {
                    assert(decreases_to!(tree => args[0]));
                    assert(crate::expression::negations_apply(args[0]));
                    law_a_filter_is_taken_exactly_where_it_is_sound(args[0]);
                } else if name == "@in"@ {
                    if args.len() == 2 {
                        if let (Tree::Ident(at), Tree::List { elements, .. }) = (args[0], args[1]) {
                            lemma_bindable_items(at, elements, 0, Seq::empty());
                        }
                    }
                } else {
                    assert(operator_of(name) is Some <==> (cel_op(name) matches Some(op)
                        && compares(op)));
                    if args.len() == 2 {
                        lemma_bindable(args[0]);
                        lemma_bindable(args[1]);
                    }
                }
            },
        }
    }
}

// ---------------------------------------------------------------------------
// Filtering, ordering and limiting a query
// ---------------------------------------------------------------------------

/// A row is one that a query selects, as far as its `WHERE` says.
pub open spec fn selects(query: QueryTree, w: World, ground: Ground) -> bool {
    match query.select {
        Some(select) => match select.selection {
            Some(tree) => evaluated(tree, w, ground) == Cell::Flag(true),
            None => true,
        },
        None => true,
    }
}

proof fn lemma_conjoined(
    selection: Option<SqlTree>,
    filters: Seq<SqlTree>,
    n: nat,
    w: World,
    ground: Ground,
)
    requires
        n <= filters.len(),
    ensures
        ({
            let own = selection matches Some(tree) ==> evaluated(tree, w, ground) == Cell::Flag(
                true,
            );
            let all = forall|i: int|
                0 <= i < n ==> evaluated(#[trigger] filters[i], w, ground) == Cell::Flag(true);
            (conjoined(selection, filters, n) matches Some(tree) ==> evaluated(tree, w, ground)
                == Cell::Flag(true)) == (own && all)
        }),
        conjoined(selection, filters, n) is None ==> n == 0,
    decreases n,
{
    if n > 0 {
        lemma_conjoined(selection, filters, (n - 1) as nat, w, ground);
        let last = filters[n - 1];
        assert(evaluated(parenthesized(last), w, ground) == evaluated(last, w, ground));
        if let Some(existing) = conjoined(selection, filters, (n - 1) as nat) {
            assert(evaluated(parenthesized(existing), w, ground) == evaluated(
                existing,
                w,
                ground,
            ));
            let all = SqlTree::Binary(
                Operator::And,
                Box::new(parenthesized(existing)),
                Box::new(parenthesized(last)),
            );
            assert(evaluated(all, w, ground) == both(
                evaluated(existing, w, ground),
                evaluated(last, w, ground),
            ));
        }
    }
}

/// A filtered query selects a row exactly where the query selected it and every condition that
/// was added holds of it. A limit that was asked for is the limit that the query has.
pub proof fn law_a_filtered_query_selects_what_passes_every_filter(
    w: WriterView,
    world: World,
    ground: Ground,
)
    ensures
        assembled(w) matches Ok(query) ==> {
            &&& selects(query, world, ground) <==> selects(w.statement, world, ground) && forall|
                i: int,
            |
                0 <= i < w.filters.len() ==> evaluated(#[trigger] w.filters[i], world, ground)
                    == Cell::Flag(true)
            &&& w.limit matches Some(rows) ==> query.limit == LimitTree::Rows(rows)
        },
{
    if assembled(w) is Ok && w.filters.len() > 0 {
        let select = w.statement.select->0;
        lemma_conjoined(select.selection, w.filters, w.filters.len(), world, ground);
    }
}

/// The first of these terms in which two rows differ, and how: `signs` says how the rows lie to
/// one another in what a term orders by. Zero where they tie in all of them.
pub open spec fn decided(terms: Seq<TermTree>, n: nat, signs: spec_fn(SqlTree) -> int) -> (int, Run)
    decreases n,
{
    if n == 0 || n > terms.len() {
        (0, Run::Asc)
    } else {
        let before = decided(terms, (n - 1) as nat, signs);
        if before.0 != 0 {
            before
        } else {
            (signs(terms[n - 1].expr), terms[n - 1].run)
        }
    }
}

/// What orders by the same column orders two rows alike.
pub open spec fn columns_decide(signs: spec_fn(SqlTree) -> int) -> bool {
    forall|a: SqlTree, b: SqlTree|
        identity(a) == identity(b) ==> #[trigger] signs(a) == #[trigger] signs(b)
}

proof fn lemma_mentions(terms: Seq<TermTree>, n: nat, signs: spec_fn(SqlTree) -> int)
    requires
        n <= terms.len(),
        columns_decide(signs),
    ensures
        ({
            let kept = first_mentions(terms, n);
            let all = decided(terms, n, signs);
            let short = decided(kept, kept.len(), signs);
            &&& all.0 == short.0
            &&& all.0 != 0 ==> all == short
        }),
    decreases n,
{
    if n > 0 {
        lemma_mentions(terms, (n - 1) as nat, signs);
        let before = first_mentions(terms, (n - 1) as nat);
        let last = terms[n - 1];
        if orders_by(before, last.expr) {
            let k = choose|k: int|
                0 <= k < before.len() && identity((#[trigger] before[k]).expr) == identity(
                    last.expr,
                );
            assert(signs(before[k].expr) == signs(last.expr));
            lemma_ties(before, before.len(), k, signs);
        } else {
            lemma_decided_front(before, last, before.len(), signs);
            assert(before.push(last)[before.len() as int] == last);
        }
    }
}

proof fn lemma_ties(terms: Seq<TermTree>, n: nat, k: int, signs: spec_fn(SqlTree) -> int)
    requires
        0 <= k < n <= terms.len(),
    ensures
        decided(terms, n, signs).0 == 0 ==> signs(terms[k].expr) == 0,
    decreases n,
{
    if k < n - 1 {
        lemma_ties(terms, (n - 1) as nat, k, signs);
    }
}

proof fn lemma_decided_front(
    terms: Seq<TermTree>,
    last: TermTree,
    n: nat,
    signs: spec_fn(SqlTree) -> int,
)
    requires
        n <= terms.len(),
    ensures
        decided(terms.push(last), n, signs) == decided(terms, n, signs),
    decreases n,
{
    if n > 0 {
        lemma_decided_front(terms, last, (n - 1) as nat, signs);
        assert(terms.push(last)[n - 1] == terms[n - 1]);
    }
}

/// A sorted query orders two rows by what was asked for, in the order and the direction in which
/// it was asked, and where they tie in all of that, as the query ordered them before.
pub proof fn law_a_sorted_query_orders_as_asked(w: WriterView, signs: spec_fn(SqlTree) -> int)
    requires
        columns_decide(signs),
    ensures
        assembled(w) matches Ok(query) ==> {
            let asked = decided(w.order, w.order.len(), signs);
            let own = own_terms(w.statement.order);
            let before = decided(own, own.len(), signs);
            let terms = own_terms(query.order);
            let now = decided(terms, terms.len(), signs);
            &&& asked.0 != 0 ==> now == asked
            &&& asked.0 == 0 ==> now.0 == before.0 && (before.0 != 0 ==> now == before)
        },
{
    if assembled(w) is Ok {
        let own = own_terms(w.statement.order);
        if w.order.len() > 0 {
            let all = w.order + own;
            lemma_mentions(all, all.len(), signs);
            lemma_decided_add(w.order, own, own.len(), signs);
            assert(all.len() == w.order.len() + own.len());
        }
    }
}

proof fn lemma_decided_add(
    a: Seq<TermTree>,
    b: Seq<TermTree>,
    n: nat,
    signs: spec_fn(SqlTree) -> int,
)
    requires
        n <= b.len(),
    ensures
        ({
            let first = decided(a, a.len(), signs);
            let rest = decided(b, n, signs);
            let all = decided(a + b, (a.len() + n) as nat, signs);
            &&& first.0 != 0 ==> all == first
            &&& first.0 == 0 ==> all.0 == rest.0 && (rest.0 != 0 ==> all == rest)
        }),
    decreases n,
{
    if n == 0 {
        lemma_decided_same(a, b, a.len(), signs);
    } else {
        lemma_decided_add(a, b, (n - 1) as nat, signs);
        assert((a + b)[a.len() + n - 1] == b[n - 1]);
    }
}

proof fn lemma_decided_same(
    a: Seq<TermTree>,
    b: Seq<TermTree>,
    n: nat,
    signs: spec_fn(SqlTree) -> int,
)
    requires
        n <= a.len(),
    ensures
        decided(a + b, n, signs) == decided(a, n, signs),
    decreases n,
{
    if n > 0 {
        lemma_decided_same(a, b, (n - 1) as nat, signs);
        assert((a + b)[n - 1] == a[n - 1]);
    }
}

} // verus!

//! A filter and the condition that it is lowered to say the same of every row.

use vstd::prelude::*;

#[allow(unused_imports)]
use crate::expression::{LiteralView, Tree};
#[allow(unused_imports)]
use crate::instant::chrono_parsed;
#[allow(unused_imports)]
use crate::meaning::{
    among, applied, cel_op, compared, compares, grouped, lemma_comparison_names, meant,
    lemma_other_names, lemma_turned, liked, listed, member, null_constant, ordered, path_in,
    spelled, sql, text_test, tightness, word, Cell, Hand, Op, Row, Sql, World,
};
#[allow(unused_imports)]
use crate::pattern::{
    is_string_method, law_contains_matches_inside, law_ends_with_matches_suffixes,
    law_starts_with_matches_prefixes, like_pattern,
};
#[allow(unused_imports)]
use crate::template::dialect::quoted;
#[allow(unused_imports)]
use crate::template::fragment::{chars, Piece};
#[allow(unused_imports)]
use crate::template::lower::{
    column_value_sql, comparison_sql, condition_sql, dotted_path, elements_sql, flipped,
    is_comparison, like_sql, membership_sql, operand, OperandView,
};
#[allow(unused_imports)]
use crate::template::mapping::{ColumnView, Mapping};
#[allow(unused_imports)]
use crate::template::sort::column_for;
#[allow(unused_imports)]
use crate::template::value::ValueView;

verus! {

/// What a bound value is.
pub open spec fn value_cell(value: ValueView) -> Cell {
    match value {
        ValueView::Bool(b) => Cell::Flag(b),
        ValueView::Int(n) => Cell::Number(n as int),
        ValueView::Float(bits) => Cell::Float(bits),
        ValueView::Text(text) => Cell::Text(text),
        ValueView::Bytes(bytes) => Cell::Bytes(bytes),
        ValueView::Timestamp(at) => Cell::Instant(at.seconds * 1_000_000_000 + at.nanos),
    }
}

/// A world in which the text of an instant is read as `chrono` reads it.
pub open spec fn dated(w: World) -> World {
    World {
        instant: |text: Seq<char>|
            match chrono_parsed(text) {
                Ok((seconds, nanos)) => Cell::Instant(seconds * 1_000_000_000 + nanos),
                Err(_) => Cell::Null,
            },
        ..w
    }
}

/// What the fields of a request hold in a row: what the columns hold that the mapping gives
/// for them.
pub open spec fn fields<M: Mapping>(mapping: &M, column: spec_fn(Seq<char>) -> Cell) -> spec_fn(
    Seq<char>,
) -> Cell {
    |path: Seq<char>| column(column_for(mapping, path)->0.name)
}

/// A row, with every value bound in its place.
pub open spec fn row(column: spec_fn(Seq<char>) -> Cell) -> Row<ValueView> {
    Row { column, bound: |value: ValueView| value_cell(value) }
}

/// How a fragment is written: a column quoted, and a value bound in its place.
pub open spec fn hand(mark: char) -> Hand<ValueView, Piece<ValueView>> {
    Hand {
        name: |name: Seq<char>| chars(quoted(name, mark)),
        param: |value: ValueView| seq![Piece::Bind(value)],
        text: |text: Seq<char>| chars(text),
    }
}

/// A condition of SQL says of every row what a filter says.
pub open spec fn says_the_same<M: Mapping>(
    e: Sql<ValueView>,
    tree: Tree,
    mapping: &M,
    w: World,
) -> bool {
    forall|column: spec_fn(Seq<char>) -> Cell| #[trigger]
        sql(e, dated(w), row(column)) == meant(tree, dated(w), fields(mapping, column))
}

proof fn lemma_path(tree: Tree)
    ensures
        dotted_path(tree) == path_in(tree),
    decreases tree,
{
    if let Tree::Select { operand, test: false, .. } = tree {
        lemma_path(*operand);
    }
}

/// A side of a comparison as an expression of SQL.
spec fn side(operand: OperandView) -> Sql<ValueView> {
    match operand {
        OperandView::Column(column, _) => Sql::Name(column.name),
        OperandView::Value(value) => Sql::Param(value),
        OperandView::Null => Sql::Flag(false),
    }
}

proof fn lemma_operand<M: Mapping>(
    tree: Tree,
    mapping: &M,
    w: World,
    column: spec_fn(Seq<char>) -> Cell,
)
    requires
        operand(tree, mapping) is Ok,
    ensures
        ({
            let found = operand(tree, mapping)->Ok_0;
            let found_to_be = meant(tree, dated(w), fields(mapping, column));
            &&& null_constant(tree) == (found is Null)
            &&& match found {
                OperandView::Column(at, path) => path_in(tree) == Some(path) && column_for(
                    mapping,
                    path,
                ) == Some(at) && found_to_be == column(at.name),
                OperandView::Value(value) => found_to_be == value_cell(value),
                OperandView::Null => true,
            }
        }),
{
    lemma_path(tree);
    lemma_other_names("timestamp"@);
}

proof fn lemma_join(a: Seq<char>, b: Seq<char>)
    ensures
        chars::<ValueView>(a + b) == chars::<ValueView>(a) + chars::<ValueView>(b),
{
    assert(chars::<ValueView>(a + b) =~= chars::<ValueView>(a) + chars::<ValueView>(b));
}

/// A column against a value is spelled with the operator that the filter names.
proof fn lemma_against(
    column: ColumnView,
    path: Seq<char>,
    operator: Seq<char>,
    value: ValueView,
    mark: char,
)
    requires
        is_comparison(operator),
        column_value_sql(column, path, operator, value, mark) is Ok,
    ensures
        cel_op(operator) is Some,
        compares(cel_op(operator)->0),
        column_value_sql(column, path, operator, value, mark)->Ok_0 == spelled(
            Sql::Binary(
                cel_op(operator)->0,
                Box::new(Sql::Name(column.name)),
                Box::new(Sql::Param(value)),
            ),
            hand(mark),
        ),
{
    lemma_comparison_names();
    reveal_with_fuel(spelled, 2);
    let e = Sql::Binary(
        cel_op(operator)->0,
        Box::new(Sql::Name(column.name)),
        Box::new(Sql::Param(value)),
    );
    assert(column_value_sql(column, path, operator, value, mark)->Ok_0 =~= spelled(e, hand(mark)));
}

/// Turning an operator round is what CEL means by swapping its sides.
proof fn lemma_flipped(operator: Seq<char>, w: World, a: Cell, b: Cell)
    requires
        is_comparison(operator),
        ordered(w),
    ensures
        is_comparison(flipped(operator)),
        cel_op(operator) is Some,
        compares(cel_op(operator)->0),
        cel_op(flipped(operator)) is Some,
        compared(w, cel_op(operator)->0, a, b) == compared(w, cel_op(flipped(operator))->0, b, a),
{
    lemma_comparison_names();
    lemma_turned(w, a, b);
}

proof fn lemma_comparison<M: Mapping>(
    name: Seq<char>,
    args: Seq<Tree>,
    target: Option<Box<Tree>>,
    mapping: &M,
    mark: char,
    w: World,
) -> (e: Sql<ValueView>)
    requires
        is_comparison(name),
        args.len() == 2,
        ordered(w),
        comparison_sql(name, args[0], args[1], mapping, mark) is Ok,
    ensures
        spelled(e, hand(mark)) == comparison_sql(name, args[0], args[1], mapping, mark)->Ok_0,
        grouped(e),
        tightness(e) >= 4,
        says_the_same(e, Tree::Call { name, target, args }, mapping, w),
{
    let tree = Tree::Call { name, target, args };
    let left = operand(args[0], mapping)->Ok_0;
    let right = operand(args[1], mapping)->Ok_0;
    let text = comparison_sql(name, args[0], args[1], mapping, mark)->Ok_0;
    let h = hand(mark);
    let d = dated(w);
    assert(ordered(d)) by {
        assert forall|a: Cell, b: Cell| #[trigger] (d.sign)(a, b) == -(d.sign)(b, a) by {
            assert((w.sign)(a, b) == -(w.sign)(b, a));
        }
    }
    lemma_comparison_names();
    reveal_with_fuel(spelled, 3);
    reveal_with_fuel(grouped, 3);
    reveal_with_fuel(sql, 3);
    assert(cel_op(name) is Some && compares(cel_op(name)->0));
    let op = cel_op(name)->0;
    let e: Sql<ValueView> = match (left, right) {
        (OperandView::Column(at, _), OperandView::Null) => if name == "_==_"@ {
            Sql::IsNull(Box::new(Sql::Name(at.name)))
        } else {
            Sql::IsNotNull(Box::new(Sql::Name(at.name)))
        },
        (OperandView::Null, OperandView::Column(at, _)) => if name == "_==_"@ {
            Sql::IsNull(Box::new(Sql::Name(at.name)))
        } else {
            Sql::IsNotNull(Box::new(Sql::Name(at.name)))
        },
        (OperandView::Value(value), OperandView::Column(at, path)) => {
            lemma_flipped(name, d, Cell::Null, Cell::Null);
            lemma_against(at, path, flipped(name), value, mark);
            Sql::Binary(
                cel_op(flipped(name))->0,
                Box::new(Sql::Name(at.name)),
                Box::new(Sql::Param(value)),
            )
        },
        (OperandView::Column(at, path), OperandView::Value(value)) => {
            lemma_against(at, path, name, value, mark);
            Sql::Binary(op, Box::new(Sql::Name(at.name)), Box::new(Sql::Param(value)))
        },
        _ => Sql::Binary(op, Box::new(side(left)), Box::new(side(right))),
    };
    assert(spelled(e, h) =~= text);
    assert(grouped(e));
    assert forall|column: spec_fn(Seq<char>) -> Cell| #[trigger]
        sql(e, d, row(column)) == meant(tree, d, fields(mapping, column)) by {
        lemma_operand(args[0], mapping, w, column);
        lemma_operand(args[1], mapping, w, column);
        let f = fields(mapping, column);
        if is_comparison(name) {
            lemma_flipped(name, d, meant(args[0], d, f), meant(args[1], d, f));
        }
        assert(path_in(tree) is None);
    }
    e
}

proof fn lemma_elements<M: Mapping>(
    at: ColumnView,
    path: Seq<char>,
    elements: Seq<Tree>,
    mapping: &M,
    n: nat,
    mark: char,
    w: World,
) -> (list: Seq<Sql<ValueView>>)
    requires
        n <= elements.len(),
        elements_sql(at, path, elements, mapping, n) is Ok,
    ensures
        list.len() == n,
        forall|i: int| 0 <= i < n ==> (#[trigger] list[i]) is Param,
        listed(list, n, hand(mark)) == elements_sql(at, path, elements, mapping, n)->Ok_0,
        forall|column: spec_fn(Seq<char>) -> Cell, x: Cell| #[trigger]
            among(x, list, n, dated(w), row(column)) == member(
                x,
                elements,
                n,
                dated(w),
                fields(mapping, column),
            ),
    decreases n,
{
    let h = hand(mark);
    let d = dated(w);
    if n == 0 {
        let list = Seq::<Sql<ValueView>>::empty();
        assert(listed(list, n, h) =~= Seq::<Piece<ValueView>>::empty());
        list
    } else {
        let less = lemma_elements(at, path, elements, mapping, (n - 1) as nat, mark, w);
        let value = operand(elements[n - 1], mapping)->Ok_0->Value_0;
        let last = Sql::Param(value);
        let list = less.push(last);
        lemma_listed_front(less, last, (n - 1) as nat, h);
        assert(list[n - 1] == last);
        let head = elements_sql(at, path, elements, mapping, (n - 1) as nat)->Ok_0;
        reveal_with_fuel(listed, 2);
        if n == 1 {
            assert(list[0] == last);
            assert(listed(list, n, h) =~= head.push(Piece::Bind(value)));
        } else {
            assert(listed(list, n, h) =~= (head + chars(", "@)).push(Piece::Bind(value)));
        }
        assert forall|i: int| 0 <= i < n implies (#[trigger] list[i]) is Param by {
            if i < n - 1 {
                assert(list[i] == less[i]);
            }
        }
        assert forall|column: spec_fn(Seq<char>) -> Cell, x: Cell| #[trigger]
            among(x, list, n, d, row(column)) == member(
                x,
                elements,
                n,
                d,
                fields(mapping, column),
            ) by {
            lemma_among_front(x, less, last, (n - 1) as nat, d, row(column));
            lemma_operand(elements[n - 1], mapping, w, column);
            assert(among(x, less, (n - 1) as nat, d, row(column)) == member(
                x,
                elements,
                (n - 1) as nat,
                d,
                fields(mapping, column),
            ));
            assert(sql(list[n - 1], d, row(column)) == value_cell(value));
            assert(meant(elements[n - 1], d, fields(mapping, column)) == value_cell(value));
            assert(among(x, list, n, d, row(column)) == crate::meaning::either(
                among(x, list, (n - 1) as nat, d, row(column)),
                compared(d, Op::Eq, x, value_cell(value)),
            ));
        }
        list
    }
}

/// What stands behind the first `n` of a list does not matter to them.
pub proof fn lemma_listed_front<P, T>(list: Seq<Sql<P>>, last: Sql<P>, n: nat, h: Hand<P, T>)
    requires
        n <= list.len(),
    ensures
        listed(list.push(last), n, h) == listed(list, n, h),
    decreases n,
{
    if n > 0 {
        lemma_listed_front(list, last, (n - 1) as nat, h);
        assert(list.push(last)[n - 1] == list[n - 1]);
        assert(list.push(last)[0] == list[0]);
    }
}

/// What stands behind the first `n` of a list does not matter to them.
pub proof fn lemma_among_front<P>(
    x: Cell,
    list: Seq<Sql<P>>,
    last: Sql<P>,
    n: nat,
    w: World,
    row: Row<P>,
)
    requires
        n <= list.len(),
    ensures
        among(x, list.push(last), n, w, row) == among(x, list, n, w, row),
    decreases n,
{
    if n > 0 {
        lemma_among_front(x, list, last, (n - 1) as nat, w, row);
        assert(list.push(last)[n - 1] == list[n - 1]);
    }
}

proof fn lemma_membership<M: Mapping>(
    args: Seq<Tree>,
    target: Option<Box<Tree>>,
    mapping: &M,
    mark: char,
    w: World,
) -> (e: Sql<ValueView>)
    requires
        args.len() == 2,
        membership_sql(args[0], args[1], mapping, mark) is Ok,
    ensures
        spelled(e, hand(mark)) == membership_sql(args[0], args[1], mapping, mark)->Ok_0,
        grouped(e),
        tightness(e) >= 4,
        says_the_same(e, Tree::Call { name: "@in"@, target, args }, mapping, w),
{
    let tree = Tree::Call { name: "@in"@, target, args };
    let (at, path) = match operand(args[0], mapping)->Ok_0 {
        OperandView::Column(at, path) => (at, path),
        _ => arbitrary(),
    };
    let elements = args[1]->elements;
    let h = hand(mark);
    let d = dated(w);
    lemma_other_names("@in"@);
    reveal_with_fuel(spelled, 2);
    reveal_with_fuel(grouped, 2);
    reveal_with_fuel(sql, 2);
    let text = membership_sql(args[0], args[1], mapping, mark)->Ok_0;
    let list = if elements.len() > 0 {
        lemma_elements(at, path, elements, mapping, elements.len(), mark, w)
    } else {
        Seq::empty()
    };
    let e: Sql<ValueView> = if elements.len() == 0 {
        Sql::Flag(false)
    } else {
        Sql::In(Box::new(Sql::Name(at.name)), list)
    };
    assert(spelled(e, h) =~= text);
    assert(grouped(e)) by {
        assert forall|i: int| 0 <= i < list.len() implies grouped(#[trigger] list[i]) by {}
    }
    assert forall|column: spec_fn(Seq<char>) -> Cell| #[trigger]
        sql(e, d, row(column)) == meant(tree, d, fields(mapping, column)) by {
        lemma_operand(args[0], mapping, w, column);
        let f = fields(mapping, column);
        assert(path_in(tree) is None);
        assert(meant(tree, d, f) == member(meant(args[0], d, f), elements, elements.len(), d, f));
        if elements.len() > 0 {
            let x = column(at.name);
            assert(among(x, list, list.len(), d, row(column)) == member(
                x,
                elements,
                elements.len(),
                d,
                f,
            ));
        }
    }
    e
}

/// `LIKE` with the pattern of a method says what the method says.
pub proof fn lemma_method(name: Seq<char>, text: Cell, needle: Seq<char>)
    requires
        is_string_method(name),
    ensures
        liked(text, Cell::Text(like_pattern(name, needle))) == text_test(
            name,
            text,
            Cell::Text(needle),
        ),
{
    lemma_other_names(name);
    if let Cell::Text(held) = text {
        law_starts_with_matches_prefixes(needle, held);
        law_ends_with_matches_suffixes(needle, held);
        law_contains_matches_inside(needle, held);
    }
}

proof fn lemma_like<M: Mapping>(
    name: Seq<char>,
    target: Option<Box<Tree>>,
    args: Seq<Tree>,
    mapping: &M,
    mark: char,
    w: World,
) -> (e: Sql<ValueView>)
    requires
        is_string_method(name),
        like_sql(name, target, args, mapping, mark) is Ok,
    ensures
        spelled(e, hand(mark)) == like_sql(name, target, args, mapping, mark)->Ok_0,
        grouped(e),
        tightness(e) >= 4,
        says_the_same(e, Tree::Call { name, target, args }, mapping, w),
{
    let tree = Tree::Call { name, target, args };
    let receiver = *target->0;
    let at = match operand(receiver, mapping)->Ok_0 {
        OperandView::Column(at, _) => at,
        _ => arbitrary(),
    };
    let needle = operand(args[0], mapping)->Ok_0->Value_0->Text_0;
    let h = hand(mark);
    let d = dated(w);
    lemma_other_names(name);
    reveal_with_fuel(spelled, 2);
    reveal_with_fuel(grouped, 2);
    reveal_with_fuel(sql, 2);
    let pattern = ValueView::Text(like_pattern(name, needle));
    let e: Sql<ValueView> = Sql::Like(
        Box::new(Sql::Name(at.name)),
        Box::new(Sql::Param(pattern)),
    );
    assert(spelled(e, h) =~= like_sql(name, target, args, mapping, mark)->Ok_0);
    assert forall|column: spec_fn(Seq<char>) -> Cell| #[trigger]
        sql(e, d, row(column)) == meant(tree, d, fields(mapping, column)) by {
        lemma_operand(receiver, mapping, w, column);
        lemma_operand(args[0], mapping, w, column);
        lemma_method(name, column(at.name), needle);
        assert(path_in(tree) is None);
        assert(cel_op(name) is None);
    }
    e
}

proof fn lemma_condition<M: Mapping>(tree: Tree, mapping: &M, mark: char, w: World) -> (e: Sql<
    ValueView,
>)
    requires
        ordered(w),
        condition_sql(tree, mapping, mark) is Ok,
    ensures
        spelled(e, hand(mark)) == condition_sql(tree, mapping, mark)->Ok_0,
        grouped(e),
        tightness(e) >= 4,
        says_the_same(e, tree, mapping, w),
    decreases tree,
{
    let h = hand(mark);
    let d = dated(w);
    let text = condition_sql(tree, mapping, mark)->Ok_0;
    lemma_path(tree);
    match tree {
        Tree::Call { name, target, args } => {
            lemma_other_names(name);
            lemma_comparison_names();
            if name == "_&&_"@ || name == "_||_"@ {
                assert(decreases_to!(tree => args[0]));
                assert(decreases_to!(tree => args[1]));
                let left = lemma_condition(args[0], mapping, mark, w);
                let right = lemma_condition(args[1], mapping, mark, w);
                let op = cel_op(name)->0;
                let inner: Sql<ValueView> = Sql::Binary(op, Box::new(left), Box::new(right));
                let e: Sql<ValueView> = Sql::Paren(Box::new(inner));
                assert(spelled(e, h) == chars::<ValueView>("("@) + spelled(inner, h) + chars(
                    ")"@,
                ));
                assert(spelled(inner, h) == spelled(left, h) + chars(word(op)) + spelled(
                    right,
                    h,
                ));
                assert(spelled(e, h) =~= text);
                assert(grouped(inner));
                assert forall|column: spec_fn(Seq<char>) -> Cell| #[trigger]
                    sql(e, d, row(column)) == meant(tree, d, fields(mapping, column)) by {
                    let f = fields(mapping, column);
                    assert(sql(left, d, row(column)) == meant(args[0], d, f));
                    assert(sql(right, d, row(column)) == meant(args[1], d, f));
                    assert(sql(inner, d, row(column)) == applied(
                        d,
                        op,
                        meant(args[0], d, f),
                        meant(args[1], d, f),
                    ));
                    assert(sql(e, d, row(column)) == sql(inner, d, row(column)));
                }
                e
            } else if name == "!_"@ {
                assert(decreases_to!(tree => args[0]));
                let only = lemma_condition(args[0], mapping, mark, w);
                let inner: Sql<ValueView> = Sql::Not(Box::new(only));
                let e: Sql<ValueView> = Sql::Paren(Box::new(inner));
                reveal_strlit("(NOT ");
                reveal_strlit("NOT ");
                reveal_strlit("(");
                assert("(NOT "@ =~= "("@ + "NOT "@);
                lemma_join("("@, "NOT "@);
                assert(spelled(inner, h) == chars::<ValueView>("NOT "@) + spelled(only, h));
                assert(spelled(e, h) == chars::<ValueView>("("@) + spelled(inner, h) + chars(
                    ")"@,
                ));
                assert(spelled(e, h) =~= text);
                assert(grouped(inner));
                assert forall|column: spec_fn(Seq<char>) -> Cell| #[trigger]
                    sql(e, d, row(column)) == meant(tree, d, fields(mapping, column)) by {
                    assert(sql(only, d, row(column)) == meant(
                        args[0],
                        d,
                        fields(mapping, column),
                    ));
                    assert(sql(e, d, row(column)) == sql(inner, d, row(column)));
                }
                e
            } else if is_comparison(name) {
                lemma_comparison(name, args, target, mapping, mark, w)
            } else if name == "@in"@ {
                lemma_membership(args, target, mapping, mark, w)
            } else {
                lemma_like(name, target, args, mapping, mark, w)
            }
        },
        Tree::Literal(LiteralView::Bool(b)) => {
            let e: Sql<ValueView> = Sql::Flag(b);
            assert(spelled(e, h) =~= text);
            e
        },
        Tree::Select { operand, field, test: true, .. } => {
            lemma_path(*operand);
            let at = column_for(mapping, path_in(*operand)->0 + "."@ + field)->0;
            let e: Sql<ValueView> = Sql::IsNotNull(Box::new(Sql::Name(at.name)));
            reveal_with_fuel(spelled, 2);
            reveal_with_fuel(sql, 2);
            reveal_with_fuel(grouped, 2);
            assert(spelled(e, h) =~= text);
            assert(path_in(tree) is None);
            e
        },
        _ => {
            let at = column_for(mapping, path_in(tree)->0)->0;
            let e: Sql<ValueView> = Sql::Name(at.name);
            assert(spelled(e, h) =~= text);
            e
        },
    }
}

/// A filter and its condition say the same of every row: the text is a condition of SQL, with
/// every column quoted and every constant bound in its place, which holds of a row, or fails, or
/// is unknown, exactly where the filter does. Nothing in the text binds otherwise than the
/// filter does.
pub proof fn law_a_condition_means_what_its_filter_means<M: Mapping>(
    tree: Tree,
    mapping: &M,
    mark: char,
    w: World,
)
    requires
        ordered(w),
    ensures
        condition_sql(tree, mapping, mark) matches Ok(text) ==> exists|e: Sql<ValueView>|
            #![trigger spelled(e, hand(mark))]
            spelled(e, hand(mark)) == text && grouped(e) && says_the_same(e, tree, mapping, w),
{
    if condition_sql(tree, mapping, mark) is Ok {
        let e = lemma_condition(tree, mapping, mark, w);
        assert(spelled(e, hand(mark)) == condition_sql(tree, mapping, mark)->Ok_0);
    }
}

} // verus!

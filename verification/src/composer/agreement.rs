//! A filter and the condition that it renders to say the same of every row.

use vstd::prelude::*;

#[allow(unused_imports)]
use crate::composer::filter::{
    binary_operator, clause_of, constant as constructor_text, field_name, is_null, items_from,
    law_rendering_only_adds_values, lemma_items_add, like_rendered, literal_value, micros,
    null_test, readable, rendered, tests_null, unary_operator, uuid_parsed,
};
#[allow(unused_imports)]
use crate::composer::value::ValueView;
#[allow(unused_imports)]
use crate::expression::{LiteralView, Tree};
#[allow(unused_imports)]
use crate::instant::chrono_rfc3339;
#[allow(unused_imports)]
use crate::meaning::{
    among, cel_op, compared, compares, either, grouped, lemma_comparison_names, lemma_other_names,
    listed, meant, member, numbered_hand, path_in, spelled, sql, strength, tests_text, tightness,
    word, Cell, Op, Row, Sql, World,
};
#[allow(unused_imports)]
use crate::pattern::{is_string_method, like_pattern};
#[allow(unused_imports)]
use crate::template::agreement::{lemma_among_front, lemma_listed_front, lemma_method};
#[allow(unused_imports)]
use crate::text::{decimal, joined};

verus! {

/// What a bound value is. A timestamp counts microseconds.
pub open spec fn value_cell(value: ValueView) -> Cell {
    match value {
        ValueView::Null => Cell::Null,
        ValueView::Bool(b) => Cell::Flag(b),
        ValueView::Int(n) => Cell::Number(n as int),
        ValueView::Float(bits) => Cell::Float(bits),
        ValueView::Text(text) => Cell::Text(text),
        ValueView::Timestamp(micros) => Cell::Instant(micros * 1000),
        ValueView::Bytes(bytes) => Cell::Bytes(bytes),
        ValueView::Uuid(bytes) => Cell::Id(bytes),
    }
}

/// A world in which the text of an instant is read as `chrono` reads an RFC 3339 date, down to
/// the microsecond, and the text of an identifier as `uuid` reads it.
pub open spec fn dated(w: World) -> World {
    World {
        instant: |text: Seq<char>|
            match chrono_rfc3339(text) {
                Ok((seconds, nanos)) => Cell::Instant(
                    seconds * 1_000_000_000 + (nanos as int / 1000) * 1000,
                ),
                Err(_) => Cell::Null,
            },
        id: |text: Seq<char>|
            match uuid_parsed(text) {
                Ok(bytes) => Cell::Id(bytes),
                Err(_) => Cell::Null,
            },
        ..w
    }
}

/// Every instant that `chrono` reads can be counted in microseconds.
pub open spec fn years_fit() -> bool {
    forall|text: Seq<char>|
        (#[trigger] chrono_rfc3339(text)) matches Ok((seconds, nanos)) ==> i64::MIN <= seconds
            * 1_000_000 + nanos as int / 1000 <= i64::MAX
}

/// A row, with these values bound to `$1`, `$2` and so on.
pub open spec fn row(column: spec_fn(Seq<char>) -> Cell, values: Seq<ValueView>) -> Row<nat> {
    Row { column, bound: |n: nat| value_cell(values[n - 1]) }
}

/// A condition of SQL says of every row what an expression says.
pub open spec fn says_the_same(
    e: Sql<nat>,
    tree: Tree,
    values: Seq<ValueView>,
    w: World,
) -> bool {
    forall|column: spec_fn(Seq<char>) -> Cell| #[trigger]
        sql(e, dated(w), row(column, values)) == meant(tree, dated(w), column)
}

/// An expression that is a condition and not a value.
pub open spec fn judges(tree: Tree) -> bool {
    match tree {
        Tree::Call { name, .. } => {
            ||| cel_op(name) matches Some(op) && (op is And || op is Or || compares(op))
            ||| name == "!_"@
            ||| name == "@in"@
            ||| tests_text(name)
        },
        _ => false,
    }
}

/// No condition is tested for null or looked up in a list: the text of one would bind otherwise.
pub open spec fn tests_values(tree: Tree) -> bool
    decreases tree,
{
    match tree {
        Tree::Call { name, target, args } => {
            &&& forall|i: int| 0 <= i < args.len() ==> tests_values(#[trigger] args[i])
            &&& args.len() == 2 && tests_null(name, args[0], args[1]) ==> !judges(args[0])
                && !judges(args[1])
            &&& args.len() == 2 && name == "@in"@ ==> !judges(args[0])
        },
        Tree::List { elements, .. } => forall|i: int|
            0 <= i < elements.len() ==> tests_values(#[trigger] elements[i]),
        _ => true,
    }
}

proof fn lemma_path(tree: Tree)
    ensures
        field_name(tree) == path_in(tree),
    decreases tree,
{
    if let Tree::Select { operand, .. } = tree {
        lemma_path(*operand);
    }
}

/// An operator between two expressions in parentheses, as text.
proof fn lemma_operator(name: Seq<char>, left: Seq<char>, right: Seq<char>)
    ensures
        binary_operator(name) is Some <==> cel_op(name) is Some,
        binary_operator(name) is Some ==> "("@ + left + ") "@ + binary_operator(name)->0 + " ("@
            + right + ")"@ == ("("@ + left + ")"@) + word(cel_op(name)->0) + ("("@ + right
            + ")"@),
{
    reveal_strlit("(");
    reveal_strlit(")");
    reveal_strlit(") ");
    reveal_strlit(" (");
    if binary_operator(name) is Some {
        let op = cel_op(name)->0;
        lemma_word(name);
        let inner = binary_operator(name)->0;
        assert(word(op).len() == inner.len() + 2);
        assert("("@ + left + ") "@ + inner + " ("@ + right + ")"@ =~= ("("@ + left + ")"@) + word(
            op,
        ) + ("("@ + right + ")"@));
    }
}

proof fn lemma_word(name: Seq<char>)
    requires
        binary_operator(name) is Some,
    ensures
        cel_op(name) is Some,
        word(cel_op(name)->0) == seq![' '] + binary_operator(name)->0 + seq![' '],
{
    reveal_strlit(" AND ");
    reveal_strlit("AND");
    reveal_strlit(" OR ");
    reveal_strlit("OR");
    reveal_strlit(" = ");
    reveal_strlit("=");
    reveal_strlit(" <> ");
    reveal_strlit("<>");
    reveal_strlit(" < ");
    reveal_strlit("<");
    reveal_strlit(" <= ");
    reveal_strlit("<=");
    reveal_strlit(" > ");
    reveal_strlit(">");
    reveal_strlit(" >= ");
    reveal_strlit(">=");
    reveal_strlit(" + ");
    reveal_strlit("+");
    reveal_strlit(" - ");
    reveal_strlit("-");
    reveal_strlit(" * ");
    reveal_strlit("*");
    reveal_strlit(" / ");
    reveal_strlit("/");
    reveal_strlit(" % ");
    reveal_strlit("%");
    let inner = binary_operator(name)->0;
    let op = cel_op(name)->0;
    assert(word(op) =~= seq![' '] + inner + seq![' ']);
}

/// The expression with a parenthesis around it.
spec fn enclosed(e: Sql<nat>) -> Sql<nat> {
    Sql::Paren(Box::new(e))
}

proof fn lemma_binary(
    tree: Tree,
    left: Sql<nat>,
    right: Sql<nat>,
    values: Seq<ValueView>,
    w: World,
) -> (e: Sql<nat>)
    requires
        tree is Call,
        cel_op(tree->name) is Some,
        tree->args.len() == 2,
        !tests_null(tree->name, tree->args[0], tree->args[1]),
        grouped(left),
        grouped(right),
        says_the_same(left, tree->args[0], values, w),
        says_the_same(right, tree->args[1], values, w),
    ensures
        e == Sql::Binary(
            cel_op(tree->name)->0,
            Box::new(enclosed(left)),
            Box::new(enclosed(right)),
        ),
        grouped(e),
        tightness(e) == strength(cel_op(tree->name)->0),
        spelled(e, numbered_hand()) == "("@ + spelled(left, numbered_hand()) + ") "@
            + binary_operator(tree->name)->0 + " ("@ + spelled(right, numbered_hand()) + ")"@,
        says_the_same(e, tree, values, w),
{
    let h = numbered_hand();
    let d = dated(w);
    let op = cel_op(tree->name)->0;
    let args = tree->args;
    let l = enclosed(left);
    let r = enclosed(right);
    let e: Sql<nat> = Sql::Binary(op, Box::new(l), Box::new(r));
    lemma_operator(tree->name, spelled(left, h), spelled(right, h));
    assert(spelled(l, h) == "("@ + spelled(left, h) + ")"@);
    assert(spelled(r, h) == "("@ + spelled(right, h) + ")"@);
    assert(grouped(l) && grouped(r));
    lemma_comparison_names();
    lemma_other_names(tree->name);
    assert forall|column: spec_fn(Seq<char>) -> Cell| #[trigger]
        sql(e, d, row(column, values)) == meant(tree, d, column) by {
        assert(sql(left, d, row(column, values)) == meant(args[0], d, column));
        assert(sql(right, d, row(column, values)) == meant(args[1], d, column));
        assert(sql(l, d, row(column, values)) == meant(args[0], d, column));
        assert(sql(r, d, row(column, values)) == meant(args[1], d, column));
        assert(path_in(tree) is None);
    }
    e
}

proof fn lemma_null_test(tree: Tree, inner: Sql<nat>, values: Seq<ValueView>, w: World) -> (e: Sql<
    nat,
>)
    requires
        tree is Call,
        cel_op(tree->name) is Some,
        tree->args.len() == 2,
        tests_null(tree->name, tree->args[0], tree->args[1]),
        grouped(inner),
        tightness(inner) > 4,
        says_the_same(
            inner,
            if is_null(tree->args[0]) {
                tree->args[1]
            } else {
                tree->args[0]
            },
            values,
            w,
        ),
    ensures
        grouped(e),
        tightness(e) == 4,
        spelled(e, numbered_hand()) == spelled(inner, numbered_hand()) + null_test(tree->name),
        says_the_same(e, tree, values, w),
{
    let h = numbered_hand();
    let d = dated(w);
    let args = tree->args;
    let e: Sql<nat> = if tree->name == "_==_"@ {
        Sql::IsNull(Box::new(inner))
    } else {
        Sql::IsNotNull(Box::new(inner))
    };
    lemma_comparison_names();
    assert forall|column: spec_fn(Seq<char>) -> Cell| #[trigger]
        sql(e, d, row(column, values)) == meant(tree, d, column) by {
        let other = if is_null(args[0]) {
            args[1]
        } else {
            args[0]
        };
        assert(sql(inner, d, row(column, values)) == meant(other, d, column));
        assert(path_in(tree) is None);
    }
    e
}

proof fn lemma_rendered(
    tree: Tree,
    values: Seq<ValueView>,
    all: Seq<ValueView>,
    w: World,
) -> (e: Sql<nat>)
    requires
        rendered(tree, values) is Ok,
        rendered(tree, values)->Ok_0.1.is_prefix_of(all),
        tests_values(tree),
        years_fit(),
    ensures
        spelled(e, numbered_hand()) == rendered(tree, values)->Ok_0.0,
        grouped(e),
        !judges(tree) ==> tightness(e) > 4,
        says_the_same(e, tree, all, w),
    decreases tree, 0int,
{
    let h = numbered_hand();
    let d = dated(w);
    let (text, held) = rendered(tree, values)->Ok_0;
    lemma_path(tree);
    match tree {
        Tree::Literal(literal) => {
            let e: Sql<nat> = Sql::Param(values.len() + 1);
            let value = literal_value(literal)->Ok_0;
            assert(held == values.push(value));
            assert(all[values.len() as int] == held[values.len() as int]);
            e
        },
        Tree::Ident(_) | Tree::Select { .. } => {
            let e: Sql<nat> = Sql::Name(field_name(tree)->0);
            e
        },
        Tree::Call { name, target, args } => {
            lemma_other_names(name);
            lemma_operator(name, Seq::empty(), Seq::empty());
            assert(path_in(tree) is None);
            if args.len() > 0 {
                assert(decreases_to!(tree => args[0]));
                assert(tests_values(args[0]));
            }
            if args.len() > 1 {
                assert(decreases_to!(tree => args[1]));
                assert(tests_values(args[1]));
            }
            if binary_operator(name) is Some {
                if tests_null(name, args[0], args[1]) {
                    let other = if is_null(args[0]) {
                        args[1]
                    } else {
                        args[0]
                    };
                    let inner = lemma_rendered(other, values, all, w);
                    lemma_null_test(tree, inner, all, w)
                } else {
                    let middle = rendered(args[0], values)->Ok_0.1;
                    law_rendering_only_adds_values(args[1], middle);
                    lemma_prefix(middle, held, all);
                    let left = lemma_rendered(args[0], values, all, w);
                    let right = lemma_rendered(args[1], middle, all, w);
                    lemma_binary(tree, left, right, all, w)
                }
            } else if unary_operator(name) is Some {
                let inner = lemma_rendered(args[0], values, all, w);
                lemma_unary(tree, inner, all, w)
            } else if name == "@in"@ {
                let elements = args[1]->elements;
                let middle = rendered(args[0], values)->Ok_0.1;
                assert(decreases_to!(args[1] => elements));
                lemma_items_add(elements, 0, middle, Seq::empty());
                lemma_prefix(middle, held, all);
                let needle = lemma_rendered(args[0], values, all, w);
                let none = Seq::<Sql<nat>>::empty();
                let empty = Seq::<Seq<char>>::empty();
                assert(listed(none, 0, h) =~= joined(empty, ", "@));
                let list = lemma_items(elements, 0, middle, empty, none, all, w);
                let e: Sql<nat> = Sql::In(Box::new(needle), list);
                assert(grouped(e));
                assert forall|column: spec_fn(Seq<char>) -> Cell| #[trigger]
                    sql(e, d, row(column, all)) == meant(tree, d, column) by {
                    assert(sql(needle, d, row(column, all)) == meant(args[0], d, column));
                    let x = meant(args[0], d, column);
                    assert(among(x, list, list.len(), d, row(column, all)) == member(
                        x,
                        elements,
                        elements.len(),
                        d,
                        column,
                    ));
                }
                e
            } else if is_string_method(name) {
                lemma_like(tree, values, all, w)
            } else {
                let e: Sql<nat> = Sql::Param(values.len() + 1);
                assert(held.len() == values.len() + 1);
                assert(all[values.len() as int] == held[values.len() as int]);
                let written = constructor_text(name, target, args)->Ok_0;
                if name == "timestamp"@ {
                    let at = chrono_rfc3339(written)->Ok_0;
                    assert(held[values.len() as int] == ValueView::Timestamp(micros(at.0, at.1)));
                }
                e
            }
        },
        _ => arbitrary(),
    }
}

proof fn lemma_prefix(a: Seq<ValueView>, b: Seq<ValueView>, c: Seq<ValueView>)
    requires
        a.is_prefix_of(b),
        b.is_prefix_of(c),
    ensures
        a.is_prefix_of(c),
{
    assert(a =~= c.take(a.len() as int)) by {
        assert forall|i: int| 0 <= i < a.len() implies a[i] == c[i] by {
            assert(a[i] == b.take(a.len() as int)[i]);
            assert(b[i] == c.take(b.len() as int)[i]);
        }
    }
}

proof fn lemma_unary(tree: Tree, inner: Sql<nat>, values: Seq<ValueView>, w: World) -> (e: Sql<nat>)
    requires
        tree is Call,
        cel_op(tree->name) is None,
        unary_operator(tree->name) is Some,
        tree->args.len() == 1,
        grouped(inner),
        says_the_same(inner, tree->args[0], values, w),
    ensures
        grouped(e),
        !judges(tree) ==> tightness(e) > 4,
        spelled(e, numbered_hand()) == unary_operator(tree->name)->0 + spelled(
            inner,
            numbered_hand(),
        ) + ")"@,
        says_the_same(e, tree, values, w),
{
    let h = numbered_hand();
    let d = dated(w);
    let args = tree->args;
    let group = enclosed(inner);
    let e: Sql<nat> = if tree->name == "!_"@ {
        Sql::Not(Box::new(group))
    } else {
        Sql::Minus(Box::new(group))
    };
    lemma_other_names(tree->name);
    reveal_strlit("NOT (");
    reveal_strlit("NOT ");
    reveal_strlit("-(");
    reveal_strlit("-");
    reveal_strlit("(");
    assert(spelled(group, h) == "("@ + spelled(inner, h) + ")"@);
    assert(spelled(e, h) =~= unary_operator(tree->name)->0 + spelled(inner, h) + ")"@);
    assert(grouped(group));
    assert forall|column: spec_fn(Seq<char>) -> Cell| #[trigger]
        sql(e, d, row(column, values)) == meant(tree, d, column) by {
        assert(sql(inner, d, row(column, values)) == meant(args[0], d, column));
        assert(sql(group, d, row(column, values)) == meant(args[0], d, column));
        assert(path_in(tree) is None);
    }
    e
}

proof fn lemma_like(tree: Tree, values: Seq<ValueView>, all: Seq<ValueView>, w: World) -> (e: Sql<
    nat,
>)
    requires
        tree is Call,
        is_string_method(tree->name),
        like_rendered(tree->name, tree->target, tree->args, values) is Ok,
        like_rendered(tree->name, tree->target, tree->args, values)->Ok_0.1.is_prefix_of(all),
    ensures
        grouped(e),
        spelled(e, numbered_hand()) == like_rendered(
            tree->name,
            tree->target,
            tree->args,
            values,
        )->Ok_0.0,
        says_the_same(e, tree, all, w),
{
    let h = numbered_hand();
    let d = dated(w);
    let name = tree->name;
    let args = tree->args;
    let target = *tree->target->0;
    let (text, held) = like_rendered(name, tree->target, args, values)->Ok_0;
    lemma_path(target);
    lemma_other_names(name);
    let field = field_name(target)->0;
    let needle = args[0]->Literal_0->Text_0;
    let column_part: Sql<nat> = Sql::Name(field);
    let group = enclosed(column_part);
    let pattern: Sql<nat> = Sql::Param(values.len() + 1);
    let e: Sql<nat> = Sql::Like(Box::new(group), Box::new(pattern));
    reveal_strlit("(");
    reveal_strlit(")");
    reveal_strlit(") LIKE $");
    reveal_strlit(" LIKE ");
    reveal_strlit("$");
    assert(spelled(column_part, h) == field);
    assert(grouped(column_part));
    assert(spelled(group, h) == "("@ + field + ")"@);
    assert(spelled(pattern, h) == "$"@ + decimal(values.len() + 1));
    assert(spelled(e, h) =~= text);
    assert(grouped(group));
    assert(grouped(pattern));
    assert(all[values.len() as int] == held[values.len() as int]);
    assert forall|column: spec_fn(Seq<char>) -> Cell| #[trigger]
        sql(e, d, row(column, all)) == meant(tree, d, column) by {
        assert(sql(column_part, d, row(column, all)) == column(field));
        assert(sql(group, d, row(column, all)) == column(field));
        assert(sql(pattern, d, row(column, all)) == Cell::Text(like_pattern(name, needle)));
        lemma_method(name, column(field), needle);
        assert(meant(target, d, column) == column(field));
        assert(meant(args[0], d, column) == Cell::Text(needle));
        assert(path_in(tree) is None);
        assert(cel_op(name) is None);
    }
    e
}

proof fn lemma_items(
    elements: Seq<Tree>,
    i: int,
    values: Seq<ValueView>,
    items: Seq<Seq<char>>,
    list: Seq<Sql<nat>>,
    all: Seq<ValueView>,
    w: World,
) -> (whole: Seq<Sql<nat>>)
    requires
        0 <= i <= elements.len(),
        items.len() == i,
        list.len() == i,
        items_from(elements, i, values, items) is Ok,
        items_from(elements, i, values, items)->Ok_0.1.is_prefix_of(all),
        forall|j: int| 0 <= j < elements.len() ==> tests_values(#[trigger] elements[j]),
        forall|j: int| 0 <= j < list.len() ==> grouped(#[trigger] list[j]),
        years_fit(),
        listed(list, i as nat, numbered_hand()) == joined(items, ", "@),
        forall|column: spec_fn(Seq<char>) -> Cell, x: Cell| #[trigger]
            among(x, list, i as nat, dated(w), row(column, all)) == member(
                x,
                elements,
                i as nat,
                dated(w),
                column,
            ),
    ensures
        whole.len() == elements.len(),
        forall|j: int| 0 <= j < whole.len() ==> grouped(#[trigger] whole[j]),
        listed(whole, whole.len(), numbered_hand()) == joined(
            items_from(elements, i, values, items)->Ok_0.0,
            ", "@,
        ),
        forall|column: spec_fn(Seq<char>) -> Cell, x: Cell| #[trigger]
            among(x, whole, whole.len(), dated(w), row(column, all)) == member(
                x,
                elements,
                elements.len(),
                dated(w),
                column,
            ),
    decreases elements, elements.len() - i,
{
    let h = numbered_hand();
    let d = dated(w);
    if i < elements.len() {
        let (item, held) = rendered(elements[i], values)->Ok_0;
        let last_held = items_from(elements, i, values, items)->Ok_0.1;
        lemma_items_add(elements, i + 1, held, items.push(item));
        lemma_prefix(held, last_held, all);
        let e = lemma_rendered(elements[i], values, all, w);
        let next = list.push(e);
        let more = items.push(item);
        lemma_listed_front(list, e, i as nat, h);
        assert(next[i] == e);
        assert(more.drop_last() =~= items);
        assert(more.last() == item);
        if i == 0 {
            assert(next[0] == e);
            assert(more[0] == item);
        }
        assert(listed(next, (i + 1) as nat, h) == joined(more, ", "@));
        assert forall|j: int| 0 <= j < next.len() implies grouped(#[trigger] next[j]) by {
            if j < i {
                assert(next[j] == list[j]);
            }
        }
        assert forall|column: spec_fn(Seq<char>) -> Cell, x: Cell| #[trigger]
            among(x, next, (i + 1) as nat, d, row(column, all)) == member(
                x,
                elements,
                (i + 1) as nat,
                d,
                column,
            ) by {
            lemma_among_front(x, list, e, i as nat, d, row(column, all));
            assert(among(x, list, i as nat, d, row(column, all)) == member(
                x,
                elements,
                i as nat,
                d,
                column,
            ));
            assert(sql(e, d, row(column, all)) == meant(elements[i], d, column));
            assert(among(x, next, (i + 1) as nat, d, row(column, all)) == either(
                among(x, next, i as nat, d, row(column, all)),
                compared(d, Op::Eq, x, sql(next[i], d, row(column, all))),
            ));
        }
        lemma_items(elements, i + 1, held, more, next, all, w)
    } else {
        list
    }
}

/// A filter and its condition say the same of every row: the text is a condition of SQL, with
/// its constants bound to its placeholders, which holds of a row, or fails, or is unknown,
/// exactly where the filter does. Nothing in the text binds otherwise than the filter does. Left
/// out is a filter that tests a condition for null, or looks one up in a list.
pub proof fn law_a_condition_means_what_its_filter_means(tree: Tree, w: World)
    requires
        readable(Some(tree)),
        tests_values(tree),
    ensures
        years_fit() ==> exists|e: Sql<nat>|
            #![trigger spelled(e, numbered_hand())]
            spelled(e, numbered_hand()) == clause_of(Some(tree)).sql && grouped(e)
                && says_the_same(e, tree, clause_of(Some(tree)).values, w),
{
    if years_fit() {
        let values = clause_of(Some(tree)).values;
        assert(values =~= values.take(values.len() as int));
        let e = lemma_rendered(tree, Seq::empty(), values, w);
        assert(spelled(e, numbered_hand()) == clause_of(Some(tree)).sql);
    }
}

/// A constant that a value can hold.
pub open spec fn bindable(literal: LiteralView) -> bool {
    match literal {
        LiteralView::Bytes(_) => false,
        LiteralView::UInt(n) => n <= i64::MAX,
        _ => true,
    }
}

/// An expression that has a reading as a condition or as a value in one.
pub open spec fn sound(tree: Tree) -> bool
    decreases tree,
{
    match tree {
        Tree::Literal(literal) => bindable(literal),
        Tree::Ident(_) | Tree::Select { .. } => path_in(tree) is Some,
        Tree::Call { name, target, args } => if cel_op(name) is Some {
            args.len() == 2 && sound(args[0]) && sound(args[1])
        } else if name == "!_"@ || name == "-_"@ {
            args.len() == 1 && sound(args[0])
        } else if name == "@in"@ {
            args.len() == 2 && sound(args[0]) && (args[1] matches Tree::List { elements, .. }
                && forall|i: int| 0 <= i < elements.len() ==> sound(#[trigger] elements[i]))
        } else if tests_text(name) {
            target matches Some(target) && path_in(*target) is Some && args.len() == 1 && args[0]
                matches Tree::Literal(LiteralView::Text(_))
        } else if name == "timestamp"@ {
            target is None && args.len() == 1 && (args[0] matches Tree::Literal(
                LiteralView::Text(text),
            ) && chrono_rfc3339(text) is Ok)
        } else if name == "uuid"@ {
            target is None && args.len() == 1 && (args[0] matches Tree::Literal(
                LiteralView::Text(text),
            ) && uuid_parsed(text) is Ok)
        } else {
            false
        },
        _ => false,
    }
}

proof fn lemma_sound(tree: Tree, values: Seq<ValueView>)
    ensures
        rendered(tree, values) is Ok <==> sound(tree),
    decreases tree, 0int,
{
    lemma_path(tree);
    if let Tree::Call { name, target, args } = tree {
        lemma_other_names(name);
        lemma_comparison_names();
        lemma_operator(name, Seq::empty(), Seq::empty());
        if args.len() > 0 {
            assert(decreases_to!(tree => args[0]));
            lemma_sound(args[0], values);
        }
        if args.len() > 1 {
            assert(decreases_to!(tree => args[1]));
            lemma_sound(args[1], values);
            if let Ok((_, held)) = rendered(args[0], values) {
                lemma_sound(args[1], held);
                if let Tree::List { elements, .. } = args[1] {
                    assert(decreases_to!(args[1] => elements));
                    lemma_sound_items(elements, 0, held, Seq::empty());
                }
            }
        }
        if let Some(target) = target {
            lemma_path(*target);
        }
    }
}

proof fn lemma_sound_items(
    elements: Seq<Tree>,
    i: int,
    values: Seq<ValueView>,
    items: Seq<Seq<char>>,
)
    requires
        0 <= i <= elements.len(),
    ensures
        items_from(elements, i, values, items) is Ok <==> forall|j: int|
            i <= j < elements.len() ==> sound(#[trigger] elements[j]),
    decreases elements, elements.len() - i,
{
    if i < elements.len() {
        lemma_sound(elements[i], values);
        if let Ok((item, held)) = rendered(elements[i], values) {
            lemma_sound_items(elements, i + 1, held, items.push(item));
        }
    }
}

/// A filter is taken exactly where it has a reading: nothing that has one is refused, and nothing
/// else is let through.
pub proof fn law_a_filter_is_taken_exactly_where_it_is_sound(tree: Tree)
    ensures
        readable(Some(tree)) <==> sound(tree),
{
    lemma_sound(tree, Seq::empty());
}

} // verus!

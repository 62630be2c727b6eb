//! What resolving a filter changes: the names of its fields, and nothing else.

use vstd::prelude::*;

#[allow(unused_imports)]
use crate::composer::filter::{
    binary_operator, clause_of, field_name, is_null, items_from, lemma_renamed,
    lemma_renamed_from, lemma_renamed_keeps_kind, null_test, readable, renamed, renamed_from,
    rendered, tests_null, unary_operator,
};
#[allow(unused_imports)]
use crate::composer::value::ValueView;
#[allow(unused_imports)]
use crate::expression::Tree;
#[allow(unused_imports)]
use crate::meaning::{
    cel_op, lemma_comparison_names, lemma_other_names, meant, member, path_in, Cell, Op, World,
};
#[allow(unused_imports)]
use crate::pattern::is_string_method;
#[allow(unused_imports)]
use crate::text::{decimal, joined};

verus! {

// ---------------------------------------------------------------------------
// The fields of an expression
// ---------------------------------------------------------------------------

/// Every field that an expression names, from left to right, the receiver of a method among
/// them.
pub open spec fn fields_of(tree: Tree) -> Seq<Seq<char>>
    decreases tree, 0int,
{
    match field_name(tree) {
        Some(name) => seq![name],
        None => match tree {
            Tree::Call { target, args, .. } => match target {
                Some(target) => fields_of(*target) + fields_among(args, args.len()),
                None => fields_among(args, args.len()),
            },
            Tree::List { elements, .. } => fields_among(elements, elements.len()),
            _ => Seq::empty(),
        },
    }
}

/// Every field that the first `n` expressions name.
pub open spec fn fields_among(trees: Seq<Tree>, n: nat) -> Seq<Seq<char>>
    decreases trees, n,
{
    if n == 0 || n > trees.len() {
        Seq::empty()
    } else {
        fields_among(trees, (n - 1) as nat) + fields_of(trees[n - 1])
    }
}

/// The fields that the condition of an expression writes, from left to right: the receiver of a
/// string method, and every operand. A receiver of anything else is not written.
pub open spec fn fields_written(tree: Tree) -> Seq<Seq<char>>
    decreases tree, 0int,
{
    match field_name(tree) {
        Some(name) => seq![name],
        None => match tree {
            Tree::Call { name, target, args } => match target {
                Some(target) if is_string_method(name) => fields_written(*target)
                    + fields_written_among(args, args.len()),
                _ => fields_written_among(args, args.len()),
            },
            Tree::List { elements, .. } => fields_written_among(elements, elements.len()),
            _ => Seq::empty(),
        },
    }
}

/// The fields that the conditions of the first `n` expressions write.
pub open spec fn fields_written_among(trees: Seq<Tree>, n: nat) -> Seq<Seq<char>>
    decreases trees, n,
{
    if n == 0 || n > trees.len() {
        Seq::empty()
    } else {
        fields_written_among(trees, (n - 1) as nat) + fields_written(trees[n - 1])
    }
}

// ---------------------------------------------------------------------------
// A text with fields in it
// ---------------------------------------------------------------------------

/// A part of a condition.
pub enum Part {
    /// Text that no field stands in.
    Text(Seq<char>),
    /// A field.
    Field(Seq<char>),
}

/// The text of a part, each field under its own name.
pub open spec fn own_name(part: Part) -> Seq<char> {
    match part {
        Part::Text(text) => text,
        Part::Field(field) => field,
    }
}

/// The text of a part, each field under the name of its column.
pub open spec fn column_name(part: Part, columns: Map<Seq<char>, Seq<char>>) -> Seq<char> {
    match part {
        Part::Text(text) => text,
        Part::Field(field) => columns[field],
    }
}

/// The text of these parts, each field under its own name.
pub open spec fn with_fields(parts: Seq<Part>) -> Seq<char>
    decreases parts.len(),
{
    if parts.len() == 0 {
        Seq::empty()
    } else {
        with_fields(parts.drop_last()) + own_name(parts.last())
    }
}

/// The text of these parts, each field replaced by its column.
pub open spec fn with_columns(parts: Seq<Part>, columns: Map<Seq<char>, Seq<char>>) -> Seq<char>
    decreases parts.len(),
{
    if parts.len() == 0 {
        Seq::empty()
    } else {
        with_columns(parts.drop_last(), columns) + column_name(parts.last(), columns)
    }
}

/// The fields among these parts, in order.
pub open spec fn fields_in(parts: Seq<Part>) -> Seq<Seq<char>>
    decreases parts.len(),
{
    if parts.len() == 0 {
        Seq::empty()
    } else {
        match parts.last() {
            Part::Field(field) => fields_in(parts.drop_last()).push(field),
            Part::Text(_) => fields_in(parts.drop_last()),
        }
    }
}

/// `sql` is the text of these parts, `resolved` the same text with each field replaced by its
/// column, and `fields` are the fields in it.
pub open spec fn replaces(
    parts: Seq<Part>,
    columns: Map<Seq<char>, Seq<char>>,
    sql: Seq<char>,
    resolved: Seq<char>,
    fields: Seq<Seq<char>>,
) -> bool {
    &&& with_fields(parts) == sql
    &&& with_columns(parts, columns) == resolved
    &&& fields_in(parts) == fields
}

/// A text without a field.
proof fn lemma_text(text: Seq<char>, columns: Map<Seq<char>, Seq<char>>)
    ensures
        replaces(seq![Part::Text(text)], columns, text, text, Seq::empty()),
{
    reveal_with_fuel(with_fields, 2);
    reveal_with_fuel(with_columns, 2);
    reveal_with_fuel(fields_in, 2);
    let parts = seq![Part::Text(text)];
    assert(parts.drop_last() =~= Seq::<Part>::empty());
    assert(Seq::<char>::empty() + text =~= text);
}

/// A field.
proof fn lemma_field(field: Seq<char>, columns: Map<Seq<char>, Seq<char>>)
    ensures
        replaces(seq![Part::Field(field)], columns, field, columns[field], seq![field]),
{
    reveal_with_fuel(with_fields, 2);
    reveal_with_fuel(with_columns, 2);
    reveal_with_fuel(fields_in, 2);
    let parts = seq![Part::Field(field)];
    assert(parts.drop_last() =~= Seq::<Part>::empty());
    assert(Seq::<char>::empty() + field =~= field);
    assert(Seq::<char>::empty() + columns[field] =~= columns[field]);
    assert(Seq::<Seq<char>>::empty().push(field) =~= seq![field]);
}

/// Two texts, one behind the other.
proof fn lemma_both(
    a: Seq<Part>,
    b: Seq<Part>,
    columns: Map<Seq<char>, Seq<char>>,
)
    ensures
        replaces(
            a + b,
            columns,
            with_fields(a) + with_fields(b),
            with_columns(a, columns) + with_columns(b, columns),
            fields_in(a) + fields_in(b),
        ),
    decreases b.len(),
{
    if b.len() == 0 {
        assert(a + b =~= a);
        assert(with_fields(a) + with_fields(b) =~= with_fields(a));
        assert(with_columns(a, columns) + with_columns(b, columns) =~= with_columns(a, columns));
        assert(fields_in(a) + fields_in(b) =~= fields_in(a));
    } else {
        let rest = b.drop_last();
        lemma_both(a, rest, columns);
        assert((a + b).drop_last() =~= a + rest);
        assert((a + b).last() == b.last());
        assert(with_fields(a + b) =~= with_fields(a) + with_fields(b));
        assert(with_columns(a + b, columns) =~= with_columns(a, columns) + with_columns(
            b,
            columns,
        ));
        assert(fields_in(a + b) =~= fields_in(a) + fields_in(b));
    }
}

/// A text around another.
proof fn lemma_around(
    lead: Seq<char>,
    parts: Seq<Part>,
    tail: Seq<char>,
    columns: Map<Seq<char>, Seq<char>>,
) -> (all: Seq<Part>)
    ensures
        replaces(
            all,
            columns,
            lead + with_fields(parts) + tail,
            lead + with_columns(parts, columns) + tail,
            fields_in(parts),
        ),
{
    let front = seq![Part::Text(lead)];
    let back = seq![Part::Text(tail)];
    lemma_text(lead, columns);
    lemma_text(tail, columns);
    lemma_both(front, parts, columns);
    lemma_both(front + parts, back, columns);
    let none = Seq::<Seq<char>>::empty();
    assert(none + fields_in(parts) =~= fields_in(parts));
    assert(fields_in(parts) + none =~= fields_in(parts));
    front + parts + back
}

/// Two operands with an operator between them.
proof fn lemma_operands(
    left: Seq<Part>,
    operator: Seq<char>,
    right: Seq<Part>,
    columns: Map<Seq<char>, Seq<char>>,
) -> (all: Seq<Part>)
    ensures
        replaces(
            all,
            columns,
            "("@ + with_fields(left) + ") "@ + operator + " ("@ + with_fields(right) + ")"@,
            "("@ + with_columns(left, columns) + ") "@ + operator + " ("@ + with_columns(
                right,
                columns,
            ) + ")"@,
            fields_in(left) + fields_in(right),
        ),
{
    let first = lemma_around("("@, left, ") "@, columns);
    let second = lemma_around(operator + " ("@, right, ")"@, columns);
    lemma_both(first, second, columns);
    assert(with_fields(first) + with_fields(second) =~= "("@ + with_fields(left) + ") "@ + operator
        + " ("@ + with_fields(right) + ")"@);
    assert(with_columns(first, columns) + with_columns(second, columns) =~= "("@ + with_columns(
        left,
        columns,
    ) + ") "@ + operator + " ("@ + with_columns(right, columns) + ")"@);
    first + second
}

/// A member and the list that it is looked for in.
proof fn lemma_membership(
    needle: Seq<Part>,
    items: Seq<Part>,
    columns: Map<Seq<char>, Seq<char>>,
) -> (all: Seq<Part>)
    ensures
        replaces(
            all,
            columns,
            with_fields(needle) + " IN ("@ + with_fields(items) + ")"@,
            with_columns(needle, columns) + " IN ("@ + with_columns(items, columns) + ")"@,
            fields_in(needle) + fields_in(items),
        ),
{
    let list = lemma_around(" IN ("@, items, ")"@, columns);
    lemma_both(needle, list, columns);
    assert(with_fields(needle) + with_fields(list) =~= with_fields(needle) + " IN ("@
        + with_fields(items) + ")"@);
    assert(with_columns(needle, columns) + with_columns(list, columns) =~= with_columns(
        needle,
        columns,
    ) + " IN ("@ + with_columns(items, columns) + ")"@);
    needle + list
}

/// A field and the pattern that it is held against.
proof fn lemma_likeness(field: Seq<char>, n: nat, columns: Map<Seq<char>, Seq<char>>) -> (all: Seq<
    Part,
>)
    ensures
        replaces(
            all,
            columns,
            "("@ + field + ") LIKE $"@ + decimal(n) + " ESCAPE '!'"@,
            "("@ + columns[field] + ") LIKE $"@ + decimal(n) + " ESCAPE '!'"@,
            seq![field],
        ),
{
    lemma_field(field, columns);
    let tail = ") LIKE $"@ + decimal(n) + " ESCAPE '!'"@;
    let parts = lemma_around("("@, seq![Part::Field(field)], tail, columns);
    assert("("@ + field + tail =~= "("@ + field + ") LIKE $"@ + decimal(n) + " ESCAPE '!'"@);
    assert("("@ + columns[field] + tail =~= "("@ + columns[field] + ") LIKE $"@ + decimal(n)
        + " ESCAPE '!'"@);
    parts
}

/// A text and the test for null behind it.
proof fn lemma_tested(parts: Seq<Part>, tail: Seq<char>, columns: Map<Seq<char>, Seq<char>>) -> (
    all: Seq<Part>)
    ensures
        replaces(
            all,
            columns,
            with_fields(parts) + tail,
            with_columns(parts, columns) + tail,
            fields_in(parts),
        ),
{
    let none = Seq::<char>::empty();
    let all = lemma_around(none, parts, tail, columns);
    assert(none + with_fields(parts) + tail =~= with_fields(parts) + tail);
    assert(none + with_columns(parts, columns) + tail =~= with_columns(parts, columns) + tail);
    all
}

// ---------------------------------------------------------------------------
// Resolving
// ---------------------------------------------------------------------------

proof fn lemma_no_fields(trees: Seq<Tree>)
    requires
        trees.len() == 1,
        trees[0] is Literal,
    ensures
        fields_written_among(trees, 1) == Seq::<Seq<char>>::empty(),
{
    reveal_with_fuel(fields_written_among, 2);
    assert(fields_written_among(trees, 1) =~= Seq::<Seq<char>>::empty());
}

proof fn lemma_one(trees: Seq<Tree>)
    requires
        trees.len() == 1,
    ensures
        fields_written_among(trees, 1) == fields_written(trees[0]),
{
    reveal_with_fuel(fields_written_among, 2);
    assert(fields_written_among(trees, 1) =~= fields_written(trees[0]));
}

proof fn lemma_two(trees: Seq<Tree>)
    requires
        trees.len() == 2,
    ensures
        fields_written_among(trees, 2) == fields_written(trees[0]) + fields_written(trees[1]),
{
    reveal_with_fuel(fields_written_among, 3);
    assert(fields_written_among(trees, 2) =~= fields_written(trees[0]) + fields_written(
        trees[1],
    ));
}

/// A string method is no operator.
proof fn lemma_methods(name: Seq<char>)
    requires
        is_string_method(name),
    ensures
        binary_operator(name) is None,
        unary_operator(name) is None,
        name != "@in"@,
{
    reveal_strlit("startsWith");
    reveal_strlit("endsWith");
    reveal_strlit("contains");
    reveal_strlit("_&&_");
    reveal_strlit("_||_");
    reveal_strlit("_==_");
    reveal_strlit("_!=_");
    reveal_strlit("_<_");
    reveal_strlit("_<=_");
    reveal_strlit("_>_");
    reveal_strlit("_>=_");
    reveal_strlit("_+_");
    reveal_strlit("_-_");
    reveal_strlit("_*_");
    reveal_strlit("_/_");
    reveal_strlit("_%_");
    reveal_strlit("!_");
    reveal_strlit("-_");
    reveal_strlit("@in");
    assert(name.len() == 10 || name.len() == 8);
}

/// The condition of a resolved expression is the old one with its fields replaced.
proof fn lemma_resolved_text(
    tree: Tree,
    columns: Map<Seq<char>, Seq<char>>,
    values: Seq<ValueView>,
) -> (parts: Seq<Part>)
    requires
        renamed(tree, columns) is Ok,
        rendered(tree, values) is Ok,
    ensures
        rendered(renamed(tree, columns)->Ok_0, values) is Ok,
        replaces(
            parts,
            columns,
            rendered(tree, values)->Ok_0.0,
            rendered(renamed(tree, columns)->Ok_0, values)->Ok_0.0,
            fields_written(tree),
        ),
    decreases tree, 0int,
{
    lemma_renamed(tree, columns, values);
    lemma_renamed_keeps_kind(tree, columns);
    let done = renamed(tree, columns)->Ok_0;
    let sql = rendered(tree, values)->Ok_0.0;
    if let Some(name) = field_name(tree) {
        lemma_field(name, columns);
        seq![Part::Field(name)]
    } else {
        match tree {
            Tree::Call { name, target, args } => {
                let all = renamed_from(args, columns, 0, Seq::empty())->Ok_0;
                lemma_renamed_from(args, columns, 0, Seq::empty());
                if is_string_method(name) {
                    lemma_methods(name);
                }
                if binary_operator(name) is Some {
                    assert(renamed(args[0], columns) == Ok::<Tree, Seq<char>>(all[0]));
                    assert(renamed(args[1], columns) == Ok::<Tree, Seq<char>>(all[1]));
                    lemma_renamed_keeps_kind(args[0], columns);
                    lemma_renamed_keeps_kind(args[1], columns);
                    lemma_two(args);
                    if tests_null(name, args[0], args[1]) {
                        let k: int = if is_null(args[0]) {
                            1
                        } else {
                            0
                        };
                        let inner = lemma_resolved_text(args[k], columns, values);
                        assert(fields_written(args[1 - k]) =~= Seq::empty());
                        assert(fields_written(tree) =~= fields_written(args[k]));
                        lemma_tested(inner, null_test(name), columns)
                    } else {
                        let held = rendered(args[0], values)->Ok_0.1;
                        lemma_renamed(args[0], columns, values);
                        let left = lemma_resolved_text(args[0], columns, values);
                        let right = lemma_resolved_text(args[1], columns, held);
                        lemma_operands(left, binary_operator(name)->0, right, columns)
                    }
                } else if unary_operator(name) is Some {
                    assert(renamed(args[0], columns) == Ok::<Tree, Seq<char>>(all[0]));
                    lemma_one(args);
                    let inner = lemma_resolved_text(args[0], columns, values);
                    lemma_around(unary_operator(name)->0, inner, ")"@, columns)
                } else if name == "@in"@ {
                    assert(renamed(args[0], columns) == Ok::<Tree, Seq<char>>(all[0]));
                    assert(renamed(args[1], columns) == Ok::<Tree, Seq<char>>(all[1]));
                    lemma_renamed_keeps_kind(args[1], columns);
                    lemma_two(args);
                    let elements = args[1]->elements;
                    let to = all[1]->elements;
                    lemma_renamed_from(elements, columns, 0, Seq::empty());
                    let held = rendered(args[0], values)->Ok_0.1;
                    lemma_renamed(args[0], columns, values);
                    let needle = lemma_resolved_text(args[0], columns, values);
                    assert(decreases_to!(tree => args[1]));
                    assert(decreases_to!(args[1] => elements));
                    let none = Seq::<Seq<char>>::empty();
                    assert(with_fields(Seq::<Part>::empty()) =~= joined(none, ", "@));
                    assert(with_columns(Seq::<Part>::empty(), columns) =~= joined(none, ", "@));
                    let inner = lemma_resolved_items(
                        elements,
                        to,
                        columns,
                        0,
                        held,
                        none,
                        none,
                        Seq::empty(),
                    );
                    lemma_membership(needle, inner, columns)
                } else if is_string_method(name) {
                    let receiver = *target->0;
                    assert(renamed(args[0], columns) == Ok::<Tree, Seq<char>>(all[0]));
                    lemma_renamed_keeps_kind(args[0], columns);
                    lemma_renamed_keeps_kind(receiver, columns);
                    lemma_no_fields(args);
                    let field = field_name(receiver)->0;
                    assert(fields_written(receiver) == seq![field]);
                    assert(fields_written(tree) =~= seq![field]);
                    lemma_likeness(field, values.len() + 1, columns)
                } else {
                    assert(renamed(args[0], columns) == Ok::<Tree, Seq<char>>(all[0]));
                    lemma_renamed_keeps_kind(args[0], columns);
                    lemma_no_fields(args);
                    lemma_text(sql, columns);
                    seq![Part::Text(sql)]
                }
            },
            _ => {
                lemma_text(sql, columns);
                seq![Part::Text(sql)]
            },
        }
    }
}

proof fn lemma_joined_push(items: Seq<Seq<char>>, item: Seq<char>, separator: Seq<char>)
    ensures
        joined(items.push(item), separator) == if items.len() == 0 {
            item
        } else {
            joined(items, separator) + separator + item
        },
{
    assert(items.push(item).drop_last() =~= items);
}

/// The list of a resolved expression is the old one with its fields replaced.
proof fn lemma_resolved_items(
    elements: Seq<Tree>,
    to: Seq<Tree>,
    columns: Map<Seq<char>, Seq<char>>,
    i: int,
    values: Seq<ValueView>,
    items: Seq<Seq<char>>,
    others: Seq<Seq<char>>,
    parts: Seq<Part>,
) -> (all: Seq<Part>)
    requires
        0 <= i <= elements.len(),
        to.len() == elements.len(),
        forall|j: int|
            0 <= j < elements.len() ==> renamed(#[trigger] elements[j], columns) == Ok::<
                Tree,
                Seq<char>,
            >(to[j]),
        items.len() == i,
        others.len() == i,
        items_from(elements, i, values, items) is Ok,
        replaces(
            parts,
            columns,
            joined(items, ", "@),
            joined(others, ", "@),
            fields_written_among(elements, i as nat),
        ),
    ensures
        items_from(to, i, values, others) is Ok,
        replaces(
            all,
            columns,
            joined(items_from(elements, i, values, items)->Ok_0.0, ", "@),
            joined(items_from(to, i, values, others)->Ok_0.0, ", "@),
            fields_written_among(elements, elements.len()),
        ),
    decreases elements, elements.len() - i,
{
    if i < elements.len() {
        assert(renamed(elements[i], columns) == Ok::<Tree, Seq<char>>(to[i]));
        lemma_renamed(elements[i], columns, values);
        let (item, held) = rendered(elements[i], values)->Ok_0;
        let (other, _) = rendered(to[i], values)->Ok_0;
        let inner = lemma_resolved_text(elements[i], columns, values);
        lemma_joined_push(items, item, ", "@);
        lemma_joined_push(others, other, ", "@);
        let none = Seq::<Seq<char>>::empty();
        let separator = if i == 0 {
            Seq::<char>::empty()
        } else {
            ", "@
        };
        let between = seq![Part::Text(separator)];
        lemma_text(separator, columns);
        lemma_both(parts, between, columns);
        lemma_both(parts + between, inner, columns);
        let next = parts + between + inner;
        assert(with_fields(next) =~= joined(items.push(item), ", "@));
        assert(with_columns(next, columns) =~= joined(others.push(other), ", "@));
        assert(fields_in(next) =~= fields_written_among(elements, (i + 1) as nat));
        lemma_resolved_items(
            elements,
            to,
            columns,
            i + 1,
            held,
            items.push(item),
            others.push(other),
            next,
        )
    } else {
        parts
    }
}

/// `field` is the first of these fields that is not offered.
pub open spec fn first_missing(
    fields: Seq<Seq<char>>,
    columns: Map<Seq<char>, Seq<char>>,
    field: Seq<char>,
) -> bool {
    exists|k: int|
        {
            &&& 0 <= k < fields.len()
            &&& #[trigger] fields[k] == field
            &&& !columns.dom().contains(field)
            &&& all_offered(fields.take(k), columns)
        }
}

/// Every one of these fields is offered.
pub open spec fn all_offered(fields: Seq<Seq<char>>, columns: Map<Seq<char>, Seq<char>>) -> bool {
    forall|i: int| 0 <= i < fields.len() ==> columns.dom().contains(#[trigger] fields[i])
}

/// What resolving says of the fields that it met.
pub open spec fn judged<T>(
    r: Result<T, Seq<char>>,
    fields: Seq<Seq<char>>,
    columns: Map<Seq<char>, Seq<char>>,
) -> bool {
    match r {
        Ok(_) => all_offered(fields, columns),
        Err(field) => first_missing(fields, columns, field),
    }
}

proof fn lemma_missing_behind(
    a: Seq<Seq<char>>,
    b: Seq<Seq<char>>,
    columns: Map<Seq<char>, Seq<char>>,
    field: Seq<char>,
)
    requires
        all_offered(a, columns),
        first_missing(b, columns, field),
    ensures
        first_missing(a + b, columns, field),
{
    let k = choose|k: int|
        {
            &&& 0 <= k < b.len()
            &&& #[trigger] b[k] == field
            &&& !columns.dom().contains(field)
            &&& all_offered(b.take(k), columns)
        };
    let all = a + b;
    let at = a.len() + k;
    assert(all[at] == field);
    let front = all.take(at);
    assert forall|i: int| 0 <= i < front.len() implies columns.dom().contains(
        #[trigger] front[i],
    ) by {
        if i < a.len() {
            assert(front[i] == a[i]);
        } else {
            assert(front[i] == b.take(k)[i - a.len()]);
        }
    }
}

proof fn lemma_missing_ahead(
    a: Seq<Seq<char>>,
    b: Seq<Seq<char>>,
    columns: Map<Seq<char>, Seq<char>>,
    field: Seq<char>,
)
    requires
        first_missing(a, columns, field),
    ensures
        first_missing(a + b, columns, field),
{
    let k = choose|k: int|
        {
            &&& 0 <= k < a.len()
            &&& #[trigger] a[k] == field
            &&& !columns.dom().contains(field)
            &&& all_offered(a.take(k), columns)
        };
    assert((a + b)[k] == field);
    assert((a + b).take(k) =~= a.take(k));
}

proof fn lemma_offered_both(
    a: Seq<Seq<char>>,
    b: Seq<Seq<char>>,
    columns: Map<Seq<char>, Seq<char>>,
)
    requires
        all_offered(a, columns),
        all_offered(b, columns),
    ensures
        all_offered(a + b, columns),
{
    let all = a + b;
    assert forall|i: int| 0 <= i < all.len() implies columns.dom().contains(#[trigger] all[i]) by {
        if i < a.len() {
            assert(all[i] == a[i]);
        } else {
            assert(all[i] == b[i - a.len()]);
        }
    }
}

proof fn lemma_judged(tree: Tree, columns: Map<Seq<char>, Seq<char>>)
    ensures
        judged(renamed(tree, columns), fields_of(tree), columns),
    decreases tree, 0int,
{
    match field_name(tree) {
        Some(name) => {
            let fields = seq![name];
            assert(fields[0] == name);
            assert(all_offered(fields.take(0), columns));
        },
        None => match tree {
            Tree::Call { name, target, args } => {
                lemma_judged_all(args, columns, 0, Seq::empty());
                let behind = fields_among(args, args.len());
                if let Some(target) = target {
                    lemma_judged(*target, columns);
                    let ahead = fields_of(*target);
                    match renamed(*target, columns) {
                        Ok(_) => match renamed_from(args, columns, 0, Seq::empty()) {
                            Ok(_) => {
                                lemma_offered_both(ahead, behind, columns);
                            },
                            Err(field) => {
                                lemma_missing_behind(ahead, behind, columns, field);
                            },
                        },
                        Err(field) => {
                            lemma_missing_ahead(ahead, behind, columns, field);
                        },
                    }
                }
            },
            Tree::List { elements, .. } => {
                lemma_judged_all(elements, columns, 0, Seq::empty());
            },
            _ => {},
        },
    }
}

/// The fields of a list are those of its front and then the rest.
proof fn lemma_judged_all(
    trees: Seq<Tree>,
    columns: Map<Seq<char>, Seq<char>>,
    i: int,
    done: Seq<Tree>,
)
    requires
        0 <= i <= trees.len(),
        all_offered(fields_among(trees, i as nat), columns),
    ensures
        judged(renamed_from(trees, columns, i, done), fields_among(trees, trees.len()), columns),
    decreases trees, trees.len() - i,
{
    if i < trees.len() {
        lemma_judged(trees[i], columns);
        let ahead = fields_among(trees, i as nat);
        let here = fields_of(trees[i]);
        assert(fields_among(trees, (i + 1) as nat) == ahead + here);
        match renamed(trees[i], columns) {
            Ok(tree) => {
                lemma_offered_both(ahead, here, columns);
                lemma_judged_all(trees, columns, i + 1, done.push(tree));
            },
            Err(field) => {
                lemma_missing_behind(ahead, here, columns, field);
                lemma_missing_goes_on(trees, columns, (i + 1) as nat, field);
            },
        }
    }
}

proof fn lemma_missing_goes_on(
    trees: Seq<Tree>,
    columns: Map<Seq<char>, Seq<char>>,
    n: nat,
    field: Seq<char>,
)
    requires
        n <= trees.len(),
        first_missing(fields_among(trees, n), columns, field),
    ensures
        first_missing(fields_among(trees, trees.len()), columns, field),
    decreases trees.len() - n,
{
    if n < trees.len() {
        lemma_missing_ahead(fields_among(trees, n), fields_of(trees[n as int]), columns, field);
        lemma_missing_goes_on(trees, columns, n + 1, field);
    }
}

// ---------------------------------------------------------------------------
// Laws
// ---------------------------------------------------------------------------

/// The condition of a resolved filter is the old one with each field replaced by its column:
/// every field that it writes, in order, and nothing between them.
pub proof fn law_resolving_replaces_only_fields(tree: Tree, columns: Map<Seq<char>, Seq<char>>)
    requires
        readable(Some(tree)),
        renamed(tree, columns) is Ok,
    ensures
        exists|parts: Seq<Part>| #[trigger]
            replaces(
                parts,
                columns,
                clause_of(Some(tree)).sql,
                clause_of(Some(renamed(tree, columns)->Ok_0)).sql,
                fields_written(tree),
            ),
        clause_of(Some(renamed(tree, columns)->Ok_0)).values == clause_of(Some(tree)).values,
{
    lemma_renamed(tree, columns, Seq::empty());
    let parts = lemma_resolved_text(tree, columns, Seq::empty());
    assert(replaces(
        parts,
        columns,
        clause_of(Some(tree)).sql,
        clause_of(Some(renamed(tree, columns)->Ok_0)).sql,
        fields_written(tree),
    ));
}

/// A filter resolves exactly where every field that it names is offered, and where one is not,
/// the first of them from left to right is the one that is reported.
pub proof fn law_the_first_unknown_field_is_reported(
    tree: Tree,
    columns: Map<Seq<char>, Seq<char>>,
)
    ensures
        renamed(tree, columns) is Ok <==> all_offered(fields_of(tree), columns),
        renamed(tree, columns) matches Err(field) ==> first_missing(
            fields_of(tree),
            columns,
            field,
        ),
{
    lemma_judged(tree, columns);
}

// ---------------------------------------------------------------------------
// Meaning
// ---------------------------------------------------------------------------

/// What the fields hold, where each stands for a column.
pub open spec fn through(
    columns: Map<Seq<char>, Seq<char>>,
    column: spec_fn(Seq<char>) -> Cell,
) -> spec_fn(Seq<char>) -> Cell {
    |field: Seq<char>| column(columns[field])
}

proof fn lemma_same_path(tree: Tree)
    ensures
        field_name(tree) == path_in(tree),
    decreases tree,
{
    if let Tree::Select { operand, .. } = tree {
        lemma_same_path(*operand);
    }
}

/// A resolved filter means what the filter meant, with every field read from the column that it
/// stands for.
pub proof fn law_resolving_keeps_the_meaning(
    tree: Tree,
    columns: Map<Seq<char>, Seq<char>>,
    values: Seq<ValueView>,
    w: World,
    column: spec_fn(Seq<char>) -> Cell,
)
    requires
        rendered(tree, values) is Ok,
    ensures
        renamed(tree, columns) matches Ok(done) ==> meant(done, w, column) == meant(
            tree,
            w,
            through(columns, column),
        ),
    decreases tree, 0int,
{
    let f = through(columns, column);
    lemma_same_path(tree);
    if renamed(tree, columns) is Ok {
        let done = renamed(tree, columns)->Ok_0;
        lemma_renamed_keeps_kind(tree, columns);
        if field_name(tree) is None {
            if let Tree::Call { name, target, args } = tree {
                let all = renamed_from(args, columns, 0, Seq::empty())->Ok_0;
                lemma_renamed_from(args, columns, 0, Seq::empty());
                lemma_other_names(name);
                lemma_binary_names(name);
                if args.len() > 0 {
                    assert(renamed(args[0], columns) == Ok::<Tree, Seq<char>>(all[0]));
                    lemma_renamed_keeps_kind(args[0], columns);
                }
                if args.len() > 1 {
                    assert(renamed(args[1], columns) == Ok::<Tree, Seq<char>>(all[1]));
                    lemma_renamed_keeps_kind(args[1], columns);
                }
                assert(path_in(done) is None);
                if binary_operator(name) is Some {
                    assert(decreases_to!(tree => args[0]));
                    assert(decreases_to!(tree => args[1]));
                    if tests_null(name, args[0], args[1]) {
                        if is_null(args[0]) {
                            law_resolving_keeps_the_meaning(args[1], columns, values, w, column);
                        } else {
                            law_resolving_keeps_the_meaning(args[0], columns, values, w, column);
                        }
                        assert(meant(done, w, column) == meant(tree, w, f));
                    } else {
                        let held = rendered(args[0], values)->Ok_0.1;
                        law_resolving_keeps_the_meaning(args[0], columns, values, w, column);
                        law_resolving_keeps_the_meaning(args[1], columns, held, w, column);
                        assert(meant(done, w, column) == meant(tree, w, f));
                    }
                } else if unary_operator(name) is Some {
                    assert(decreases_to!(tree => args[0]));
                    law_resolving_keeps_the_meaning(args[0], columns, values, w, column);
                    assert(meant(done, w, column) == meant(tree, w, f));
                } else if name == "@in"@ {
                    assert(decreases_to!(tree => args[0]));
                    assert(decreases_to!(tree => args[1]));
                    let elements = args[1]->elements;
                    let to = all[1]->elements;
                    assert(decreases_to!(args[1] => elements));
                    let held = rendered(args[0], values)->Ok_0.1;
                    law_resolving_keeps_the_meaning(args[0], columns, values, w, column);
                    lemma_renamed_from(elements, columns, 0, Seq::empty());
                    let x = meant(args[0], w, f);
                    lemma_members(elements, to, columns, held, Seq::empty(), 0, x, w, column);
                    assert(meant(done, w, column) == member(x, to, to.len(), w, column));
                    assert(meant(done, w, column) == meant(tree, w, f));
                } else if is_string_method(name) {
                    let receiver = *target->0;
                    lemma_same_path(receiver);
                    lemma_renamed_keeps_kind(receiver, columns);
                    let field = field_name(receiver)->0;
                    let to = renamed(receiver, columns)->Ok_0;
                    assert(to == Tree::Ident(columns[field]));
                    assert(meant(to, w, column) == column(columns[field]));
                    assert(meant(receiver, w, f) == column(columns[field]));
                    assert(all[0] == args[0]);
                    assert(all.len() == 1 && args.len() == 1);
                    assert(cel_op(name) is None);
                    assert(meant(done, w, column) == meant(tree, w, f));
                } else {
                    assert(args[0] is Literal);
                    assert(meant(done, w, column) == meant(tree, w, f));
                }
            }
        }
    }
}

proof fn lemma_binary_names(name: Seq<char>)
    ensures
        binary_operator(name) is Some <==> cel_op(name) is Some,
        tests_eq(name) ==> (cel_op(name) == Some(Op::Eq) || cel_op(name) == Some(Op::NotEq)),
        (cel_op(name) == Some(Op::Eq) || cel_op(name) == Some(Op::NotEq)) ==> tests_eq(name),
{
    lemma_comparison_names();
}

spec fn tests_eq(name: Seq<char>) -> bool {
    name == "_==_"@ || name == "_!=_"@
}

proof fn lemma_members(
    elements: Seq<Tree>,
    to: Seq<Tree>,
    columns: Map<Seq<char>, Seq<char>>,
    values: Seq<ValueView>,
    items: Seq<Seq<char>>,
    i: int,
    x: Cell,
    w: World,
    column: spec_fn(Seq<char>) -> Cell,
)
    requires
        0 <= i <= elements.len(),
        to.len() == elements.len(),
        forall|j: int|
            0 <= j < elements.len() ==> renamed(#[trigger] elements[j], columns) == Ok::<
                Tree,
                Seq<char>,
            >(to[j]),
        items_from(elements, i, values, items) is Ok,
        member(x, to, i as nat, w, column) == member(
            x,
            elements,
            i as nat,
            w,
            through(columns, column),
        ),
    ensures
        member(x, to, to.len(), w, column) == member(
            x,
            elements,
            elements.len(),
            w,
            through(columns, column),
        ),
    decreases elements, elements.len() - i,
{
    if i < elements.len() {
        let (item, held) = rendered(elements[i], values)->Ok_0;
        assert(renamed(elements[i], columns) == Ok::<Tree, Seq<char>>(to[i]));
        law_resolving_keeps_the_meaning(elements[i], columns, values, w, column);
        lemma_members(elements, to, columns, held, items.push(item), i + 1, x, w, column);
    }
}

} // verus!

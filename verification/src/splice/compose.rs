//! Splicing fragments into the marked comments of a query.

use std::marker::PhantomData;

use vstd::prelude::*;

use crate::composer::clause::{append_values, WhereClause};
#[allow(unused_imports)]
use crate::composer::clause::{moved, ClauseView};
use crate::composer::compose::splice_tokens;
#[allow(unused_imports)]
use crate::composer::compose::spliced_from;
use crate::composer::lexer::{skip_name, skip_white, read_slot, Token};
#[allow(unused_imports)]
use crate::composer::lexer::{
    after_name, after_white, end_of, in_order, lemma_shifted_nonempty, shifted, slot_of, start_of,
    token_views, tokens_of, TokenView,
};
#[allow(unused_imports)]
use crate::composer::syntax::{standard_syntax, PlaceholderStyle};
use crate::composer::value::{copy_values, Value};
#[allow(unused_imports)]
use crate::composer::value::{value_views, ValueView};
use crate::lexical::{has_pair, seek_char};
#[allow(unused_imports)]
use crate::lexical::{lemma_next_or_end, next_or_end, pair_at};
use crate::splice::dialect::QueryDialect;
use crate::splice::fragment::QueryFragment;
use crate::text::{chars_of, copy_of};
#[allow(unused_imports)]
use crate::composer::reading::{lemma_slot_comment, slot_comment, slot_text, SlotText};
#[allow(unused_imports)]
use crate::text::lacks;

verus! {

// ---------------------------------------------------------------------------
// Marks
// ---------------------------------------------------------------------------

/// Where the comment that may be a mark would end: behind the first `*` after its name.
pub open spec fn mark_end(s: Seq<char>, at: int) -> int {
    next_or_end(s, after_name(s, after_white(s, at + 2) + 6), '*') + 2
}

/// The mark that starts at `at`: `/* query.<name> <suffix> */`. It is found wherever it stands
/// in the text.
pub open spec fn mark_at(s: Seq<char>, at: int) -> Option<TokenView> {
    let end = mark_end(s, at);
    if pair_at(s, at, '/', '*') && at + 4 <= end <= s.len() {
        match slot_of(s, at, end) {
            Some((name, suffix)) => Some(TokenView::Slot { start: at, end, name, suffix }),
            None => None,
        }
    } else {
        None
    }
}

/// The marks of a text from `at` on, behind those that were found.
pub open spec fn marks_from(s: Seq<char>, at: int, found: Seq<TokenView>) -> Seq<TokenView>
    decreases s.len() - at,
{
    if !(0 <= at < s.len()) {
        found
    } else {
        match mark_at(s, at) {
            Some(mark) => if at < end_of(mark) <= s.len() {
                marks_from(s, end_of(mark), found.push(mark))
            } else {
                found
            },
            None => marks_from(s, at + 1, found),
        }
    }
}

/// The marks of a text, in order.
pub open spec fn marks_of(s: Seq<char>) -> Seq<TokenView> {
    marks_from(s, 0, Seq::empty())
}

fn read_mark(s: &[char], at: usize) -> (r: Option<Token>)
    requires
        at < s@.len(),
    ensures
        match (r, mark_at(s@, at as int)) {
            (Some(token), Some(found)) => token@ == found,
            (None, None) => true,
            _ => false,
        },
{
    let length = s.len();
    if !has_pair(s, at, '/', '*') {
        return None;
    }
    let word = skip_white(s, at + 2);
    if length - word < 6 {
        proof {
            let name = after_white(s@, at + 2) + 6;
            assert(after_name(s@, name) == name);
        }
        return None;
    }
    let rest = skip_name(s, word + 6);
    let close = seek_char(s, rest, '*');
    if length - close < 2 {
        return None;
    }
    let end = close + 2;
    proof {
        lemma_next_or_end(s@, rest as int, '*');
    }
    match read_slot(s, at, end) {
        Some((name, suffix)) => Some(Token::Slot { start: at, end, name, suffix }),
        None => None,
    }
}

/// Finds the marks of a text.
fn read_marks(s: &[char]) -> (r: Vec<Token>)
    ensures
        token_views(r@) == marks_of(s@),
        in_order(token_views(r@), s@.len() as int),
{
    let mut marks: Vec<Token> = Vec::new();
    let mut at: usize = 0;
    assert(token_views(marks@) =~= Seq::<TokenView>::empty());
    while at < s.len()
        invariant
            at <= s.len(),
            marks_of(s@) == marks_from(s@, at as int, token_views(marks@)),
            in_order(token_views(marks@), at as int),
        decreases s.len() - at,
    {
        let ghost before = token_views(marks@);
        match read_mark(s, at) {
            Some(mark) => {
                let ghost seen = mark@;
                let next: usize = match &mark {
                    Token::Slot { end, .. } => *end,
                    Token::Placeholder(_) => at + 1,
                };
                marks.push(mark);
                assert(token_views(marks@) =~= before.push(seen));
                assert(in_order(before.push(seen), next as int)) by {
                    let all = before.push(seen);
                    assert forall|i: int| 0 <= i < all.len() implies 0 <= start_of(
                        #[trigger] all[i],
                    ) < end_of(all[i]) <= next by {
                        if i < before.len() {
                            assert(all[i] == before[i]);
                        }
                    }
                    assert forall|i: int, j: int| 0 <= i < j < all.len() implies end_of(
                        #[trigger] all[i],
                    ) <= start_of(#[trigger] all[j]) by {
                        assert(all[i] == before[i]);
                        if j < before.len() {
                            assert(all[j] == before[j]);
                        }
                    }
                }
                at = next;
            },
            None => {
                at += 1;
            },
        }
    }
    marks
}

// ---------------------------------------------------------------------------
// Composing
// ---------------------------------------------------------------------------

/// Everything that was handed to a composer.
#[verifier::ext_equal]
pub struct SpliceView {
    pub sql: Seq<char>,
    pub binds: Seq<ValueView>,
    pub filter: Option<ClauseView>,
    pub order: Option<ClauseView>,
}

/// Nothing to splice.
pub open spec fn nothing() -> ClauseView {
    ClauseView { sql: Seq::empty(), values: Seq::empty() }
}

/// A fragment, its placeholders behind the values that are bound ahead of it. One without
/// text is nothing at all.
pub open spec fn placed(fragment: Option<ClauseView>, offset: nat, numbers: bool) -> ClauseView {
    match fragment {
        Some(clause) => if clause.sql.len() == 0 {
            nothing()
        } else if numbers {
            moved(clause, offset)
        } else {
            clause
        },
        None => nothing(),
    }
}

/// The text and the values of a query: the base query's own, then the filter's, and then the
/// ordering's, wherever their marks stand.
pub open spec fn rendered(c: SpliceView, numbers: bool) -> ClauseView {
    let filter = placed(c.filter, c.binds.len(), numbers);
    let order = placed(c.order, c.binds.len() + filter.values.len(), numbers);
    ClauseView {
        sql: spliced_from(
            c.sql,
            marks_of(c.sql),
            PlaceholderStyle::Number,
            filter.sql,
            order.sql,
            0,
            0,
            0,
            Seq::empty(),
        ),
        values: c.binds + filter.values + order.values,
    }
}

/// What a clause that may be missing holds.
pub open spec fn clause_seen(clause: Option<WhereClause>) -> Option<ClauseView> {
    match clause {
        Some(clause) => Some(clause@),
        None => None,
    }
}

/// Splices a filter and an ordering into the `/* query.<name> */` marks of a query. The query
/// is scanned once for its own marks, and may hold anything else.
pub struct QueryComposer<DB> {
    sql: String,
    binds: Vec<Value>,
    filter: Option<WhereClause>,
    order: Option<WhereClause>,
    dialect: PhantomData<DB>,
}

impl<DB> View for QueryComposer<DB> {
    type V = SpliceView;

    closed spec fn view(&self) -> SpliceView {
        SpliceView {
            sql: self.sql@,
            binds: value_views(self.binds@),
            filter: clause_seen(self.filter),
            order: clause_seen(self.order),
        }
    }
}

fn place(fragment: &Option<WhereClause>, offset: usize, numbers: bool) -> (r: WhereClause)
    ensures
        r@ == placed(clause_seen(*fragment), offset as nat, numbers),
{
    match fragment {
        Some(clause) => if clause.is_empty() {
            WhereClause::default()
        } else if numbers {
            clause.clone().shift(offset)
        } else {
            clause.clone()
        },
        None => WhereClause::default(),
    }
}

fn clause_from<F: QueryFragment>(fragment: F) -> (r: WhereClause)
    ensures
        r@ == fragment.contents(),
{
    let (sql, values) = fragment.into_sql();
    let r = WhereClause::with_values(sql, values);
    assert(r@ =~= fragment.contents());
    r
}

impl<DB: QueryDialect> QueryComposer<DB> {
    /// Starts composing a query.
    pub fn new(sql: &str) -> (r: QueryComposer<DB>)
        ensures
            r@ == (SpliceView { sql: sql@, binds: Seq::empty(), filter: None, order: None }),
    {
        let r = QueryComposer {
            sql: copy_of(sql),
            binds: Vec::new(),
            filter: None,
            order: None,
            dialect: PhantomData,
        };
        assert(r@ =~= (SpliceView {
            sql: sql@,
            binds: Seq::empty(),
            filter: None,
            order: None,
        }));
        r
    }

    /// A value for one of the query's own placeholders, in the order of declaration.
    pub fn bind(&mut self, value: Value) -> (r: &mut Self)
        ensures
            r@ == (SpliceView { binds: old(self)@.binds.push(value@), ..old(self)@ }),
            *final(self) == *final(r),
    {
        let ghost before = self@;
        self.binds.push(value);
        assert(self@ =~= (SpliceView { binds: before.binds.push(value@), ..before }));
        self
    }

    /// Splices onto `/* query.where */`. A second fragment replaces the first.
    pub fn filter<F: QueryFragment>(&mut self, fragment: F) -> (r: &mut Self)
        ensures
            r@ == (SpliceView { filter: Some(fragment.contents()), ..old(self)@ }),
            *final(self) == *final(r),
    {
        self.filter = Some(clause_from(fragment));
        self
    }

    /// Splices a clause onto `/* query.where */`. A second one replaces the first.
    pub fn where_by(&mut self, clause: WhereClause) -> (r: &mut Self)
        ensures
            r@ == (SpliceView { filter: Some(clause@), ..old(self)@ }),
            *final(self) == *final(r),
    {
        self.filter = Some(clause);
        self
    }

    /// Splices onto `/* query.order_by */`. A second fragment replaces the first.
    pub fn order_by<F: QueryFragment>(&mut self, fragment: F) -> (r: &mut Self)
        ensures
            r@ == (SpliceView { order: Some(fragment.contents()), ..old(self)@ }),
            *final(self) == *final(r),
    {
        self.order = Some(clause_from(fragment));
        self
    }

    /// The final text, and the values in the order that its placeholders reference them. A
    /// mark without anything to put in it is dropped, with its suffix, and so is one of
    /// another name.
    pub fn render(&self) -> (r: (String, Vec<Value>))
        ensures
            r.0@ == rendered(self@, DB::numbers()).sql,
            value_views(r.1@) == rendered(self@, DB::numbers()).values,
    {
        let numbers = DB::positional();
        let filter = place(&self.filter, self.binds.len(), numbers);
        let mut values = copy_values(self.binds.as_slice());
        append_values(&mut values, copy_values(filter.values()));
        assert(value_views(values@).len() == values@.len());
        let order = place(&self.order, values.len(), numbers);
        let s = chars_of(self.sql.as_str());
        let marks = read_marks(s.as_slice());
        let sql = splice_tokens(
            s.as_slice(),
            marks.as_slice(),
            PlaceholderStyle::Number,
            filter.sql(),
            order.sql(),
        );
        append_values(&mut values, copy_values(order.values()));
        (sql, values)
    }
}

// ---------------------------------------------------------------------------
// Laws
// ---------------------------------------------------------------------------

/// The values come in the order base query, filter, ordering, and none of them is dropped but
/// those of a fragment without text.
pub proof fn law_values_are_gathered_in_order(c: SpliceView, numbers: bool)
    ensures
        rendered(c, numbers).values == c.binds + placed(c.filter, 0, numbers).values + placed(
            c.order,
            0,
            numbers,
        ).values,
{
}

proof fn lemma_untouched(s: Seq<char>, filter: Seq<char>, order: Seq<char>)
    ensures
        spliced_from(
            s,
            Seq::empty(),
            PlaceholderStyle::Number,
            filter,
            order,
            0,
            0,
            0,
            Seq::empty(),
        ) == s,
{
    assert(Seq::<char>::empty() + s.subrange(0, s.len() as int) =~= s);
}

/// A query without marks comes out as it went in.
pub proof fn law_a_query_without_marks_is_untouched(c: SpliceView, numbers: bool)
    requires
        marks_of(c.sql).len() == 0,
    ensures
        rendered(c, numbers).sql == c.sql,
{
    let filter = placed(c.filter, c.binds.len(), numbers);
    let order = placed(c.order, c.binds.len() + filter.values.len(), numbers);
    assert(marks_of(c.sql) =~= Seq::<TokenView>::empty());
    lemma_untouched(c.sql, filter.sql, order.sql);
}

/// Something to splice, with its numbers raised by as much as is bound ahead of it.
pub open spec fn raised(fragment: Option<ClauseView>, offset: nat) -> Option<ClauseView> {
    match fragment {
        Some(clause) => Some(moved(clause, offset)),
        None => None,
    }
}

/// The values of something to splice: none where it has no text.
pub open spec fn bound_by(fragment: Option<ClauseView>) -> Seq<ValueView> {
    match fragment {
        Some(clause) => if clause.sql.len() > 0 {
            clause.values
        } else {
            Seq::empty()
        },
        None => Seq::empty(),
    }
}

/// Where placeholders are numbered, a filter counts on behind the query's own values, and an
/// ordering behind those and the filter's: the text is what it would be without numbering, for
/// fragments that were raised beforehand. The values are the query's own, then the filter's, then
/// the ordering's, and none is dropped but those of a fragment without text.
pub proof fn law_each_fragment_counts_on_behind_what_is_bound(c: SpliceView, numbers: bool)
    ensures
        rendered(c, true).sql == rendered(
            SpliceView {
                filter: raised(c.filter, c.binds.len()),
                order: raised(c.order, c.binds.len() + bound_by(c.filter).len()),
                ..c
            },
            false,
        ).sql,
        rendered(c, numbers).values == c.binds + bound_by(c.filter) + bound_by(c.order),
{
    if let Some(clause) = c.filter {
        if clause.sql.len() > 0 {
            lemma_shifted_nonempty(clause.sql, standard_syntax().quoting, c.binds.len());
        } else {
            lemma_empty_stays(clause.sql, c.binds.len());
        }
    }
    if let Some(clause) = c.order {
        let offset = c.binds.len() + bound_by(c.filter).len();
        if clause.sql.len() > 0 {
            lemma_shifted_nonempty(clause.sql, standard_syntax().quoting, offset);
        } else {
            lemma_empty_stays(clause.sql, offset);
        }
    }
}

proof fn lemma_empty_stays(s: Seq<char>, offset: nat)
    requires
        s.len() == 0,
    ensures
        shifted(s, standard_syntax().quoting, offset).len() == 0,
{
    let q = standard_syntax().quoting;
    let none = tokens_of(s, q);
    assert(none =~= Seq::<TokenView>::empty());
}

/// A comment that names a slot is a mark, wherever it stands: its name is what follows `query.`, and
/// its suffix what stands behind that, without the white space at its end.
pub proof fn law_a_mark_is_read(before: Seq<char>, x: SlotText, after: Seq<char>)
    requires
        slot_text(x),
    ensures
        ({
            let start = before.len() as int;
            let end = start + slot_comment(x).len();
            mark_at(before + slot_comment(x) + after, start) == Some(
                TokenView::Slot { start, end, name: x.name, suffix: x.suffix },
            )
        }),
{
    lemma_slot_comment(before, x, after, false);
    reveal_strlit("/*");
    reveal_strlit("*/");
}

/// The text of slots, each with a text before it.
pub open spec fn marked_text(parts: Seq<(Seq<char>, SlotText)>, i: int) -> Seq<char>
    decreases parts.len() - i,
{
    if !(0 <= i < parts.len()) {
        Seq::empty()
    } else {
        parts[i].0 + slot_comment(parts[i].1) + marked_text(parts, i + 1)
    }
}

/// The marks of these slots, where their text begins at `at`.
pub open spec fn marks_in(parts: Seq<(Seq<char>, SlotText)>, i: int, at: int) -> Seq<TokenView>
    decreases parts.len() - i,
{
    if !(0 <= i < parts.len()) {
        Seq::empty()
    } else {
        let start = at + parts[i].0.len();
        let end = start + slot_comment(parts[i].1).len();
        seq![
            TokenView::Slot { start, end, name: parts[i].1.name, suffix: parts[i].1.suffix },
        ] + marks_in(parts, i + 1, end)
    }
}

proof fn lemma_no_mark(s: Seq<char>, at: int, end: int, found: Seq<TokenView>)
    requires
        0 <= at <= end <= s.len(),
        forall|i: int| at <= i < end ==> #[trigger] s[i] != '/',
    ensures
        marks_from(s, at, found) == marks_from(s, end, found),
    decreases end - at,
{
    if at < end {
        assert(mark_at(s, at) is None);
        lemma_no_mark(s, at + 1, end, found);
    }
}

#[verifier::rlimit(50)]
proof fn lemma_marks_in(
    before: Seq<char>,
    parts: Seq<(Seq<char>, SlotText)>,
    i: int,
    after: Seq<char>,
    found: Seq<TokenView>,
)
    requires
        0 <= i <= parts.len(),
        forall|j: int|
            0 <= j < parts.len() ==> lacks((#[trigger] parts[j]).0, '/') && slot_text(parts[j].1),
        lacks(after, '/'),
    ensures
        marks_from(before + marked_text(parts, i) + after, before.len() as int, found) == found
            + marks_in(parts, i, before.len() as int),
    decreases parts.len() - i,
{
    let s = before + marked_text(parts, i) + after;
    let at = before.len() as int;
    if i < parts.len() {
        let text = parts[i].0;
        let x = parts[i].1;
        let rest = marked_text(parts, i + 1) + after;
        let start = at + text.len();
        let end = start + slot_comment(x).len();
        assert(lacks(text, '/') && slot_text(x));
        assert(s =~= before + text + slot_comment(x) + rest);
        assert forall|k: int| at <= k < start implies #[trigger] s[k] != '/' by {
            assert(s[k] == text[k - at]);
        }
        lemma_no_mark(s, at, start, found);
        law_a_mark_is_read(before + text, x, rest);
        let mark = TokenView::Slot { start, end, name: x.name, suffix: x.suffix };
        assert(mark_at(s, start) == Some(mark));
        reveal_strlit("/*");
        let next = before + text + slot_comment(x);
        lemma_marks_in(next, parts, i + 1, after, found.push(mark));
        assert(next + marked_text(parts, i + 1) + after =~= s);
        assert(found + marks_in(parts, i, at) =~= found.push(mark) + marks_in(parts, i + 1, end));
    } else {
        assert(s =~= before + after);
        assert forall|k: int| at <= k < s.len() implies #[trigger] s[k] != '/' by {
            assert(s[k] == after[k - at]);
        }
        lemma_no_mark(s, at, s.len() as int, found);
        assert(found + marks_in(parts, i, at) =~= found);
    }
}

/// A query has the marks that it is written with, in order and where they stand, and no others.
pub proof fn law_a_query_has_the_marks_it_is_written_with(
    parts: Seq<(Seq<char>, SlotText)>,
    after: Seq<char>,
)
    requires
        forall|j: int|
            0 <= j < parts.len() ==> lacks((#[trigger] parts[j]).0, '/') && slot_text(parts[j].1),
        lacks(after, '/'),
    ensures
        marks_of(marked_text(parts, 0) + after) == marks_in(parts, 0, 0),
{
    let none = Seq::<char>::empty();
    lemma_marks_in(none, parts, 0, after, Seq::empty());
    assert(none + marked_text(parts, 0) + after =~= marked_text(parts, 0) + after);
    assert(Seq::<TokenView>::empty() + marks_in(parts, 0, 0) =~= marks_in(parts, 0, 0));
}

/// What goes in place of a mark: the filter where it is named `where`, the ordering where it is named
/// `order_by`, each with the suffix behind it, and nothing otherwise.
pub open spec fn in_place_of(x: SlotText, filter: Seq<char>, order: Seq<char>) -> Seq<char> {
    if x.name == "where"@ && filter.len() > 0 {
        filter + x.suffix
    } else if x.name == "order_by"@ && order.len() > 0 {
        order + x.suffix
    } else {
        Seq::empty()
    }
}

/// The text from the `i`th mark on, with something in place of every mark.
pub open spec fn replaced_text(
    parts: Seq<(Seq<char>, SlotText)>,
    filter: Seq<char>,
    order: Seq<char>,
    i: int,
) -> Seq<char>
    decreases parts.len() - i,
{
    if !(0 <= i < parts.len()) {
        Seq::empty()
    } else {
        parts[i].0 + in_place_of(parts[i].1, filter, order) + replaced_text(
            parts,
            filter,
            order,
            i + 1,
        )
    }
}

#[verifier::rlimit(50)]
proof fn lemma_replaced(
    s: Seq<char>,
    before: Seq<char>,
    parts: Seq<(Seq<char>, SlotText)>,
    after: Seq<char>,
    marks: Seq<TokenView>,
    filter: Seq<char>,
    order: Seq<char>,
    i: int,
    out: Seq<char>,
)
    requires
        0 <= i <= parts.len(),
        s == before + marked_text(parts, i) + after,
        marks.len() == parts.len(),
        marks.skip(i) == marks_in(parts, i, before.len() as int),
    ensures
        spliced_from(
            s,
            marks,
            PlaceholderStyle::Number,
            filter,
            order,
            i,
            before.len() as int,
            0,
            out,
        ) == out + replaced_text(parts, filter, order, i) + after,
    decreases parts.len() - i,
{
    reveal_strlit("where");
    reveal_strlit("order_by");
    assert("where"@.len() == 5 && "order_by"@.len() == 8);
    let at = before.len() as int;
    if i < parts.len() {
        let text = parts[i].0;
        let x = parts[i].1;
        let start = at + text.len();
        let next = before + text + slot_comment(x);
        let end = next.len() as int;
        assert(s =~= next + marked_text(parts, i + 1) + after);
        assert(s.subrange(at, start) =~= text);
        assert(marks[i] == marks.skip(i)[0]);
        assert(marks.skip(i + 1) =~= marks.skip(i).skip(1));
        assert(marks_in(parts, i, at).skip(1) =~= marks_in(parts, i + 1, end));
        let put = in_place_of(x, filter, order);
        let held = out + text + put;
        lemma_replaced(s, next, parts, after, marks, filter, order, i + 1, held);
        let rest = replaced_text(parts, filter, order, i + 1);
        assert(held + rest + after =~= out + (text + put + rest) + after);
    } else {
        assert(s =~= before + after);
        assert(s.subrange(at, s.len() as int) =~= after);
        assert(out + Seq::<char>::empty() + after =~= out + after);
    }
}

/// A query is rendered as it is but for its marks, each of which becomes what was given for it; the
/// placeholders of what goes in stand behind the values that are bound ahead of it, where they are
/// numbered.
pub proof fn law_rendering_keeps_the_rest_of_the_text(
    c: SpliceView,
    numbers: bool,
    parts: Seq<(Seq<char>, SlotText)>,
    after: Seq<char>,
)
    requires
        c.sql == marked_text(parts, 0) + after,
        forall|j: int|
            0 <= j < parts.len() ==> lacks((#[trigger] parts[j]).0, '/') && slot_text(parts[j].1),
        lacks(after, '/'),
    ensures
        ({
            let filter = placed(c.filter, c.binds.len(), numbers);
            let order = placed(c.order, c.binds.len() + filter.values.len(), numbers);
            rendered(c, numbers).sql == replaced_text(parts, filter.sql, order.sql, 0) + after
        }),
{
    let none = Seq::<char>::empty();
    let filter = placed(c.filter, c.binds.len(), numbers);
    let order = placed(c.order, c.binds.len() + filter.values.len(), numbers);
    law_a_query_has_the_marks_it_is_written_with(parts, after);
    let marks = marks_of(c.sql);
    lemma_marks_len(parts, 0, 0);
    assert(none + marked_text(parts, 0) + after =~= c.sql);
    assert(marks.skip(0) =~= marks);
    lemma_replaced(c.sql, none, parts, after, marks, filter.sql, order.sql, 0, none);
    let all = replaced_text(parts, filter.sql, order.sql, 0);
    assert(none + all + after =~= all + after);
}

proof fn lemma_marks_len(parts: Seq<(Seq<char>, SlotText)>, i: int, at: int)
    requires
        0 <= i <= parts.len(),
    ensures
        marks_in(parts, i, at).len() == parts.len() - i,
    decreases parts.len() - i,
{
    if i < parts.len() {
        let end = at + parts[i].0.len() + slot_comment(parts[i].1).len();
        lemma_marks_len(parts, i + 1, end);
    }
}

} // verus!

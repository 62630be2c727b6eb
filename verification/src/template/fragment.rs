//! A rendered SQL fragment and the values behind it.

use core::marker::PhantomData;

use vstd::prelude::*;

#[allow(unused_imports)]
use crate::template::value::ValueView;
use crate::template::value::Value;
use crate::text::{copy_of, join};
#[allow(unused_imports)]
use crate::text::{joined, strings};
use vstd::string::StringExecFns;

verus! {

/// One place of a fragment: a character of its text, or a value that is bound there.
pub enum Piece<T> {
    Char(char),
    Bind(T),
}

/// One character of text.
pub open spec fn letter<T>(c: char) -> Piece<T> {
    Piece::Char(c)
}

/// Text on its own.
pub open spec fn chars<T>(text: Seq<char>) -> Seq<Piece<T>> {
    text.map_values(|c: char| letter::<T>(c))
}

/// The segments with the values between them.
pub open spec fn spliced<T>(segments: Seq<Seq<char>>, values: Seq<T>) -> Seq<Piece<T>>
    decreases values.len(),
{
    if values.len() == 0 {
        chars(segments[0])
    } else {
        spliced(segments.drop_last(), values.drop_last()).push(Piece::Bind(values.last())) + chars(
            segments.last(),
        )
    }
}

/// A piece with its value as contracts speak of it.
pub open spec fn piece_view(piece: Piece<Value>) -> Piece<ValueView> {
    match piece {
        Piece::Char(c) => Piece::Char(c),
        Piece::Bind(value) => Piece::Bind(value@),
    }
}

/// The pieces with their values as contracts speak of them.
pub open spec fn pieces_view(pieces: Seq<Piece<Value>>) -> Seq<Piece<ValueView>> {
    pieces.map_values(|piece: Piece<Value>| piece_view(piece))
}

/// The values that are bound, in order.
pub open spec fn bound<T>(pieces: Seq<Piece<T>>) -> Seq<T>
    decreases pieces.len(),
{
    if pieces.len() == 0 {
        Seq::empty()
    } else {
        match pieces.last() {
            Piece::Char(_) => bound(pieces.drop_last()),
            Piece::Bind(value) => bound(pieces.drop_last()).push(value),
        }
    }
}

/// The character that shows a piece.
pub open spec fn mark<T>(piece: Piece<T>) -> char {
    match piece {
        Piece::Char(c) => c,
        Piece::Bind(_) => '?',
    }
}

/// The text with a `?` for every value.
pub open spec fn marked<T>(pieces: Seq<Piece<T>>) -> Seq<char> {
    pieces.map_values(|piece: Piece<T>| mark(piece))
}

/// SQL with bind values, ready to be spliced into a slot.
///
/// A fragment stores the literal SQL between its values and not the text of their
/// placeholders: what a placeholder looks like depends on the query that the fragment ends
/// up in.
#[derive(Debug)]
pub struct QueryFragment<DB, T> {
    segments: Vec<String>,
    values: Vec<T>,
    database: PhantomData<DB>,
}

impl<DB, T> View for QueryFragment<DB, T> {
    type V = Seq<Piece<T>>;

    closed spec fn view(&self) -> Seq<Piece<T>> {
        spliced(strings(self.segments@), self.values@)
    }
}

/// What a fragment of this library's values spells.
pub open spec fn sql_of<DB>(fragment: QueryFragment<DB, Value>) -> Seq<Piece<ValueView>> {
    pieces_view(fragment@)
}

proof fn lemma_chars_add<T>(a: Seq<char>, b: Seq<char>)
    ensures
        chars::<T>(a + b) == chars::<T>(a) + chars::<T>(b),
{
    assert(chars::<T>(a + b) =~= chars::<T>(a) + chars::<T>(b));
}

/// Text binds nothing.
pub proof fn lemma_bound_chars<T>(pieces: Seq<Piece<T>>, text: Seq<char>)
    ensures
        bound(pieces + chars(text)) == bound(pieces),
    decreases text.len(),
{
    let all = pieces + chars::<T>(text);
    if text.len() == 0 {
        assert(all =~= pieces);
    } else {
        lemma_bound_chars(pieces, text.drop_last());
        assert(all.drop_last() =~= pieces + chars::<T>(text.drop_last()));
    }
}

/// Text on its own binds nothing.
pub proof fn lemma_bound_text<T>(text: Seq<char>)
    ensures
        bound(chars::<T>(text)) == Seq::<T>::empty(),
{
    lemma_bound_chars::<T>(Seq::empty(), text);
    assert(Seq::<Piece<T>>::empty() + chars::<T>(text) =~= chars::<T>(text));
}

/// What two stretches bind is what the one binds and then what the other does.
pub proof fn lemma_bound_add<T>(a: Seq<Piece<T>>, b: Seq<Piece<T>>)
    ensures
        bound(a + b) == bound(a) + bound(b),
    decreases b.len(),
{
    if b.len() == 0 {
        assert(a + b =~= a);
        assert(bound(a) + bound(b) =~= bound(a));
    } else {
        lemma_bound_add(a, b.drop_last());
        assert((a + b).drop_last() =~= a + b.drop_last());
        assert((a + b).last() == b.last());
        if let Piece::Bind(value) = b.last() {
            assert(bound(a) + bound(b.drop_last()).push(value) =~= (bound(a) + bound(
                b.drop_last(),
            )).push(value));
        }
    }
}

proof fn lemma_spliced<T>(segments: Seq<Seq<char>>, values: Seq<T>)
    requires
        segments.len() == values.len() + 1,
    ensures
        bound(spliced(segments, values)) == values,
        marked(spliced(segments, values)) == joined(segments, "?"@),
        spliced(segments, values).len() == 0 <==> values.len() == 0 && segments[0].len() == 0,
    decreases values.len(),
{
    reveal_strlit("?");
    if values.len() == 0 {
        lemma_bound_chars::<T>(Seq::empty(), segments[0]);
        assert(Seq::<Piece<T>>::empty() + chars::<T>(segments[0]) =~= chars::<T>(segments[0]));
        assert(values =~= Seq::empty());
        assert(marked(chars::<T>(segments[0])) =~= segments[0]);
    } else {
        lemma_spliced(segments.drop_last(), values.drop_last());
        let head = spliced(segments.drop_last(), values.drop_last());
        let mid = head.push(Piece::Bind(values.last()));
        lemma_bound_chars(mid, segments.last());
        assert(mid.drop_last() =~= head);
        assert(values.drop_last().push(values.last()) =~= values);
        assert(marked(mid + chars::<T>(segments.last())) =~= marked(head) + "?"@ + segments.last());
    }
}

impl<DB, T> QueryFragment<DB, T> {
    /// One more segment than there are values.
    pub closed spec fn wf(self) -> bool {
        self.segments@.len() == self.values@.len() + 1
    }

    /// An empty fragment. It fills nothing: its slot and that slot's joiner both vanish.
    pub fn new() -> (r: QueryFragment<DB, T>)
        ensures
            r.wf(),
            r@ == Seq::<Piece<T>>::empty(),
    {
        let mut segments: Vec<String> = Vec::new();
        segments.push(String::new());
        let r = QueryFragment { segments, values: Vec::new(), database: PhantomData };
        assert(r@ =~= Seq::<Piece<T>>::empty());
        r
    }

    /// Appends literal SQL.
    pub fn push(&mut self, sql: &str) -> (r: &mut Self)
        requires
            old(self).wf(),
        ensures
            r.wf(),
            r@ == old(self)@ + chars(sql@),
            *final(self) == *final(r),
    {
        let ghost before = strings(self.segments@);
        let ghost values = self.values@;
        match self.segments.pop() {
            Some(last) => {
                let mut last = last;
                let ghost held = last@;
                last.append(sql);
                self.segments.push(last);
                proof {
                    let after = strings(self.segments@);
                    assert(after.drop_last() =~= before.drop_last());
                    assert(after.last() == held + sql@);
                    lemma_chars_add::<T>(held, sql@);
                    if values.len() == 0 {
                        assert(after[0] == after.last());
                        assert(before[0] == before.last());
                    } else {
                        let head = spliced(before.drop_last(), values.drop_last()).push(
                            Piece::Bind(values.last()),
                        );
                        assert(head + (chars(held) + chars(sql@)) =~= (head + chars(held)) + chars(
                            sql@,
                        ));
                    }
                }
            },
            None => {},
        }
        self
    }

    /// Appends a value, and reserves the place where its placeholder will go.
    pub fn push_bind(&mut self, value: T) -> (r: &mut Self)
        requires
            old(self).wf(),
        ensures
            r.wf(),
            r@ == old(self)@.push(Piece::Bind(value)),
            *final(self) == *final(r),
    {
        let ghost before = strings(self.segments@);
        let ghost values = self.values@;
        self.values.push(value);
        self.segments.push(String::new());
        proof {
            let after = strings(self.segments@);
            assert(after.drop_last() =~= before);
            assert(self.values@.drop_last() =~= values);
            assert(after.last() =~= Seq::<char>::empty());
            let head = spliced(before, values).push(Piece::Bind(value));
            assert(head + chars::<T>(after.last()) =~= head);
        }
        self
    }

    /// Whether this fragment would contribute anything. One with a value is never empty.
    pub fn is_empty(&self) -> (b: bool)
        requires
            self.wf(),
        ensures
            b == (self@.len() == 0),
    {
        proof {
            lemma_spliced(strings(self.segments@), self.values@);
        }
        self.values.len() == 0 && self.segments[0].as_str().is_empty()
    }

    /// The number of bound values.
    pub fn len(&self) -> (n: usize)
        requires
            self.wf(),
        ensures
            n == bound(self@).len(),
    {
        proof {
            lemma_spliced(strings(self.segments@), self.values@);
        }
        self.values.len()
    }

    /// The bound values.
    pub fn values(&self) -> (r: &[T])
        requires
            self.wf(),
        ensures
            r@ == bound(self@),
    {
        proof {
            lemma_spliced(strings(self.segments@), self.values@);
        }
        self.values.as_slice()
    }

    /// The segments and the values, for splicing.
    pub fn parts(&self) -> (r: (&[String], &[T]))
        requires
            self.wf(),
        ensures
            r.0@.len() == r.1@.len() + 1,
            self@ == spliced(strings(r.0@), r.1@),
            r.1@ == bound(self@),
    {
        proof {
            lemma_spliced(strings(self.segments@), self.values@);
        }
        (self.segments.as_slice(), self.values.as_slice())
    }

    /// The SQL with `?` where each value will go.
    pub fn preview(&self) -> (r: String)
        requires
            self.wf(),
        ensures
            r@ == marked(self@),
    {
        proof {
            lemma_spliced(strings(self.segments@), self.values@);
        }
        join(self.segments.as_slice(), "?")
    }
}

impl<DB, T> Default for QueryFragment<DB, T> {
    fn default() -> (r: QueryFragment<DB, T>)
        ensures
            r.wf(),
            r@ == Seq::<Piece<T>>::empty(),
    {
        QueryFragment::new()
    }
}

/// A piece and its copy: the same character, or a value and its clone.
pub open spec fn copied_piece<T: Clone>(piece: Piece<T>, copy: Piece<T>) -> bool {
    match (piece, copy) {
        (Piece::Char(c), Piece::Char(d)) => c == d,
        (Piece::Bind(value), Piece::Bind(other)) => cloned(value, other),
        _ => false,
    }
}

/// Pieces and their copies, one for one.
pub open spec fn copied<T: Clone>(pieces: Seq<Piece<T>>, copies: Seq<Piece<T>>) -> bool {
    &&& pieces.len() == copies.len()
    &&& forall|i: int| 0 <= i < pieces.len() ==> copied_piece(#[trigger] pieces[i], copies[i])
}

proof fn lemma_copied<T: Clone>(segments: Seq<Seq<char>>, values: Seq<T>, others: Seq<T>)
    requires
        values.len() == others.len(),
        forall|i: int| 0 <= i < values.len() ==> cloned(#[trigger] values[i], others[i]),
    ensures
        copied(spliced(segments, values), spliced(segments, others)),
    decreases values.len(),
{
    if values.len() > 0 {
        let less = values.drop_last();
        assert forall|i: int| 0 <= i < less.len() implies cloned(
            #[trigger] less[i],
            others.drop_last()[i],
        ) by {
            assert(less[i] == values[i]);
        }
        lemma_copied(segments.drop_last(), less, others.drop_last());
        assert(cloned(values[values.len() - 1], others[values.len() - 1]));
    }
}

impl<DB, T: Clone> Clone for QueryFragment<DB, T> {
    fn clone(&self) -> (r: QueryFragment<DB, T>)
        ensures
            r.wf() == self.wf(),
            copied(self@, r@),
    {
        let mut segments: Vec<String> = Vec::new();
        let mut i: usize = 0;
        while i < self.segments.len()
            invariant
                i <= self.segments.len(),
                segments.len() == i,
                forall|j: int| 0 <= j < i ==> (#[trigger] segments@[j])@ == self.segments@[j]@,
            decreases self.segments.len() - i,
        {
            segments.push(copy_of(self.segments[i].as_str()));
            i += 1;
        }
        let values = self.values.clone();
        proof {
            assert(strings(segments@) =~= strings(self.segments@));
            assert forall|j: int| 0 <= j < values@.len() implies cloned(
                #[trigger] self.values@[j],
                values@[j],
            ) by {
                assert(cloned(self.values[j], values[j]));
            }
            lemma_copied(strings(segments@), self.values@, values@);
        }
        QueryFragment { segments, values, database: PhantomData }
    }
}

/// A copy of a fragment spells the same text and binds the same values.
pub proof fn law_a_copy_spells_the_same<DB>(
    fragment: QueryFragment<DB, Value>,
    copy: QueryFragment<DB, Value>,
)
    requires
        copied(fragment@, copy@),
    ensures
        sql_of(copy) == sql_of(fragment),
{
    assert forall|i: int| 0 <= i < fragment@.len() implies piece_view(copy@[i]) == piece_view(
        #[trigger] fragment@[i],
    ) by {
        assert(copied_piece(fragment@[i], copy@[i]));
    }
    assert(sql_of(copy) =~= sql_of(fragment));
}

/// Appending keeps what the values mean.
pub proof fn lemma_sql_push<DB>(
    before: QueryFragment<DB, Value>,
    after: QueryFragment<DB, Value>,
    text: Seq<char>,
)
    requires
        after@ == before@ + chars(text),
    ensures
        sql_of(after) == sql_of(before) + chars(text),
{
    assert(sql_of(after) =~= sql_of(before) + chars::<ValueView>(text));
}

/// Binding keeps what the values mean.
pub proof fn lemma_sql_bind<DB>(
    before: QueryFragment<DB, Value>,
    after: QueryFragment<DB, Value>,
    value: Value,
)
    requires
        after@ == before@.push(Piece::Bind(value)),
    ensures
        sql_of(after) == sql_of(before).push(Piece::Bind(value@)),
{
    assert(sql_of(after) =~= sql_of(before).push(Piece::Bind(value@)));
}

/// Appends literal SQL to a fragment of this library's values.
pub fn add_text<DB>(out: &mut QueryFragment<DB, Value>, sql: &str)
    requires
        old(out).wf(),
    ensures
        final(out).wf(),
        sql_of(*final(out)) == sql_of(*old(out)) + chars(sql@),
{
    let ghost before = *out;
    out.push(sql);
    proof {
        lemma_sql_push(before, *out, sql@);
    }
}

/// Binds one of this library's values.
pub fn add_value<DB>(out: &mut QueryFragment<DB, Value>, value: Value)
    requires
        old(out).wf(),
    ensures
        final(out).wf(),
        sql_of(*final(out)) == sql_of(*old(out)).push(Piece::Bind(value@)),
{
    let ghost before = *out;
    out.push_bind(value);
    proof {
        lemma_sql_bind(before, *out, value);
    }
}

/// A fragment shows its text as it is, with a `?` in place of every value, and binds its values in
/// the order in which they stand in it; putting two together does the same to both.
pub proof fn law_a_fragment_shows_its_text_and_binds_its_values<T>(
    text: Seq<char>,
    value: T,
    first: Seq<Piece<T>>,
    second: Seq<Piece<T>>,
)
    ensures
        marked(chars::<T>(text)) == text,
        bound(chars::<T>(text)) == Seq::<T>::empty(),
        marked(seq![Piece::Bind(value)]) == "?"@,
        bound(seq![Piece::Bind(value)]) == seq![value],
        marked(first + second) == marked(first) + marked(second),
        bound(first + second) == bound(first) + bound(second),
{
    reveal_strlit("?");
    let held = seq![Piece::Bind(value)];
    assert(marked(chars::<T>(text)) =~= text);
    lemma_text_binds_nothing::<T>(text);
    assert(marked(held) =~= "?"@);
    assert(held.drop_last() =~= Seq::<Piece<T>>::empty());
    assert(bound(held.drop_last()) =~= Seq::<T>::empty());
    assert(bound(held) =~= seq![value]);
    assert(marked(first + second) =~= marked(first) + marked(second));
    lemma_both_bound(first, second);
}

proof fn lemma_text_binds_nothing<T>(text: Seq<char>)
    ensures
        bound(chars::<T>(text)) == Seq::<T>::empty(),
    decreases text.len(),
{
    if text.len() > 0 {
        lemma_text_binds_nothing::<T>(text.drop_last());
        assert(chars::<T>(text).drop_last() =~= chars::<T>(text.drop_last()));
        assert(chars::<T>(text).last() == letter::<T>(text.last()));
    }
}

proof fn lemma_both_bound<T>(first: Seq<Piece<T>>, second: Seq<Piece<T>>)
    ensures
        bound(first + second) == bound(first) + bound(second),
    decreases second.len(),
{
    let whole = first + second;
    if second.len() > 0 {
        lemma_both_bound(first, second.drop_last());
        assert(whole.drop_last() =~= first + second.drop_last());
        assert(whole.last() == second.last());
        assert(bound(whole) =~= bound(first) + bound(second));
    } else {
        assert(whole =~= first);
        assert(bound(whole) =~= bound(first) + bound(second));
    }
}

} // verus!

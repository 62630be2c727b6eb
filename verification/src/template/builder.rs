//! Filling a template in.

use core::marker::PhantomData;

use vstd::prelude::*;
use vstd::string::StringExecFns;

use crate::template::dialect::{write_placeholder, Dialect};
#[allow(unused_imports)]
use crate::template::dialect::placeholder;
use crate::template::error::Error;
#[allow(unused_imports)]
use crate::template::error::ErrorView;
#[allow(unused_imports)]
use crate::template::fragment::{
    bound, chars, lemma_bound_add, lemma_bound_chars, letter, pieces_view, spliced, sql_of, Piece,
};
use crate::template::fragment::QueryFragment;
use crate::template::query::QueryTemplate;
#[allow(unused_imports)]
use crate::template::query::{name_list, slot_names};
#[allow(unused_imports)]
use crate::template::scan::{interleaved, slot_views, Layout, SlotView};
#[allow(unused_imports)]
use crate::template::value::ValueView;
use crate::template::value::Value;
use crate::text::{copy_of, decimal_of, same};
#[allow(unused_imports)]
use crate::text::{concat, decimal, strings};
#[allow(unused_imports)]
use crate::template::scan::declares;

verus! {

/// One thing supplied for a placeholder: a value that can be looked at, or one that only the
/// caller knows, by the number under which the caller finds it again.
#[derive(Debug, PartialEq, Eq)]
pub enum Argument {
    Value(Value),
    Opaque(u64),
}

/// An argument, as contracts speak of it.
pub enum ArgumentView {
    Value(ValueView),
    Opaque(u64),
}

impl View for Argument {
    type V = ArgumentView;

    open spec fn view(&self) -> ArgumentView {
        match self {
            Argument::Value(value) => ArgumentView::Value(value@),
            Argument::Opaque(handle) => ArgumentView::Opaque(*handle),
        }
    }
}

impl Clone for Argument {
    fn clone(&self) -> (r: Argument)
        ensures
            r@ == self@,
    {
        match self {
            Argument::Value(value) => Argument::Value(value.clone()),
            Argument::Opaque(handle) => Argument::Opaque(*handle),
        }
    }
}

/// What a list of arguments holds.
pub open spec fn argument_views(arguments: Seq<Argument>) -> Seq<ArgumentView> {
    arguments.map_values(|argument: Argument| argument@)
}

/// A value as an argument.
pub open spec fn as_argument(value: ValueView) -> ArgumentView {
    ArgumentView::Value(value)
}

/// Values as arguments.
pub open spec fn as_arguments(values: Seq<ValueView>) -> Seq<ArgumentView> {
    values.map_values(|value: ValueView| as_argument(value))
}

/// A piece whose value is bound as an argument.
pub open spec fn as_piece(piece: Piece<ValueView>) -> Piece<ArgumentView> {
    match piece {
        Piece::Char(c) => Piece::Char(c),
        Piece::Bind(value) => Piece::Bind(as_argument(value)),
    }
}

/// Pieces whose values are bound as arguments.
pub open spec fn as_pieces(pieces: Seq<Piece<ValueView>>) -> Seq<Piece<ArgumentView>> {
    pieces.map_values(|piece: Piece<ValueView>| as_piece(piece))
}

/// A piece with its argument as contracts speak of it.
pub open spec fn argued_piece(piece: Piece<Argument>) -> Piece<ArgumentView> {
    match piece {
        Piece::Char(c) => Piece::Char(c),
        Piece::Bind(argument) => Piece::Bind(argument@),
    }
}

/// Pieces with their arguments as contracts speak of them.
pub open spec fn argued_pieces(pieces: Seq<Piece<Argument>>) -> Seq<Piece<ArgumentView>> {
    pieces.map_values(|piece: Piece<Argument>| argued_piece(piece))
}

/// A builder, as contracts speak of it.
pub struct BuilderView {
    /// The template.
    pub layout: Layout,
    /// What was bound, in order.
    pub arguments: Seq<ArgumentView>,
    /// What was put into each slot.
    pub filled: Seq<Seq<char>>,
    /// The first failure.
    pub error: Option<ErrorView>,
    /// Whether placeholders are numbered.
    pub numbers: bool,
    /// Whether a slot was filled.
    pub filled_any: bool,
    /// The slot that was filled last.
    pub last: int,
}

/// A template that nothing was put into.
pub open spec fn fresh(layout: Layout, numbers: bool) -> BuilderView {
    BuilderView {
        layout,
        arguments: Seq::empty(),
        filled: Seq::new(layout.slots.len(), |i: int| Seq::empty()),
        error: None,
        numbers,
        filled_any: false,
        last: 0,
    }
}

/// `b` with `error` recorded, unless there is an earlier failure.
pub open spec fn failed(b: BuilderView, error: ErrorView) -> BuilderView {
    BuilderView {
        error: if b.error is Some {
            b.error
        } else {
            Some(error)
        },
        ..b
    }
}

/// Why a parameter that is bound too late is refused.
pub open spec fn bind_error() -> ErrorView {
    ErrorView::Positional("every skeleton parameter must be bound before any slot is filled"@)
}

/// `b` after one of the skeleton's own parameters was bound.
pub open spec fn with_bound(b: BuilderView, argument: ArgumentView) -> BuilderView {
    if b.filled_any && !b.numbers {
        failed(b, bind_error())
    } else {
        BuilderView { arguments: b.arguments.push(argument), ..b }
    }
}

/// `b` after one of the skeleton's own parameters was bound, or could not be.
pub open spec fn with_given(b: BuilderView, item: Result<u64, ErrorView>) -> BuilderView {
    match item {
        Ok(handle) => with_bound(b, ArgumentView::Opaque(handle)),
        Err(error) => if b.filled_any && !b.numbers {
            failed(b, bind_error())
        } else {
            failed(b, error)
        },
    }
}

/// The first slot at or after `i` of this name.
pub open spec fn slot_from(slots: Seq<SlotView>, name: Seq<char>, i: int) -> Option<int>
    decreases slots.len() - i,
{
    if !(0 <= i < slots.len()) {
        None
    } else if slots[i].name == name {
        Some(i)
    } else {
        slot_from(slots, name, i + 1)
    }
}

/// The text of a fragment whose values follow `count` others.
pub open spec fn body_text(
    pieces: Seq<Piece<ArgumentView>>,
    count: nat,
    numbers: bool,
) -> Seq<char>
    decreases pieces.len(),
{
    if pieces.len() == 0 {
        Seq::empty()
    } else {
        let head = body_text(pieces.drop_last(), count, numbers);
        match pieces.last() {
            Piece::Char(c) => head.push(c),
            Piece::Bind(_) => head + placeholder(
                numbers,
                count + bound(pieces.drop_last()).len() + 1,
            ),
        }
    }
}

/// What a slot holds once `body` was added to `held`.
pub open spec fn attached(held: Seq<char>, slot: SlotView, body: Seq<char>) -> Seq<char> {
    let apart = if held.len() > 0 {
        held + " "@
    } else {
        held
    };
    if slot.joiner.len() == 0 {
        apart + body
    } else if slot.before {
        apart + slot.joiner + " "@ + body
    } else {
        apart + body + " "@ + slot.joiner
    }
}

/// Why a placeholder after a slot is refused.
pub open spec fn late_text(offset: int) -> Seq<char> {
    "the skeleton has a placeholder at byte "@ + decimal(offset as nat)
        + ", after a slot: splicing in front of it would move it onto the wrong value. Put every placeholder before the first slot, or write the value literally"@
}

/// `b` after `body` was added to the slot `i`.
pub open spec fn with_body(b: BuilderView, i: int, body: Seq<char>) -> BuilderView {
    match b.layout.late {
        Some(offset) if !b.numbers => failed(b, ErrorView::Positional(late_text(offset))),
        _ => BuilderView {
            filled: b.filled.update(i, attached(b.filled[i], b.layout.slots[i], body)),
            ..b
        },
    }
}

/// A slot that comes before one that was filled, where the order counts.
pub open spec fn out_of_order(b: BuilderView, i: int) -> bool {
    !b.numbers && i < b.last
}

/// Why a slot out of order is refused.
pub open spec fn order_error() -> ErrorView {
    ErrorView::Positional("slots must be filled in the order they appear in the skeleton"@)
}

/// Why a slot that does not exist is refused.
pub open spec fn unknown_error(b: BuilderView, name: Seq<char>) -> ErrorView {
    ErrorView::UnknownSlot { asked: name, available: slot_names(b.layout.slots) }
}

/// `b` after the arguments and then the text of `pieces` went into the slot `i`.
pub open spec fn with_pieces(
    b: BuilderView,
    i: int,
    pieces: Seq<Piece<ArgumentView>>,
) -> BuilderView {
    let bound_to = BuilderView {
        arguments: b.arguments + bound(pieces),
        filled_any: true,
        last: i,
        ..b
    };
    if pieces.len() == 0 {
        bound_to
    } else {
        with_body(bound_to, i, body_text(pieces, b.arguments.len(), b.numbers))
    }
}

/// `b` after `item` was put into the slot `name`. An empty item changes nothing.
pub open spec fn with_filled(
    b: BuilderView,
    name: Seq<char>,
    item: Result<Seq<Piece<ValueView>>, ErrorView>,
) -> BuilderView {
    match slot_from(b.layout.slots, name, 0) {
        None => failed(b, unknown_error(b, name)),
        Some(i) => match item {
            Err(error) => failed(b, error),
            Ok(pieces) => if pieces.len() == 0 {
                b
            } else if out_of_order(b, i) {
                failed(b, order_error())
            } else {
                with_pieces(b, i, as_pieces(pieces))
            },
        },
    }
}

/// `b` after a slot was built by hand.
pub open spec fn with_slot(
    b: BuilderView,
    name: Seq<char>,
    pieces: Seq<Piece<ArgumentView>>,
) -> BuilderView {
    match slot_from(b.layout.slots, name, 0) {
        None => failed(b, unknown_error(b, name)),
        Some(i) => if out_of_order(b, i) {
            failed(b, order_error())
        } else {
            with_pieces(b, i, pieces)
        },
    }
}

/// The statement as it stands.
pub open spec fn statement(b: BuilderView) -> Seq<char> {
    interleaved(b.layout.texts, b.filled)
}

/// A slot being built by hand, for SQL that no producer makes.
#[derive(Debug)]
pub struct SlotBuilder<DB> {
    fragment: QueryFragment<DB, Argument>,
}

impl<DB> View for SlotBuilder<DB> {
    type V = Seq<Piece<ArgumentView>>;

    closed spec fn view(&self) -> Seq<Piece<ArgumentView>> {
        argued_pieces(self.fragment@)
    }
}

impl<DB> SlotBuilder<DB> {
    /// The fragment underneath is in order.
    pub closed spec fn wf(self) -> bool {
        self.fragment.wf()
    }

    /// Nothing yet.
    pub fn new() -> (r: SlotBuilder<DB>)
        ensures
            r.wf(),
            r@ == Seq::<Piece<ArgumentView>>::empty(),
    {
        let r = SlotBuilder { fragment: QueryFragment::new() };
        assert(r@ =~= Seq::<Piece<ArgumentView>>::empty());
        r
    }

    /// Appends literal SQL.
    pub fn push(&mut self, sql: &str) -> (r: &mut Self)
        requires
            old(self).wf(),
        ensures
            r.wf(),
            r@ == old(self)@ + chars(sql@),
            *final(self) == *final(r),
    {
        let ghost before = self@;
        self.fragment.push(sql);
        assert(self@ =~= before + chars::<ArgumentView>(sql@));
        self
    }

    /// Appends a value and its placeholder.
    pub fn push_bind(&mut self, value: Value) -> (r: &mut Self)
        requires
            old(self).wf(),
        ensures
            r.wf(),
            r@ == old(self)@.push(Piece::Bind(ArgumentView::Value(value@))),
            *final(self) == *final(r),
    {
        let ghost before = self@;
        self.fragment.push_bind(Argument::Value(value));
        assert(self@ =~= before.push(Piece::Bind(ArgumentView::Value(value@))));
        self
    }

    /// Appends a value that only the caller knows, and its placeholder.
    pub fn push_opaque(&mut self, handle: u64) -> (r: &mut Self)
        requires
            old(self).wf(),
        ensures
            r.wf(),
            r@ == old(self)@.push(Piece::Bind(ArgumentView::Opaque(handle))),
            *final(self) == *final(r),
    {
        let ghost before = self@;
        self.fragment.push_bind(Argument::Opaque(handle));
        assert(self@ =~= before.push(Piece::Bind(ArgumentView::Opaque(handle))));
        self
    }

    /// Whether nothing was pushed yet.
    pub fn is_empty(&self) -> (b: bool)
        requires
            self.wf(),
        ensures
            b == (self@.len() == 0),
    {
        self.fragment.is_empty()
    }
}

/// A template being filled in.
///
/// Bind the skeleton's own parameters first, then fill slots. Where placeholders are
/// numbered that is a convention; where they are not it is enforced, because a fragment that
/// is spliced ahead of a `?` would move it onto the wrong value.
///
/// Nothing here returns an error before [`finish`](Self::finish): the first failure is kept.
#[derive(Debug)]
pub struct QueryBuilder<'t, DB> {
    template: &'t QueryTemplate<DB>,
    arguments: Vec<Argument>,
    filled: Vec<String>,
    error: Option<Error>,
    numbered: bool,
    filled_any: bool,
    last_filled: usize,
    database: PhantomData<DB>,
}

impl<'t, DB> View for QueryBuilder<'t, DB> {
    type V = BuilderView;

    closed spec fn view(&self) -> BuilderView {
        BuilderView {
            layout: self.template@,
            arguments: argument_views(self.arguments@),
            filled: strings(self.filled@),
            error: match self.error {
                Some(error) => Some(error@),
                None => None,
            },
            numbers: self.numbered,
            filled_any: self.filled_any,
            last: self.last_filled as int,
        }
    }
}

impl<'t, DB: Dialect> QueryBuilder<'t, DB> {
    /// The template is in order, and every slot has its place.
    pub closed spec fn wf(self) -> bool {
        &&& self.template.wf()
        &&& self.filled@.len() == self.template@.slots.len()
        &&& self.numbered == DB::numbers()
    }

    /// Starts filling `template` in.
    pub fn new(template: &'t QueryTemplate<DB>) -> (r: QueryBuilder<'t, DB>)
        requires
            template.wf(),
        ensures
            r.wf(),
            r@ == fresh(template@, DB::numbers()),
    {
        let slots = template.parts().1;
        assert(slot_views(slots@).len() == slots@.len());
        let mut filled: Vec<String> = Vec::new();
        while filled.len() < slots.len()
            invariant
                filled.len() <= slots.len(),
                forall|j: int| 0 <= j < filled@.len() ==> (#[trigger] filled@[j])@ == Seq::<
                    char,
                >::empty(),
            decreases slots.len() - filled.len(),
        {
            filled.push(String::new());
        }
        let r = QueryBuilder {
            template,
            arguments: Vec::new(),
            filled,
            error: None,
            numbered: DB::numbered(),
            filled_any: false,
            last_filled: 0,
            database: PhantomData,
        };
        assert(r@.arguments =~= Seq::<ArgumentView>::empty());
        assert(r@.filled =~= fresh(template@, DB::numbers()).filled);
        r
    }

    /// Binds one of the skeleton's own parameters.
    pub fn bind(self, value: Value) -> (r: QueryBuilder<'t, DB>)
        requires
            self.wf(),
        ensures
            r.wf(),
            r@ == with_bound(self@, ArgumentView::Value(value@)),
    {
        self.bind_argument(Argument::Value(value))
    }

    /// Binds one of the skeleton's own parameters with a value that only the caller knows.
    pub fn bind_opaque(self, handle: u64) -> (r: QueryBuilder<'t, DB>)
        requires
            self.wf(),
        ensures
            r.wf(),
            r@ == with_bound(self@, ArgumentView::Opaque(handle)),
    {
        self.bind_argument(Argument::Opaque(handle))
    }

    /// Binds one of the skeleton's own parameters with a value that only the caller knows, or
    /// records why it could not be encoded.
    pub fn bind_with(self, item: Result<u64, Error>) -> (r: QueryBuilder<'t, DB>)
        requires
            self.wf(),
        ensures
            r.wf(),
            r@ == with_given(
                self@,
                match item {
                    Ok(handle) => Ok(handle),
                    Err(error) => Err(error@),
                },
            ),
    {
        match item {
            Ok(handle) => self.bind_opaque(handle),
            Err(error) => {
                if self.filled_any && !self.numbered {
                    return self.fail(
                        Error::Positional(
                            copy_of(
                                "every skeleton parameter must be bound before any slot is filled",
                            ),
                        ),
                    );
                }
                self.fail(error)
            },
        }
    }

    fn bind_argument(self, argument: Argument) -> (r: QueryBuilder<'t, DB>)
        requires
            self.wf(),
        ensures
            r.wf(),
            r@ == with_bound(self@, argument@),
    {
        if self.filled_any && !self.numbered {
            return self.fail(
                Error::Positional(
                    copy_of("every skeleton parameter must be bound before any slot is filled"),
                ),
            );
        }
        let mut r = self;
        r.arguments.push(argument);
        assert(r@.arguments =~= self@.arguments.push(argument@));
        r
    }

    /// Puts a fragment into a slot. Filling a slot more than once appends, with the slot's
    /// joiner between; an empty fragment contributes nothing, not even the joiner.
    pub fn fill(self, slot: &str, item: &QueryFragment<DB, Value>) -> (r: QueryBuilder<'t, DB>)
        requires
            self.wf(),
            item.wf(),
        ensures
            r.wf(),
            r@ == with_filled(self@, slot@, Ok(sql_of(*item))),
    {
        match self.find(slot) {
            None => self.unknown(slot),
            Some(index) => {
                proof {
                    assert(sql_of(*item).len() == item@.len());
                }
                if item.is_empty() {
                    return self;
                }
                if !self.numbered && index < self.last_filled {
                    return self.fail(
                        Error::Positional(
                            copy_of(
                                "slots must be filled in the order they appear in the skeleton",
                            ),
                        ),
                    );
                }
                let (segments, values) = item.parts();
                let mut given: Vec<Argument> = Vec::new();
                let mut i: usize = 0;
                while i < values.len()
                    invariant
                        i <= values.len(),
                        given.len() == i,
                        forall|j: int|
                            0 <= j < i ==> (#[trigger] given@[j])@ == as_argument(values@[j]@),
                    decreases values.len() - i,
                {
                    given.push(Argument::Value(values[i].clone()));
                    i += 1;
                }
                proof {
                    lemma_given_values(strings(segments@), values@, given@);
                }
                self.splice(index, segments, given.as_slice())
            },
        }
    }

    /// Puts into a slot what a producer rendered, or records why it could not.
    pub fn fill_with(self, slot: &str, item: Result<QueryFragment<DB, Value>, Error>) -> (r:
        QueryBuilder<'t, DB>)
        requires
            self.wf(),
            item matches Ok(fragment) ==> fragment.wf(),
        ensures
            r.wf(),
            r@ == with_filled(
                self@,
                slot@,
                match item {
                    Ok(fragment) => Ok(sql_of(fragment)),
                    Err(error) => Err(error@),
                },
            ),
    {
        match item {
            Ok(fragment) => self.fill(slot, &fragment),
            Err(error) => match self.find(slot) {
                None => self.unknown(slot),
                Some(_) => self.fail(error),
            },
        }
    }

    /// Puts a slot that was built by hand into its place. Its placeholders continue the
    /// numbering.
    pub fn slot(self, name: &str, built: &SlotBuilder<DB>) -> (r: QueryBuilder<'t, DB>)
        requires
            self.wf(),
            built.wf(),
        ensures
            r.wf(),
            r@ == with_slot(self@, name@, built@),
    {
        match self.find(name) {
            None => self.unknown(name),
            Some(index) => {
                if !self.numbered && index < self.last_filled {
                    return self.fail(
                        Error::Positional(
                            copy_of(
                                "slots must be filled in the order they appear in the skeleton",
                            ),
                        ),
                    );
                }
                let (segments, given) = built.fragment.parts();
                proof {
                    lemma_given_arguments(strings(segments@), given@);
                }
                self.splice(index, segments, given)
            },
        }
    }

    /// Binds what is given and writes the segments around it into the slot `index`.
    fn splice(self, index: usize, segments: &[String], given: &[Argument]) -> (r: QueryBuilder<
        't,
        DB,
    >)
        requires
            self.wf(),
            segments@.len() == given@.len() + 1,
            index < self@.layout.slots.len(),
        ensures
            r.wf(),
            r@ == with_pieces(
                self@,
                index as int,
                spliced(strings(segments@), argument_views(given@)),
            ),
    {
        let ghost views = argument_views(given@);
        let ghost pieces = spliced(strings(segments@), views);
        let ghost count = self@.arguments.len();
        let mut r = self;
        r.last_filled = index;
        r.filled_any = true;
        let mut body = String::new();
        let mut i: usize = 0;
        let ghost mut done: Seq<Piece<ArgumentView>> = Seq::empty();
        assert(bound(done) =~= Seq::<ArgumentView>::empty());
        assert(r@.arguments =~= self@.arguments + bound(done));
        assert(spliced_view(segments@, views, 0) =~= done);
        while i < given.len()
            invariant
                i <= given.len(),
                segments.len() == given.len() + 1,
                views == argument_views(given@),
                r.wf(),
                r@ == (BuilderView {
                    arguments: self@.arguments + bound(done),
                    filled_any: true,
                    last: index as int,
                    ..self@
                }),
                count == self@.arguments.len(),
                done == spliced_view(segments@, views, i as int),
                bound(done).len() == i,
                body@ == body_text(done, count, self@.numbers),
            decreases given.len() - i,
        {
            let ghost before = done;
            body.append(segments[i].as_str());
            proof {
                lemma_body_chars(before, segments@[i as int]@, count, self@.numbers);
                lemma_bound_chars(before, segments@[i as int]@);
            }
            let ghost texted = before + chars::<ArgumentView>(segments@[i as int]@);
            let ghost held = r@.arguments;
            r.arguments.push(given[i].clone());
            proof {
                assert(views[i as int] == given@[i as int]@);
                assert(r@.arguments =~= held.push(views[i as int]));
                done = texted.push(Piece::Bind(views[i as int]));
                assert(done.drop_last() =~= texted);
                assert(bound(done) =~= bound(texted).push(views[i as int]));
                assert(r@.arguments =~= self@.arguments + bound(done));
                assert(r@.arguments.len() == count + i + 1);
            }
            assert(r.arguments.len() == r@.arguments.len());
            let mark = write_placeholder(r.numbered, r.arguments.len());
            body.append(mark.as_str());
            i += 1;
        }
        body.append(segments[i].as_str());
        let empty = given.len() == 0 && segments[0].as_str().is_empty();
        proof {
            lemma_body_chars(done, segments@[i as int]@, count, self@.numbers);
            lemma_bound_chars(done, segments@[i as int]@);
            lemma_spliced_view(segments@, views);
            assert(pieces =~= done + chars::<ArgumentView>(segments@[i as int]@));
            assert(empty == (pieces.len() == 0)) by {
                if given@.len() > 0 {
                    assert(bound(done).len() > 0);
                    assert(done.len() > 0);
                }
            }
        }
        if empty {
            return r;
        }
        r.attach(index, body.as_str());
        r
    }

    /// Appends `body` to a slot, with its joiner.
    fn attach(&mut self, index: usize, body: &str)
        requires
            old(self).wf(),
            index < old(self)@.layout.slots.len(),
        ensures
            final(self).wf(),
            final(self)@ == with_body(old(self)@, index as int, body@),
    {
        let ghost before = self@;
        if !self.numbered {
            if let Some(offset) = self.template.late_placeholder() {
                if self.error.is_none() {
                    let mut message = copy_of("the skeleton has a placeholder at byte ");
                    message.append(decimal_of(offset as u128).as_str());
                    message.append(
                        ", after a slot: splicing in front of it would move it onto the wrong value. Put every placeholder before the first slot, or write the value literally",
                    );
                    self.error = Some(Error::Positional(message));
                }
                return ;
            }
        }
        let slots = self.template.parts().1;
        assert(slot_views(slots@)[index as int] == slots@[index as int]@);
        let mut held = copy_of(self.filled[index].as_str());
        if !held.as_str().is_empty() {
            held.append(" ");
        }
        if slots[index].joiner.as_str().is_empty() {
            held.append(body);
        } else if slots[index].before {
            held.append(slots[index].joiner.as_str());
            held.append(" ");
            held.append(body);
        } else {
            held.append(body);
            held.append(" ");
            held.append(slots[index].joiner.as_str());
        }
        let ghost now = held@;
        self.filled.set(index, held);
        assert(now =~= attached(
            before.filled[index as int],
            before.layout.slots[index as int],
            body@,
        ));
        assert(self@.filled =~= before.filled.update(index as int, now));
    }

    /// The statement as it currently stands.
    pub fn sql(&self) -> (r: String)
        requires
            self.wf(),
        ensures
            r@ == statement(self@),
    {
        let texts = self.template.parts().0;
        assert(strings(texts@).len() == texts@.len());
        let mut sql = copy_of(texts[0].as_str());
        let mut i: usize = 0;
        assert(strings(texts@).take(1) =~= seq![texts@[0]@]);
        while i < self.filled.len()
            invariant
                i <= self.filled.len(),
                texts.len() == self.filled.len() + 1,
                sql@ == interleaved(strings(texts@).take(i + 1), strings(self.filled@).take(i as int)),
            decreases self.filled.len() - i,
        {
            sql.append(self.filled[i].as_str());
            sql.append(texts[i + 1].as_str());
            proof {
                let a = strings(texts@).take(i + 2);
                let b = strings(self.filled@).take(i + 1);
                assert(a.drop_last() =~= strings(texts@).take(i + 1));
                assert(b.drop_last() =~= strings(self.filled@).take(i as int));
                assert(a.last() == texts@[i + 1]@);
                assert(b.last() == self.filled@[i as int]@);
            }
            i += 1;
        }
        assert(strings(texts@).take(i + 1) =~= strings(texts@));
        assert(strings(self.filled@).take(i as int) =~= strings(self.filled@));
        sql
    }

    /// Finishes: the statement and what is bound, or the first failure.
    pub fn finish(self) -> (r: Result<(String, Vec<Argument>), Error>)
        requires
            self.wf(),
        ensures
            match self@.error {
                None => r matches Ok((sql, arguments)) && sql@ == statement(self@)
                    && argument_views(arguments@) == self@.arguments,
                Some(error) => r matches Err(found) && found@ == error,
            },
    {
        let sql = self.sql();
        match self.error {
            Some(error) => Err(error),
            None => Ok((sql, self.arguments)),
        }
    }

    /// Locates a slot by name.
    fn find(&self, name: &str) -> (r: Option<usize>)
        requires
            self.wf(),
        ensures
            crate::lexical::place(r) == slot_from(self@.layout.slots, name@, 0),
            r matches Some(i) ==> i < self@.layout.slots.len(),
    {
        let slots = self.template.parts().1;
        let mut i: usize = 0;
        while i < slots.len()
            invariant
                i <= slots.len(),
                slot_views(slots@) == self@.layout.slots,
                slot_from(self@.layout.slots, name@, 0) == slot_from(
                    self@.layout.slots,
                    name@,
                    i as int,
                ),
            decreases slots.len() - i,
        {
            assert(slot_views(slots@)[i as int] == slots@[i as int]@);
            if same(slots[i].name.as_str(), name) {
                return Some(i);
            }
            i += 1;
        }
        None
    }

    fn unknown(self, asked: &str) -> (r: QueryBuilder<'t, DB>)
        requires
            self.wf(),
        ensures
            r.wf(),
            r@ == failed(self@, unknown_error(self@, asked@)),
    {
        let names = self.template.slots();
        let mut available: Vec<String> = Vec::new();
        let mut i: usize = 0;
        while i < names.len()
            invariant
                i <= names.len(),
                available.len() == i,
                forall|j: int| 0 <= j < i ==> (#[trigger] available@[j])@ == names@[j]@,
            decreases names.len() - i,
        {
            available.push(copy_of(names[i]));
            i += 1;
        }
        assert(strings(available@) =~= name_list(names@));
        self.fail(Error::UnknownSlot { asked: copy_of(asked), available })
    }

    /// Keeps the first failure and carries on.
    pub fn fail(self, error: Error) -> (r: QueryBuilder<'t, DB>)
        requires
            self.wf(),
        ensures
            r.wf(),
            r@ == failed(self@, error@),
    {
        let mut r = self;
        if r.error.is_none() {
            r.error = Some(error);
        }
        r
    }
}

/// The first `n` segments, each followed by its argument.
spec fn spliced_view(segments: Seq<String>, given: Seq<ArgumentView>, n: int) -> Seq<
    Piece<ArgumentView>,
>
    decreases n,
{
    if n <= 0 {
        Seq::empty()
    } else {
        (spliced_view(segments, given, n - 1) + chars(segments[n - 1]@)).push(
            Piece::Bind(given[n - 1]),
        )
    }
}

proof fn lemma_spliced_prefix(segments: Seq<String>, given: Seq<ArgumentView>, n: int)
    requires
        segments.len() == given.len() + 1,
        0 <= n <= given.len(),
    ensures
        spliced(strings(segments).take(n + 1), given.take(n)) == spliced_view(segments, given, n)
            + chars(segments[n]@),
    decreases n,
{
    let s = strings(segments).take(n + 1);
    let v = given.take(n);
    if n == 0 {
        assert(spliced(s, v) =~= spliced_view(segments, given, n) + chars::<ArgumentView>(
            segments[n]@,
        ));
    } else {
        lemma_spliced_prefix(segments, given, n - 1);
        assert(s.drop_last() =~= strings(segments).take(n));
        assert(v.drop_last() =~= given.take(n - 1));
        assert(s.last() == segments[n]@);
        assert(v.last() == given[n - 1]);
    }
}

proof fn lemma_spliced_view(segments: Seq<String>, given: Seq<ArgumentView>)
    requires
        segments.len() == given.len() + 1,
    ensures
        spliced(strings(segments), given) == spliced_view(segments, given, given.len() as int)
            + chars(segments[given.len() as int]@),
{
    lemma_spliced_prefix(segments, given, given.len() as int);
    assert(strings(segments).take((given.len() + 1) as int) =~= strings(segments));
    assert(given.take(given.len() as int) =~= given);
}

/// The values of a fragment are given as arguments.
proof fn lemma_given_values(segments: Seq<Seq<char>>, values: Seq<Value>, given: Seq<Argument>)
    requires
        segments.len() == values.len() + 1,
        given.len() == values.len(),
        forall|j: int| 0 <= j < given.len() ==> (#[trigger] given[j])@ == as_argument(values[j]@),
    ensures
        spliced(segments, argument_views(given)) == as_pieces(
            pieces_view(spliced(segments, values)),
        ),
    decreases values.len(),
{
    let left = spliced(segments, argument_views(given));
    let right = as_pieces(pieces_view(spliced(segments, values)));
    if values.len() == 0 {
        assert(left =~= right);
    } else {
        let less = given.drop_last();
        assert forall|j: int| 0 <= j < less.len() implies (#[trigger] less[j])@ == as_argument(
            values.drop_last()[j]@,
        ) by {
            assert(less[j] == given[j]);
        }
        lemma_given_values(segments.drop_last(), values.drop_last(), less);
        assert(argument_views(given).drop_last() =~= argument_views(less));
        assert(given[given.len() - 1]@ == as_argument(values[values.len() - 1]@));
        let head = spliced(segments.drop_last(), values.drop_last());
        assert(right =~= as_pieces(pieces_view(head)).push(
            Piece::Bind(as_argument(values.last()@)),
        ) + chars::<ArgumentView>(segments.last()));
    }
}

/// The arguments of a slot that was built by hand are given as they are.
proof fn lemma_given_arguments(segments: Seq<Seq<char>>, given: Seq<Argument>)
    requires
        segments.len() == given.len() + 1,
    ensures
        spliced(segments, argument_views(given)) == argued_pieces(spliced(segments, given)),
    decreases given.len(),
{
    let left = spliced(segments, argument_views(given));
    let right = argued_pieces(spliced(segments, given));
    if given.len() == 0 {
        assert(left =~= right);
    } else {
        lemma_given_arguments(segments.drop_last(), given.drop_last());
        assert(argument_views(given).drop_last() =~= argument_views(given.drop_last()));
        let head = spliced(segments.drop_last(), given.drop_last());
        assert(right =~= argued_pieces(head).push(Piece::Bind(given.last()@)) + chars::<
            ArgumentView,
        >(segments.last()));
    }
}

/// What values are bound as.
proof fn lemma_bound_as(pieces: Seq<Piece<ValueView>>)
    ensures
        bound(as_pieces(pieces)) == as_arguments(bound(pieces)),
    decreases pieces.len(),
{
    if pieces.len() == 0 {
        assert(as_arguments(bound(pieces)) =~= Seq::<ArgumentView>::empty());
    } else {
        lemma_bound_as(pieces.drop_last());
        assert(as_pieces(pieces).drop_last() =~= as_pieces(pieces.drop_last()));
        if let Piece::Bind(value) = pieces.last() {
            let held = bound(pieces.drop_last());
            assert(as_arguments(held.push(value)) =~= as_arguments(held).push(as_argument(value)));
        }
    }
}

proof fn lemma_body_chars(
    pieces: Seq<Piece<ArgumentView>>,
    text: Seq<char>,
    count: nat,
    numbers: bool,
)
    ensures
        body_text(pieces + chars(text), count, numbers) == body_text(pieces, count, numbers) + text,
    decreases text.len(),
{
    let all = pieces + chars::<ArgumentView>(text);
    if text.len() == 0 {
        assert(all =~= pieces);
        assert(body_text(pieces, count, numbers) + text =~= body_text(pieces, count, numbers));
    } else {
        lemma_body_chars(pieces, text.drop_last(), count, numbers);
        assert(all.drop_last() =~= pieces + chars::<ArgumentView>(text.drop_last()));
        assert(all.last() == letter::<ArgumentView>(text.last()));
        assert((body_text(pieces, count, numbers) + text.drop_last()).push(text.last())
            =~= body_text(pieces, count, numbers) + text);
    }
}

/// A template that nothing was put into reads as its skeleton.
pub proof fn law_an_unfilled_template_is_its_skeleton(layout: Layout, numbers: bool)
    requires
        layout.texts.len() == layout.slots.len() + 1,
    ensures
        statement(fresh(layout, numbers)) == concat(layout.texts),
{
    let filled = fresh(layout, numbers).filled;
    lemma_interleaved_empty(layout.texts, filled);
}

proof fn lemma_interleaved_empty(texts: Seq<Seq<char>>, filled: Seq<Seq<char>>)
    requires
        texts.len() == filled.len() + 1,
        forall|i: int| 0 <= i < filled.len() ==> (#[trigger] filled[i]).len() == 0,
    ensures
        interleaved(texts, filled) == concat(texts),
    decreases texts.len(),
{
    if texts.len() == 1 {
        assert(texts.drop_last() =~= Seq::<Seq<char>>::empty());
        assert(concat(texts.drop_last()) == Seq::<char>::empty());
        assert(concat(texts) == concat(texts.drop_last()) + texts.last());
        assert(concat(texts) =~= texts[0]);
    } else {
        lemma_interleaved_empty(texts.drop_last(), filled.drop_last());
        assert(filled.last().len() == 0);
        assert(interleaved(texts.drop_last(), filled.drop_last()) + filled.last() + texts.last()
            =~= concat(texts.drop_last()) + texts.last());
    }
}

/// An empty fragment leaves a query as it was, joiner and all.
pub proof fn law_an_empty_fragment_changes_nothing(b: BuilderView, name: Seq<char>)
    requires
        slot_from(b.layout.slots, name, 0) is Some,
    ensures
        with_filled(b, name, Ok(Seq::empty())) == b,
{
}

/// The first failure is the one that is reported: no later call takes it back or replaces it.
pub proof fn law_the_first_failure_is_kept(
    b: BuilderView,
    argument: ArgumentView,
    name: Seq<char>,
    item: Result<Seq<Piece<ValueView>>, ErrorView>,
    pieces: Seq<Piece<ArgumentView>>,
    error: ErrorView,
)
    requires
        b.error is Some,
    ensures
        with_bound(b, argument).error == b.error,
        with_given(b, Err(error)).error == b.error,
        with_filled(b, name, item).error == b.error,
        with_slot(b, name, pieces).error == b.error,
        failed(b, error).error == b.error,
{
}

/// Where placeholders are not numbered, a statement that is finished without a failure was
/// never spliced in front of one of its own placeholders: a template with a placeholder after
/// a slot fails as soon as something is put into a slot.
pub proof fn law_a_late_placeholder_is_never_passed(
    b: BuilderView,
    name: Seq<char>,
    pieces: Seq<Piece<ValueView>>,
)
    requires
        !b.numbers,
        b.layout.late is Some,
        pieces.len() > 0,
        slot_from(b.layout.slots, name, 0) is Some,
    ensures
        with_filled(b, name, Ok(pieces)).error is Some,
        with_filled(b, name, Ok(pieces)).filled == b.filled,
{
}

/// Filling binds the values of what is put in, behind those that were bound before.
pub proof fn law_filling_binds_behind_what_is_bound(
    b: BuilderView,
    name: Seq<char>,
    pieces: Seq<Piece<ValueView>>,
)
    requires
        slot_from(b.layout.slots, name, 0) matches Some(i) && !out_of_order(b, i),
    ensures
        with_filled(b, name, Ok(pieces)).arguments == b.arguments + as_arguments(bound(pieces)),
{
    if pieces.len() == 0 {
        assert(bound(pieces) =~= Seq::<ValueView>::empty());
        assert(as_arguments(bound(pieces)) =~= Seq::<ArgumentView>::empty());
        assert(b.arguments + as_arguments(bound(pieces)) =~= b.arguments);
    } else {
        lemma_bound_as(pieces);
    }
}

/// Where placeholders are numbered, each one that is written into a slot names the
/// argument that was bound there, whatever was bound before and whatever is bound after it.
pub proof fn law_each_placeholder_names_its_value(
    b: BuilderView,
    i: int,
    pieces: Seq<Piece<ArgumentView>>,
    k: int,
)
    requires
        0 <= k < pieces.len(),
        pieces[k] is Bind,
    ensures
        ({
            let n = b.arguments.len() + bound(pieces.take(k)).len() + 1;
            &&& body_text(pieces.take(k + 1), b.arguments.len(), b.numbers) == body_text(
                pieces.take(k),
                b.arguments.len(),
                b.numbers,
            ) + placeholder(b.numbers, n)
            &&& n <= with_pieces(b, i, pieces).arguments.len()
            &&& with_pieces(b, i, pieces).arguments[n - 1] == pieces[k]->Bind_0
        }),
{
    let head = pieces.take(k);
    let next = pieces.take(k + 1);
    assert(next.drop_last() =~= head);
    assert(next.last() == pieces[k]);
    assert(pieces =~= next + pieces.skip(k + 1));
    lemma_bound_add(next, pieces.skip(k + 1));
    let values = bound(pieces);
    assert(values[bound(head).len() as int] == pieces[k]->Bind_0);
}

proof fn lemma_slot_from(slots: Seq<SlotView>, name: Seq<char>, i: int)
    requires
        0 <= i <= slots.len(),
    ensures
        match slot_from(slots, name, i) {
            Some(found) => i <= found < slots.len() && slots[found].name == name,
            None => forall|j: int| i <= j < slots.len() ==> (#[trigger] slots[j]).name != name,
        },
    decreases slots.len() - i,
{
    if i < slots.len() {
        lemma_slot_from(slots, name, i + 1);
    }
}

/// What cannot be done is refused with its own reason, and changes nothing else: a slot that the
/// template does not declare, with the names of those that it does; what could not be rendered, with
/// its own error; and, where the order counts, a slot before one that was filled and a parameter
/// that is bound behind one.
pub proof fn law_a_refusal_says_why(
    b: BuilderView,
    name: Seq<char>,
    pieces: Seq<Piece<ValueView>>,
    error: ErrorView,
    argument: ArgumentView,
)
    requires
        b.error is None,
    ensures
        (forall|j: int| 0 <= j < b.layout.slots.len() ==> (#[trigger] b.layout.slots[j]).name != name)
            ==> {
            let after = with_filled(b, name, Ok(pieces));
            &&& after == (BuilderView { error: after.error, ..b })
            &&& after.error matches Some(ErrorView::UnknownSlot { asked, available }) && asked
                == name && available == Seq::new(
                b.layout.slots.len(),
                |j: int| b.layout.slots[j].name,
            )
        },
        declares(b.layout.slots, name) ==> with_filled(b, name, Err(error)) == (BuilderView {
            error: Some(error),
            ..b
        }),
        !b.numbers && pieces.len() > 0 && (slot_from(b.layout.slots, name, 0) matches Some(i) && i
            < b.last) ==> {
            let after = with_filled(b, name, Ok(pieces));
            &&& after == (BuilderView { error: after.error, ..b })
            &&& after.error matches Some(ErrorView::Positional(_))
        },
        !b.numbers && b.filled_any ==> {
            let after = with_bound(b, argument);
            &&& after == (BuilderView { error: after.error, ..b })
            &&& after.error matches Some(ErrorView::Positional(_))
        },
{
    lemma_slot_from(b.layout.slots, name, 0);
    assert(slot_names(b.layout.slots) =~= Seq::new(
        b.layout.slots.len(),
        |j: int| b.layout.slots[j].name,
    ));
}

} // verus!

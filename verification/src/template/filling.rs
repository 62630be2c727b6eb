//! What filling a slot does to a statement.

use vstd::prelude::*;

#[allow(unused_imports)]
use crate::template::builder::{
    as_pieces, attached, body_text, slot_from, statement, with_bound, with_filled, with_pieces,
    with_slot, ArgumentView, BuilderView,
};
#[allow(unused_imports)]
use crate::template::dialect::placeholder;
#[allow(unused_imports)]
use crate::template::fragment::{bound, Piece};
#[allow(unused_imports)]
use crate::template::scan::{interleaved, SlotView};
#[allow(unused_imports)]
use crate::template::value::ValueView;
#[allow(unused_imports)]
use crate::text::decimal;

verus! {

/// The first slot of this name is the `i`th.
pub open spec fn first_named(slots: Seq<SlotView>, name: Seq<char>, i: int) -> bool {
    &&& 0 <= i < slots.len()
    &&& slots[i].name == name
    &&& forall|j: int| 0 <= j < i ==> (#[trigger] slots[j]).name != name
}

/// A slot of this name is there.
pub open spec fn is_named(slots: Seq<SlotView>, name: Seq<char>) -> bool {
    exists|i: int| 0 <= i < slots.len() && (#[trigger] slots[i]).name == name
}

proof fn lemma_slot(slots: Seq<SlotView>, name: Seq<char>, i: int)
    requires
        0 <= i <= slots.len(),
        forall|j: int| 0 <= j < i ==> (#[trigger] slots[j]).name != name,
    ensures
        match slot_from(slots, name, i) {
            Some(k) => first_named(slots, name, k),
            None => !is_named(slots, name),
        },
    decreases slots.len() - i,
{
    if i < slots.len() && slots[i].name != name {
        lemma_slot(slots, name, i + 1);
    }
}

/// What is written for the value that is bound as the `n`th.
pub open spec fn mark_for(numbers: bool, n: nat) -> Seq<char> {
    if numbers {
        seq!['$'] + decimal(n)
    } else {
        seq!['?']
    }
}

/// The text of a fragment behind `n` bound values, from its `i`th place on: each character as it
/// is, and each value by the placeholder that names it.
pub open spec fn text_from(
    pieces: Seq<Piece<ArgumentView>>,
    i: int,
    n: nat,
    numbers: bool,
) -> Seq<char>
    decreases pieces.len() - i,
{
    if !(0 <= i < pieces.len()) {
        Seq::empty()
    } else {
        match pieces[i] {
            Piece::Char(c) => seq![c] + text_from(pieces, i + 1, n, numbers),
            Piece::Bind(_) => mark_for(numbers, n + 1) + text_from(pieces, i + 1, n + 1, numbers),
        }
    }
}

/// The arguments that a fragment binds, from its `i`th place on.
pub open spec fn bound_from(pieces: Seq<Piece<ArgumentView>>, i: int) -> Seq<ArgumentView>
    decreases pieces.len() - i,
{
    if !(0 <= i < pieces.len()) {
        Seq::empty()
    } else {
        match pieces[i] {
            Piece::Char(_) => bound_from(pieces, i + 1),
            Piece::Bind(argument) => seq![argument] + bound_from(pieces, i + 1),
        }
    }
}

proof fn lemma_text(pieces: Seq<Piece<ArgumentView>>, i: int, count: nat, numbers: bool)
    requires
        0 <= i <= pieces.len(),
    ensures
        body_text(pieces, count, numbers) == body_text(pieces.take(i), count, numbers) + text_from(
            pieces,
            i,
            count + bound(pieces.take(i)).len(),
            numbers,
        ),
        bound(pieces) == bound(pieces.take(i)) + bound_from(pieces, i),
    decreases pieces.len() - i,
{
    let head = pieces.take(i);
    if i < pieces.len() {
        lemma_text(pieces, i + 1, count, numbers);
        let next = pieces.take(i + 1);
        assert(next.drop_last() =~= head);
        assert(next.last() == pieces[i]);
        reveal_strlit("$");
        reveal_strlit("?");
        let n = count + bound(head).len();
        match pieces[i] {
            Piece::Char(c) => {
                let rest = text_from(pieces, i + 1, n, numbers);
                assert(body_text(head, count, numbers).push(c) + rest =~= body_text(
                    head,
                    count,
                    numbers,
                ) + (seq![c] + rest));
            },
            Piece::Bind(argument) => {
                let rest = text_from(pieces, i + 1, n + 1, numbers);
                assert(placeholder(numbers, n + 1) =~= mark_for(numbers, n + 1));
                assert(bound(next) == bound(head).push(argument));
                assert(body_text(next, count, numbers) + rest =~= body_text(head, count, numbers)
                    + (mark_for(numbers, n + 1) + rest));
                assert(bound(next) + bound_from(pieces, i + 1) =~= bound(head) + bound_from(
                    pieces,
                    i,
                ));
            },
        }
    } else {
        assert(head =~= pieces);
        assert(body_text(pieces, count, numbers) + Seq::<char>::empty() =~= body_text(
            pieces,
            count,
            numbers,
        ));
        assert(bound(pieces) + Seq::<ArgumentView>::empty() =~= bound(pieces));
    }
}

/// The text of a fragment behind what is bound already.
pub open spec fn fragment_text(b: BuilderView, pieces: Seq<Piece<ArgumentView>>) -> Seq<char> {
    text_from(pieces, 0, b.arguments.len(), b.numbers)
}

/// A fragment was appended to a slot: what the slot held is still there, in front, apart from
/// what was added; and what was added is the text of the fragment with the slot's joiner, on
/// the side that the slot says.
pub open spec fn appended(
    before: Seq<char>,
    after: Seq<char>,
    slot: SlotView,
    body: Seq<char>,
) -> bool {
    &&& before.is_prefix_of(after)
    &&& ({
        let added = after.skip(before.len() as int);
        let own = if before.len() > 0 {
            added.skip(1)
        } else {
            added
        };
        &&& before.len() > 0 ==> added.len() > 0 && added[0] == ' '
        &&& if slot.joiner.len() == 0 {
            own == body
        } else if slot.before {
            own == slot.joiner + seq![' '] + body
        } else {
            own == body + seq![' '] + slot.joiner
        }
    })
}

proof fn lemma_appended(before: Seq<char>, slot: SlotView, body: Seq<char>)
    ensures
        appended(before, attached(before, slot, body), slot, body),
{
    reveal_strlit(" ");
    let after = attached(before, slot, body);
    assert(before =~= after.take(before.len() as int));
    let added = after.skip(before.len() as int);
    let own = if before.len() > 0 {
        added.skip(1)
    } else {
        added
    };
    if slot.joiner.len() == 0 {
        assert(own =~= body);
    } else if slot.before {
        assert(own =~= slot.joiner + seq![' '] + body);
    } else {
        assert(own =~= body + seq![' '] + slot.joiner);
    }
}

/// Nothing stands in the way of filling the slot `i`: placeholders are numbered, or no slot
/// behind it was filled yet and no placeholder of the skeleton stands behind a slot.
pub open spec fn may_fill(b: BuilderView, i: int) -> bool {
    b.numbers || (i >= b.last && b.layout.late is None)
}

/// The slot `i` was filled with a fragment, and nothing else was touched.
pub open spec fn was_filled(
    b: BuilderView,
    r: BuilderView,
    i: int,
    pieces: Seq<Piece<ArgumentView>>,
) -> bool {
    &&& r.layout == b.layout && r.numbers == b.numbers && r.error == b.error
    &&& r.filled.len() == b.filled.len()
    &&& forall|j: int| 0 <= j < b.filled.len() && j != i ==> (#[trigger] r.filled[j]) == b.filled[j]
    &&& appended(b.filled[i], r.filled[i], b.layout.slots[i], fragment_text(b, pieces))
    &&& r.arguments == b.arguments + bound_from(pieces, 0)
    &&& r.filled_any && r.last == i
}

proof fn lemma_pieces(b: BuilderView, i: int, pieces: Seq<Piece<ArgumentView>>)
    requires
        0 <= i < b.filled.len(),
        pieces.len() > 0,
        b.numbers || b.layout.late is None,
    ensures
        was_filled(b, with_pieces(b, i, pieces), i, pieces),
{
    lemma_text(pieces, 0, b.arguments.len(), b.numbers);
    assert(pieces.take(0) =~= Seq::<Piece<ArgumentView>>::empty());
    let body = body_text(pieces, b.arguments.len(), b.numbers);
    assert(body =~= fragment_text(b, pieces));
    assert(bound(pieces) =~= bound_from(pieces, 0));
    lemma_appended(b.filled[i], b.layout.slots[i], body);
}

/// Filling appends and never replaces. What a slot held stays, and behind it stands the text of
/// the fragment, with the slot's joiner on its side; every value of the fragment is bound behind
/// those that were bound, and its placeholder names it; no other slot changes. A fill that cannot
/// be done is recorded as the failure, and changes no slot.
pub proof fn law_filling_appends(b: BuilderView, name: Seq<char>, pieces: Seq<Piece<ValueView>>)
    requires
        b.filled.len() == b.layout.slots.len(),
        pieces.len() > 0,
    ensures
        ({
            let r = with_filled(b, name, Ok(pieces));
            &&& forall|i: int| #[trigger]
                first_named(b.layout.slots, name, i) && may_fill(b, i) ==> was_filled(
                    b,
                    r,
                    i,
                    as_pieces(pieces),
                )
            &&& forall|i: int| #[trigger]
                first_named(b.layout.slots, name, i) && !may_fill(b, i) ==> r.filled == b.filled
                    && r.error is Some
            &&& !is_named(b.layout.slots, name) ==> r.filled == b.filled && r.arguments
                == b.arguments && r.error is Some
        }),
{
    let r = with_filled(b, name, Ok(pieces));
    let own = as_pieces(pieces);
    lemma_slot(b.layout.slots, name, 0);
    assert forall|i: int| #[trigger]
        first_named(b.layout.slots, name, i) && may_fill(b, i) implies was_filled(
        b,
        r,
        i,
        own,
    ) by {
        lemma_one_first(b.layout.slots, name, i);
        lemma_pieces(b, i, own);
    }
    assert forall|i: int| #[trigger]
        first_named(b.layout.slots, name, i) && !may_fill(b, i) implies r.filled == b.filled
        && r.error is Some by {
        lemma_one_first(b.layout.slots, name, i);
    }
}

proof fn lemma_one_first(slots: Seq<SlotView>, name: Seq<char>, i: int)
    requires
        first_named(slots, name, i),
    ensures
        slot_from(slots, name, 0) == Some(i),
{
    lemma_slot(slots, name, 0);
    if let Some(k) = slot_from(slots, name, 0) {
        assert(k == i) by {
            if k < i {
                assert(slots[k].name != name);
            } else if i < k {
                assert(slots[i].name != name);
            }
        }
    } else {
        assert(slots[i].name == name);
    }
}

/// A slot that was built by hand is filled like any other, whatever it binds. An empty one
/// writes nothing.
pub proof fn law_a_built_slot_appends(
    b: BuilderView,
    name: Seq<char>,
    i: int,
    pieces: Seq<Piece<ArgumentView>>,
)
    requires
        b.filled.len() == b.layout.slots.len(),
        first_named(b.layout.slots, name, i),
    ensures
        ({
            let r = with_slot(b, name, pieces);
            &&& may_fill(b, i) && pieces.len() > 0 ==> was_filled(b, r, i, pieces)
            &&& !may_fill(b, i) && pieces.len() > 0 ==> r.filled == b.filled && r.error is Some
            &&& pieces.len() == 0 ==> r.filled == b.filled && r.arguments == b.arguments
        }),
{
    lemma_one_first(b.layout.slots, name, i);
    if pieces.len() == 0 {
        assert(bound(pieces) =~= Seq::<ArgumentView>::empty());
        assert(b.arguments + bound(pieces) =~= b.arguments);
    } else if may_fill(b, i) {
        lemma_pieces(b, i, pieces);
    }
}

/// A parameter of the skeleton is bound behind those that were bound, unless placeholders are
/// told by their position and a slot was filled already: then it is refused.
pub proof fn law_binding_appends(b: BuilderView, argument: ArgumentView)
    ensures
        ({
            let r = with_bound(b, argument);
            &&& r.filled == b.filled && r.layout == b.layout
            &&& b.numbers || !b.filled_any ==> r.arguments == b.arguments.push(argument)
                && r.error == b.error
            &&& !(b.numbers || !b.filled_any) ==> r.arguments == b.arguments && r.error is Some
        }),
{
}

/// The texts of a skeleton from the `i`th on, with what the slots hold between them.
pub open spec fn woven(texts: Seq<Seq<char>>, filled: Seq<Seq<char>>, i: int) -> Seq<char>
    decreases texts.len() - i,
{
    if !(0 <= i < texts.len()) {
        Seq::empty()
    } else if i < filled.len() {
        texts[i] + filled[i] + woven(texts, filled, i + 1)
    } else {
        texts[i] + woven(texts, filled, i + 1)
    }
}

proof fn lemma_woven(texts: Seq<Seq<char>>, filled: Seq<Seq<char>>, i: int)
    requires
        texts.len() == filled.len() + 1,
        0 <= i < texts.len(),
    ensures
        interleaved(texts, filled) == interleaved(texts.take(i + 1), filled.take(i)) + (if i
            < filled.len() {
            filled[i] + woven(texts, filled, i + 1)
        } else {
            Seq::empty()
        }),
    decreases texts.len() - i,
{
    if i < filled.len() {
        lemma_woven(texts, filled, i + 1);
        let a = texts.take(i + 2);
        let b = filled.take(i + 1);
        assert(a.drop_last() =~= texts.take(i + 1));
        assert(b.drop_last() =~= filled.take(i));
        assert(a.last() == texts[i + 1]);
        assert(b.last() == filled[i]);
        let before = interleaved(texts.take(i + 1), filled.take(i));
        if i + 1 < filled.len() {
            let rest = woven(texts, filled, i + 2);
            assert(before + filled[i] + texts[i + 1] + (filled[i + 1] + rest) =~= before + (
            filled[i] + (texts[i + 1] + filled[i + 1] + rest)));
        } else {
            assert(woven(texts, filled, i + 2) =~= Seq::<char>::empty());
            assert(before + filled[i] + texts[i + 1] + Seq::<char>::empty() =~= before + (filled[i]
                + (texts[i + 1] + Seq::<char>::empty())));
        }
    } else {
        assert(texts.take(i + 1) =~= texts);
        assert(filled.take(i) =~= filled);
        assert(interleaved(texts, filled) + Seq::<char>::empty() =~= interleaved(texts, filled));
    }
}

/// The finished statement is the skeleton, text by text, with what each slot holds where the slot
/// stood: nothing of the skeleton is lost, and nothing that a slot holds.
pub proof fn law_every_slot_stands_in_its_place(b: BuilderView)
    requires
        b.layout.texts.len() == b.filled.len() + 1,
    ensures
        statement(b) == woven(b.layout.texts, b.filled, 0),
{
    let texts = b.layout.texts;
    lemma_woven(texts, b.filled, 0);
    let first = texts.take(1);
    let none = b.filled.take(0);
    assert(interleaved(first, none) =~= texts[0]);
    if b.filled.len() > 0 {
        let rest = woven(texts, b.filled, 1);
        assert(texts[0] + (b.filled[0] + rest) =~= texts[0] + b.filled[0] + rest);
    } else {
        assert(woven(texts, b.filled, 1) =~= Seq::<char>::empty());
        assert(texts[0] + Seq::<char>::empty() =~= woven(texts, b.filled, 0));
    }
}

} // verus!

//! Placeholder numbering.
//!
//! Every placeholder is numbered on the way in, however it was written, and written back out
//! in the driver's own form once the statement is assembled. In between there is one kind of
//! placeholder, spelled so that it can be found again in the rendered SQL.

use vstd::prelude::*;
use vstd::slice::slice_subrange;
use vstd::string::StringExecFns;

use crate::lexical::find_from;
#[allow(unused_imports)]
use crate::lexical::{find, lemma_find};
use crate::text::{chars_of, copy_of, decimal_of, read_unsigned, string_of};
#[allow(unused_imports)]
use crate::text::{counted, decimal, strings, unsigned};
use crate::writer::syntax::Syntax;
use crate::writer::tree::{placeholders, respell, show, Node};
#[allow(unused_imports)]
use crate::writer::tree::{sql_placeholders, sql_respelled, sql_shown, NodeTree};
#[allow(unused_imports)]
use crate::lexical::{law_a_search_finds_the_first, stands_at};
#[allow(unused_imports)]
use crate::text::{
    ascii_digit, lacks, law_a_number_is_read_from_its_digits, law_a_number_is_spelled_in_decimal,
};

verus! {

// ---------------------------------------------------------------------------
// Finding numbered placeholders
// ---------------------------------------------------------------------------

/// What a numbered placeholder begins with.
pub open spec fn prefix() -> Seq<char> {
    "$__sqlxq_"@
}

/// What one that is not numbered yet begins with.
pub open spec fn temporary_prefix() -> Seq<char> {
    "$__sqlxqt_"@
}

/// What both end in.
pub open spec fn suffix() -> Seq<char> {
    "__"@
}

/// A placeholder that takes the `n`th value, counting from zero.
pub open spec fn numbered(n: nat) -> Seq<char> {
    prefix() + decimal(n) + suffix()
}

/// A placeholder that is told apart from the others by `id` until it is numbered.
pub open spec fn temporary(id: nat) -> Seq<char> {
    temporary_prefix() + decimal(id) + suffix()
}

/// A placeholder in a text: where it starts, where it ends, and its number.
pub struct Spot {
    pub start: int,
    pub stop: int,
    pub number: nat,
}

/// Finds placeholders from `at` on, behind those that were found.
pub open spec fn spots_from(s: Seq<char>, head: Seq<char>, at: int, found: Seq<Spot>) -> Seq<Spot>
    decreases s.len() - at + 1,
{
    if head.len() == 0 || !(0 <= at <= s.len()) {
        found
    } else {
        match find(s, at, head) {
            None => found,
            Some(start) => {
                let digits = start + head.len();
                proof {
                    lemma_find(s, at, head);
                    lemma_find(s, digits, suffix());
                }
                match find(s, digits, suffix()) {
                    None => spots_from(s, head, digits, found),
                    Some(end) => match unsigned(s.subrange(digits, end)) {
                        None => spots_from(s, head, digits, found),
                        Some(n) => spots_from(
                            s,
                            head,
                            end + suffix().len(),
                            found.push(Spot { start, stop: end + suffix().len(), number: n }),
                        ),
                    },
                }
            },
        }
    }
}

/// The placeholders of a text that begin with `head`, in order.
pub open spec fn spots(s: Seq<char>, head: Seq<char>) -> Seq<Spot> {
    spots_from(s, head, 0, Seq::empty())
}

/// A placeholder that was found.
#[derive(Debug, Clone, Copy)]
pub struct Found {
    pub start: usize,
    pub stop: usize,
    pub number: usize,
}

impl View for Found {
    type V = Spot;

    open spec fn view(&self) -> Spot {
        Spot { start: self.start as int, stop: self.stop as int, number: self.number as nat }
    }
}

/// What a list of placeholders holds.
pub open spec fn found_views(found: Seq<Found>) -> Seq<Spot> {
    found.map_values(|f: Found| f@)
}

/// The spots lie behind one another, inside a text of this length.
pub open spec fn in_order(found: Seq<Found>, length: int) -> bool {
    &&& forall|i: int|
        0 <= i < found.len() ==> (#[trigger] found[i]).start <= found[i].stop <= length
    &&& forall|i: int, j: int|
        0 <= i < j < found.len() ==> (#[trigger] found[i]).stop <= (#[trigger] found[j]).start
}

/// Finds every placeholder that begins with `head`, in the order in which it renders.
pub fn scan(sql: &[char], head: &[char]) -> (r: Vec<Found>)
    requires
        head@.len() > 0,
    ensures
        found_views(r@) == spots(sql@, head@),
        in_order(r@, sql@.len() as int),
{
    let tail = chars_of("__");
    let mut found: Vec<Found> = Vec::new();
    let mut at: usize = 0;
    assert(found_views(found@) =~= Seq::<Spot>::empty());
    while at < sql.len()
        invariant
            at <= sql.len(),
            head@.len() > 0,
            tail@ == suffix(),
            spots(sql@, head@) == spots_from(sql@, head@, at as int, found_views(found@)),
            in_order(found@, at as int),
        decreases sql.len() - at,
    {
        let start = match find_from(sql, at, head) {
            Some(start) => start,
            None => {
                assert(in_order(found@, sql@.len() as int));
                return found;
            },
        };
        let digits: usize = start + head.len();
        let end = match find_from(sql, digits, tail.as_slice()) {
            Some(end) => end,
            None => {
                at = digits;
                continue;
            },
        };
        match read_unsigned(slice_subrange(sql, digits, end)) {
            Some(n) => {
                let stop: usize = end + tail.len();
                let ghost held = found_views(found@);
                found.push(Found { start, stop, number: n });
                assert(found_views(found@) =~= held.push(
                    Spot { start: start as int, stop: stop as int, number: n as nat },
                ));
                at = stop;
            },
            None => {
                at = digits;
            },
        }
    }
    proof {
        lemma_find(sql@, at as int, head@);
        assert(find(sql@, at as int, head@) is None);
    }
    found
}

// ---------------------------------------------------------------------------
// Numbering
// ---------------------------------------------------------------------------

/// The value that a placeholder asks for by its number, if it carries one. A bare `?` says
/// only that it wants one.
pub open spec fn asked(text: Seq<char>) -> Option<nat> {
    if text.len() > 0 && (text[0] == '$' || text[0] == '?') {
        unsigned(text.skip(1))
    } else {
        None
    }
}

/// How far numbering has come: the value that each placeholder takes, how many took the next
/// one, and the highest number that was asked for.
pub struct Numbering {
    pub slots: Seq<Option<nat>>,
    pub next: nat,
    pub named: nat,
}

/// Numbers one placeholder as it renders. One that asks for a number is taken at its word;
/// any other takes the next value.
pub open spec fn numbered_one(texts: Seq<Seq<char>>, id: nat, n: Numbering) -> Numbering {
    let wanted = if id < texts.len() {
        asked(texts[id as int])
    } else {
        None
    };
    let slot = match wanted {
        Some(k) => (k - 1) as nat,
        None => n.next,
    };
    Numbering {
        slots: if id < texts.len() {
            n.slots.update(id as int, Some(slot))
        } else {
            n.slots
        },
        next: if wanted is None {
            n.next + 1
        } else {
            n.next
        },
        named: match wanted {
            Some(k) => if k > n.named {
                k
            } else {
                n.named
            },
            None => n.named,
        },
    }
}

/// Numbers the first `count` placeholders in the order in which they render.
pub open spec fn numbering(texts: Seq<Seq<char>>, order: Seq<Spot>, count: nat) -> Numbering
    decreases count,
{
    if count == 0 {
        Numbering { slots: Seq::new(texts.len(), |i: int| None::<nat>), next: 0, named: 0 }
    } else {
        numbered_one(
            texts,
            order[count - 1].number,
            numbering(texts, order, (count - 1) as nat),
        )
    }
}

/// A node whose placeholders can be told apart.
pub open spec fn told_apart(node: NodeTree) -> NodeTree {
    sql_respelled(node, temporaries(sql_placeholders(node).len()))
}

/// The first `n` spellings that tell placeholders apart.
pub open spec fn temporaries(n: nat) -> Seq<Seq<char>> {
    Seq::new(n, |i: int| temporary(i as nat))
}

/// The placeholders of a node in the order in which they render.
pub open spec fn render_order(node: NodeTree) -> Seq<Spot> {
    spots(sql_shown(told_apart(node)), temporary_prefix())
}

/// The numbering of a whole node.
pub open spec fn node_numbering(node: NodeTree) -> Numbering {
    let order = render_order(node);
    numbering(sql_placeholders(node), order, order.len())
}

/// How many values a node claims.
pub open spec fn arity(node: NodeTree) -> nat {
    let n = node_numbering(node);
    if n.named > n.next {
        n.named
    } else {
        n.next
    }
}

/// The spellings of the placeholders of a node that claims its values from `base` on.
pub open spec fn spellings(node: NodeTree, base: nat) -> Seq<Seq<char>> {
    let slots = node_numbering(node).slots;
    Seq::new(slots.len(), |i: int| numbered(base + slots[i]->0))
}

/// A node whose placeholders are numbered from `base` on.
pub open spec fn numbered_node(node: NodeTree, base: nat) -> NodeTree {
    sql_respelled(told_apart(node), spellings(node, base))
}

/// No placeholder asks for a zeroth value.
pub open spec fn asks_from_one(texts: Seq<Seq<char>>) -> bool {
    forall|i: int| 0 <= i < texts.len() ==> asked(#[trigger] texts[i]) != Some(0nat)
}

/// Every placeholder was numbered.
pub open spec fn all_numbered(slots: Seq<Option<nat>>) -> bool {
    forall|i: int| 0 <= i < slots.len() ==> (#[trigger] slots[i]) is Some
}

/// The placeholders of a node can be numbered from `base` on: values are counted from one,
/// every placeholder renders, and the highest number can be written.
pub open spec fn can_number(node: NodeTree, base: nat) -> bool {
    &&& asks_from_one(sql_placeholders(node))
    &&& all_numbered(node_numbering(node).slots)
    &&& base + arity(node) <= usize::MAX
}

/// Reads what a placeholder asks for.
fn read_asked(text: &str) -> (r: Option<usize>)
    ensures
        counted(r) == asked(text@),
{
    let text = chars_of(text);
    if text.len() == 0 || (text[0] != '$' && text[0] != '?') {
        return None;
    }
    let rest = slice_subrange(text.as_slice(), 1, text.len());
    assert(rest@ =~= text@.skip(1));
    read_unsigned(rest)
}

fn write_numbered(n: usize) -> (r: String)
    ensures
        r@ == numbered(n as nat),
{
    copy_of("$__sqlxq_").concat(decimal_of(n as u128).as_str()).concat("__")
}

fn write_temporaries(n: usize) -> (r: Vec<String>)
    ensures
        strings(r@) == temporaries(n as nat),
{
    let mut r: Vec<String> = Vec::new();
    let mut i: usize = 0;
    while i < n
        invariant
            i <= n,
            r.len() == i,
            forall|j: int| 0 <= j < i ==> (#[trigger] r@[j])@ == temporary(j as nat),
        decreases n - i,
    {
        r.push(copy_of("$__sqlxqt_").concat(decimal_of(i as u128).as_str()).concat("__"));
        i += 1;
    }
    assert(strings(r@) =~= temporaries(n as nat));
    r
}

/// What numbering has come to, as plain values.
struct Tally {
    slots: Vec<Option<usize>>,
    next: usize,
    named: usize,
}

/// What a list of values that placeholders take holds.
pub open spec fn slot_views(slots: Seq<Option<usize>>) -> Seq<Option<nat>> {
    slots.map_values(|slot: Option<usize>| counted(slot))
}

spec fn tally_view(tally: Tally) -> Numbering {
    Numbering {
        slots: slot_views(tally.slots@),
        next: tally.next as nat,
        named: tally.named as nat,
    }
}

proof fn lemma_numbering_len(texts: Seq<Seq<char>>, order: Seq<Spot>, count: nat)
    ensures
        numbering(texts, order, count).slots.len() == texts.len(),
    decreases count,
{
    if count > 0 {
        lemma_numbering_len(texts, order, (count - 1) as nat);
    }
}

/// Every value that is taken lies below the number of values that are claimed.
proof fn lemma_slots_below(texts: Seq<Seq<char>>, order: Seq<Spot>, count: nat)
    requires
        asks_from_one(texts),
    ensures
        forall|i: int|
            #![trigger numbering(texts, order, count).slots[i]]
            0 <= i < texts.len() && numbering(texts, order, count).slots[i] is Some ==> {
                let n = numbering(texts, order, count);
                n.slots[i]->0 < n.named || n.slots[i]->0 < n.next
            },
    decreases count,
{
    if count > 0 {
        lemma_slots_below(texts, order, (count - 1) as nat);
        lemma_numbering_len(texts, order, (count - 1) as nat);
        let before = numbering(texts, order, (count - 1) as nat);
        let after = numbering(texts, order, count);
        let id = order[count - 1].number;
        assert forall|i: int| 0 <= i < texts.len() && after.slots[i] is Some implies {
            after.slots[i]->0 < after.named || after.slots[i]->0 < after.next
        } by {
            if i == id {
                assert(asked(texts[i]) != Some(0nat));
            } else {
                assert(after.slots[i] == before.slots[i]);
            }
        }
    } else {
        assert forall|i: int| 0 <= i < texts.len() implies numbering(
            texts,
            order,
            0,
        ).slots[i] is None by {}
    }
}

/// Numbers placeholders in the order in which they render; `None` where one asks for a
/// zeroth value.
fn tally(texts: &[String], order: &[Found]) -> (r: Option<Tally>)
    ensures
        r is Some == asks_from_one(strings(texts@)),
        r matches Some(tally) ==> tally_view(tally) == numbering(
            strings(texts@),
            found_views(order@),
            order@.len(),
        ),
{
    let ghost all = strings(texts@);
    let ghost spots = found_views(order@);
    let mut wants: Vec<Option<usize>> = Vec::new();
    let mut slots: Vec<Option<usize>> = Vec::new();
    let mut i: usize = 0;
    while i < texts.len()
        invariant
            i <= texts.len(),
            all == strings(texts@),
            wants.len() == i,
            slots.len() == i,
            forall|j: int| 0 <= j < i ==> counted(#[trigger] wants@[j]) == asked(all[j]),
            forall|j: int| 0 <= j < i ==> (#[trigger] slots@[j]) is None,
            forall|j: int| 0 <= j < i ==> asked(#[trigger] all[j]) != Some(0nat),
        decreases texts.len() - i,
    {
        assert(all[i as int] == texts@[i as int]@);
        let want = read_asked(texts[i].as_str());
        if let Some(n) = want {
            if n == 0 {
                assert(asked(all[i as int]) == Some(0nat));
                return None;
            }
        }
        wants.push(want);
        slots.push(None);
        i += 1;
    }
    let mut tally = Tally { slots, next: 0, named: 0 };
    let mut k: usize = 0;
    assert(slot_views(slots@) =~= Seq::new(all.len(), |i: int| None::<nat>));
    while k < order.len()
        invariant
            k <= order.len(),
            all == strings(texts@),
            spots == found_views(order@),
            wants.len() == texts.len(),
            tally.slots.len() == texts.len(),
            tally.next <= k,
            forall|j: int| 0 <= j < texts@.len() ==> counted(#[trigger] wants@[j]) == asked(all[j]),
            forall|j: int| 0 <= j < texts@.len() ==> asked(#[trigger] all[j]) != Some(0nat),
            tally_view(tally) == numbering(all, spots, k as nat),
        decreases order.len() - k,
    {
        assert(spots[k as int] == order@[k as int]@);
        let id: usize = order[k].number;
        let ghost before = tally_view(tally);
        let want = if id < wants.len() {
            wants[id]
        } else {
            None
        };
        proof {
            if id < wants@.len() {
                assert(counted(wants@[id as int]) == asked(all[id as int]));
                assert(asked(all[id as int]) != Some(0nat));
            }
        }
        let slot: usize = match want {
            Some(n) => {
                if n > tally.named {
                    tally.named = n;
                }
                n - 1
            },
            None => {
                tally.next = tally.next + 1;
                tally.next - 1
            },
        };
        if id < tally.slots.len() {
            tally.slots.set(id, Some(slot));
            assert(slot_views(tally.slots@) =~= before.slots.update(id as int, Some(slot as nat)));
        }
        assert(tally_view(tally) == numbered_one(all, id as nat, before));
        k += 1;
    }
    Some(tally)
}

/// Numbers every placeholder of a node from `base` on, and says how many values it claims.
/// `None` where they cannot be numbered.
pub fn number_node(node: Node, base: usize) -> (r: Option<(Node, usize)>)
    ensures
        r is Some == can_number(node@, base as nat),
        r matches Some((done, claimed)) ==> {
            &&& done@ == numbered_node(node@, base as nat)
            &&& claimed == arity(node@)
            &&& done is Whole == node is Whole
            &&& done is Condition == node is Condition
            &&& done is Terms == node is Terms
        },
{
    let ghost start = node@;
    let texts = placeholders(&node);
    let temporary_texts = write_temporaries(texts.len());
    assert(strings(texts@).len() == texts@.len());
    assert(strings(temporary_texts@).len() == temporary_texts@.len());
    let apart = respell(node, temporary_texts);
    let shown = chars_of(show(&apart).as_str());
    let head = chars_of("$__sqlxqt_");
    proof {
        reveal_strlit("$__sqlxqt_");
    }
    let order = scan(shown.as_slice(), head.as_slice());
    assert(found_views(order@) == render_order(start));
    let tally = match tally(texts.as_slice(), order.as_slice()) {
        Some(tally) => tally,
        None => {
            return None;
        },
    };
    assert(tally_view(tally) == node_numbering(start));
    let claimed: usize = if tally.named > tally.next {
        tally.named
    } else {
        tally.next
    };
    let mut spelled: Vec<String> = Vec::new();
    let mut i: usize = 0;
    let ghost slots = node_numbering(start).slots;
    assert(slots == slot_views(tally.slots@));
    proof {
        lemma_slots_below(sql_placeholders(start), render_order(start), render_order(start).len());
        lemma_numbering_len(sql_placeholders(start), render_order(start), render_order(start).len());
    }
    let fits = base <= usize::MAX - claimed;
    while i < tally.slots.len()
        invariant
            i <= tally.slots.len(),
            spelled.len() == i,
            slots == slot_views(tally.slots@),
            start == node@,
            slots == node_numbering(start).slots,
            claimed == arity(start),
            fits == (base + claimed <= usize::MAX),
            forall|j: int|
                0 <= j < slots.len() && (#[trigger] slots[j]) is Some ==> slots[j]->0 < claimed,
            forall|j: int| 0 <= j < i ==> (#[trigger] slots[j]) is Some,
            fits ==> forall|j: int|
                0 <= j < i ==> (#[trigger] spelled@[j])@ == numbered((base + slots[j]->0) as nat),
        decreases tally.slots.len() - i,
    {
        assert(slots[i as int] == counted(tally.slots@[i as int]));
        match tally.slots[i] {
            Some(slot) => {
                if !fits {
                    return None;
                }
                spelled.push(write_numbered(base + slot));
            },
            None => {
                assert(slots[i as int] is None);
                return None;
            },
        }
        i += 1;
    }
    if !fits {
        return None;
    }
    proof {
        assert(strings(spelled@) =~= spellings(start, base as nat));
        assert(temporaries(sql_placeholders(start).len()).len() == sql_placeholders(start).len());
    }
    let done = respell(apart, spelled);
    Some((done, claimed))
}

// ---------------------------------------------------------------------------
// Writing
// ---------------------------------------------------------------------------

/// The text with the placeholders from the `i`th on spelled for a driver, behind what was
/// written of the text before `at`.
pub open spec fn written_from<DB: Syntax>(
    s: Seq<char>,
    found: Seq<Spot>,
    i: int,
    at: int,
    out: Seq<char>,
) -> Seq<char>
    decreases found.len() - i,
{
    if !(0 <= i < found.len()) {
        out + s.subrange(at, s.len() as int)
    } else {
        written_from::<DB>(
            s,
            found,
            i + 1,
            found[i].stop,
            out + s.subrange(at, found[i].start) + DB::spelled(found[i].number),
        )
    }
}

/// The values that placeholders take, in the order in which they render.
pub open spec fn taken(found: Seq<Spot>) -> Seq<nat> {
    found.map_values(|spot: Spot| spot.number)
}

/// Why a statement cannot be written.
pub enum WriteFault {
    /// Some value has no placeholder.
    Orphaned,
    /// One value has two placeholders, and the driver cannot name it.
    Positional,
}

/// A statement as the driver takes it, with the value that each placeholder takes; or why
/// there is none.
pub open spec fn written<DB: Syntax>(s: Seq<char>, claimed: nat) -> Result<
    (Seq<char>, Seq<nat>),
    WriteFault,
> {
    let found = spots(s, prefix());
    let order = taken(found);
    if order.to_set().len() != claimed {
        Err(WriteFault::Orphaned)
    } else if DB::by_position() && order.len() != order.to_set().len() {
        Err(WriteFault::Positional)
    } else {
        Ok((written_from::<DB>(s, found, 0, 0, Seq::empty()), order))
    }
}

/// What a list of indices holds.
pub open spec fn index_views(order: Seq<usize>) -> Seq<nat> {
    order.map_values(|n: usize| n as nat)
}

/// How many different numbers there are.
fn count_distinct(order: &[usize]) -> (n: usize)
    ensures
        n == index_views(order@).to_set().len(),
{
    let mut seen: Vec<usize> = Vec::new();
    let mut i: usize = 0;
    assert(index_views(order@.take(0)).to_set() =~= index_views(seen@).to_set());
    while i < order.len()
        invariant
            i <= order.len(),
            index_views(seen@).no_duplicates(),
            index_views(seen@).to_set() == index_views(order@.take(i as int)).to_set(),
        decreases order.len() - i,
    {
        let n: usize = order[i];
        let mut k: usize = 0;
        let mut known = false;
        while k < seen.len()
            invariant
                k <= seen.len(),
                known == exists|j: int| 0 <= j < k && #[trigger] seen@[j] == n,
            decreases seen.len() - k,
        {
            if seen[k] == n {
                known = true;
            }
            k += 1;
        }
        let ghost before = index_views(seen@);
        let ghost prior = index_views(order@.take(i as int));
        let ghost now = index_views(order@.take(i + 1));
        assert(now =~= prior.push(n as nat));
        assert(now.to_set() =~= prior.to_set().insert(n as nat)) by {
            assert forall|x: nat| now.to_set().contains(x) implies prior.to_set().insert(
                n as nat,
            ).contains(x) by {
                let p = choose|p: int| 0 <= p < now.len() && now[p] == x;
                if p < prior.len() {
                    assert(prior[p] == x);
                }
            }
            assert forall|x: nat| prior.to_set().insert(n as nat).contains(
                x,
            ) implies now.to_set().contains(x) by {
                if x == n {
                    assert(now[prior.len() as int] == x);
                } else {
                    let p = choose|p: int| 0 <= p < prior.len() && prior[p] == x;
                    assert(now[p] == x);
                }
            }
        }
        if known {
            proof {
                let j = choose|j: int| 0 <= j < seen@.len() && #[trigger] seen@[j] == n;
                assert(before[j] == n as nat);
                assert(before.to_set().contains(n as nat));
                assert(prior.to_set().insert(n as nat) =~= prior.to_set());
            }
        } else {
            seen.push(n);
            proof {
                let after = index_views(seen@);
                assert(after =~= before.push(n as nat));
                assert(!before.contains(n as nat)) by {
                    if before.contains(n as nat) {
                        let j = choose|j: int| 0 <= j < before.len() && before[j] == n as nat;
                        assert(seen@[j] == n);
                    }
                }
                assert(after.to_set() =~= before.to_set().insert(n as nat)) by {
                    assert forall|x: nat| after.to_set().contains(x) implies before.to_set().insert(
                        n as nat,
                    ).contains(x) by {
                        let p = choose|p: int| 0 <= p < after.len() && after[p] == x;
                        if p < before.len() {
                            assert(before[p] == x);
                        }
                    }
                    assert forall|x: nat| before.to_set().insert(n as nat).contains(
                        x,
                    ) implies after.to_set().contains(x) by {
                        if x == n {
                            assert(after[before.len() as int] == x);
                        } else {
                            let p = choose|p: int| 0 <= p < before.len() && before[p] == x;
                            assert(after[p] == x);
                        }
                    }
                }
            }
        }
        i += 1;
    }
    assert(order@.take(i as int) =~= order@);
    proof {
        index_views(seen@).unique_seq_to_set();
    }
    seen.len()
}

/// Why a statement could not be written.
#[derive(Debug, Clone, Copy, PartialEq, Eq, Structural)]
pub enum Refusal {
    Orphaned,
    Positional,
}

/// Writes the placeholders out in the driver's own form, and says which value each one
/// takes.
pub fn write_out<DB: Syntax>(sql: &str, claimed: usize) -> (r: Result<(String, Vec<usize>), Refusal>)
    ensures
        match (r, written::<DB>(sql@, claimed as nat)) {
            (Ok((text, order)), Ok((found, slots))) => text@ == found && index_views(order@)
                == slots,
            (Err(Refusal::Orphaned), Err(WriteFault::Orphaned)) => true,
            (Err(Refusal::Positional), Err(WriteFault::Positional)) => true,
            _ => false,
        },
{
    let s = chars_of(sql);
    let head = chars_of("$__sqlxq_");
    proof {
        reveal_strlit("$__sqlxq_");
    }
    let found = scan(s.as_slice(), head.as_slice());
    let ghost spots = found_views(found@);
    let mut order: Vec<usize> = Vec::new();
    let mut i: usize = 0;
    while i < found.len()
        invariant
            i <= found.len(),
            order.len() == i,
            forall|j: int| 0 <= j < i ==> (#[trigger] order@[j]) == found@[j].number,
        decreases found.len() - i,
    {
        order.push(found[i].number);
        i += 1;
    }
    assert(index_views(order@) =~= taken(spots));
    let distinct = count_distinct(order.as_slice());
    if distinct != claimed {
        return Err(Refusal::Orphaned);
    }
    if DB::positional() && order.len() != distinct {
        return Err(Refusal::Positional);
    }
    let mut out = String::new();
    let mut at: usize = 0;
    let mut k: usize = 0;
    while k < found.len()
        invariant
            k <= found.len(),
            at <= s.len(),
            s@ == sql@,
            spots == found_views(found@),
            in_order(found@, s@.len() as int),
            k > 0 ==> at == found@[k - 1].stop,
            k == 0 ==> at == 0,
            written_from::<DB>(sql@, spots, 0, 0, Seq::empty()) == written_from::<DB>(
                sql@,
                spots,
                k as int,
                at as int,
                out@,
            ),
        decreases found.len() - k,
    {
        let spot = found[k];
        assert(spots[k as int] == spot@);
        let between = string_of(slice_subrange(s.as_slice(), at, spot.start));
        out.append(between.as_str());
        out.append(DB::placeholder(spot.number).as_str());
        at = spot.stop;
        k += 1;
    }
    let rest = string_of(slice_subrange(s.as_slice(), at, s.len()));
    out.append(rest.as_str());
    Ok((out, order))
}

// ---------------------------------------------------------------------------
// Laws
// ---------------------------------------------------------------------------

/// A placeholder asks for a value by the number behind its `$` or `?`; one without a number, or
/// with anything else in it, asks for the next.
pub proof fn law_a_placeholder_asks_by_its_number(n: nat, text: Seq<char>)
    ensures
        n <= usize::MAX ==> asked("$"@ + decimal(n)) == Some(n),
        n <= usize::MAX ==> asked("?"@ + decimal(n)) == Some(n),
        n > usize::MAX ==> asked("$"@ + decimal(n)) is None,
        asked("?"@) is None,
        asked("$"@) is None,
        text.len() > 0 && text[0] != '$' && text[0] != '?' ==> asked(text) is None,
        asked(text) matches Some(k) ==> k <= usize::MAX && text.len() > 1,
{
    reveal_strlit("$");
    reveal_strlit("?");
    law_a_number_is_spelled_in_decimal(n);
    assert(("$"@ + decimal(n)).skip(1) =~= decimal(n));
    assert(("?"@ + decimal(n)).skip(1) =~= decimal(n));
    assert(decimal(n)[0] != '+') by {
        assert(ascii_digit(decimal(n)[0]));
    }
    assert("?"@.skip(1).len() == 0);
    assert("$"@.skip(1).len() == 0);
}

/// How many of the first `count` placeholders that render ask for no number.
pub open spec fn unasked(texts: Seq<Seq<char>>, order: Seq<Spot>, count: nat) -> nat
    decreases count,
{
    if count == 0 {
        0
    } else {
        unasked(texts, order, (count - 1) as nat) + if asked(
            texts[order[count - 1].number as int],
        ) is None {
            1nat
        } else {
            0nat
        }
    }
}

/// The spots name the texts, each once.
pub open spec fn names_each(texts: Seq<Seq<char>>, order: Seq<Spot>) -> bool {
    &&& forall|i: int| 0 <= i < order.len() ==> (#[trigger] order[i]).number < texts.len()
    &&& forall|i: int, j: int|
        0 <= i < j < order.len() ==> (#[trigger] order[i]).number != (#[trigger] order[j]).number
}

/// A placeholder that asks for a value takes that one, counting from one; any other takes the next
/// that none before it took, in the order in which they render. As many values are claimed as the
/// highest number that is asked for, or as there are placeholders that ask for none.
#[verifier::rlimit(50)]
pub proof fn law_a_placeholder_takes_what_it_asks_for(
    texts: Seq<Seq<char>>,
    order: Seq<Spot>,
    count: nat,
)
    requires
        names_each(texts, order),
        count <= order.len(),
        asks_from_one(texts),
    ensures
        ({
            let n = numbering(texts, order, count);
            &&& n.slots.len() == texts.len()
            &&& n.next == unasked(texts, order, count)
            &&& forall|k: int|
                0 <= k < count ==> n.slots[(#[trigger] order[k]).number as int] == Some(
                    match asked(texts[order[k].number as int]) {
                        Some(wanted) => (wanted - 1) as nat,
                        None => unasked(texts, order, k as nat),
                    },
                )
            &&& forall|k: int|
                0 <= k < count ==> (asked(
                    texts[(#[trigger] order[k]).number as int],
                ) matches Some(wanted) ==> wanted <= n.named)
            &&& n.named > 0 ==> exists|k: int|
                0 <= k < count && asked(texts[(#[trigger] order[k]).number as int]) == Some(n.named)
        }),
    decreases count,
{
    if count > 0 {
        let before = (count - 1) as nat;
        law_a_placeholder_takes_what_it_asks_for(texts, order, before);
        let m = numbering(texts, order, before);
        let n = numbering(texts, order, count);
        let id = order[count - 1].number;
        let wanted = asked(texts[id as int]);
        assert(n.slots == m.slots.update(
            id as int,
            Some(
                match wanted {
                    Some(k) => (k - 1) as nat,
                    None => m.next,
                },
            ),
        ));
        assert forall|k: int| 0 <= k < count implies n.slots[(#[trigger] order[k]).number as int]
            == Some(
            match asked(texts[order[k].number as int]) {
                Some(wanted) => (wanted - 1) as nat,
                None => unasked(texts, order, k as nat),
            },
        ) by {
            if k < before {
                assert(order[k].number != id);
                assert(m.slots[order[k].number as int] == n.slots[order[k].number as int]);
            }
        }
        if n.named > 0 && n.named == m.named {
            let k = choose|k: int|
                0 <= k < before && asked(texts[(#[trigger] order[k]).number as int]) == Some(
                    m.named,
                );
            assert(asked(texts[order[k].number as int]) == Some(n.named));
        } else if n.named > 0 {
            assert(asked(texts[order[count - 1].number as int]) == Some(n.named));
        }
    }
}

/// Every placeholder that is found spells its number between its beginning and its end.
pub proof fn law_a_found_placeholder_spells_its_number(s: Seq<char>, head: Seq<char>)
    requires
        head.len() > 0,
    ensures
        forall|i: int|
            0 <= i < spots(s, head).len() ==> spells_number(s, head, #[trigger] spots(s, head)[i]),
{
    lemma_spots_spelled(s, head, 0, Seq::empty());
}

/// What stands at a spot is the beginning, digits that mean its number, and the end.
pub open spec fn spells_number(s: Seq<char>, head: Seq<char>, spot: Spot) -> bool {
    let digits = spot.start + head.len();
    let stop = spot.stop - 2;
    &&& 0 <= spot.start && digits <= stop && spot.stop <= s.len()
    &&& s.subrange(spot.start, digits) == head
    &&& unsigned(s.subrange(digits, stop)) == Some(spot.number)
    &&& s.subrange(stop, spot.stop) == "__"@
}

proof fn lemma_spots_spelled(s: Seq<char>, head: Seq<char>, at: int, found: Seq<Spot>)
    requires
        head.len() > 0,
        forall|i: int| 0 <= i < found.len() ==> spells_number(s, head, #[trigger] found[i]),
    ensures
        forall|i: int|
            0 <= i < spots_from(s, head, at, found).len() ==> spells_number(
                s,
                head,
                #[trigger] spots_from(s, head, at, found)[i],
            ),
    decreases s.len() - at + 1,
{
    reveal_strlit("__");
    if 0 <= at <= s.len() {
        if let Some(start) = find(s, at, head) {
            let digits = start + head.len();
            lemma_find(s, at, head);
            lemma_find(s, digits, suffix());
            match find(s, digits, suffix()) {
                None => {
                    lemma_spots_spelled(s, head, digits, found);
                    assert(spots_from(s, head, at, found) == spots_from(s, head, digits, found));
                },
                Some(end) => match unsigned(s.subrange(digits, end)) {
                    None => {
                        lemma_spots_spelled(s, head, digits, found);
                        assert(spots_from(s, head, at, found) == spots_from(
                            s,
                            head,
                            digits,
                            found,
                        ));
                    },
                    Some(n) => {
                        let spot = Spot { start, stop: end + suffix().len(), number: n };
                        assert(spells_number(s, head, spot));
                        lemma_spots_spelled(s, head, end + suffix().len(), found.push(spot));
                        assert(spots_from(s, head, at, found) == spots_from(
                            s,
                            head,
                            end + suffix().len(),
                            found.push(spot),
                        ));
                    },
                },
            }
        }
    }
}

/// A statement is written out only where as many values are taken as are claimed, and, where values
/// are bound by position, where none is taken twice.
pub proof fn law_every_claimed_value_is_taken<DB: Syntax>(s: Seq<char>, claimed: nat)
    ensures
        ({
            let order = taken(spots(s, prefix()));
            &&& order.to_set().len() != claimed <==> written::<DB>(s, claimed) == Err::<
                (Seq<char>, Seq<nat>),
                WriteFault,
            >(WriteFault::Orphaned)
            &&& written::<DB>(s, claimed) matches Ok((_, found)) ==> found == order && (
            DB::by_position() ==> order.len() == claimed)
            &&& order.to_set().len() == claimed && (!DB::by_position() || order.len() == claimed)
                ==> written::<DB>(s, claimed) is Ok
        }),
{
}

/// A statement without placeholders is written out as it is.
pub proof fn law_text_without_placeholders_is_kept<DB: Syntax>(s: Seq<char>)
    requires
        spots(s, prefix()).len() == 0,
    ensures
        written::<DB>(s, 0) == Ok::<(Seq<char>, Seq<nat>), WriteFault>((s, Seq::empty())),
{
    assert(taken(spots(s, prefix())) =~= Seq::<nat>::empty());
    assert(Seq::<nat>::empty().to_set() =~= Set::<nat>::empty());
    assert(Seq::<char>::empty() + s.subrange(0, s.len() as int) =~= s);
}

/// Texts, each with a placeholder behind it that takes the value of this number, from the `i`th on.
pub open spec fn numbered_text(parts: Seq<(Seq<char>, nat)>, i: int) -> Seq<char>
    decreases parts.len() - i,
{
    if !(0 <= i < parts.len()) {
        Seq::empty()
    } else {
        parts[i].0 + numbered(parts[i].1) + numbered_text(parts, i + 1)
    }
}

/// The same texts with each placeholder in the driver's own spelling.
pub open spec fn driver_text<DB: Syntax>(parts: Seq<(Seq<char>, nat)>, i: int) -> Seq<char>
    decreases parts.len() - i,
{
    if !(0 <= i < parts.len()) {
        Seq::empty()
    } else {
        parts[i].0 + DB::spelled(parts[i].1) + driver_text::<DB>(parts, i + 1)
    }
}

/// Where the placeholders stand, where the text begins at `at`.
pub open spec fn spots_in(parts: Seq<(Seq<char>, nat)>, i: int, at: int) -> Seq<Spot>
    decreases parts.len() - i,
{
    if !(0 <= i < parts.len()) {
        Seq::empty()
    } else {
        let start = at + parts[i].0.len();
        let stop = start + numbered(parts[i].1).len();
        seq![Spot { start, stop, number: parts[i].1 }] + spots_in(parts, i + 1, stop)
    }
}

/// The texts hold no dollar, and each number is one that a machine word holds.
pub open spec fn numberable(parts: Seq<(Seq<char>, nat)>) -> bool {
    forall|j: int|
        0 <= j < parts.len() ==> lacks((#[trigger] parts[j]).0, '$') && parts[j].1 <= usize::MAX
}

proof fn lemma_found_at(s: Seq<char>, at: int, p: int, needle: Seq<char>)
    requires
        0 <= at <= p,
        stands_at(s, p, needle),
        forall|i: int| at <= i < p ==> !#[trigger] stands_at(s, i, needle),
    ensures
        find(s, at, needle) == Some(p),
{
    law_a_search_finds_the_first(s, at, needle);
}

#[verifier::rlimit(50)]
proof fn lemma_next_spot(before: Seq<char>, text: Seq<char>, n: nat, rest: Seq<char>)
    requires
        lacks(text, '$'),
        n <= usize::MAX,
    ensures
        ({
            let s = before + text + numbered(n) + rest;
            let start = (before.len() + text.len()) as int;
            let digits = start + prefix().len();
            &&& find(s, before.len() as int, prefix()) == Some(start)
            &&& find(s, digits, suffix()) == Some((digits + decimal(n).len()) as int)
            &&& unsigned(s.subrange(digits, digits + decimal(n).len())) == Some(n)
            &&& digits + decimal(n).len() + suffix().len() == start + numbered(n).len()
        }),
{
    reveal_strlit("$__sqlxq_");
    reveal_strlit("__");
    law_a_number_is_read_from_its_digits(n, Seq::empty());
    law_a_number_is_spelled_in_decimal(n);
    let s = before + text + numbered(n) + rest;
    let at = before.len() as int;
    let start = at + text.len();
    let digits = start + prefix().len();
    let end = digits + decimal(n).len();
    assert(s.subrange(start, digits) =~= prefix());
    assert forall|i: int| at <= i < start implies !#[trigger] stands_at(s, i, prefix()) by {
        if stands_at(s, i, prefix()) {
            assert(s.subrange(i, i + prefix().len())[0] == s[i]);
            assert(s[i] == text[i - at]);
        }
    }
    lemma_found_at(s, at, start, prefix());
    assert(s.subrange(end, end + 2) =~= suffix());
    assert forall|i: int| digits <= i < end implies !#[trigger] stands_at(s, i, suffix()) by {
        if stands_at(s, i, suffix()) {
            assert(s.subrange(i, i + suffix().len())[0] == s[i]);
            assert(s[i] == decimal(n)[i - digits]);
            assert(ascii_digit(decimal(n)[i - digits]));
        }
    }
    lemma_found_at(s, digits, end, suffix());
    assert(s.subrange(digits, end) =~= decimal(n));
}

#[verifier::rlimit(50)]
proof fn lemma_spots_in(
    before: Seq<char>,
    parts: Seq<(Seq<char>, nat)>,
    after: Seq<char>,
    i: int,
    found: Seq<Spot>,
)
    requires
        0 <= i <= parts.len(),
        numberable(parts),
        lacks(after, '$'),
    ensures
        spots_from(
            before + numbered_text(parts, i) + after,
            prefix(),
            before.len() as int,
            found,
        ) == found + spots_in(parts, i, before.len() as int),
    decreases parts.len() - i,
{
    reveal_strlit("$__sqlxq_");
    let s = before + numbered_text(parts, i) + after;
    let at = before.len() as int;
    if i < parts.len() {
        let text = parts[i].0;
        let n = parts[i].1;
        let rest = numbered_text(parts, i + 1) + after;
        assert(lacks(text, '$') && n <= usize::MAX);
        assert(s =~= before + text + numbered(n) + rest);
        lemma_next_spot(before, text, n, rest);
        let start = at + text.len();
        let stop = start + numbered(n).len();
        let spot = Spot { start, stop, number: n };
        let next = before + text + numbered(n);
        lemma_spots_in(next, parts, after, i + 1, found.push(spot));
        assert(next + numbered_text(parts, i + 1) + after =~= s);
        assert(found + spots_in(parts, i, at) =~= found.push(spot) + spots_in(parts, i + 1, stop));
    } else {
        assert(s =~= before + after);
        law_a_search_finds_the_first(s, at, prefix());
        if let Some(p) = find(s, at, prefix()) {
            assert(s.subrange(p, p + prefix().len())[0] == s[p]);
            assert(s[p] == after[p - at]);
        }
        assert(found + spots_in(parts, i, at) =~= found);
    }
}

#[verifier::rlimit(50)]
proof fn lemma_written_text<DB: Syntax>(
    s: Seq<char>,
    before: Seq<char>,
    parts: Seq<(Seq<char>, nat)>,
    after: Seq<char>,
    found: Seq<Spot>,
    i: int,
    out: Seq<char>,
)
    requires
        0 <= i <= parts.len(),
        s == before + numbered_text(parts, i) + after,
        found.len() == parts.len(),
        found.skip(i) == spots_in(parts, i, before.len() as int),
    ensures
        written_from::<DB>(s, found, i, before.len() as int, out) == out + driver_text::<DB>(
            parts,
            i,
        ) + after,
    decreases parts.len() - i,
{
    let at = before.len() as int;
    if i < parts.len() {
        let text = parts[i].0;
        let n = parts[i].1;
        let next = before + text + numbered(n);
        let start = at + text.len();
        let stop = next.len() as int;
        assert(s =~= next + numbered_text(parts, i + 1) + after);
        assert(s.subrange(at, start) =~= text);
        assert(found[i] == found.skip(i)[0]);
        assert(found.skip(i + 1) =~= found.skip(i).skip(1));
        assert(spots_in(parts, i, at).skip(1) =~= spots_in(parts, i + 1, stop));
        let held = out + text + DB::spelled(n);
        lemma_written_text::<DB>(s, next, parts, after, found, i + 1, held);
        let rest = driver_text::<DB>(parts, i + 1);
        assert(held + rest + after =~= out + (text + DB::spelled(n) + rest) + after);
    } else {
        assert(s =~= before + after);
        assert(s.subrange(at, s.len() as int) =~= after);
        assert(out + Seq::<char>::empty() + after =~= out + after);
    }
}

proof fn lemma_spots_len(parts: Seq<(Seq<char>, nat)>, i: int, at: int)
    requires
        0 <= i <= parts.len(),
    ensures
        spots_in(parts, i, at).len() == parts.len() - i,
        forall|k: int|
            0 <= k < parts.len() - i ==> (#[trigger] spots_in(parts, i, at)[k]).number
                == parts[i + k].1,
    decreases parts.len() - i,
{
    if i < parts.len() {
        let stop = at + parts[i].0.len() + numbered(parts[i].1).len();
        lemma_spots_len(parts, i + 1, stop);
        assert forall|k: int| 0 <= k < parts.len() - i implies (#[trigger] spots_in(
            parts,
            i,
            at,
        )[k]).number == parts[i + k].1 by {
            if k > 0 {
                assert(spots_in(parts, i, at)[k] == spots_in(parts, i + 1, stop)[k - 1]);
            }
        }
    }
}

/// A statement is written out as it is but for its placeholders, each of which is spelled as the
/// driver spells the value that it takes; the values are told in the order of the text.
pub proof fn law_writing_out_keeps_the_rest_of_the_text<DB: Syntax>(
    parts: Seq<(Seq<char>, nat)>,
    after: Seq<char>,
    claimed: nat,
)
    requires
        numberable(parts),
        lacks(after, '$'),
    ensures
        written::<DB>(numbered_text(parts, 0) + after, claimed) matches Ok((sql, order)) ==> sql
            == driver_text::<DB>(parts, 0) + after && order == Seq::new(
            parts.len(),
            |i: int| parts[i].1,
        ),
{
    let none = Seq::<char>::empty();
    let s = numbered_text(parts, 0) + after;
    lemma_spots_in(none, parts, after, 0, Seq::empty());
    assert(none + numbered_text(parts, 0) + after =~= s);
    let found = spots(s, prefix());
    assert(found =~= spots_in(parts, 0, 0));
    lemma_spots_len(parts, 0, 0);
    assert(found.skip(0) =~= found);
    lemma_written_text::<DB>(s, none, parts, after, found, 0, none);
    assert(none + driver_text::<DB>(parts, 0) + after =~= driver_text::<DB>(parts, 0) + after);
    assert(taken(found) =~= Seq::new(parts.len(), |i: int| parts[i].1));
}

proof fn lemma_last_unasked(texts: Seq<Seq<char>>, order: Seq<Spot>, count: nat)
    requires
        count <= order.len(),
        unasked(texts, order, count) > 0,
    ensures
        exists|k: int|
            0 <= k < count && asked(texts[(#[trigger] order[k]).number as int]) is None && unasked(
                texts,
                order,
                k as nat,
            ) == unasked(texts, order, count) - 1,
    decreases count,
{
    if count > 0 {
        let before = (count - 1) as nat;
        if asked(texts[order[count - 1].number as int]) is None {
            assert(unasked(texts, order, before) == unasked(texts, order, count) - 1);
        } else {
            lemma_last_unasked(texts, order, before);
            let k = choose|k: int|
                0 <= k < before && asked(texts[(#[trigger] order[k]).number as int]) is None
                    && unasked(texts, order, k as nat) == unasked(texts, order, before) - 1;
            assert(asked(texts[order[k].number as int]) is None);
        }
    }
}

/// A node that claims its values from some number on spells each placeholder as the value that it
/// takes among them, counted from there. It claims as many values as reach the last that is taken.
#[verifier::rlimit(50)]
pub proof fn law_a_node_claims_the_values_it_takes(node: NodeTree, base: nat)
    requires
        names_each(sql_placeholders(node), render_order(node)),
        asks_from_one(sql_placeholders(node)),
        all_numbered(node_numbering(node).slots),
    ensures
        ({
            let slots = node_numbering(node).slots;
            &&& spellings(node, base).len() == sql_placeholders(node).len()
            &&& forall|i: int|
                0 <= i < slots.len() ==> {
                    &&& (#[trigger] slots[i])->0 < arity(node)
                    &&& spellings(node, base)[i] == "$__sqlxq_"@ + decimal(base + slots[i]->0)
                        + "__"@
                }
            &&& arity(node) > 0 ==> exists|i: int|
                0 <= i < slots.len() && (#[trigger] slots[i])->0 == arity(node) - 1
        }),
{
    let texts = sql_placeholders(node);
    let order = render_order(node);
    let n = node_numbering(node);
    law_a_placeholder_takes_what_it_asks_for(texts, order, order.len());
    lemma_slots_below(texts, order, order.len());
    assert forall|i: int| 0 <= i < n.slots.len() implies (#[trigger] n.slots[i])->0 < arity(node) by {
        assert(numbering(texts, order, order.len()).slots[i] is Some);
    }
    if arity(node) > 0 {
        if n.named > n.next {
            let k = choose|k: int|
                0 <= k < order.len() && asked(texts[(#[trigger] order[k]).number as int]) == Some(
                    n.named,
                );
            assert(n.slots[order[k].number as int] == Some((n.named - 1) as nat));
        } else {
            lemma_last_unasked(texts, order, order.len());
            let k = choose|k: int|
                0 <= k < order.len() && asked(texts[(#[trigger] order[k]).number as int]) is None
                    && unasked(texts, order, k as nat) == unasked(texts, order, order.len()) - 1;
            assert(n.slots[order[k].number as int] == Some((n.next - 1) as nat));
        }
    }
}

} // verus!

//! A query that was already written, with slots where fragments go.

use core::marker::PhantomData;

use vstd::prelude::*;

use crate::lexical::place;
use crate::template::builder::QueryBuilder;
#[allow(unused_imports)]
use crate::template::builder::fresh;
use crate::template::dialect::Dialect;
use crate::template::error::Error;
use crate::template::scan::{scan, Slot};
#[allow(unused_imports)]
use crate::template::scan::{law_layout_keeps_the_source, layout, slot_views, Layout, SlotView};
#[allow(unused_imports)]
use crate::text::{byte_at, concat, strings};

verus! {

/// A skeleton, read into literal text and slots.
///
/// A slot is a block comment that names `query.` and an identifier, optionally with a joiner
/// on one side:
///
/// ```text
/// /* AND query.filter */      joiner before each fragment
/// /* query.order , */         joiner after each fragment
/// /* query.columns */         fragments one after another
/// ```
///
/// A slot that is never filled, or filled only with empty fragments, writes nothing at all:
/// the comment and its joiner both disappear. Sentinels are comments, so the text stays a
/// statement that a database runs.
#[derive(Debug)]
pub struct QueryTemplate<DB> {
    texts: Vec<String>,
    slots: Vec<Slot>,
    skeleton: String,
    late_placeholder: Option<usize>,
    database: PhantomData<DB>,
}

impl<DB> View for QueryTemplate<DB> {
    type V = Layout;

    closed spec fn view(&self) -> Layout {
        Layout {
            texts: strings(self.texts@),
            slots: slot_views(self.slots@),
            late: place(self.late_placeholder),
        }
    }
}

/// The names of slots.
pub open spec fn slot_names(slots: Seq<SlotView>) -> Seq<Seq<char>> {
    slots.map_values(|slot: SlotView| slot.name)
}

/// The names that a list of strings holds.
pub open spec fn name_list(names: Seq<&str>) -> Seq<Seq<char>> {
    names.map_values(|name: &str| name@)
}

impl<DB> QueryTemplate<DB> {
    /// One text more than slots, distinct names, and the skeleton that the texts make.
    pub closed spec fn wf(self) -> bool {
        &&& self.texts@.len() == self.slots@.len() + 1
        &&& self.skeleton@ == concat(self@.texts)
        &&& forall|i: int, j: int|
            0 <= i < j < self@.slots.len() ==> (#[trigger] self@.slots[i]).name != (
            #[trigger] self@.slots[j]).name
    }

    /// Parses a skeleton. Refused where a literal or comment is not closed, or where a slot is
    /// declared twice.
    pub fn parse(sql: &str) -> (r: Result<QueryTemplate<DB>, Error>)
        ensures
            match (r, layout(sql@)) {
                (Ok(template), Ok(found)) => template.wf() && template@ == found,
                (Err(Error::Template { message, offset }), Err(fault)) => message@ == fault.message
                    && offset == byte_at(sql@, fault.at),
                _ => false,
            },
    {
        match scan(sql) {
            Err(error) => Err(error),
            Ok(skeleton) => {
                proof {
                    law_layout_keeps_the_source(sql@);
                    assert(skeleton@.texts.len() == skeleton.texts@.len());
                    assert(skeleton@.slots.len() == skeleton.slots@.len());
                }
                Ok(
                    QueryTemplate {
                        texts: skeleton.texts,
                        slots: skeleton.slots,
                        skeleton: skeleton.sql,
                        late_placeholder: skeleton.late_placeholder,
                        database: PhantomData,
                    },
                )
            },
        }
    }

    /// The skeleton with every sentinel removed: a legal statement.
    pub fn skeleton(&self) -> (r: &str)
        requires
            self.wf(),
        ensures
            r@ == concat(self@.texts),
    {
        self.skeleton.as_str()
    }

    /// Every slot that this skeleton declares, in the order in which they appear.
    pub fn slots(&self) -> (r: Vec<&str>)
        ensures
            name_list(r@) == slot_names(self@.slots),
    {
        let mut r: Vec<&str> = Vec::new();
        let mut i: usize = 0;
        while i < self.slots.len()
            invariant
                i <= self.slots.len(),
                r@.len() == i,
                forall|j: int| 0 <= j < i ==> (#[trigger] r@[j])@ == self.slots@[j].name@,
            decreases self.slots.len() - i,
        {
            r.push(self.slots[i].name.as_str());
            i += 1;
        }
        assert(name_list(r@) =~= slot_names(self@.slots));
        r
    }

    /// The texts and the slots.
    pub fn parts(&self) -> (r: (&[String], &[Slot]))
        requires
            self.wf(),
        ensures
            strings(r.0@) == self@.texts,
            slot_views(r.1@) == self@.slots,
            r.0@.len() == r.1@.len() + 1,
    {
        (self.texts.as_slice(), self.slots.as_slice())
    }

    /// The byte at which the first `?` after a slot stands.
    pub fn late_placeholder(&self) -> (r: Option<usize>)
        ensures
            place(r) == self@.late,
    {
        self.late_placeholder
    }
}

impl<DB: Dialect> QueryTemplate<DB> {
    /// Starts filling this template in.
    pub fn builder(&self) -> (r: QueryBuilder<'_, DB>)
        requires
            self.wf(),
        ensures
            r.wf(),
            r@ == fresh(self@, DB::numbers()),
    {
        QueryBuilder::new(self)
    }
}

} // verus!

//! The columns that a request may name.

use vstd::prelude::*;

use crate::text::{copy_of, same};

verus! {

/// What a request may name, and the column that each name means. Anything that is not here
/// is refused rather than passed through.
#[derive(Debug)]
pub struct Columns {
    entries: Vec<(String, String)>,
}

/// The columns that a list offers; a later entry takes the place of an earlier one.
pub open spec fn offered(entries: Seq<(String, String)>) -> Map<Seq<char>, Seq<char>>
    decreases entries.len(),
{
    if entries.len() == 0 {
        Map::empty()
    } else {
        offered(entries.drop_last()).insert(entries.last().0@, entries.last().1@)
    }
}

impl View for Columns {
    type V = Map<Seq<char>, Seq<char>>;

    closed spec fn view(&self) -> Map<Seq<char>, Seq<char>> {
        offered(self.entries@)
    }
}

proof fn lemma_offered_prefix(entries: Seq<(String, String)>, n: int, field: Seq<char>)
    requires
        0 <= n <= entries.len(),
        forall|j: int| n <= j < entries.len() ==> (#[trigger] entries[j]).0@ != field,
    ensures
        offered(entries).dom().contains(field) == offered(entries.take(n)).dom().contains(field),
        offered(entries).dom().contains(field) ==> offered(entries)[field] == offered(
            entries.take(n),
        )[field],
    decreases entries.len() - n,
{
    if n < entries.len() {
        let rest = entries.drop_last();
        assert forall|j: int| n <= j < rest.len() implies (#[trigger] rest[j]).0@ != field by {
            assert(rest[j] == entries[j]);
        }
        assert(entries.last() == entries[entries.len() - 1]);
        lemma_offered_prefix(rest, n, field);
        assert(rest.take(n) =~= entries.take(n));
    } else {
        assert(entries.take(n) =~= entries);
    }
}

impl Columns {
    /// No columns.
    pub fn new() -> (r: Columns)
        ensures
            r@ == Map::<Seq<char>, Seq<char>>::empty(),
    {
        Columns { entries: Vec::new() }
    }

    /// Offers `column` under the name `field`.
    pub fn with(self, field: &str, column: &str) -> (r: Columns)
        ensures
            r@ == self@.insert(field@, column@),
    {
        let mut entries = self.entries;
        let ghost held = entries@;
        entries.push((copy_of(field), copy_of(column)));
        assert(entries@.drop_last() =~= held);
        Columns { entries }
    }

    /// The column that `field` means.
    pub fn get(&self, field: &str) -> (r: Option<&str>)
        ensures
            match r {
                Some(column) => self@.dom().contains(field@) && self@[field@] == column@,
                None => !self@.dom().contains(field@),
            },
    {
        let mut i: usize = self.entries.len();
        while i > 0
            invariant
                i <= self.entries.len(),
                forall|j: int|
                    i <= j < self.entries.len() ==> (#[trigger] self.entries@[j]).0@ != field@,
            decreases i,
        {
            i -= 1;
            if same(self.entries[i].0.as_str(), field) {
                proof {
                    lemma_offered_prefix(self.entries@, i + 1, field@);
                    let head = self.entries@.take(i + 1);
                    assert(head.last() == self.entries@[i as int]);
                }
                return Some(self.entries[i].1.as_str());
            }
        }
        proof {
            lemma_offered_prefix(self.entries@, 0, field@);
            assert(self.entries@.take(0).len() == 0);
        }
        None
    }
}

impl Default for Columns {
    fn default() -> (r: Columns)
        ensures
            r@ == Map::<Seq<char>, Seq<char>>::empty(),
    {
        Columns::new()
    }
}

/// Something whose fields can be renamed to the columns that they stand for, against an
/// allowlist that fails closed. What carries no field names has nothing to resolve.
pub trait QueryResolver: Sized {
    /// Why something does not resolve.
    type Error;

    /// What resolving gives.
    spec fn resolves(&self, columns: Map<Seq<char>, Seq<char>>, r: Result<Self, Self::Error>) -> bool;

    /// Renames every field. A field that the columns do not offer is refused.
    fn resolve(self, columns: &Columns) -> (r: Result<Self, Self::Error>)
        ensures
            self.resolves(columns@, r),
    ;
}

} // verus!

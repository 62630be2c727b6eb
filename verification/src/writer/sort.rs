//! An ordering, as a request asks for it.

use vstd::prelude::*;
use vstd::string::StringExecFns;

use crate::text::{chars_of, copy_of, same, spells, split, split_words, string_of, trim};
#[allow(unused_imports)]
use crate::text::{lowered, pieces, slices, strings, trimmed, unicode_words};
use crate::columns::Columns;
use crate::writer::error::Error;
#[allow(unused_imports)]
use crate::writer::error::ErrorView;
use crate::writer::tree::{make_leaf, make_term, Leaf};
#[allow(unused_imports)]
use crate::writer::tree::{expr_tree, run_of, term_trees, Run, SqlTree, TermTree};
#[allow(unused_imports)]
use crate::text::{blank, law_words_stand_between_white_space, solid, white_space};

verus! {

/// Which way a column sorts.
#[derive(Debug, Clone, Copy, PartialEq, Eq, Structural)]
pub enum SortDirection {
    /// `ASC`, and what a request means by naming a field with no direction.
    Asc,
    /// `DESC`.
    Desc,
}

/// One column of an ordering.
#[derive(Debug, PartialEq, Eq)]
pub struct SortKey {
    /// The field that a request named, or the column that it stands for.
    pub name: String,
    /// Which way it sorts.
    pub direction: SortDirection,
}

/// One column of an ordering, as contracts speak of it.
pub struct KeyView {
    pub name: Seq<char>,
    pub direction: SortDirection,
}

impl View for SortKey {
    type V = KeyView;

    open spec fn view(&self) -> KeyView {
        KeyView { name: self.name@, direction: self.direction }
    }
}

impl Clone for SortKey {
    fn clone(&self) -> (r: SortKey)
        ensures
            r@ == self@,
    {
        SortKey { name: self.name.clone(), direction: self.direction }
    }
}

/// What a list of keys holds.
pub open spec fn key_views(keys: Seq<SortKey>) -> Seq<KeyView> {
    keys.map_values(|key: SortKey| key@)
}

/// An ordering, as contracts speak of it.
#[verifier::ext_equal]
pub struct SortView {
    pub keys: Seq<KeyView>,
    /// Whether the names are columns.
    pub resolved: bool,
}

/// The key that one term of an `order_by` value describes, or why it describes none.
pub open spec fn term_key(term: Seq<char>, order_by: Seq<char>) -> Result<KeyView, Seq<char>> {
    let words = unicode_words(term);
    if words.len() == 0 {
        Err(
            "`"@ + order_by
                + "` has an empty term; each one is a field, optionally followed by `asc` or `desc`"@,
        )
    } else if words.len() == 1 {
        Ok(KeyView { name: words[0], direction: SortDirection::Asc })
    } else {
        let asc = lowered(words[1]) == lowered("asc"@);
        let desc = lowered(words[1]) == lowered("desc"@);
        if !asc && !desc {
            Err(
                "`"@ + order_by + "` says `"@ + words[1] + "` after `"@ + words[0]
                    + "`, which is neither `asc` nor `desc`"@,
            )
        } else if words.len() > 2 {
            Err(
                "`"@ + order_by + "` has `"@ + words[2] + "` after `"@ + words[0]
                    + "`, which is one word too many"@,
            )
        } else {
            Ok(
                KeyView {
                    name: words[0],
                    direction: if asc {
                        SortDirection::Asc
                    } else {
                        SortDirection::Desc
                    },
                },
            )
        }
    }
}

/// Reads the terms from the `i`th on, behind the keys that were read.
pub open spec fn keys_from(
    order_by: Seq<char>,
    terms: Seq<Seq<char>>,
    i: int,
    keys: Seq<KeyView>,
) -> Result<Seq<KeyView>, Seq<char>>
    decreases terms.len() - i,
{
    if !(0 <= i < terms.len()) {
        Ok(keys)
    } else {
        match term_key(terms[i], order_by) {
            Err(message) => Err(message),
            Ok(key) => keys_from(order_by, terms, i + 1, keys.push(key)),
        }
    }
}

/// The keys that an `order_by` value asks for, or why it asks for none. A blank one asks for
/// no ordering.
pub open spec fn parsed(order_by: Seq<char>) -> Result<Seq<KeyView>, Seq<char>> {
    if trimmed(order_by).len() == 0 {
        Ok(Seq::empty())
    } else {
        keys_from(order_by, pieces(order_by, ','), 0, Seq::empty())
    }
}

/// A key of this name is there.
pub open spec fn names_key(keys: Seq<KeyView>, name: Seq<char>) -> bool {
    exists|i: int| 0 <= i < keys.len() && (#[trigger] keys[i]).name == name
}

/// `keys` with one more behind them, unless its name is already there.
pub open spec fn followed(keys: Seq<KeyView>, key: KeyView) -> Seq<KeyView> {
    if names_key(keys, key.name) {
        keys
    } else {
        keys.push(key)
    }
}

/// Renames the keys from the `i`th on, behind those that were renamed; or the first name
/// that has no column.
pub open spec fn renamed_from(
    columns: Map<Seq<char>, Seq<char>>,
    keys: Seq<KeyView>,
    i: int,
    done: Seq<KeyView>,
) -> Result<Seq<KeyView>, Seq<char>>
    decreases keys.len() - i,
{
    if !(0 <= i < keys.len()) {
        Ok(done)
    } else if columns.dom().contains(keys[i].name) {
        renamed_from(
            columns,
            keys,
            i + 1,
            done.push(KeyView { name: columns[keys[i].name], ..keys[i] }),
        )
    } else {
        Err(keys[i].name)
    }
}

/// An ordering with its fields resolved to columns. One that is resolved stays as it is.
pub open spec fn resolved(sort: SortView, columns: Map<Seq<char>, Seq<char>>) -> Result<
    SortView,
    ErrorView,
> {
    if sort.resolved {
        Ok(sort)
    } else {
        match renamed_from(columns, sort.keys, 0, Seq::empty()) {
            Ok(keys) => Ok(SortView { keys, resolved: true }),
            Err(name) => Err(ErrorView::Field(name)),
        }
    }
}

/// A column as an expression. A dotted name is a qualified one.
pub open spec fn column_tree(name: Seq<char>) -> SqlTree {
    SqlTree::Column(pieces(name, '.'))
}

/// One key as a term of an `ORDER BY`.
pub open spec fn key_term(key: KeyView) -> TermTree {
    TermTree {
        expr: column_tree(key.name),
        run: run_of(key.direction == SortDirection::Desc),
    }
}

/// An ordering as the terms of an `ORDER BY`.
pub open spec fn key_terms(keys: Seq<KeyView>) -> Seq<TermTree> {
    keys.map_values(|key: KeyView| key_term(key))
}

/// Writes a column name as an expression, quoted so that a column called `order` is still a
/// column.
pub(crate) fn quoted(name: &str) -> (r: sqlparser::ast::Expr)
    ensures
        expr_tree(r) == column_tree(name@),
{
    let text = chars_of(name);
    let slices_of = split(text.as_slice(), '.');
    let mut parts: Vec<String> = Vec::new();
    let mut i: usize = 0;
    while i < slices_of.len()
        invariant
            i <= slices_of.len(),
            parts.len() == i,
            forall|j: int| 0 <= j < i ==> (#[trigger] parts@[j])@ == slices_of@[j]@,
        decreases slices_of.len() - i,
    {
        parts.push(string_of(slices_of[i]));
        i += 1;
    }
    assert(strings(parts@) =~= pieces(name@, '.')) by {
        assert forall|j: int| 0 <= j < parts@.len() implies strings(parts@)[j] == slices(
            slices_of@,
        )[j] by {
            assert(parts@[j]@ == slices_of@[j]@);
        }
        assert(slices(slices_of@).len() == parts@.len());
    }
    if parts.len() == 1 {
        let ghost all = strings(parts@);
        let name = parts.remove(0);
        assert(seq![name@] =~= all);
        make_leaf(Leaf::Identifier(name))
    } else {
        make_leaf(Leaf::Qualified(parts))
    }
}

/// An ordering, as a request asked for it: parsed from an `order_by` value, then resolved
/// against the columns that a query chose to offer.
#[derive(Debug, PartialEq, Eq)]
pub struct Sort {
    keys: Vec<SortKey>,
    resolved: bool,
}

impl View for Sort {
    type V = SortView;

    closed spec fn view(&self) -> SortView {
        SortView { keys: key_views(self.keys@), resolved: self.resolved }
    }
}

impl Clone for Sort {
    fn clone(&self) -> (r: Sort)
        ensures
            r@ == self@,
    {
        let mut keys: Vec<SortKey> = Vec::new();
        let mut i: usize = 0;
        while i < self.keys.len()
            invariant
                i <= self.keys.len(),
                keys.len() == i,
                forall|j: int| 0 <= j < i ==> (#[trigger] keys@[j])@ == self.keys@[j]@,
            decreases self.keys.len() - i,
        {
            keys.push(self.keys[i].clone());
            i += 1;
        }
        assert(key_views(keys@) =~= key_views(self.keys@));
        Sort { keys, resolved: self.resolved }
    }
}

impl Default for Sort {
    fn default() -> (r: Sort)
        ensures
            r@ == (SortView { keys: Seq::empty(), resolved: false }),
    {
        let r = Sort { keys: Vec::new(), resolved: false };
        assert(key_views(r.keys@) =~= Seq::<KeyView>::empty());
        r
    }
}

/// `a`, `b`, `c` and so on, one behind the other.
fn sentence(order_by: &str, a: &str, b: &str, c: &str, d: &str, e: &str) -> (r: Error)
    ensures
        r@ == ErrorView::Sort("`"@ + order_by@ + a@ + b@ + c@ + d@ + e@),
{
    let mut text = copy_of("`");
    text.append(order_by);
    text.append(a);
    text.append(b);
    text.append(c);
    text.append(d);
    text.append(e);
    Error::Sort(text)
}

impl SortKey {
    /// Reads one term of an `order_by` value.
    fn parse(term: &[char], order_by: &str) -> (r: Result<SortKey, Error>)
        ensures
            match (r, term_key(term@, order_by@)) {
                (Ok(key), Ok(found)) => key@ == found,
                (Err(error), Err(message)) => error@ == ErrorView::Sort(message),
                _ => false,
            },
    {
        let words = split_words(term);
        if words.len() == 0 {
            let mut text = copy_of("`");
            text.append(order_by);
            text.append(
                "` has an empty term; each one is a field, optionally followed by `asc` or `desc`",
            );
            return Err(Error::Sort(text));
        }
        assert(slices(words@)[0] == words@[0]@);
        let name = string_of(words[0]);
        if words.len() == 1 {
            return Ok(SortKey { name, direction: SortDirection::Asc });
        }
        assert(slices(words@)[1] == words@[1]@);
        let direction = if spells(words[1], "asc") {
            SortDirection::Asc
        } else if spells(words[1], "desc") {
            SortDirection::Desc
        } else {
            return Err(
                sentence(
                    order_by,
                    "` says `",
                    string_of(words[1]).as_str(),
                    "` after `",
                    name.as_str(),
                    "`, which is neither `asc` nor `desc`",
                ),
            );
        };
        if words.len() > 2 {
            assert(slices(words@)[2] == words@[2]@);
            return Err(
                sentence(
                    order_by,
                    "` has `",
                    string_of(words[2]).as_str(),
                    "` after `",
                    name.as_str(),
                    "`, which is one word too many",
                ),
            );
        }
        Ok(SortKey { name, direction })
    }
}

impl Sort {
    /// Reads an `order_by` value: fields separated by commas, each optionally followed by
    /// `asc` or `desc`. Blank means that no ordering was asked for.
    pub fn parse(order_by: &str) -> (r: Result<Sort, Error>)
        ensures
            match (r, parsed(order_by@)) {
                (Ok(sort), Ok(keys)) => sort@ == (SortView { keys, resolved: false }),
                (Err(error), Err(message)) => error@ == ErrorView::Sort(message),
                _ => false,
            },
    {
        let text = chars_of(order_by);
        let mut keys: Vec<SortKey> = Vec::new();
        assert(key_views(keys@) =~= Seq::<KeyView>::empty());
        if trim(text.as_slice()).len() > 0 {
            let terms = split(text.as_slice(), ',');
            let mut i: usize = 0;
            while i < terms.len()
                invariant
                    i <= terms.len(),
                    text@ == order_by@,
                    trimmed(order_by@).len() > 0,
                    slices(terms@) == pieces(order_by@, ','),
                    parsed(order_by@) == keys_from(
                        order_by@,
                        pieces(order_by@, ','),
                        i as int,
                        key_views(keys@),
                    ),
                decreases terms.len() - i,
            {
                assert(slices(terms@)[i as int] == terms@[i as int]@);
                match SortKey::parse(terms[i], order_by) {
                    Ok(key) => {
                        let ghost held = key_views(keys@);
                        keys.push(key);
                        assert(key_views(keys@) =~= held.push(key@));
                    },
                    Err(error) => {
                        return Err(error);
                    },
                }
                i += 1;
            }
        }
        Ok(Sort { keys, resolved: false })
    }

    /// An ordering that this program decided rather than parsed. Its names are columns, so
    /// it is already resolved.
    pub fn new(keys: Vec<SortKey>) -> (r: Sort)
        ensures
            r@ == (SortView { keys: key_views(keys@), resolved: true }),
    {
        Sort { keys, resolved: true }
    }

    /// Adds a field to order by, ascending, behind whatever was asked for. A field that is
    /// already named stays where it is, in the direction that was chosen.
    pub fn asc(self, field: &str) -> (r: Sort)
        ensures
            r@.keys == followed(
                self@.keys,
                (KeyView { name: field@, direction: SortDirection::Asc }),
            ),
            r@.resolved == self@.resolved,
    {
        self.push(field, SortDirection::Asc)
    }

    /// Adds a field to order by, descending.
    pub fn desc(self, field: &str) -> (r: Sort)
        ensures
            r@.keys == followed(
                self@.keys,
                (KeyView { name: field@, direction: SortDirection::Desc }),
            ),
            r@.resolved == self@.resolved,
    {
        self.push(field, SortDirection::Desc)
    }

    /// Renames every field to the column that it stands for. A field that the columns do not
    /// offer is refused. What is resolved already stays as it is.
    pub fn resolve(self, columns: &Columns) -> (r: Result<Sort, Error>)
        ensures
            match (r, resolved(self@, columns@)) {
                (Ok(sort), Ok(found)) => sort@ == found,
                (Err(error), Err(found)) => error@ == found,
                _ => false,
            },
    {
        if self.resolved {
            return Ok(self);
        }
        let mut done: Vec<SortKey> = Vec::new();
        let mut i: usize = 0;
        assert(key_views(done@) =~= Seq::<KeyView>::empty());
        while i < self.keys.len()
            invariant
                i <= self.keys.len(),
                !self@.resolved,
                renamed_from(columns@, self@.keys, 0, Seq::empty()) == renamed_from(
                    columns@,
                    self@.keys,
                    i as int,
                    key_views(done@),
                ),
            decreases self.keys.len() - i,
        {
            assert(self@.keys[i as int] == self.keys@[i as int]@);
            match columns.get(self.keys[i].name.as_str()) {
                Some(column) => {
                    let ghost held = key_views(done@);
                    let key = SortKey {
                        name: copy_of(column),
                        direction: self.keys[i].direction,
                    };
                    done.push(key);
                    assert(key_views(done@) =~= held.push(key@));
                },
                None => {
                    return Err(Error::Field(copy_of(self.keys[i].name.as_str())));
                },
            }
            i += 1;
        }
        Ok(Sort { keys: done, resolved: true })
    }

    /// The columns that are ordered by, in order.
    pub fn keys(&self) -> (r: &[SortKey])
        ensures
            key_views(r@) == self@.keys,
    {
        self.keys.as_slice()
    }

    /// Whether nothing is ordered by.
    pub fn is_empty(&self) -> (b: bool)
        ensures
            b == (self@.keys.len() == 0),
    {
        self.keys.len() == 0
    }

    /// Whether the names are columns.
    pub fn is_resolved(&self) -> (b: bool)
        ensures
            b == self@.resolved,
    {
        self.resolved
    }

    fn push(self, field: &str, direction: SortDirection) -> (r: Sort)
        ensures
            r@.keys == followed(self@.keys, (KeyView { name: field@, direction })),
            r@.resolved == self@.resolved,
    {
        let mut keys = self.keys;
        let ghost held = key_views(keys@);
        let mut i: usize = 0;
        while i < keys.len()
            invariant
                i <= keys.len(),
                held == key_views(keys@),
                held == self@.keys,
                forall|j: int| 0 <= j < i ==> (#[trigger] held[j]).name != field@,
            decreases keys.len() - i,
        {
            assert(held[i as int] == keys@[i as int]@);
            if same(keys[i].name.as_str(), field) {
                assert(held[i as int].name == field@);
                return Sort { keys, resolved: self.resolved };
            }
            i += 1;
        }
        let key = SortKey { name: copy_of(field), direction };
        keys.push(key);
        assert(key_views(keys@) =~= held.push(key@));
        Sort { keys, resolved: self.resolved }
    }

    /// The ordering as terms, ready to graft onto a query.
    pub(crate) fn order_by(&self) -> (r: Vec<sqlparser::ast::OrderByExpr>)
        ensures
            term_trees(r@) == key_terms(self@.keys),
    {
        let mut terms: Vec<sqlparser::ast::OrderByExpr> = Vec::new();
        let mut i: usize = 0;
        assert(term_trees(terms@) =~= key_terms(self@.keys.take(0)));
        while i < self.keys.len()
            invariant
                i <= self.keys.len(),
                terms.len() == i,
                term_trees(terms@) == key_terms(self@.keys.take(i as int)),
            decreases self.keys.len() - i,
        {
            let ghost held = term_trees(terms@);
            let expr = quoted(self.keys[i].name.as_str());
            let term = make_term(expr, self.keys[i].direction == SortDirection::Desc);
            terms.push(term);
            proof {
                let now = self@.keys.take(i + 1);
                assert(now =~= self@.keys.take(i as int).push(self@.keys[i as int]));
                assert(key_terms(now) =~= held.push(key_term(self@.keys[i as int])));
                assert(term_trees(terms@) =~= key_terms(now));
            }
            i += 1;
        }
        assert(self@.keys.take(i as int) =~= self@.keys);
        terms
    }
}

// ---------------------------------------------------------------------------
// Laws
// ---------------------------------------------------------------------------

/// Resolving twice gives what resolving once gave.
pub proof fn law_resolving_twice_changes_nothing(
    sort: SortView,
    columns: Map<Seq<char>, Seq<char>>,
    others: Map<Seq<char>, Seq<char>>,
)
    ensures
        resolved(sort, columns) matches Ok(once) ==> once.resolved && resolved(once, others)
            == Ok::<SortView, ErrorView>(once),
{
}

/// A tiebreaker never moves or changes what was asked for, and is there at the end.
pub proof fn law_a_tiebreaker_follows_the_request(keys: Seq<KeyView>, key: KeyView)
    ensures
        followed(keys, key).take(keys.len() as int) == keys,
        names_key(followed(keys, key), key.name),
        names_key(keys, key.name) ==> followed(keys, key) == keys,
{
    assert(followed(keys, key).take(keys.len() as int) =~= keys);
    if !names_key(keys, key.name) {
        let all = followed(keys, key);
        assert(all[keys.len() as int].name == key.name);
    }
}

proof fn lemma_renamed(
    columns: Map<Seq<char>, Seq<char>>,
    keys: Seq<KeyView>,
    i: int,
    done: Seq<KeyView>,
)
    requires
        0 <= i <= keys.len(),
        done.len() == i,
        forall|j: int|
            0 <= j < i ==> columns.dom().contains((#[trigger] keys[j]).name) && done[j] == (KeyView {
                name: columns[keys[j].name],
                ..keys[j]
            }),
    ensures
        match renamed_from(columns, keys, i, done) {
            Ok(all) => all.len() == keys.len() && forall|j: int|
                0 <= j < keys.len() ==> columns.dom().contains((#[trigger] keys[j]).name) && all[j]
                    == (KeyView { name: columns[keys[j].name], ..keys[j] }),
            Err(name) => names_key(keys, name) && !columns.dom().contains(name),
        },
    decreases keys.len() - i,
{
    if i < keys.len() {
        if columns.dom().contains(keys[i].name) {
            let next = done.push(KeyView { name: columns[keys[i].name], ..keys[i] });
            lemma_renamed(columns, keys, i + 1, next);
        } else {
            assert(keys[i].name == keys[i].name);
        }
    }
}

/// The columns are an allowlist: an ordering that was not resolved resolves exactly where
/// every field of it is offered, and then each key sorts by the column that its field means,
/// in the same place and direction.
pub proof fn law_only_offered_fields_resolve(sort: SortView, columns: Map<Seq<char>, Seq<char>>)
    requires
        !sort.resolved,
    ensures
        resolved(sort, columns) is Ok <==> forall|j: int|
            0 <= j < sort.keys.len() ==> columns.dom().contains((#[trigger] sort.keys[j]).name),
        match resolved(sort, columns) {
            Ok(found) => found.keys.len() == sort.keys.len() && forall|j: int|
                0 <= j < sort.keys.len() ==> (#[trigger] found.keys[j]) == (KeyView {
                    name: columns[sort.keys[j].name],
                    ..sort.keys[j]
                }),
            Err(ErrorView::Field(name)) => names_key(sort.keys, name) && !columns.dom().contains(
                name,
            ),
            Err(_) => false,
        },
{
    lemma_renamed(columns, sort.keys, 0, Seq::empty());
    match renamed_from(columns, sort.keys, 0, Seq::empty()) {
        Ok(keys) => {
            assert forall|j: int| 0 <= j < sort.keys.len() implies (#[trigger] keys[j]) == (KeyView {
                name: columns[sort.keys[j].name],
                ..sort.keys[j]
            }) by {
                assert(columns.dom().contains(sort.keys[j].name));
            }
        },
        Err(name) => {
            let j = choose|j: int| 0 <= j < sort.keys.len() && (#[trigger] sort.keys[j]).name == name;
            assert(!columns.dom().contains(sort.keys[j].name));
        },
    }
}

/// An ordering becomes terms that run as it was asked for: by the column of each key in turn,
/// whose parts stand between dots, descending exactly where the key does and ascending otherwise.
pub proof fn law_an_ordering_runs_as_asked(keys: Seq<KeyView>)
    ensures
        key_terms(keys).len() == keys.len(),
        forall|i: int|
            0 <= i < keys.len() ==> {
                let term = #[trigger] key_terms(keys)[i];
                &&& term.expr == SqlTree::Column(pieces(keys[i].name, '.'))
                &&& term.run == match keys[i].direction {
                    SortDirection::Asc => Run::Asc,
                    SortDirection::Desc => Run::Desc,
                }
            },
{
}

/// A term is read with any white space around and between its words, and its direction in either
/// case; without one it ascends. Any other word behind a field is refused.
pub proof fn law_a_term_is_read_in_any_spelling(
    lead: Seq<char>,
    name: Seq<char>,
    gap: Seq<char>,
    word: Seq<char>,
    tail: Seq<char>,
    order_by: Seq<char>,
)
    requires
        blank(lead, |c: char| white_space(c)),
        blank(gap, |c: char| white_space(c)),
        blank(tail, |c: char| white_space(c)),
        gap.len() > 0,
        name.len() > 0,
        word.len() > 0,
        solid(name, |c: char| white_space(c)),
        solid(word, |c: char| white_space(c)),
    ensures
        term_key(lead + name + tail, order_by) == Ok::<KeyView, Seq<char>>(
            KeyView { name, direction: SortDirection::Asc },
        ),
        lowered(word) == "asc"@ ==> term_key(lead + name + gap + word + tail, order_by) == Ok::<
            KeyView,
            Seq<char>,
        >(KeyView { name, direction: SortDirection::Asc }),
        lowered(word) == "desc"@ ==> term_key(lead + name + gap + word + tail, order_by) == Ok::<
            KeyView,
            Seq<char>,
        >(KeyView { name, direction: SortDirection::Desc }),
        lowered(word) != "asc"@ && lowered(word) != "desc"@ ==> term_key(
            lead + name + gap + word + tail,
            order_by,
        ) is Err,
{
    law_words_stand_between_white_space(lead, name, gap, word, tail, |c: char| white_space(c));
    reveal_strlit("asc");
    reveal_strlit("desc");
    assert(lowered("asc"@) =~= "asc"@);
    assert(lowered("desc"@) =~= "desc"@);
    assert("asc"@.len() != "desc"@.len());
}

/// An ordering reads as its terms do, one key for each, and is refused exactly where one of them
/// is. A blank one asks for nothing.
pub proof fn law_an_ordering_reads_as_its_terms(order_by: Seq<char>)
    ensures
        parsed(order_by) matches Ok(keys) ==> trimmed(order_by).len() > 0 ==> keys.len() == pieces(
            order_by,
            ',',
        ).len() && forall|i: int|
            0 <= i < keys.len() ==> term_key(pieces(order_by, ',')[i], order_by) == Ok::<
                KeyView,
                Seq<char>,
            >(#[trigger] keys[i]),
        parsed(order_by) matches Err(message) ==> exists|i: int|
            0 <= i < pieces(order_by, ',').len() && term_key(
                #[trigger] pieces(order_by, ',')[i],
                order_by,
            ) == Err::<KeyView, Seq<char>>(message),
        trimmed(order_by).len() == 0 ==> parsed(order_by) == Ok::<Seq<KeyView>, Seq<char>>(
            Seq::empty(),
        ),
{
    lemma_terms_read(order_by, pieces(order_by, ','), 0, Seq::empty());
}

proof fn lemma_terms_read(
    order_by: Seq<char>,
    terms: Seq<Seq<char>>,
    i: int,
    keys: Seq<KeyView>,
)
    requires
        0 <= i <= terms.len(),
        keys.len() == i,
        forall|j: int|
            0 <= j < i ==> term_key(terms[j], order_by) == Ok::<KeyView, Seq<char>>(
                #[trigger] keys[j],
            ),
    ensures
        match keys_from(order_by, terms, i, keys) {
            Ok(all) => all.len() == terms.len() && forall|j: int|
                0 <= j < all.len() ==> term_key(terms[j], order_by) == Ok::<KeyView, Seq<char>>(
                    #[trigger] all[j],
                ),
            Err(message) => exists|j: int|
                0 <= j < terms.len() && term_key(#[trigger] terms[j], order_by) == Err::<
                    KeyView,
                    Seq<char>,
                >(message),
        },
    decreases terms.len() - i,
{
    if i < terms.len() {
        match term_key(terms[i], order_by) {
            Err(message) => {
                assert(term_key(terms[i], order_by) == Err::<KeyView, Seq<char>>(message));
            },
            Ok(key) => {
                lemma_terms_read(order_by, terms, i + 1, keys.push(key));
            },
        }
    }
}

/// A term without a word, or with a word behind its direction, is refused.
pub proof fn law_a_term_is_one_word_or_two(term: Seq<char>, order_by: Seq<char>)
    ensures
        unicode_words(term).len() == 0 ==> term_key(term, order_by) is Err,
        unicode_words(term).len() > 2 ==> term_key(term, order_by) is Err,
        term_key(term, order_by) matches Ok(key) ==> unicode_words(term).len() > 0 && key.name
            == unicode_words(term)[0],
{
}

} // verus!

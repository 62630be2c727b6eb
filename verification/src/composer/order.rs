//! An ordering, as a comma-separated list of fields.

use vstd::prelude::*;
use vstd::string::StringExecFns;

use crate::columns::{Columns, QueryResolver};
#[allow(unused_imports)]
use crate::meaning::{terms_spelled, SqlTerm};
use crate::text::{chars_of, copy_of, join, same, spells, split, split_words, string_of, trim};
#[allow(unused_imports)]
use crate::text::{
    joined, lacks, lemma_last_piece, lemma_last_word, lemma_one_piece, lemma_one_word,
    lemma_pieces_lack, lemma_trim_space, lemma_trimmed, lemma_words_lack, lemma_words_solid,
    lowered, pieces, slices, solid, strings, trimmed, unicode_words, white_space, words,
};
#[allow(unused_imports)]
use crate::text::{blank, law_trimming_leaves_the_text, law_words_stand_between_white_space};

verus! {

/// Which way a key runs.
#[derive(Debug, Clone, Copy, PartialEq, Eq, Structural)]
pub enum OrderDirection {
    Asc,
    Desc,
}

impl OrderDirection {
    /// The SQL keyword.
    pub open spec fn word(self) -> Seq<char> {
        match self {
            OrderDirection::Asc => "ASC"@,
            OrderDirection::Desc => "DESC"@,
        }
    }

    /// The SQL keyword.
    pub fn keyword(self) -> (r: &'static str)
        ensures
            r@ == self.word(),
    {
        match self {
            OrderDirection::Asc => "ASC",
            OrderDirection::Desc => "DESC",
        }
    }
}

/// A single sort key: a column and a direction.
#[derive(Debug, PartialEq, Eq)]
pub struct OrderKey {
    pub column: String,
    pub direction: OrderDirection,
}

/// A sort key, as contracts speak of it.
pub struct KeyView {
    pub column: Seq<char>,
    pub direction: OrderDirection,
}

impl View for OrderKey {
    type V = KeyView;

    open spec fn view(&self) -> KeyView {
        KeyView { column: self.column@, direction: self.direction }
    }
}

impl Clone for OrderKey {
    fn clone(&self) -> (r: OrderKey)
        ensures
            r@ == self@,
    {
        OrderKey { column: self.column.clone(), direction: self.direction }
    }
}

impl OrderKey {
    /// The column.
    pub fn column(&self) -> (r: &str)
        ensures
            r@ == self@.column,
    {
        self.column.as_str()
    }

    /// The direction.
    pub fn direction(&self) -> (r: OrderDirection)
        ensures
            r == self@.direction,
    {
        self.direction
    }
}

/// What a list of keys holds.
pub open spec fn key_views(keys: Seq<OrderKey>) -> Seq<KeyView> {
    keys.map_values(|key: OrderKey| key@)
}

/// Copies a list of keys.
pub fn copy_keys(keys: &[OrderKey]) -> (r: Vec<OrderKey>)
    ensures
        key_views(r@) == key_views(keys@),
{
    let mut r: Vec<OrderKey> = Vec::new();
    let mut i: usize = 0;
    while i < keys.len()
        invariant
            i <= keys.len(),
            r.len() == i,
            forall|j: int| 0 <= j < i ==> (#[trigger] r@[j])@ == keys@[j]@,
        decreases keys.len() - i,
    {
        r.push(keys[i].clone());
        i += 1;
    }
    assert(key_views(r@) =~= key_views(keys@));
    r
}

/// Why an ordering is refused.
#[derive(Debug, PartialEq, Eq)]
pub enum OrderClauseError {
    /// A term that is not a field and at most a direction.
    EmptyTerm(String),
    /// A direction that is none.
    InvalidDirection { field: String, direction: String },
    /// A field that the columns do not offer.
    UnknownField(String),
}

/// Why an ordering is refused, as contracts speak of it.
pub enum OrderFault {
    EmptyTerm(Seq<char>),
    InvalidDirection { field: Seq<char>, direction: Seq<char> },
    UnknownField(Seq<char>),
}

impl View for OrderClauseError {
    type V = OrderFault;

    open spec fn view(&self) -> OrderFault {
        match self {
            OrderClauseError::EmptyTerm(text) => OrderFault::EmptyTerm(text@),
            OrderClauseError::InvalidDirection { field, direction } => {
                OrderFault::InvalidDirection { field: field@, direction: direction@ }
            },
            OrderClauseError::UnknownField(field) => OrderFault::UnknownField(field@),
        }
    }
}

impl OrderFault {
    /// The text that describes an error.
    pub open spec fn text(self) -> Seq<char> {
        match self {
            OrderFault::EmptyTerm(text) => "empty order_by term in `"@ + text + "`"@,
            OrderFault::InvalidDirection { field, direction } => "invalid sort direction `"@
                + direction + "` for field `"@ + field + "`"@,
            OrderFault::UnknownField(field) => "unknown order_by field `"@ + field + "`"@,
        }
    }
}

impl OrderClauseError {
    /// Describes this error.
    pub fn message(&self) -> (r: String)
        ensures
            r@ == self@.text(),
    {
        match self {
            OrderClauseError::EmptyTerm(text) => copy_of("empty order_by term in `").concat(
                text.as_str(),
            ).concat("`"),
            OrderClauseError::InvalidDirection { field, direction } => copy_of(
                "invalid sort direction `",
            ).concat(direction.as_str()).concat("` for field `").concat(field.as_str()).concat("`"),
            OrderClauseError::UnknownField(field) => copy_of("unknown order_by field `").concat(
                field.as_str(),
            ).concat("`"),
        }
    }
}

/// The key that one term of an ordering describes, or why it describes none.
pub open spec fn term_key(term: Seq<char>, whole: Seq<char>) -> Result<KeyView, OrderFault> {
    let words = unicode_words(trimmed(term));
    if words.len() == 0 {
        Err(OrderFault::EmptyTerm(whole))
    } else if words.len() == 1 {
        Ok(KeyView { column: words[0], direction: OrderDirection::Asc })
    } else {
        let asc = lowered(words[1]) == lowered("asc"@);
        let desc = lowered(words[1]) == lowered("desc"@);
        if !asc && !desc {
            Err(OrderFault::InvalidDirection { field: words[0], direction: words[1] })
        } else if words.len() > 2 {
            Err(OrderFault::EmptyTerm(whole))
        } else {
            Ok(
                KeyView {
                    column: words[0],
                    direction: if asc {
                        OrderDirection::Asc
                    } else {
                        OrderDirection::Desc
                    },
                },
            )
        }
    }
}

/// Reads the terms from the `i`th on, behind the keys that were read.
pub open spec fn keys_from(
    whole: Seq<char>,
    terms: Seq<Seq<char>>,
    i: int,
    keys: Seq<KeyView>,
) -> Result<Seq<KeyView>, OrderFault>
    decreases terms.len() - i,
{
    if !(0 <= i < terms.len()) {
        Ok(keys)
    } else {
        match term_key(terms[i], whole) {
            Err(fault) => Err(fault),
            Ok(key) => keys_from(whole, terms, i + 1, keys.push(key)),
        }
    }
}

/// The keys that an ordering lists, or why it is refused. A blank one lists none.
pub open spec fn parsed(order_by: Seq<char>) -> Result<Seq<KeyView>, OrderFault> {
    let whole = trimmed(order_by);
    if whole.len() == 0 {
        Ok(Seq::empty())
    } else {
        keys_from(whole, pieces(whole, ','), 0, Seq::empty())
    }
}

/// One key as SQL.
pub open spec fn key_text(key: KeyView) -> Seq<char> {
    key.column + " "@ + key.direction.word()
}

/// Keys as SQL.
pub open spec fn order_text(keys: Seq<KeyView>) -> Seq<char> {
    joined(keys.map_values(|key: KeyView| key_text(key)), ", "@)
}

/// Renames the keys from the `i`th on, behind those that were renamed; or the first column
/// that is not offered.
pub open spec fn renamed_from(
    columns: Map<Seq<char>, Seq<char>>,
    keys: Seq<KeyView>,
    i: int,
    done: Seq<KeyView>,
) -> Result<Seq<KeyView>, Seq<char>>
    decreases keys.len() - i,
{
    if !(0 <= i < keys.len()) {
        Ok(done)
    } else if columns.dom().contains(keys[i].column) {
        renamed_from(
            columns,
            keys,
            i + 1,
            done.push(KeyView { column: columns[keys[i].column], ..keys[i] }),
        )
    } else {
        Err(keys[i].column)
    }
}

/// Keys with their fields resolved to columns, or the first field that is not offered.
pub open spec fn resolved(keys: Seq<KeyView>, columns: Map<Seq<char>, Seq<char>>) -> Result<
    Seq<KeyView>,
    Seq<char>,
> {
    renamed_from(columns, keys, 0, Seq::empty())
}

/// Reads one term of an ordering.
fn read_term(term: &[char], whole: &[char]) -> (r: Result<OrderKey, OrderClauseError>)
    ensures
        match (r, term_key(term@, whole@)) {
            (Ok(key), Ok(found)) => key@ == found,
            (Err(error), Err(found)) => error@ == found,
            _ => false,
        },
{
    let words = split_words(trim(term));
    if words.len() == 0 {
        return Err(OrderClauseError::EmptyTerm(string_of(whole)));
    }
    assert(slices(words@)[0] == words@[0]@);
    let column = string_of(words[0]);
    if words.len() == 1 {
        return Ok(OrderKey { column, direction: OrderDirection::Asc });
    }
    assert(slices(words@)[1] == words@[1]@);
    let direction = if spells(words[1], "asc") {
        OrderDirection::Asc
    } else if spells(words[1], "desc") {
        OrderDirection::Desc
    } else {
        return Err(
            OrderClauseError::InvalidDirection { field: column, direction: string_of(words[1]) },
        );
    };
    if words.len() > 2 {
        return Err(OrderClauseError::EmptyTerm(string_of(whole)));
    }
    Ok(OrderKey { column, direction })
}

/// Reads an ordering.
pub fn read_keys(order_by: &str) -> (r: Result<Vec<OrderKey>, OrderClauseError>)
    ensures
        match (r, parsed(order_by@)) {
            (Ok(keys), Ok(found)) => key_views(keys@) == found,
            (Err(error), Err(found)) => error@ == found,
            _ => false,
        },
{
    let text = chars_of(order_by);
    let whole = trim(text.as_slice());
    let mut keys: Vec<OrderKey> = Vec::new();
    assert(key_views(keys@) =~= Seq::<KeyView>::empty());
    if whole.len() == 0 {
        return Ok(keys);
    }
    let terms = split(whole, ',');
    let mut i: usize = 0;
    while i < terms.len()
        invariant
            i <= terms.len(),
            whole@ == trimmed(order_by@),
            whole@.len() > 0,
            slices(terms@) == pieces(whole@, ','),
            parsed(order_by@) == keys_from(
                whole@,
                pieces(whole@, ','),
                i as int,
                key_views(keys@),
            ),
        decreases terms.len() - i,
    {
        assert(slices(terms@)[i as int] == terms@[i as int]@);
        match read_term(terms[i], whole) {
            Ok(key) => {
                let ghost held = key_views(keys@);
                keys.push(key);
                assert(key_views(keys@) =~= held.push(key@));
            },
            Err(error) => {
                return Err(error);
            },
        }
        i += 1;
    }
    Ok(keys)
}

/// Writes keys as SQL.
pub fn write_keys(keys: &[OrderKey]) -> (r: String)
    ensures
        r@ == order_text(key_views(keys@)),
{
    let ghost views = key_views(keys@);
    let mut terms: Vec<String> = Vec::new();
    let mut i: usize = 0;
    while i < keys.len()
        invariant
            i <= keys.len(),
            terms.len() == i,
            views == key_views(keys@),
            forall|j: int| 0 <= j < i ==> (#[trigger] terms@[j])@ == key_text(views[j]),
        decreases keys.len() - i,
    {
        let mut term = copy_of(keys[i].column.as_str());
        term.append(" ");
        term.append(keys[i].direction.keyword());
        terms.push(term);
        i += 1;
    }
    assert(strings(terms@) =~= views.map_values(|key: KeyView| key_text(key)));
    join(terms.as_slice(), ", ")
}

/// Renames the fields of keys to the columns that they stand for.
pub fn rename_keys(keys: &[OrderKey], columns: &Columns) -> (r: Result<Vec<OrderKey>, String>)
    ensures
        match (r, resolved(key_views(keys@), columns@)) {
            (Ok(done), Ok(found)) => key_views(done@) == found,
            (Err(field), Err(name)) => field@ == name,
            _ => false,
        },
{
    let ghost views = key_views(keys@);
    let mut done: Vec<OrderKey> = Vec::new();
    let mut i: usize = 0;
    assert(key_views(done@) =~= Seq::<KeyView>::empty());
    while i < keys.len()
        invariant
            i <= keys.len(),
            views == key_views(keys@),
            resolved(views, columns@) == renamed_from(
                columns@,
                views,
                i as int,
                key_views(done@),
            ),
        decreases keys.len() - i,
    {
        assert(views[i as int] == keys@[i as int]@);
        match columns.get(keys[i].column.as_str()) {
            Some(column) => {
                let ghost held = key_views(done@);
                let key = OrderKey { column: copy_of(column), direction: keys[i].direction };
                done.push(key);
                assert(key_views(done@) =~= held.push(key@));
            },
            None => {
                return Err(copy_of(keys[i].column.as_str()));
            },
        }
        i += 1;
    }
    Ok(done)
}

/// Whether two lists hold the same keys.
pub fn same_keys(a: &[OrderKey], b: &[OrderKey]) -> (r: bool)
    ensures
        r == (key_views(a@) == key_views(b@)),
{
    if a.len() != b.len() {
        assert(key_views(a@).len() != key_views(b@).len());
        return false;
    }
    let mut i: usize = 0;
    while i < a.len()
        invariant
            i <= a.len(),
            a.len() == b.len(),
            forall|j: int| 0 <= j < i ==> (#[trigger] a@[j])@ == b@[j]@,
        decreases a.len() - i,
    {
        if !same(a[i].column.as_str(), b[i].column.as_str()) || a[i].direction != b[i].direction {
            assert(key_views(a@)[i as int] != key_views(b@)[i as int]);
            return false;
        }
        i += 1;
    }
    assert(key_views(a@) =~= key_views(b@));
    true
}

/// A parsed ordering: `field [asc|desc], ...`.
#[derive(Debug, PartialEq, Eq)]
pub struct OrderClause {
    keys: Vec<OrderKey>,
}

/// The name that an ordering has beside the other clauses.
pub type OrderByClause = OrderClause;

impl View for OrderClause {
    type V = Seq<KeyView>;

    closed spec fn view(&self) -> Seq<KeyView> {
        key_views(self.keys@)
    }
}

impl Clone for OrderClause {
    fn clone(&self) -> (r: OrderClause)
        ensures
            r@ == self@,
    {
        OrderClause { keys: copy_keys(self.keys.as_slice()) }
    }
}

impl Default for OrderClause {
    fn default() -> (r: OrderClause)
        ensures
            r@ == Seq::<KeyView>::empty(),
    {
        let r = OrderClause { keys: Vec::new() };
        assert(r@ =~= Seq::<KeyView>::empty());
        r
    }
}

impl OrderClause {
    /// An ordering of these keys.
    pub fn from_keys(keys: Vec<OrderKey>) -> (r: OrderClause)
        ensures
            r@ == key_views(keys@),
    {
        OrderClause { keys }
    }

    /// Parses `field [asc|desc], field2 [asc|desc], ...`. A blank string parses to an empty
    /// ordering.
    pub fn parse(order_by: &str) -> (r: Result<OrderClause, OrderClauseError>)
        ensures
            match (r, parsed(order_by@)) {
                (Ok(clause), Ok(keys)) => clause@ == keys,
                (Err(error), Err(found)) => error@ == found,
                _ => false,
            },
    {
        match read_keys(order_by) {
            Ok(keys) => Ok(OrderClause { keys }),
            Err(error) => Err(error),
        }
    }

    /// Renders to `col1 ASC, col2 DESC`.
    pub fn sql(&self) -> (r: String)
        ensures
            r@ == order_text(self@),
    {
        write_keys(self.keys.as_slice())
    }

    /// The keys, in order.
    pub fn keys(&self) -> (r: &[OrderKey])
        ensures
            key_views(r@) == self@,
    {
        self.keys.as_slice()
    }

    /// Whether two orderings have the same keys.
    pub fn matches(&self, other: &OrderClause) -> (b: bool)
        ensures
            b == (self@ == other@),
    {
        same_keys(self.keys.as_slice(), other.keys.as_slice())
    }

    /// One more key, ascending.
    pub fn asc(self, column: &str) -> (r: OrderClause)
        ensures
            r@ == self@.push(KeyView { column: column@, direction: OrderDirection::Asc }),
    {
        self.with_key(OrderKey { column: copy_of(column), direction: OrderDirection::Asc })
    }

    /// One more key, descending.
    pub fn desc(self, column: &str) -> (r: OrderClause)
        ensures
            r@ == self@.push(KeyView { column: column@, direction: OrderDirection::Desc }),
    {
        self.with_key(OrderKey { column: copy_of(column), direction: OrderDirection::Desc })
    }

    fn with_key(self, key: OrderKey) -> (r: OrderClause)
        ensures
            r@ == self@.push(key@),
    {
        let ghost before = self@;
        let mut keys = self.keys;
        keys.push(key);
        let r = OrderClause { keys };
        assert(r@ =~= before.push(key@));
        r
    }

    /// Appends the keys of another ordering behind this one's own, as tie-breakers: sort by
    /// `self`, and then by `other`.
    pub fn then(self, other: OrderClause) -> (r: OrderClause)
        ensures
            r@ == self@ + other@,
    {
        let mut r = self;
        r.extend(other);
        r
    }

    /// Appends the keys of another ordering in place.
    pub fn extend(&mut self, other: OrderClause)
        ensures
            final(self)@ == old(self)@ + other@,
    {
        let mut more = other.keys;
        let ghost before = self@;
        let ghost added = key_views(more@);
        self.keys.append(&mut more);
        assert(self@ =~= before + added);
    }

    /// Renames every field to the column that it stands for. A field that the columns do not
    /// offer is refused.
    pub fn resolve(self, columns: &Columns) -> (r: Result<OrderClause, OrderClauseError>)
        ensures
            match (r, resolved(self@, columns@)) {
                (Ok(clause), Ok(found)) => clause@ == found,
                (Err(error), Err(field)) => error@ == OrderFault::UnknownField(field),
                _ => false,
            },
    {
        match rename_keys(self.keys.as_slice(), columns) {
            Ok(keys) => Ok(OrderClause { keys }),
            Err(field) => Err(OrderClauseError::UnknownField(field)),
        }
    }
}

impl QueryResolver for OrderClause {
    type Error = OrderClauseError;

    open spec fn resolves(
        &self,
        columns: Map<Seq<char>, Seq<char>>,
        r: Result<OrderClause, OrderClauseError>,
    ) -> bool {
        match (r, resolved(self@, columns)) {
            (Ok(clause), Ok(found)) => clause@ == found,
            (Err(error), Err(field)) => error@ == OrderFault::UnknownField(field),
            _ => false,
        }
    }

    fn resolve(self, columns: &Columns) -> (r: Result<OrderClause, OrderClauseError>) {
        OrderClause::resolve(self, columns)
    }
}

// ---------------------------------------------------------------------------
// Laws
// ---------------------------------------------------------------------------

proof fn lemma_renamed(
    columns: Map<Seq<char>, Seq<char>>,
    keys: Seq<KeyView>,
    i: int,
    done: Seq<KeyView>,
)
    requires
        0 <= i <= keys.len(),
        done.len() == i,
        forall|j: int|
            0 <= j < i ==> columns.dom().contains((#[trigger] keys[j]).column) && done[j] == (
            KeyView { column: columns[keys[j].column], ..keys[j] }),
    ensures
        match renamed_from(columns, keys, i, done) {
            Ok(all) => all.len() == keys.len() && forall|j: int|
                0 <= j < keys.len() ==> columns.dom().contains((#[trigger] keys[j]).column)
                    && all[j] == (KeyView { column: columns[keys[j].column], ..keys[j] }),
            Err(column) => !columns.dom().contains(column) && exists|j: int|
                0 <= j < keys.len() && (#[trigger] keys[j]).column == column,
        },
    decreases keys.len() - i,
{
    if i < keys.len() {
        if columns.dom().contains(keys[i].column) {
            let next = done.push(KeyView { column: columns[keys[i].column], ..keys[i] });
            lemma_renamed(columns, keys, i + 1, next);
        } else {
            assert(keys[i].column == keys[i].column);
        }
    }
}

/// The columns are an allowlist: an ordering resolves exactly where every field of it is
/// offered, and then each key keeps its place and direction.
pub proof fn law_only_offered_fields_resolve(
    keys: Seq<KeyView>,
    columns: Map<Seq<char>, Seq<char>>,
)
    ensures
        resolved(keys, columns) is Ok <==> forall|j: int|
            0 <= j < keys.len() ==> columns.dom().contains((#[trigger] keys[j]).column),
        match resolved(keys, columns) {
            Ok(all) => all.len() == keys.len() && forall|j: int|
                0 <= j < keys.len() ==> (#[trigger] all[j]) == (KeyView {
                    column: columns[keys[j].column],
                    ..keys[j]
                }),
            Err(column) => !columns.dom().contains(column),
        },
{
    lemma_renamed(columns, keys, 0, Seq::empty());
    match resolved(keys, columns) {
        Ok(all) => {
            assert forall|j: int| 0 <= j < keys.len() implies (#[trigger] all[j]) == (KeyView {
                column: columns[keys[j].column],
                ..keys[j]
            }) by {
                assert(columns.dom().contains(keys[j].column));
            }
        },
        Err(column) => {
            let j = choose|j: int| 0 <= j < keys.len() && (#[trigger] keys[j]).column == column;
            assert(!columns.dom().contains(keys[j].column));
        },
    }
}

proof fn lemma_keys_from_len(
    whole: Seq<char>,
    terms: Seq<Seq<char>>,
    i: int,
    keys: Seq<KeyView>,
)
    requires
        0 <= i <= terms.len(),
    ensures
        keys_from(whole, terms, i, keys) matches Ok(all) ==> all.len() == keys.len() + terms.len()
            - i,
    decreases terms.len() - i,
{
    if i < terms.len() {
        if let Ok(key) = term_key(terms[i], whole) {
            lemma_keys_from_len(whole, terms, i + 1, keys.push(key));
        }
    }
}

/// Every term of an ordering becomes a key, and none is dropped.
pub proof fn law_every_term_is_a_key(order_by: Seq<char>)
    requires
        trimmed(order_by).len() > 0,
    ensures
        parsed(order_by) matches Ok(keys) ==> keys.len() == pieces(trimmed(order_by), ',').len(),
{
    let whole = trimmed(order_by);
    lemma_keys_from_len(whole, pieces(whole, ','), 0, Seq::empty());
}

/// A column that an ordering can name: it is not empty, and holds no comma and no white space.
pub open spec fn nameable(column: Seq<char>) -> bool {
    &&& column.len() > 0
    &&& lacks(column, ',')
    &&& solid(column, |c: char| white_space(c))
}

/// Every column can be named.
pub open spec fn all_nameable(keys: Seq<KeyView>) -> bool {
    forall|i: int| 0 <= i < keys.len() ==> nameable((#[trigger] keys[i]).column)
}

proof fn lemma_term_nameable(term: Seq<char>, whole: Seq<char>)
    requires
        lacks(term, ','),
    ensures
        term_key(term, whole) matches Ok(key) ==> nameable(key.column),
{
    let white = |c: char| white_space(c);
    let text = trimmed(term);
    lemma_trimmed(term, ',');
    lemma_words_solid(text, white);
    lemma_words_lack(text, white, ',');
    if words(text, white).len() > 0 {
        let first = words(text, white)[0];
        assert(solid(first, white));
        assert(lacks(first, ','));
    }
}

proof fn lemma_keys_nameable(
    whole: Seq<char>,
    terms: Seq<Seq<char>>,
    i: int,
    keys: Seq<KeyView>,
)
    requires
        all_nameable(keys),
        forall|j: int| 0 <= j < terms.len() ==> lacks(#[trigger] terms[j], ','),
    ensures
        keys_from(whole, terms, i, keys) matches Ok(all) ==> all_nameable(all),
    decreases terms.len() - i,
{
    if 0 <= i < terms.len() {
        if let Ok(key) = term_key(terms[i], whole) {
            assert(lacks(terms[i], ','));
            lemma_term_nameable(terms[i], whole);
            let next = keys.push(key);
            assert forall|j: int| 0 <= j < next.len() implies nameable(
                (#[trigger] next[j]).column,
            ) by {
                if j < keys.len() {
                    assert(next[j] == keys[j]);
                }
            }
            lemma_keys_nameable(whole, terms, i + 1, next);
        }
    }
}

/// Every column of an ordering that was parsed can be named again.
pub proof fn law_parsed_columns_can_be_named(order_by: Seq<char>)
    ensures
        parsed(order_by) matches Ok(keys) ==> all_nameable(keys),
{
    let whole = trimmed(order_by);
    lemma_pieces_lack(whole, ',');
    lemma_keys_nameable(whole, pieces(whole, ','), 0, Seq::empty());
}

proof fn lemma_key_text(key: KeyView)
    requires
        nameable(key.column),
    ensures
        key_text(key).len() > 0,
        !white_space(key_text(key)[0]),
        !white_space(key_text(key).last()),
        lacks(key_text(key), ','),
        unicode_words(key_text(key)) == seq![key.column, key.direction.word()],
        (lowered(key.direction.word()) == lowered("asc"@)) == (key.direction
            == OrderDirection::Asc),
        (lowered(key.direction.word()) == lowered("desc"@)) == (key.direction
            == OrderDirection::Desc),
{
    let white = |c: char| white_space(c);
    let word = key.direction.word();
    let text = key_text(key);
    reveal_strlit(" ");
    reveal_strlit("ASC");
    reveal_strlit("DESC");
    reveal_strlit("asc");
    reveal_strlit("desc");
    assert(solid(word, white));
    assert(lacks(word, ','));
    assert(text =~= key.column.push(' ') + word);
    assert(white(' '));
    assert(!white(key.column[0]));
    lemma_one_word(key.column, white);
    lemma_last_word(key.column, ' ', word, white);
    assert(unicode_words(text) =~= seq![key.column, word]);
    assert(text.last() == word.last());
    assert forall|i: int| 0 <= i < text.len() implies #[trigger] text[i] != ',' by {
        if i < key.column.len() {
            assert(text[i] == key.column[i]);
        } else if i > key.column.len() {
            assert(text[i] == word[i - key.column.len() - 1]);
        }
    }
    assert(lowered(word).len() == word.len());
    assert(lowered("asc"@).len() == 3);
    assert(lowered("desc"@).len() == 4);
    match key.direction {
        OrderDirection::Asc => {
            assert(lowered(word) =~= lowered("asc"@));
        },
        OrderDirection::Desc => {
            assert(lowered(word) =~= lowered("desc"@));
        },
    }
}

proof fn lemma_term_text(whole: Seq<char>, key: KeyView)
    requires
        nameable(key.column),
    ensures
        term_key(key_text(key), whole) == Ok::<KeyView, OrderFault>(key),
        term_key(" "@ + key_text(key), whole) == Ok::<KeyView, OrderFault>(key),
        lacks(" "@ + key_text(key), ','),
{
    lemma_key_text(key);
    lemma_trim_space(key_text(key));
    reveal_strlit(" ");
    let padded = " "@ + key_text(key);
    assert forall|i: int| 0 <= i < padded.len() implies #[trigger] padded[i] != ',' by {
        if i > 0 {
            assert(padded[i] == key_text(key)[i - 1]);
        }
    }
}

/// The terms of a rendered ordering.
spec fn rendered_terms(keys: Seq<KeyView>) -> Seq<Seq<char>> {
    Seq::new(
        keys.len(),
        |i: int|
            if i == 0 {
                key_text(keys[i])
            } else {
                " "@ + key_text(keys[i])
            },
    )
}

proof fn lemma_order_text(keys: Seq<KeyView>)
    requires
        keys.len() > 0,
        all_nameable(keys),
    ensures
        pieces(order_text(keys), ',') == rendered_terms(keys),
        order_text(keys).len() > 0,
        !white_space(order_text(keys)[0]),
        !white_space(order_text(keys).last()),
    decreases keys.len(),
{
    let texts = keys.map_values(|key: KeyView| key_text(key));
    let last = keys.last();
    assert(nameable(keys[keys.len() - 1].column));
    lemma_key_text(last);
    lemma_term_text(Seq::empty(), last);
    assert(texts.last() == key_text(last));
    if keys.len() == 1 {
        assert(order_text(keys) =~= key_text(last));
        lemma_one_piece(key_text(last), ',');
        assert(rendered_terms(keys) =~= seq![key_text(last)]);
    } else {
        let front = keys.drop_last();
        assert forall|i: int| 0 <= i < front.len() implies nameable(
            (#[trigger] front[i]).column,
        ) by {
            assert(front[i] == keys[i]);
        }
        lemma_order_text(front);
        assert(texts.drop_last() =~= front.map_values(|key: KeyView| key_text(key)));
        reveal_strlit(", ");
        reveal_strlit(" ");
        let text = order_text(keys);
        assert(text =~= order_text(front).push(',') + (" "@ + key_text(last)));
        lemma_last_piece(order_text(front), " "@ + key_text(last), ',');
        assert(rendered_terms(keys) =~= rendered_terms(front).push(" "@ + key_text(last)));
        assert(text.last() == key_text(last).last());
        assert(text[0] == order_text(front)[0]);
    }
}

proof fn lemma_keys_read(whole: Seq<char>, keys: Seq<KeyView>, i: int, done: Seq<KeyView>)
    requires
        0 <= i <= keys.len(),
        all_nameable(keys),
        done == keys.take(i),
    ensures
        keys_from(whole, rendered_terms(keys), i, done) == Ok::<Seq<KeyView>, OrderFault>(keys),
    decreases keys.len() - i,
{
    if i < keys.len() {
        assert(nameable(keys[i].column));
        lemma_term_text(whole, keys[i]);
        assert(done.push(keys[i]) =~= keys.take(i + 1));
        lemma_keys_read(whole, keys, i + 1, done.push(keys[i]));
    } else {
        assert(done =~= keys);
    }
}

/// A rendered ordering reads back as the same keys, in the same order. Left out are columns that
/// an ordering cannot name: an empty one, or one with a comma or white space in it.
pub proof fn law_a_rendered_ordering_reads_back(keys: Seq<KeyView>)
    requires
        all_nameable(keys),
    ensures
        parsed(order_text(keys)) == Ok::<Seq<KeyView>, OrderFault>(keys),
{
    if keys.len() == 0 {
        assert(order_text(keys) =~= Seq::<char>::empty());
        assert(keys =~= Seq::<KeyView>::empty());
    } else {
        lemma_order_text(keys);
        lemma_trim_space(order_text(keys));
        assert(keys.take(0) =~= Seq::<KeyView>::empty());
        lemma_keys_read(order_text(keys), keys, 0, keys.take(0));
    }
}

/// Whatever parses renders to a text that parses to the same ordering.
pub proof fn law_a_parsed_ordering_reads_back(order_by: Seq<char>)
    ensures
        parsed(order_by) matches Ok(keys) ==> parsed(order_text(keys)) == parsed(order_by),
{
    if let Ok(keys) = parsed(order_by) {
        law_parsed_columns_can_be_named(order_by);
        law_a_rendered_ordering_reads_back(keys);
    }
}

/// What an ordering asks of SQL.
pub open spec fn asked_terms(keys: Seq<KeyView>) -> Seq<SqlTerm> {
    keys.map_values(
        |key: KeyView|
            SqlTerm { name: key.column, descending: key.direction == OrderDirection::Desc },
    )
}

proof fn lemma_terms(keys: Seq<KeyView>, n: nat)
    requires
        n <= keys.len(),
    ensures
        order_text(keys.take(n as int)) == terms_spelled(
            asked_terms(keys),
            n,
            |name: Seq<char>| name,
        ),
    decreases n,
{
    let name = |name: Seq<char>| name;
    let now = keys.take(n as int);
    let texts = now.map_values(|key: KeyView| key_text(key));
    if n == 0 {
        assert(order_text(now) =~= Seq::<char>::empty());
    } else {
        lemma_terms(keys, (n - 1) as nat);
        reveal_strlit(" ");
        reveal_strlit("ASC");
        reveal_strlit("DESC");
        reveal_strlit(" ASC");
        reveal_strlit(" DESC");
        let key = keys[n - 1];
        let last = if key.direction == OrderDirection::Desc {
            " DESC"@
        } else {
            " ASC"@
        };
        assert(key_text(key) =~= key.column + last);
        assert(texts.last() == key_text(key));
        assert(texts.drop_last() =~= keys.take(n - 1).map_values(|key: KeyView| key_text(key)));
        if n == 1 {
            assert(texts[0] == key_text(key));
        }
    }
}

/// An ordering runs in SQL as it was asked for: by each column in turn, the largest first exactly
/// where the key descends.
pub proof fn law_an_ordering_runs_as_asked(keys: Seq<KeyView>)
    ensures
        order_text(keys) == terms_spelled(
            asked_terms(keys),
            keys.len(),
            |name: Seq<char>| name,
        ),
{
    lemma_terms(keys, keys.len());
    assert(keys.take(keys.len() as int) =~= keys);
}

/// A term is read with any white space around and between its words, and its direction in either
/// case; without one it ascends. Any other word is refused as a direction, with its field.
#[verifier::rlimit(50)]
pub proof fn law_a_term_is_read_in_any_spelling(
    lead: Seq<char>,
    column: Seq<char>,
    gap: Seq<char>,
    word: Seq<char>,
    tail: Seq<char>,
    whole: Seq<char>,
)
    requires
        blank(lead, |c: char| white_space(c)),
        blank(gap, |c: char| white_space(c)),
        blank(tail, |c: char| white_space(c)),
        gap.len() > 0,
        column.len() > 0,
        word.len() > 0,
        solid(column, |c: char| white_space(c)),
        solid(word, |c: char| white_space(c)),
    ensures
        term_key(lead + column + tail, whole) == Ok::<KeyView, OrderFault>(
            KeyView { column, direction: OrderDirection::Asc },
        ),
        lowered(word) == "asc"@ ==> term_key(lead + column + gap + word + tail, whole) == Ok::<
            KeyView,
            OrderFault,
        >(KeyView { column, direction: OrderDirection::Asc }),
        lowered(word) == "desc"@ ==> term_key(lead + column + gap + word + tail, whole) == Ok::<
            KeyView,
            OrderFault,
        >(KeyView { column, direction: OrderDirection::Desc }),
        lowered(word) != "asc"@ && lowered(word) != "desc"@ ==> term_key(
            lead + column + gap + word + tail,
            whole,
        ) == Err::<KeyView, OrderFault>(
            OrderFault::InvalidDirection { field: column, direction: word },
        ),
{
    let white = |c: char| white_space(c);
    let none = Seq::<char>::empty();
    assert(!white(column[0]) && !white(column[column.len() - 1]) && !white(word[word.len() - 1]));
    law_trimming_leaves_the_text(lead, column, tail);
    law_words_stand_between_white_space(none, column, gap, word, none, white);
    assert(none + column + none =~= column);
    let both = column + gap + word;
    assert(none + column + gap + word + none =~= both);
    assert(both[0] == column[0] && both.last() == word[word.len() - 1]);
    law_trimming_leaves_the_text(lead, both, tail);
    assert(lead + both + tail =~= lead + column + gap + word + tail);
    reveal_strlit("asc");
    reveal_strlit("desc");
    assert(lowered("asc"@) =~= "asc"@);
    assert(lowered("desc"@) =~= "desc"@);
    assert("asc"@.len() != "desc"@.len());
}

/// An ordering reads as its terms do, one key for each, and is refused exactly where one of them is.
/// A blank one lists nothing.
pub proof fn law_an_ordering_reads_as_its_terms(order_by: Seq<char>)
    ensures
        parsed(order_by) matches Ok(keys) ==> trimmed(order_by).len() > 0 ==> keys.len() == pieces(
            trimmed(order_by),
            ',',
        ).len() && forall|i: int|
            0 <= i < keys.len() ==> term_key(
                pieces(trimmed(order_by), ',')[i],
                trimmed(order_by),
            ) == Ok::<KeyView, OrderFault>(#[trigger] keys[i]),
        parsed(order_by) matches Err(fault) ==> exists|i: int|
            0 <= i < pieces(trimmed(order_by), ',').len() && term_key(
                #[trigger] pieces(trimmed(order_by), ',')[i],
                trimmed(order_by),
            ) == Err::<KeyView, OrderFault>(fault),
        trimmed(order_by).len() == 0 ==> parsed(order_by) == Ok::<Seq<KeyView>, OrderFault>(
            Seq::empty(),
        ),
{
    let whole = trimmed(order_by);
    lemma_terms_read(whole, pieces(whole, ','), 0, Seq::empty());
}

proof fn lemma_terms_read(
    whole: Seq<char>,
    terms: Seq<Seq<char>>,
    i: int,
    keys: Seq<KeyView>,
)
    requires
        0 <= i <= terms.len(),
        keys.len() == i,
        forall|j: int|
            0 <= j < i ==> term_key(terms[j], whole) == Ok::<KeyView, OrderFault>(
                #[trigger] keys[j],
            ),
    ensures
        match keys_from(whole, terms, i, keys) {
            Ok(all) => all.len() == terms.len() && forall|j: int|
                0 <= j < all.len() ==> term_key(terms[j], whole) == Ok::<KeyView, OrderFault>(
                    #[trigger] all[j],
                ),
            Err(fault) => exists|j: int|
                0 <= j < terms.len() && term_key(#[trigger] terms[j], whole) == Err::<
                    KeyView,
                    OrderFault,
                >(fault),
        },
    decreases terms.len() - i,
{
    if i < terms.len() {
        match term_key(terms[i], whole) {
            Err(fault) => {
                assert(term_key(terms[i], whole) == Err::<KeyView, OrderFault>(fault));
            },
            Ok(key) => {
                lemma_terms_read(whole, terms, i + 1, keys.push(key));
            },
        }
    }
}

/// An error tells the field and the word that was meant as its direction, the ordering that has an
/// empty term, and the field that is not offered.
pub proof fn law_an_error_tells_what_is_wrong(field: Seq<char>, direction: Seq<char>)
    ensures
        (OrderFault::InvalidDirection { field, direction }).text() == "invalid sort direction `"@ + (
        direction + ("` for field `"@ + (field + "`"@))),
        OrderFault::EmptyTerm(field).text() == "empty order_by term in `"@ + (field + "`"@),
        OrderFault::UnknownField(field).text() == "unknown order_by field `"@ + (field + "`"@),
{
    assert((OrderFault::InvalidDirection { field, direction }).text() =~= "invalid sort direction `"@
        + (direction + ("` for field `"@ + (field + "`"@))));
    assert(OrderFault::EmptyTerm(field).text() =~= "empty order_by term in `"@ + (field + "`"@));
    assert(OrderFault::UnknownField(field).text() =~= "unknown order_by field `"@ + (field + "`"@));
}

/// A term without a word, or with a word behind its direction, is refused with the whole ordering.
pub proof fn law_a_term_is_one_word_or_two(term: Seq<char>, whole: Seq<char>)
    ensures
        ({
            let words = unicode_words(trimmed(term));
            &&& words.len() == 0 ==> term_key(term, whole) == Err::<KeyView, OrderFault>(
                OrderFault::EmptyTerm(whole),
            )
            &&& words.len() > 2 && (lowered(words[1]) == "asc"@ || lowered(words[1]) == "desc"@)
                ==> term_key(term, whole) == Err::<KeyView, OrderFault>(
                OrderFault::EmptyTerm(whole),
            )
            &&& words.len() > 2 ==> term_key(term, whole) is Err
            &&& term_key(term, whole) matches Ok(key) ==> words.len() > 0 && key.column == words[0]
        }),
{
    reveal_strlit("asc");
    reveal_strlit("desc");
    assert(lowered("asc"@) =~= "asc"@);
    assert(lowered("desc"@) =~= "desc"@);
}

} // verus!

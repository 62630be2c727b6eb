//! Which columns a result is ordered by, and in which direction.

use vstd::prelude::*;
use vstd::string::StringExecFns;

use crate::template::dialect::{quote_name, Dialect};
#[allow(unused_imports)]
use crate::template::dialect::quoted;
use crate::template::error::Error;
#[allow(unused_imports)]
use crate::template::fragment::{chars, sql_of, Piece};
use crate::template::fragment::{add_text, QueryFragment};
#[allow(unused_imports)]
use crate::template::mapping::{column_views, path_view, ColumnView};
use crate::template::mapping::{Column, Mapping};
use crate::template::value::Value;
#[allow(unused_imports)]
use crate::template::value::ValueView;
use crate::text::{chars_of, copy_of, same, spells, split, split_ascii_words, string_of, trim};
#[allow(unused_imports)]
use crate::text::{
    ascii_white_space, ascii_words, joined, lacks, lemma_first_word, lemma_last_piece,
    lemma_last_word, lemma_one_piece, lemma_one_word, lemma_pieces_lack, lemma_trim_space,
    lemma_trimmed, lemma_words_lack, lemma_words_solid, lowered, pieces, slices, solid, strings,
    trimmed, white_space, words,
};

#[allow(unused_imports)]
use crate::meaning::{terms_spelled, SqlTerm};
#[allow(unused_imports)]
use crate::text::{blank, law_trimming_leaves_the_text, law_words_stand_between_white_space};

verus! {

/// Which way a sort key runs.
#[derive(Debug, Clone, Copy, PartialEq, Eq, Structural)]
pub enum Direction {
    /// Smallest first.
    Asc,
    /// Largest first.
    Desc,
}

impl Direction {
    /// The SQL keyword.
    pub open spec fn word(self) -> Seq<char> {
        match self {
            Direction::Asc => "ASC"@,
            Direction::Desc => "DESC"@,
        }
    }

    /// The keyword in lower case.
    pub open spec fn lower_word(self) -> Seq<char> {
        match self {
            Direction::Asc => "asc"@,
            Direction::Desc => "desc"@,
        }
    }

    /// The SQL keyword.
    pub fn keyword(self) -> (r: &'static str)
        ensures
            r@ == self.word(),
    {
        match self {
            Direction::Asc => "ASC",
            Direction::Desc => "DESC",
        }
    }

    fn lower_keyword(self) -> (r: &'static str)
        ensures
            r@ == self.lower_word(),
    {
        match self {
            Direction::Asc => "asc",
            Direction::Desc => "desc",
        }
    }
}

impl Default for Direction {
    fn default() -> (r: Direction)
        ensures
            r == Direction::Asc,
    {
        Direction::Asc
    }
}

/// One key of a sort: a request-facing field path and a direction.
#[derive(Debug, PartialEq, Eq)]
pub struct SortKey {
    /// The path as the request spells it, dots and all.
    pub field: String,
    /// Which way it runs.
    pub direction: Direction,
}

/// A sort key, as contracts speak of it.
pub struct KeyView {
    pub field: Seq<char>,
    pub direction: Direction,
}

impl View for SortKey {
    type V = KeyView;

    open spec fn view(&self) -> KeyView {
        KeyView { field: self.field@, direction: self.direction }
    }
}

/// What a list of keys holds.
pub open spec fn key_views(keys: Seq<SortKey>) -> Seq<KeyView> {
    keys.map_values(|key: SortKey| key@)
}

impl Clone for SortKey {
    fn clone(&self) -> (r: SortKey)
        ensures
            r@ == self@,
    {
        SortKey { field: self.field.clone(), direction: self.direction }
    }
}

impl SortKey {
    /// A key, ascending.
    pub fn asc(field: &str) -> (r: SortKey)
        ensures
            r@ == (KeyView { field: field@, direction: Direction::Asc }),
    {
        SortKey { field: copy_of(field), direction: Direction::Asc }
    }

    /// A key, descending.
    pub fn desc(field: &str) -> (r: SortKey)
        ensures
            r@ == (KeyView { field: field@, direction: Direction::Desc }),
    {
        SortKey { field: copy_of(field), direction: Direction::Desc }
    }
}

/// Copies a list of keys.
pub fn copy_keys(keys: &[SortKey]) -> (r: Vec<SortKey>)
    ensures
        key_views(r@) == key_views(keys@),
{
    let mut r: Vec<SortKey> = Vec::new();
    let mut i: usize = 0;
    while i < keys.len()
        invariant
            i <= keys.len(),
            r@.len() == i,
            forall|j: int| 0 <= j < i ==> (#[trigger] r@[j])@ == keys@[j]@,
        decreases keys.len() - i,
    {
        r.push(keys[i].clone());
        i += 1;
    }
    assert(key_views(r@) =~= key_views(keys@));
    r
}

/// A key of this field is among `keys`.
pub open spec fn sorts_by(keys: Seq<KeyView>, field: Seq<char>) -> bool {
    exists|i: int| 0 <= i < keys.len() && (#[trigger] keys[i]).field == field
}

/// `keys` with `key` behind them, unless its field is already there.
pub open spec fn inserted(keys: Seq<KeyView>, key: KeyView) -> Seq<KeyView> {
    if sorts_by(keys, key.field) {
        keys
    } else {
        keys.push(key)
    }
}

/// `keys` with every key of `more` inserted in turn.
pub open spec fn inserted_all(keys: Seq<KeyView>, more: Seq<KeyView>) -> Seq<KeyView>
    decreases more.len(),
{
    if more.len() == 0 {
        keys
    } else {
        inserted(inserted_all(keys, more.drop_last()), more.last())
    }
}

/// No field occurs twice.
pub open spec fn distinct(keys: Seq<KeyView>) -> bool {
    forall|i: int, j: int|
        0 <= i < j < keys.len() ==> (#[trigger] keys[i]).field != (#[trigger] keys[j]).field
}

/// The direction that a word spells, in either case.
pub open spec fn direction_of(word: Seq<char>) -> Option<Direction> {
    if lowered(word) == lowered("asc"@) {
        Some(Direction::Asc)
    } else if lowered(word) == lowered("desc"@) {
        Some(Direction::Desc)
    } else {
        None
    }
}

/// The key that one element of `source` describes, or why it describes none.
pub open spec fn element_key(source: Seq<char>, element: Seq<char>) -> Result<KeyView, Seq<char>> {
    let element = trimmed(element);
    let words = ascii_words(element);
    if element.len() == 0 {
        Err("`"@ + source + "` has an empty element: check for a stray comma"@)
    } else if words.len() == 0 {
        Err("`"@ + element + "` names no field"@)
    } else if words.len() == 1 {
        Ok(KeyView { field: words[0], direction: Direction::Asc })
    } else {
        match direction_of(words[1]) {
            None => Err("`"@ + words[1] + "` is not a direction: expected `asc` or `desc`"@),
            Some(direction) => if words.len() > 2 {
                Err(
                    "`"@ + element + "` has trailing text (`"@ + words[2]
                        + "`): expected `field [asc|desc]`"@,
                )
            } else {
                Ok(KeyView { field: words[0], direction })
            },
        }
    }
}

/// Reads the elements from the `i`th on, behind the keys that were read.
pub open spec fn keys_from(
    source: Seq<char>,
    elements: Seq<Seq<char>>,
    i: int,
    keys: Seq<KeyView>,
) -> Result<Seq<KeyView>, Seq<char>>
    decreases elements.len() - i,
{
    if !(0 <= i < elements.len()) {
        Ok(keys)
    } else {
        match element_key(source, elements[i]) {
            Err(message) => Err(message),
            Ok(key) => keys_from(source, elements, i + 1, inserted(keys, key)),
        }
    }
}

/// The ordering that an `order_by` string asks for, or why it asks for none. A blank string
/// asks for no ordering.
pub open spec fn parsed(source: Seq<char>) -> Result<Seq<KeyView>, Seq<char>> {
    let source = trimmed(source);
    if source.len() == 0 {
        Ok(Seq::empty())
    } else {
        keys_from(source, pieces(source, ','), 0, Seq::empty())
    }
}

/// One key in its canonical spelling.
pub open spec fn key_text(key: KeyView) -> Seq<char> {
    key.field + " "@ + key.direction.lower_word()
}

/// An ordering in its canonical spelling.
pub open spec fn sort_text(keys: Seq<KeyView>) -> Seq<char> {
    joined(keys.map_values(|key: KeyView| key_text(key)), ", "@)
}

/// The column behind a dotted field.
pub open spec fn column_for<M: Mapping>(mapping: &M, field: Seq<char>) -> Option<ColumnView> {
    mapping.exposes(pieces(field, '.'))
}

/// The columns behind the first `n` keys, or the first field that has none.
pub open spec fn columns_for<M: Mapping>(
    mapping: &M,
    keys: Seq<KeyView>,
    n: nat,
) -> Result<Seq<ColumnView>, Seq<char>>
    decreases n,
{
    if n == 0 {
        Ok(Seq::empty())
    } else {
        match columns_for(mapping, keys, (n - 1) as nat) {
            Err(field) => Err(field),
            Ok(columns) => match column_for(mapping, keys[n - 1].field) {
                Some(column) => Ok(columns.push(column)),
                None => Err(keys[n - 1].field),
            },
        }
    }
}

/// One key of an `ORDER BY`.
pub open spec fn order_term(key: KeyView, column: ColumnView, mark: char) -> Seq<char> {
    quoted(column.name, mark) + " "@ + key.direction.word()
}

/// The body of an `ORDER BY`.
pub open spec fn order_text(keys: Seq<KeyView>, columns: Seq<ColumnView>, mark: char) -> Seq<char> {
    joined(Seq::new(keys.len(), |i: int| order_term(keys[i], columns[i], mark)), ", "@)
}

proof fn lemma_columns_fail<M: Mapping>(mapping: &M, keys: Seq<KeyView>, n: nat, m: nat)
    requires
        n <= m,
        columns_for(mapping, keys, n) is Err,
    ensures
        columns_for(mapping, keys, m) == columns_for(mapping, keys, n),
    decreases m,
{
    if n < m {
        lemma_columns_fail(mapping, keys, n, (m - 1) as nat);
    }
}

/// There are as many columns as keys.
pub proof fn lemma_columns_len<M: Mapping>(mapping: &M, keys: Seq<KeyView>, n: nat)
    ensures
        columns_for(mapping, keys, n) matches Ok(columns) ==> columns.len() == n,
    decreases n,
{
    if n > 0 {
        lemma_columns_len(mapping, keys, (n - 1) as nat);
    }
}

/// Resolves a dotted field path through a mapping.
pub fn resolve<M: Mapping>(mapping: &M, field: &str) -> (r: Result<Column, Error>)
    ensures
        match (r, column_for(mapping, field@)) {
            (Ok(column), Some(found)) => column@ == found,
            (Err(Error::UnknownColumn(name)), None) => name@ == field@,
            _ => false,
        },
{
    let text = chars_of(field);
    let parts = split(text.as_slice(), '.');
    let mut names: Vec<String> = Vec::new();
    let mut i: usize = 0;
    while i < parts.len()
        invariant
            i <= parts.len(),
            names.len() == i,
            forall|j: int| 0 <= j < i ==> (#[trigger] names@[j])@ == parts@[j]@,
        decreases parts.len() - i,
    {
        names.push(string_of(parts[i]));
        i += 1;
    }
    let mut path: Vec<&str> = Vec::new();
    let mut k: usize = 0;
    while k < names.len()
        invariant
            k <= names.len(),
            path.len() == k,
            forall|j: int| 0 <= j < k ==> (#[trigger] path@[j])@ == names@[j]@,
        decreases names.len() - k,
    {
        path.push(names[k].as_str());
        k += 1;
    }
    assert(path_view(path@) =~= pieces(field@, '.')) by {
        assert(path_view(path@).len() == slices(parts@).len());
        assert forall|j: int| 0 <= j < path@.len() implies path_view(path@)[j] == slices(
            parts@,
        )[j] by {
            assert(path@[j]@ == names@[j]@);
            assert(names@[j]@ == parts@[j]@);
        }
    }
    match mapping.resolve(path.as_slice()) {
        Some(column) => Ok(column),
        None => Err(Error::UnknownColumn(copy_of(field))),
    }
}

/// Resolves every key of an ordering.
pub fn resolve_keys<M: Mapping>(mapping: &M, keys: &[SortKey]) -> (r: Result<Vec<Column>, Error>)
    ensures
        match (r, columns_for(mapping, key_views(keys@), keys@.len())) {
            (Ok(columns), Ok(found)) => column_views(columns@) == found,
            (Err(Error::UnknownColumn(name)), Err(field)) => name@ == field,
            _ => false,
        },
{
    let mut columns: Vec<Column> = Vec::new();
    let mut i: usize = 0;
    assert(column_views(columns@) =~= Seq::<ColumnView>::empty());
    while i < keys.len()
        invariant
            i <= keys.len(),
            columns_for(mapping, key_views(keys@), i as nat) == Ok::<Seq<ColumnView>, Seq<char>>(
                column_views(columns@),
            ),
        decreases keys.len() - i,
    {
        let ghost views = key_views(keys@);
        assert(views[i as int] == keys@[i as int]@);
        match resolve(mapping, keys[i].field.as_str()) {
            Ok(column) => {
                let ghost held = column_views(columns@);
                columns.push(column);
                assert(column_views(columns@) =~= held.push(column@));
            },
            Err(error) => {
                proof {
                    lemma_columns_fail(mapping, views, (i + 1) as nat, keys@.len());
                }
                return Err(error);
            },
        }
        i += 1;
    }
    Ok(columns)
}

/// An ordering. Each field appears once: every way of adding a key drops one whose field is
/// already there, so that the first occurrence wins.
#[derive(Debug, PartialEq, Eq)]
pub struct Sort {
    keys: Vec<SortKey>,
}

impl View for Sort {
    type V = Seq<KeyView>;

    closed spec fn view(&self) -> Seq<KeyView> {
        key_views(self.keys@)
    }
}

impl Clone for Sort {
    fn clone(&self) -> (r: Sort)
        ensures
            r@ == self@,
    {
        Sort { keys: copy_keys(self.keys.as_slice()) }
    }
}

impl Default for Sort {
    fn default() -> (r: Sort)
        ensures
            r@ == Seq::<KeyView>::empty(),
    {
        Sort::new()
    }
}

/// Reads one element of an `order_by` string.
fn read_element(source: &[char], element: &[char]) -> (r: Result<SortKey, Error>)
    ensures
        match (r, element_key(source@, element@)) {
            (Ok(key), Ok(found)) => key@ == found,
            (Err(Error::Sort(text)), Err(message)) => text@ == message,
            _ => false,
        },
{
    let element = trim(element);
    if element.len() == 0 {
        let mut message = copy_of("`");
        message.append(string_of(source).as_str());
        message.append("` has an empty element: check for a stray comma");
        return Err(Error::Sort(message));
    }
    let words = split_ascii_words(element);
    if words.len() == 0 {
        let mut message = copy_of("`");
        message.append(string_of(element).as_str());
        message.append("` names no field");
        return Err(Error::Sort(message));
    }
    assert(slices(words@)[0] == words@[0]@);
    let field = string_of(words[0]);
    if words.len() == 1 {
        return Ok(SortKey { field, direction: Direction::Asc });
    }
    assert(slices(words@)[1] == words@[1]@);
    let direction = if spells(words[1], "asc") {
        Direction::Asc
    } else if spells(words[1], "desc") {
        Direction::Desc
    } else {
        let mut message = copy_of("`");
        message.append(string_of(words[1]).as_str());
        message.append("` is not a direction: expected `asc` or `desc`");
        return Err(Error::Sort(message));
    };
    if words.len() > 2 {
        assert(slices(words@)[2] == words@[2]@);
        let mut message = copy_of("`");
        message.append(string_of(element).as_str());
        message.append("` has trailing text (`");
        message.append(string_of(words[2]).as_str());
        message.append("`): expected `field [asc|desc]`");
        return Err(Error::Sort(message));
    }
    Ok(SortKey { field, direction })
}

impl Sort {
    /// An ordering with no keys.
    pub fn new() -> (r: Sort)
        ensures
            r@ == Seq::<KeyView>::empty(),
    {
        let r = Sort { keys: Vec::new() };
        assert(r@ =~= Seq::<KeyView>::empty());
        r
    }

    /// The ordering that a list of keys describes.
    pub fn from_keys(keys: Vec<SortKey>) -> (r: Sort)
        ensures
            r@ == inserted_all(Seq::empty(), key_views(keys@)),
    {
        let mut sort = Sort::new();
        sort.extend(keys);
        sort
    }

    /// Parses an `order_by` string: comma-separated field paths, each optionally followed by
    /// `asc` or `desc`.
    pub fn parse(source: &str) -> (r: Result<Sort, Error>)
        ensures
            match (r, parsed(source@)) {
                (Ok(sort), Ok(keys)) => sort@ == keys,
                (Err(Error::Sort(text)), Err(message)) => text@ == message,
                _ => false,
            },
    {
        let text = chars_of(source);
        let all = trim(text.as_slice());
        let mut sort = Sort::new();
        if all.len() == 0 {
            return Ok(sort);
        }
        let elements = split(all, ',');
        let mut i: usize = 0;
        while i < elements.len()
            invariant
                i <= elements.len(),
                all@ == trimmed(source@),
                all@.len() > 0,
                slices(elements@) == pieces(all@, ','),
                parsed(source@) == keys_from(all@, pieces(all@, ','), i as int, sort@),
            decreases elements.len() - i,
        {
            assert(slices(elements@)[i as int] == elements@[i as int]@);
            match read_element(all, elements[i]) {
                Ok(key) => {
                    sort.insert(key);
                },
                Err(error) => {
                    return Err(error);
                },
            }
            i += 1;
        }
        Ok(sort)
    }

    /// Adds an ascending key, unless the field is already one.
    pub fn asc(self, field: &str) -> (r: Sort)
        ensures
            r@ == inserted(self@, (KeyView { field: field@, direction: Direction::Asc })),
    {
        self.push(SortKey::asc(field))
    }

    /// Adds a descending key, unless the field is already one.
    pub fn desc(self, field: &str) -> (r: Sort)
        ensures
            r@ == inserted(self@, (KeyView { field: field@, direction: Direction::Desc })),
    {
        self.push(SortKey::desc(field))
    }

    /// The keys, in order.
    pub fn keys(&self) -> (r: &[SortKey])
        ensures
            key_views(r@) == self@,
    {
        self.keys.as_slice()
    }

    /// Whether this ordering has no keys.
    pub fn is_empty(&self) -> (b: bool)
        ensures
            b == (self@.len() == 0),
    {
        self.keys.len() == 0
    }

    /// Whether two orderings have the same keys.
    pub fn matches(&self, other: &Sort) -> (b: bool)
        ensures
            b == (self@ == other@),
    {
        if self.keys.len() != other.keys.len() {
            assert(self@.len() != other@.len());
            return false;
        }
        let mut i: usize = 0;
        while i < self.keys.len()
            invariant
                i <= self.keys.len(),
                self.keys.len() == other.keys.len(),
                forall|j: int| 0 <= j < i ==> (#[trigger] self.keys@[j])@ == other.keys@[j]@,
            decreases self.keys.len() - i,
        {
            if !same(self.keys[i].field.as_str(), other.keys[i].field.as_str())
                || self.keys[i].direction != other.keys[i].direction {
                assert(self@[i as int] != other@[i as int]);
                return false;
            }
            i += 1;
        }
        assert(self@ =~= other@);
        true
    }

    /// Renders as the body of an `ORDER BY`.
    pub fn to_fragment<DB: Dialect, M: Mapping>(&self, mapping: &M) -> (r: Result<
        QueryFragment<DB, Value>,
        Error,
    >)
        ensures
            match (r, columns_for(mapping, self@, self@.len())) {
                (Ok(fragment), Ok(columns)) => fragment.wf() && sql_of(fragment) == chars::<
                    ValueView,
                >(order_text(self@, columns, DB::mark())),
                (Err(Error::UnknownColumn(name)), Err(field)) => name@ == field,
                _ => false,
            },
    {
        let columns = match resolve_keys(mapping, self.keys.as_slice()) {
            Ok(columns) => columns,
            Err(error) => {
                return Err(error);
            },
        };
        let mut terms: Vec<String> = Vec::new();
        let mut i: usize = 0;
        proof {
            lemma_columns_len(mapping, self@, self@.len());
        }
        while i < self.keys.len()
            invariant
                i <= self.keys.len(),
                self.keys.len() == columns.len(),
                terms.len() == i,
                forall|j: int|
                    0 <= j < i ==> (#[trigger] terms@[j])@ == order_term(
                        self@[j],
                        column_views(columns@)[j],
                        DB::mark(),
                    ),
            decreases self.keys.len() - i,
        {
            let mut term = quote_name(columns[i].name.as_str(), DB::quote());
            term.append(" ");
            term.append(self.keys[i].direction.keyword());
            terms.push(term);
            i += 1;
        }
        let sql = crate::text::join(terms.as_slice(), ", ");
        proof {
            let list = Seq::new(
                self@.len(),
                |j: int| order_term(self@[j], column_views(columns@)[j], DB::mark()),
            );
            assert(strings(terms@) =~= list);
        }
        let mut fragment = QueryFragment::new();
        assert(sql_of(fragment) =~= Seq::<Piece<ValueView>>::empty());
        add_text(&mut fragment, sql.as_str());
        assert(sql_of(fragment) =~= chars::<ValueView>(sql@));
        Ok(fragment)
    }

    /// The canonical spelling: directions in lower case, one space, one comma and a space
    /// between keys.
    pub fn text(&self) -> (r: String)
        ensures
            r@ == sort_text(self@),
    {
        let mut terms: Vec<String> = Vec::new();
        let mut i: usize = 0;
        while i < self.keys.len()
            invariant
                i <= self.keys.len(),
                terms.len() == i,
                forall|j: int| 0 <= j < i ==> (#[trigger] terms@[j])@ == key_text(self@[j]),
            decreases self.keys.len() - i,
        {
            let mut term = copy_of(self.keys[i].field.as_str());
            term.append(" ");
            term.append(self.keys[i].direction.lower_keyword());
            terms.push(term);
            i += 1;
        }
        assert(strings(terms@) =~= self@.map_values(|key: KeyView| key_text(key)));
        crate::text::join(terms.as_slice(), ", ")
    }

    /// Adds a key unless its field is already present.
    fn push(self, key: SortKey) -> (r: Sort)
        ensures
            r@ == inserted(self@, key@),
    {
        let mut sort = self;
        sort.insert(key);
        sort
    }

    /// Adds a key unless its field is already present.
    pub fn insert(&mut self, key: SortKey)
        ensures
            final(self)@ == inserted(old(self)@, key@),
    {
        let mut i: usize = 0;
        while i < self.keys.len()
            invariant
                i <= self.keys.len(),
                self.keys@ == old(self).keys@,
                forall|j: int| 0 <= j < i ==> (#[trigger] self@[j]).field != key@.field,
            decreases self.keys.len() - i,
        {
            if same(self.keys[i].field.as_str(), key.field.as_str()) {
                assert(self@[i as int].field == key@.field);
                return ;
            }
            i += 1;
        }
        let ghost held = self@;
        self.keys.push(key);
        assert(self@ =~= held.push(key@));
    }

    /// Adds every key whose field is not yet present, in turn.
    pub fn extend(&mut self, keys: Vec<SortKey>)
        ensures
            final(self)@ == inserted_all(old(self)@, key_views(keys@)),
    {
        let mut i: usize = 0;
        let ghost start = self@;
        while i < keys.len()
            invariant
                i <= keys.len(),
                self@ == inserted_all(start, key_views(keys@).take(i as int)),
            decreases keys.len() - i,
        {
            proof {
                let now = key_views(keys@).take(i + 1);
                assert(now.drop_last() =~= key_views(keys@).take(i as int));
                assert(now.last() == keys@[i as int]@);
            }
            self.insert(keys[i].clone());
            i += 1;
        }
        assert(key_views(keys@).take(i as int) =~= key_views(keys@));
    }
}

/// Adding a key never makes a field occur twice, and never changes or moves the keys that
/// are already there.
pub proof fn law_inserting_keeps_what_is_there(keys: Seq<KeyView>, key: KeyView)
    requires
        distinct(keys),
    ensures
        distinct(inserted(keys, key)),
        sorts_by(inserted(keys, key), key.field),
        keys.len() <= inserted(keys, key).len() <= keys.len() + 1,
        inserted(keys, key).take(keys.len() as int) == keys,
{
    assert(inserted(keys, key).take(keys.len() as int) =~= keys);
    if !sorts_by(keys, key.field) {
        let all = inserted(keys, key);
        assert(all[keys.len() as int].field == key.field);
        assert forall|i: int, j: int| 0 <= i < j < all.len() implies (#[trigger] all[i]).field != (
        #[trigger] all[j]).field by {
            assert(all[i] == keys[i]);
        }
    }
}

proof fn lemma_keys_from_distinct(
    source: Seq<char>,
    elements: Seq<Seq<char>>,
    i: int,
    keys: Seq<KeyView>,
)
    requires
        distinct(keys),
    ensures
        keys_from(source, elements, i, keys) matches Ok(all) ==> distinct(all),
    decreases elements.len() - i,
{
    if 0 <= i < elements.len() {
        if let Ok(key) = element_key(source, elements[i]) {
            law_inserting_keeps_what_is_there(keys, key);
            lemma_keys_from_distinct(source, elements, i + 1, inserted(keys, key));
        }
    }
}

/// No field occurs twice in an ordering that was parsed.
pub proof fn law_a_parsed_sort_repeats_no_field(source: Seq<char>)
    ensures
        parsed(source) matches Ok(keys) ==> distinct(keys),
{
    let t = trimmed(source);
    lemma_keys_from_distinct(t, pieces(t, ','), 0, Seq::empty());
}

/// No field occurs twice in an ordering that was collected from keys.
pub proof fn law_a_collected_sort_repeats_no_field(keys: Seq<KeyView>, more: Seq<KeyView>)
    requires
        distinct(keys),
    ensures
        distinct(inserted_all(keys, more)),
    decreases more.len(),
{
    if more.len() > 0 {
        law_a_collected_sort_repeats_no_field(keys, more.drop_last());
        law_inserting_keeps_what_is_there(inserted_all(keys, more.drop_last()), more.last());
    }
}

/// A field that an `order_by` string can name: it is not empty, holds no comma and no ASCII
/// white space, and begins with no white space at all.
pub open spec fn nameable(field: Seq<char>) -> bool {
    &&& field.len() > 0
    &&& lacks(field, ',')
    &&& solid(field, |c: char| ascii_white_space(c))
    &&& !white_space(field[0])
}

/// Every field can be named.
pub open spec fn all_nameable(keys: Seq<KeyView>) -> bool {
    forall|i: int| 0 <= i < keys.len() ==> nameable((#[trigger] keys[i]).field)
}

proof fn lemma_element_nameable(source: Seq<char>, element: Seq<char>)
    requires
        lacks(element, ','),
    ensures
        element_key(source, element) matches Ok(key) ==> nameable(key.field),
{
    let white = |c: char| ascii_white_space(c);
    let text = trimmed(element);
    lemma_trimmed(element, ',');
    if text.len() > 0 {
        assert(!white(text[0]));
        lemma_first_word(text, white);
        lemma_words_solid(text, white);
        lemma_words_lack(text, white, ',');
        let first = words(text, white)[0];
        assert(solid(first, white));
        assert(lacks(first, ','));
    }
}

proof fn lemma_keys_nameable(
    source: Seq<char>,
    elements: Seq<Seq<char>>,
    i: int,
    keys: Seq<KeyView>,
)
    requires
        all_nameable(keys),
        forall|j: int| 0 <= j < elements.len() ==> lacks(#[trigger] elements[j], ','),
    ensures
        keys_from(source, elements, i, keys) matches Ok(all) ==> all_nameable(all),
    decreases elements.len() - i,
{
    if 0 <= i < elements.len() {
        if let Ok(key) = element_key(source, elements[i]) {
            assert(lacks(elements[i], ','));
            lemma_element_nameable(source, elements[i]);
            lemma_keys_nameable(source, elements, i + 1, inserted(keys, key));
        }
    }
}

/// Every field of an ordering that was parsed can be named again.
pub proof fn law_parsed_fields_can_be_named(source: Seq<char>)
    ensures
        parsed(source) matches Ok(keys) ==> all_nameable(keys),
{
    let t = trimmed(source);
    lemma_pieces_lack(t, ',');
    lemma_keys_nameable(t, pieces(t, ','), 0, Seq::empty());
}

proof fn lemma_key_text(key: KeyView)
    requires
        nameable(key.field),
    ensures
        key_text(key).len() > 0,
        !white_space(key_text(key)[0]),
        !white_space(key_text(key).last()),
        lacks(key_text(key), ','),
        ascii_words(key_text(key)) == seq![key.field, key.direction.lower_word()],
        direction_of(key.direction.lower_word()) == Some(key.direction),
{
    let white = |c: char| ascii_white_space(c);
    let word = key.direction.lower_word();
    reveal_strlit(" ");
    reveal_strlit("asc");
    reveal_strlit("desc");
    assert(solid(word, white));
    assert(lacks(word, ','));
    let text = key_text(key);
    assert(text =~= key.field.push(' ') + word);
    assert(white(' '));
    lemma_one_word(key.field, white);
    lemma_last_word(key.field, ' ', word, white);
    assert(ascii_words(text) =~= seq![key.field, word]);
    assert(text.last() == word.last());
    assert forall|i: int| 0 <= i < text.len() implies #[trigger] text[i] != ',' by {
        if i < key.field.len() {
            assert(text[i] == key.field[i]);
        } else if i > key.field.len() {
            assert(text[i] == word[i - key.field.len() - 1]);
        }
    }
    if key.direction == Direction::Desc {
        assert(lowered(word).len() != lowered("asc"@).len());
    }
}

proof fn lemma_element_text(source: Seq<char>, key: KeyView)
    requires
        nameable(key.field),
    ensures
        element_key(source, key_text(key)) == Ok::<KeyView, Seq<char>>(key),
        element_key(source, " "@ + key_text(key)) == Ok::<KeyView, Seq<char>>(key),
        lacks(" "@ + key_text(key), ','),
{
    lemma_key_text(key);
    lemma_trim_space(key_text(key));
    reveal_strlit(" ");
    let padded = " "@ + key_text(key);
    assert forall|i: int| 0 <= i < padded.len() implies #[trigger] padded[i] != ',' by {
        if i > 0 {
            assert(padded[i] == key_text(key)[i - 1]);
        }
    }
}

/// The elements of the canonical spelling.
spec fn spelled_elements(keys: Seq<KeyView>) -> Seq<Seq<char>> {
    Seq::new(
        keys.len(),
        |i: int|
            if i == 0 {
                key_text(keys[i])
            } else {
                " "@ + key_text(keys[i])
            },
    )
}

proof fn lemma_sort_text(keys: Seq<KeyView>)
    requires
        keys.len() > 0,
        all_nameable(keys),
    ensures
        pieces(sort_text(keys), ',') == spelled_elements(keys),
        sort_text(keys).len() > 0,
        !white_space(sort_text(keys)[0]),
        !white_space(sort_text(keys).last()),
    decreases keys.len(),
{
    let texts = keys.map_values(|key: KeyView| key_text(key));
    let last = keys.last();
    assert(nameable(keys[keys.len() - 1].field));
    lemma_key_text(last);
    lemma_element_text(Seq::empty(), last);
    assert(texts.last() == key_text(last));
    if keys.len() == 1 {
        assert(sort_text(keys) =~= key_text(last));
        lemma_one_piece(key_text(last), ',');
        assert(spelled_elements(keys) =~= seq![key_text(last)]);
    } else {
        let front = keys.drop_last();
        assert forall|i: int| 0 <= i < front.len() implies nameable(
            (#[trigger] front[i]).field,
        ) by {
            assert(front[i] == keys[i]);
        }
        lemma_sort_text(front);
        assert(texts.drop_last() =~= front.map_values(|key: KeyView| key_text(key)));
        reveal_strlit(", ");
        reveal_strlit(" ");
        let text = sort_text(keys);
        assert(text =~= sort_text(front).push(',') + (" "@ + key_text(last)));
        lemma_last_piece(sort_text(front), " "@ + key_text(last), ',');
        assert(spelled_elements(keys) =~= spelled_elements(front).push(" "@ + key_text(last)));
        assert(text.last() == key_text(last).last());
        assert(text[0] == sort_text(front)[0]);
    }
}

proof fn lemma_keys_read(source: Seq<char>, keys: Seq<KeyView>, i: int, done: Seq<KeyView>)
    requires
        0 <= i <= keys.len(),
        all_nameable(keys),
        distinct(keys),
        done == keys.take(i),
    ensures
        keys_from(source, spelled_elements(keys), i, done) == Ok::<Seq<KeyView>, Seq<char>>(keys),
    decreases keys.len() - i,
{
    if i < keys.len() {
        assert(nameable(keys[i].field));
        lemma_element_text(source, keys[i]);
        assert(!sorts_by(done, keys[i].field)) by {
            assert forall|j: int| 0 <= j < done.len() implies (#[trigger] done[j]).field
                != keys[i].field by {
                assert(done[j] == keys[j]);
            }
        }
        assert(done.push(keys[i]) =~= keys.take(i + 1));
        lemma_keys_read(source, keys, i + 1, done.push(keys[i]));
    } else {
        assert(done =~= keys);
    }
}

/// The canonical spelling says everything: parsing it gives the ordering back, so that two
/// orderings print the same way exactly where they are the same.
pub proof fn law_the_canonical_spelling_reads_back(keys: Seq<KeyView>)
    requires
        all_nameable(keys),
        distinct(keys),
    ensures
        parsed(sort_text(keys)) == Ok::<Seq<KeyView>, Seq<char>>(keys),
{
    if keys.len() == 0 {
        assert(sort_text(keys) =~= Seq::<char>::empty());
        assert(keys =~= Seq::<KeyView>::empty());
    } else {
        lemma_sort_text(keys);
        lemma_trim_space(sort_text(keys));
        assert(keys.take(0) =~= Seq::<KeyView>::empty());
        lemma_keys_read(sort_text(keys), keys, 0, keys.take(0));
    }
}

/// Parsing what a parsed ordering prints gives the same ordering.
pub proof fn law_a_parsed_sort_prints_canonically(source: Seq<char>)
    ensures
        parsed(source) matches Ok(keys) ==> parsed(sort_text(keys)) == parsed(source),
{
    if let Ok(keys) = parsed(source) {
        law_parsed_fields_can_be_named(source);
        law_a_parsed_sort_repeats_no_field(source);
        law_the_canonical_spelling_reads_back(keys);
    }
}

/// What an ordering asks of SQL, with its fields read from these columns.
pub open spec fn asked_terms(keys: Seq<KeyView>, columns: Seq<ColumnView>) -> Seq<SqlTerm> {
    Seq::new(
        keys.len(),
        |i: int|
            SqlTerm {
                name: columns[i].name,
                descending: keys[i].direction == Direction::Desc,
            },
    )
}

proof fn lemma_terms(keys: Seq<KeyView>, columns: Seq<ColumnView>, mark: char, n: nat)
    requires
        n <= keys.len(),
    ensures
        joined(
            Seq::new(n, |i: int| order_term(keys[i], columns[i], mark)),
            ", "@,
        ) == terms_spelled(
            asked_terms(keys, columns),
            n,
            |name: Seq<char>| quoted(name, mark),
        ),
    decreases n,
{
    let texts = Seq::new(n, |i: int| order_term(keys[i], columns[i], mark));
    if n == 0 {
        assert(joined(texts, ", "@) =~= Seq::<char>::empty());
    } else {
        lemma_terms(keys, columns, mark, (n - 1) as nat);
        reveal_strlit(" ");
        reveal_strlit("ASC");
        reveal_strlit("DESC");
        reveal_strlit(" ASC");
        reveal_strlit(" DESC");
        let key = keys[n - 1];
        let last = if key.direction == Direction::Desc {
            " DESC"@
        } else {
            " ASC"@
        };
        let term = order_term(key, columns[n - 1], mark);
        assert(term =~= quoted(columns[n - 1].name, mark) + last);
        assert(texts.last() == term);
        assert(texts.drop_last() =~= Seq::new(
            (n - 1) as nat,
            |i: int| order_term(keys[i], columns[i], mark),
        ));
        if n == 1 {
            assert(texts[0] == term);
        }
    }
}

/// An ordering runs in SQL as it was asked for: by the column of each field in turn, the largest
/// first exactly where the key descends.
pub proof fn law_an_ordering_runs_as_asked(
    keys: Seq<KeyView>,
    columns: Seq<ColumnView>,
    mark: char,
)
    ensures
        order_text(keys, columns, mark) == terms_spelled(
            asked_terms(keys, columns),
            keys.len(),
            |name: Seq<char>| quoted(name, mark),
        ),
{
    lemma_terms(keys, columns, mark, keys.len());
}

/// The columns of an ordering are those that the mapping gives for its fields, one for one; it has
/// none exactly where a field is not exposed, and the first such field is told.
pub proof fn law_only_exposed_fields_are_ordered_by<M: Mapping>(
    mapping: &M,
    keys: Seq<KeyView>,
    n: nat,
)
    requires
        n <= keys.len(),
    ensures
        match columns_for(mapping, keys, n) {
            Ok(columns) => columns.len() == n && forall|i: int|
                0 <= i < n ==> column_for(mapping, (#[trigger] keys[i]).field) == Some(columns[i]),
            Err(field) => exists|i: int|
                0 <= i < n && (#[trigger] keys[i]).field == field && column_for(
                    mapping,
                    field,
                ) is None && forall|j: int|
                    0 <= j < i ==> column_for(mapping, (#[trigger] keys[j]).field) is Some,
        },
    decreases n,
{
    if n > 0 {
        law_only_exposed_fields_are_ordered_by(mapping, keys, (n - 1) as nat);
        match columns_for(mapping, keys, (n - 1) as nat) {
            Ok(columns) => {
                if column_for(mapping, keys[n - 1].field) is None {
                    assert(keys[n - 1].field == keys[n - 1].field);
                }
            },
            Err(field) => {
                let i = choose|i: int|
                    0 <= i < n - 1 && (#[trigger] keys[i]).field == field && column_for(
                        mapping,
                        field,
                    ) is None && forall|j: int|
                        0 <= j < i ==> column_for(mapping, (#[trigger] keys[j]).field) is Some;
                assert(keys[i].field == field);
            },
        }
    }
}

/// An element is read with any white space around and between its words, and its direction in
/// either case; without one it ascends. Any other word behind a field is refused.
#[verifier::rlimit(50)]
pub proof fn law_an_element_is_read_in_any_spelling(
    lead: Seq<char>,
    field: Seq<char>,
    gap: Seq<char>,
    word: Seq<char>,
    tail: Seq<char>,
    source: Seq<char>,
)
    requires
        blank(lead, |c: char| white_space(c)),
        blank(gap, |c: char| ascii_white_space(c)),
        blank(tail, |c: char| white_space(c)),
        gap.len() > 0,
        field.len() > 0,
        word.len() > 0,
        solid(field, |c: char| white_space(c)),
        solid(word, |c: char| white_space(c)),
    ensures
        element_key(source, lead + field + tail) == Ok::<KeyView, Seq<char>>(
            KeyView { field, direction: Direction::Asc },
        ),
        lowered(word) == "asc"@ ==> element_key(source, lead + field + gap + word + tail) == Ok::<
            KeyView,
            Seq<char>,
        >(KeyView { field, direction: Direction::Asc }),
        lowered(word) == "desc"@ ==> element_key(source, lead + field + gap + word + tail) == Ok::<
            KeyView,
            Seq<char>,
        >(KeyView { field, direction: Direction::Desc }),
        lowered(word) != "asc"@ && lowered(word) != "desc"@ ==> element_key(
            source,
            lead + field + gap + word + tail,
        ) is Err,
{
    let white = |c: char| white_space(c);
    let ascii = |c: char| ascii_white_space(c);
    let none = Seq::<char>::empty();
    assert(!white(field[0]) && !white(field[field.len() - 1]) && !white(word[word.len() - 1]));
    assert forall|i: int| 0 <= i < field.len() implies !ascii(#[trigger] field[i]) by {
        assert(!white(field[i]));
    }
    assert forall|i: int| 0 <= i < word.len() implies !ascii(#[trigger] word[i]) by {
        assert(!white(word[i]));
    }
    law_trimming_leaves_the_text(lead, field, tail);
    law_words_stand_between_white_space(none, field, gap, word, none, ascii);
    assert(none + field + none =~= field);
    let both = field + gap + word;
    assert(none + field + gap + word + none =~= both);
    assert(both[0] == field[0] && both.last() == word[word.len() - 1]);
    law_trimming_leaves_the_text(lead, both, tail);
    assert(lead + both + tail =~= lead + field + gap + word + tail);
    reveal_strlit("asc");
    reveal_strlit("desc");
    assert(lowered("asc"@) =~= "asc"@);
    assert(lowered("desc"@) =~= "desc"@);
    assert("asc"@.len() != "desc"@.len());
}

/// An element without a word, or with a word behind its direction, is refused.
pub proof fn law_an_element_is_one_word_or_two(source: Seq<char>, element: Seq<char>)
    ensures
        trimmed(element).len() == 0 ==> element_key(source, element) is Err,
        ascii_words(trimmed(element)).len() == 0 ==> element_key(source, element) is Err,
        ascii_words(trimmed(element)).len() > 2 ==> element_key(source, element) is Err,
        element_key(source, element) matches Ok(key) ==> ascii_words(trimmed(element)).len() > 0
            && key.field == ascii_words(trimmed(element))[0],
{
}

/// One of the elements describes this key.
pub open spec fn asked_for(source: Seq<char>, elements: Seq<Seq<char>>, key: KeyView) -> bool {
    exists|k: int|
        0 <= k < elements.len() && element_key(source, #[trigger] elements[k]) == Ok::<
            KeyView,
            Seq<char>,
        >(key)
}

/// An ordering takes its elements in turn, each field where it is named first, and is refused where
/// one of them is.
pub proof fn law_an_ordering_reads_as_its_elements(source: Seq<char>)
    ensures
        parsed(source) matches Ok(keys) ==> trimmed(source).len() > 0 ==> {
            let elements = pieces(trimmed(source), ',');
            &&& forall|i: int|
                0 <= i < elements.len() ==> (element_key(
                    trimmed(source),
                    #[trigger] elements[i],
                ) matches Ok(key) && sorts_by(keys, key.field))
            &&& forall|j: int|
                0 <= j < keys.len() ==> asked_for(trimmed(source), elements, #[trigger] keys[j])
        },
        trimmed(source).len() == 0 ==> parsed(source) == Ok::<Seq<KeyView>, Seq<char>>(
            Seq::empty(),
        ),
{
    let whole = trimmed(source);
    if whole.len() > 0 {
        lemma_elements_read(whole, pieces(whole, ','), 0, Seq::empty());
    }
}

proof fn lemma_elements_read(
    source: Seq<char>,
    elements: Seq<Seq<char>>,
    i: int,
    keys: Seq<KeyView>,
)
    requires
        0 <= i <= elements.len(),
        forall|k: int|
            0 <= k < i ==> (element_key(source, #[trigger] elements[k]) matches Ok(key) && sorts_by(
                keys,
                key.field,
            )),
        forall|j: int| 0 <= j < keys.len() ==> asked_for(source, elements, #[trigger] keys[j]),
    ensures
        keys_from(source, elements, i, keys) matches Ok(all) ==> {
            &&& forall|k: int|
                0 <= k < elements.len() ==> (element_key(
                    source,
                    #[trigger] elements[k],
                ) matches Ok(key) && sorts_by(all, key.field))
            &&& forall|j: int| 0 <= j < all.len() ==> asked_for(source, elements, #[trigger] all[j])
        },
    decreases elements.len() - i,
{
    if i < elements.len() {
        if let Ok(key) = element_key(source, elements[i]) {
            let next = inserted(keys, key);
            assert forall|f: Seq<char>| sorts_by(keys, f) implies sorts_by(next, f) by {
                let m = choose|m: int| 0 <= m < keys.len() && (#[trigger] keys[m]).field == f;
                assert(next[m] == keys[m]);
            }
            assert(sorts_by(next, key.field)) by {
                if !sorts_by(keys, key.field) {
                    assert(next[keys.len() as int] == key);
                }
            }
            assert forall|j: int| 0 <= j < next.len() implies asked_for(
                source,
                elements,
                #[trigger] next[j],
            ) by {
                if j < keys.len() {
                    assert(next[j] == keys[j]);
                } else {
                    assert(element_key(source, elements[i]) == Ok::<KeyView, Seq<char>>(next[j]));
                }
            }
            lemma_elements_read(source, elements, i + 1, next);
        }
    }
}

} // verus!

//! Which columns a request is allowed to name, and what they hold.

use vstd::prelude::*;

use crate::text::{copy_of, same};
use vstd::string::StringExecFns;
#[allow(unused_imports)]
use crate::text::joined;
#[allow(unused_imports)]
use crate::text::{law_pieces_join_again, pieces};

verus! {

/// The SQL type family of a column.
#[derive(Debug, Clone, Copy, PartialEq, Eq, Structural)]
pub enum ColumnType {
    /// `BOOLEAN`.
    Bool,
    /// Any signed integer type.
    Int,
    /// Any floating-point type.
    Float,
    /// Any character type.
    Text,
    /// `BYTEA`, `BLOB`, `VARBINARY`.
    Bytes,
    /// A timestamp, with or without a zone.
    Timestamp,
}

impl ColumnType {
    /// The name of this family.
    pub open spec fn text(self) -> Seq<char> {
        match self {
            ColumnType::Bool => "bool"@,
            ColumnType::Int => "int"@,
            ColumnType::Float => "float"@,
            ColumnType::Text => "text"@,
            ColumnType::Bytes => "bytes"@,
            ColumnType::Timestamp => "timestamp"@,
        }
    }

    /// Names this family.
    pub fn name(self) -> (r: &'static str)
        ensures
            r@ == self.text(),
    {
        match self {
            ColumnType::Bool => "bool",
            ColumnType::Int => "int",
            ColumnType::Float => "float",
            ColumnType::Text => "text",
            ColumnType::Bytes => "bytes",
            ColumnType::Timestamp => "timestamp",
        }
    }
}

/// One column that a request is allowed to name.
#[derive(Debug, PartialEq, Eq)]
pub struct Column {
    /// The column name as the database spells it, unquoted.
    pub name: String,
    /// What the column holds.
    pub ty: ColumnType,
    /// Whether the column is unique. Only a page position cares.
    pub unique: bool,
}

/// A column, as contracts speak of it.
pub struct ColumnView {
    pub name: Seq<char>,
    pub ty: ColumnType,
    pub unique: bool,
}

impl View for Column {
    type V = ColumnView;

    open spec fn view(&self) -> ColumnView {
        ColumnView { name: self.name@, ty: self.ty, unique: self.unique }
    }
}

/// What a list of columns holds.
pub open spec fn column_views(columns: Seq<Column>) -> Seq<ColumnView> {
    columns.map_values(|column: Column| column@)
}

impl Clone for Column {
    fn clone(&self) -> (r: Column)
        ensures
            r@ == self@,
    {
        Column { name: self.name.clone(), ty: self.ty, unique: self.unique }
    }
}

/// Copies a list of columns.
pub fn copy_columns(columns: &[Column]) -> (r: Vec<Column>)
    ensures
        column_views(r@) == column_views(columns@),
{
    let mut r: Vec<Column> = Vec::new();
    let mut i: usize = 0;
    while i < columns.len()
        invariant
            i <= columns.len(),
            r.len() == i,
            forall|j: int| 0 <= j < i ==> (#[trigger] r@[j])@ == columns@[j]@,
        decreases columns.len() - i,
    {
        r.push(columns[i].clone());
        i += 1;
    }
    assert(column_views(r@) =~= column_views(columns@));
    r
}

impl Column {
    /// A column that is not unique.
    pub fn new(name: &str, ty: ColumnType) -> (r: Column)
        ensures
            r@ == (ColumnView { name: name@, ty, unique: false }),
    {
        Column { name: copy_of(name), ty, unique: false }
    }

    /// A column that is unique, and so can end a sort.
    pub fn key(name: &str, ty: ColumnType) -> (r: Column)
        ensures
            r@ == (ColumnView { name: name@, ty, unique: true }),
    {
        Column { name: copy_of(name), ty, unique: true }
    }
}

/// The segments of a path.
pub open spec fn path_view(path: Seq<&str>) -> Seq<Seq<char>> {
    path.map_values(|segment: &str| segment@)
}

/// The column behind an optional column.
pub open spec fn shown(column: Option<Column>) -> Option<ColumnView> {
    match column {
        Some(column) => Some(column@),
        None => None,
    }
}

/// The allow-list: which column a request path means, or none.
///
/// Fail-closed: a path without a column is rejected, so a mapping that exposes nothing lets
/// nothing through.
pub trait Mapping {
    /// The column that `path` means, if it means one.
    spec fn exposes(&self, path: Seq<Seq<char>>) -> Option<ColumnView>;

    /// Resolves a request path to a column, or rejects it.
    fn resolve(&self, path: &[&str]) -> (r: Option<Column>)
        ensures
            shown(r) == self.exposes(path_view(path@)),
    ;
}

/// A mapping built from an explicit list of columns. Where a field was added twice, the
/// later column counts.
#[derive(Debug)]
pub struct QueryMapping {
    columns: Vec<(String, Column)>,
}

impl View for QueryMapping {
    type V = Map<Seq<char>, ColumnView>;

    closed spec fn view(&self) -> Map<Seq<char>, ColumnView> {
        listed_columns(self.columns@)
    }
}

/// The columns that a list exposes; a later entry takes the place of an earlier one.
pub open spec fn listed_columns(columns: Seq<(String, Column)>) -> Map<Seq<char>, ColumnView>
    decreases columns.len(),
{
    if columns.len() == 0 {
        Map::empty()
    } else {
        listed_columns(columns.drop_last()).insert(columns.last().0@, columns.last().1@)
    }
}

proof fn lemma_listed(columns: Seq<(String, Column)>, field: Seq<char>)
    ensures
        listed_columns(columns).dom().contains(field) <==> exists|i: int|
            0 <= i < columns.len() && (#[trigger] columns[i]).0@ == field,
    decreases columns.len(),
{
    if columns.len() > 0 {
        let rest = columns.drop_last();
        lemma_listed(rest, field);
        if exists|i: int| 0 <= i < rest.len() && (#[trigger] rest[i]).0@ == field {
            let i = choose|i: int| 0 <= i < rest.len() && (#[trigger] rest[i]).0@ == field;
            assert(columns[i].0@ == field);
        }
        if exists|i: int| 0 <= i < columns.len() && (#[trigger] columns[i]).0@ == field {
            let i = choose|i: int| 0 <= i < columns.len() && (#[trigger] columns[i]).0@ == field;
            if i < rest.len() {
                assert(rest[i].0@ == field);
            } else {
                assert(columns.last().0@ == field);
            }
        }
    }
}

proof fn lemma_listed_last(columns: Seq<(String, Column)>, i: int)
    requires
        0 <= i < columns.len(),
        forall|j: int| i < j < columns.len() ==> (#[trigger] columns[j]).0@ != columns[i].0@,
    ensures
        listed_columns(columns).dom().contains(columns[i].0@),
        listed_columns(columns)[columns[i].0@] == columns[i].1@,
    decreases columns.len(),
{
    if i < columns.len() - 1 {
        let rest = columns.drop_last();
        assert(rest[i] == columns[i]);
        assert(columns.last().0@ != columns[i].0@);
        lemma_listed_last(rest, i);
    }
}

impl QueryMapping {
    /// An empty table. Every path is rejected until one is added.
    pub fn new() -> (r: QueryMapping)
        ensures
            r@ == Map::<Seq<char>, ColumnView>::empty(),
    {
        QueryMapping { columns: Vec::new() }
    }

    /// Exposes `field` as `column`.
    pub fn add(self, field: &str, column: Column) -> (r: QueryMapping)
        ensures
            r@ == self@.insert(field@, column@),
    {
        let mut columns = self.columns;
        let ghost held = columns@;
        columns.push((copy_of(field), column));
        assert(columns@.drop_last() =~= held);
        QueryMapping { columns }
    }

    /// Exposes `field`, spelled the same on both sides.
    pub fn column(self, field: &str, ty: ColumnType) -> (r: QueryMapping)
        ensures
            r@ == self@.insert(field@, (ColumnView { name: field@, ty, unique: false })),
    {
        self.add(field, Column::new(field, ty))
    }

    /// Exposes `field` as a unique column, spelled the same on both sides.
    pub fn key(self, field: &str, ty: ColumnType) -> (r: QueryMapping)
        ensures
            r@ == self@.insert(field@, (ColumnView { name: field@, ty, unique: true })),
    {
        self.add(field, Column::key(field, ty))
    }

    /// The column that is listed under `field`.
    pub fn get(&self, field: &str) -> (r: Option<Column>)
        ensures
            shown(r) == (if self@.dom().contains(field@) {
                Some(self@[field@])
            } else {
                None
            }),
    {
        let mut i: usize = self.columns.len();
        while i > 0
            invariant
                i <= self.columns.len(),
                forall|j: int|
                    i <= j < self.columns.len() ==> (#[trigger] self.columns@[j]).0@ != field@,
            decreases i,
        {
            i -= 1;
            if same(self.columns[i].0.as_str(), field) {
                proof {
                    lemma_listed_last(self.columns@, i as int);
                }
                return Some(self.columns[i].1.clone());
            }
        }
        proof {
            lemma_listed(self.columns@, field@);
        }
        None
    }
}

impl Default for QueryMapping {
    fn default() -> (r: QueryMapping)
        ensures
            r@ == Map::<Seq<char>, ColumnView>::empty(),
    {
        QueryMapping::new()
    }
}

/// Whether two columns are the same.
fn same_column(a: &Column, b: &Column) -> (r: bool)
    ensures
        r == (a@ == b@),
{
    same(a.name.as_str(), b.name.as_str()) && a.ty == b.ty && a.unique == b.unique
}

/// Every column of `a` is a column of `b`, under the same field.
pub open spec fn within(a: Map<Seq<char>, ColumnView>, b: Map<Seq<char>, ColumnView>) -> bool {
    forall|field: Seq<char>| #[trigger]
        a.dom().contains(field) ==> b.dom().contains(field) && b[field] == a[field]
}

proof fn lemma_copied(columns: Seq<(String, Column)>, copies: Seq<(String, Column)>)
    requires
        copies.len() == columns.len(),
        forall|i: int|
            0 <= i < columns.len() ==> (#[trigger] columns[i]).0@ == copies[i].0@ && columns[i].1@
                == copies[i].1@,
    ensures
        listed_columns(copies) == listed_columns(columns),
    decreases columns.len(),
{
    if columns.len() > 0 {
        let less = columns.drop_last();
        assert forall|i: int| 0 <= i < less.len() implies (#[trigger] less[i]).0@
            == copies.drop_last()[i].0@ && less[i].1@ == copies.drop_last()[i].1@ by {
            assert(less[i] == columns[i]);
        }
        lemma_copied(less, copies.drop_last());
        assert(columns[columns.len() - 1].0@ == copies[columns.len() - 1].0@);
    }
}

impl QueryMapping {
    /// Whether every column of this mapping is one of the other, under the same field.
    fn is_within(&self, other: &QueryMapping) -> (b: bool)
        ensures
            b == within(self@, other@),
    {
        let mut i: usize = 0;
        while i < self.columns.len()
            invariant
                i <= self.columns.len(),
                forall|j: int|
                    0 <= j < i ==> {
                        let field = (#[trigger] self.columns@[j]).0@;
                        other@.dom().contains(field) && other@[field] == self@[field]
                    },
            decreases self.columns.len() - i,
        {
            let field = self.columns[i].0.as_str();
            proof {
                assert(self.columns@[i as int].0@ == field@);
                lemma_listed(self.columns@, field@);
            }
            match (self.get(field), other.get(field)) {
                (Some(own), Some(found)) => {
                    if !same_column(&own, &found) {
                        return false;
                    }
                },
                _ => {
                    return false;
                },
            }
            i += 1;
        }
        proof {
            assert forall|field: Seq<char>| #[trigger]
                self@.dom().contains(field) implies other@.dom().contains(field) && other@[field]
                == self@[field] by {
                lemma_listed(self.columns@, field);
                let j = choose|j: int|
                    0 <= j < self.columns@.len() && (#[trigger] self.columns@[j]).0@ == field;
                assert(self.columns@[j].0@ == field);
            }
        }
        true
    }
}

impl Clone for QueryMapping {
    fn clone(&self) -> (r: QueryMapping)
        ensures
            r@ == self@,
    {
        let mut columns: Vec<(String, Column)> = Vec::new();
        let mut i: usize = 0;
        while i < self.columns.len()
            invariant
                i <= self.columns.len(),
                columns.len() == i,
                forall|j: int|
                    0 <= j < i ==> (#[trigger] self.columns@[j]).0@ == columns@[j].0@
                        && self.columns@[j].1@ == columns@[j].1@,
            decreases self.columns.len() - i,
        {
            columns.push((copy_of(self.columns[i].0.as_str()), self.columns[i].1.clone()));
            i += 1;
        }
        proof {
            lemma_copied(self.columns@, columns@);
        }
        QueryMapping { columns }
    }
}

impl PartialEq for QueryMapping {
    fn eq(&self, other: &QueryMapping) -> (b: bool) {
        let b = self.is_within(other) && other.is_within(self);
        proof {
            if b {
                assert(self@ =~= other@);
            }
        }
        b
    }
}

impl vstd::std_specs::cmp::PartialEqSpecImpl for QueryMapping {
    open spec fn obeys_eq_spec() -> bool {
        true
    }

    open spec fn eq_spec(&self, other: &QueryMapping) -> bool {
        self@ == other@
    }
}

impl Eq for QueryMapping {

}

/// Joins the segments of a path with dots.
pub fn dotted(path: &[&str]) -> (r: String)
    ensures
        r@ == joined(path_view(path@), "."@),
{
    let mut r = String::new();
    let mut i: usize = 0;
    assert(path_view(path@.take(0)) =~= Seq::<Seq<char>>::empty());
    while i < path.len()
        invariant
            i <= path.len(),
            r@ == joined(path_view(path@.take(i as int)), "."@),
        decreases path.len() - i,
    {
        proof {
            let now = path_view(path@.take(i + 1));
            assert(now.drop_last() =~= path_view(path@.take(i as int)));
            assert(now.last() == path@[i as int]@);
            if i == 0 {
                assert(now[0] == path@[0]@);
                assert(Seq::<char>::empty() + now[0] =~= now[0]);
            }
        }
        if i > 0 {
            r.append(".");
        }
        r.append(path[i]);
        i += 1;
    }
    assert(path@.take(i as int) =~= path@);
    r
}

impl Mapping for QueryMapping {
    open spec fn exposes(&self, path: Seq<Seq<char>>) -> Option<ColumnView> {
        let field = joined(path, "."@);
        if self@.dom().contains(field) {
            Some(self@[field])
        } else {
            None
        }
    }

    fn resolve(&self, path: &[&str]) -> (r: Option<Column>) {
        self.get(dotted(path).as_str())
    }
}

/// A closure answers every path, and paths that spell the same alike.
pub open spec fn answers<F: Fn(&[&str]) -> Option<Column>>(decide: F) -> bool {
    &&& forall|path: &[&str]| #[trigger] call_requires(decide, (path,))
    &&& forall|path: &[&str], other: &[&str], r: Option<Column>, q: Option<Column>|
        #[trigger] call_ensures(decide, (path,), r) && #[trigger] call_ensures(
            decide,
            (other,),
            q,
        ) && path_view(path@) == path_view(other@) ==> shown(r) == shown(q)
}

/// The closure may answer `path` with this column.
pub open spec fn decided<F: Fn(&[&str]) -> Option<Column>>(
    decide: F,
    path: Seq<Seq<char>>,
    column: Option<ColumnView>,
) -> bool {
    exists|asked: &[&str], r: Option<Column>| #[trigger]
        call_ensures(decide, (asked,), r) && path_view(asked@) == path && shown(r) == column
}

/// A mapping that a closure decides, for what depends on the request: what one tenant may see,
/// or a column that only some callers may sort on.
pub struct Deciding<F: Fn(&[&str]) -> Option<Column>> {
    decide: F,
}

impl<F: Fn(&[&str]) -> Option<Column>> Deciding<F> {
    #[verifier::type_invariant]
    spec fn ready(self) -> bool {
        answers(self.decide)
    }

    /// The closure that decides.
    pub closed spec fn decides(self) -> F {
        self.decide
    }

    /// A mapping that `decide` decides.
    pub fn new(decide: F) -> (r: Deciding<F>)
        requires
            answers(decide),
        ensures
            r.decides() == decide,
    {
        Deciding { decide }
    }
}

impl<F: Fn(&[&str]) -> Option<Column>> Mapping for Deciding<F> {
    open spec fn exposes(&self, path: Seq<Seq<char>>) -> Option<ColumnView> {
        choose|column: Option<ColumnView>| decided(self.decides(), path, column)
    }

    fn resolve(&self, path: &[&str]) -> (r: Option<Column>) {
        proof {
            use_type_invariant(self);
        }
        let r = (self.decide)(path);
        assert(decided(self.decides(), path_view(path@), shown(r)));
        r
    }
}

/// A mapping that a closure decides exposes what the closure answers.
pub proof fn law_a_closure_decides_what_is_exposed<F: Fn(&[&str]) -> Option<Column>>(
    mapping: Deciding<F>,
    path: &[&str],
    r: Option<Column>,
)
    requires
        answers(mapping.decides()),
        call_ensures(mapping.decides(), (path,), r),
    ensures
        mapping.exposes(path_view(path@)) == shown(r),
{
    assert(decided(mapping.decides(), path_view(path@), shown(r)));
}

/// A mapping to which nothing was added exposes nothing.
pub proof fn law_an_empty_mapping_exposes_nothing(mapping: QueryMapping, path: Seq<Seq<char>>)
    requires
        mapping@ == Map::<Seq<char>, ColumnView>::empty(),
    ensures
        mapping.exposes(path) is None,
{
}

/// A dotted field means the column that was added under that very name.
pub proof fn law_a_dotted_field_is_one_name(mapping: QueryMapping, field: Seq<char>)
    ensures
        mapping.exposes(pieces(field, '.')) == if mapping@.dom().contains(field) {
            Some(mapping@[field])
        } else {
            None
        },
{
    reveal_strlit(".");
    law_pieces_join_again(field, '.');
    assert("."@ =~= seq!['.']);
}

} // verus!

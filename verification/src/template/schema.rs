//! Declaring an allow-list on the struct that describes a table.

use vstd::prelude::*;
use vstd::string::StringExecFns;

use crate::template::mapping::{Column, ColumnType, QueryMapping};
#[allow(unused_imports)]
use crate::template::mapping::ColumnView;
use crate::text::{chars_of, copy_of, push_char, same};

#[allow(unused_imports)]
use crate::text::{lemma_pieces_nonempty, pieces};

verus! {

// ---------------------------------------------------------------------------
// Declarations
// ---------------------------------------------------------------------------

/// A type, as far as a column type can be told from it.
#[derive(Debug, PartialEq, Eq)]
pub enum Shape {
    /// A reference to something.
    Reference(Box<Shape>),
    /// A path: its last segment, whether that is all there is to it, and the first type
    /// between its angle brackets.
    Path { name: String, bare: bool, inner: Option<Box<Shape>> },
    /// Anything else.
    Other,
}

/// An option inside `#[schema(..)]`: a name, and the string behind its `=`.
#[derive(Debug, PartialEq, Eq)]
pub struct Setting {
    pub name: String,
    pub value: Option<String>,
}

/// A field of the struct.
#[derive(Debug, PartialEq, Eq)]
pub struct Field {
    pub name: String,
    pub ty: Shape,
    pub settings: Vec<Setting>,
}

/// What the allow-list is declared on. Anything but a struct with named fields has none.
#[derive(Debug, PartialEq, Eq)]
pub struct Declaration {
    pub generic: bool,
    pub fields: Option<Vec<Field>>,
    pub settings: Vec<Setting>,
}

/// Why a declaration is refused.
#[derive(Debug, PartialEq, Eq)]
pub enum SchemaError {
    /// A generic type.
    Generic,
    /// Something else than a struct with named fields.
    NotAStruct,
    /// An option that a struct does not take.
    StructOption,
    /// An option that a field does not take.
    FieldOption,
    /// An option without the string that it needs, or with one that it does not take.
    Malformed(String),
    /// Something that is no case.
    Case(String),
    /// Something that is no column type.
    Type(String),
    /// A field whose column type cannot be told.
    Untold(String),
}

/// Why a declaration is refused, as contracts speak of it.
pub enum SchemaFault {
    Generic,
    NotAStruct,
    StructOption,
    FieldOption,
    Malformed(Seq<char>),
    Case(Seq<char>),
    Type(Seq<char>),
    Untold(Seq<char>),
}

impl View for SchemaError {
    type V = SchemaFault;

    open spec fn view(&self) -> SchemaFault {
        match self {
            SchemaError::Generic => SchemaFault::Generic,
            SchemaError::NotAStruct => SchemaFault::NotAStruct,
            SchemaError::StructOption => SchemaFault::StructOption,
            SchemaError::FieldOption => SchemaFault::FieldOption,
            SchemaError::Malformed(name) => SchemaFault::Malformed(name@),
            SchemaError::Case(text) => SchemaFault::Case(text@),
            SchemaError::Type(text) => SchemaFault::Type(text@),
            SchemaError::Untold(field) => SchemaFault::Untold(field@),
        }
    }
}

impl SchemaFault {
    /// The text that describes an error.
    pub open spec fn text(self) -> Seq<char> {
        match self {
            SchemaFault::Generic => {
                "`Schema` cannot be derived for a generic type: the schema is held in a `static`, which every instantiation would share"@
            },
            SchemaFault::NotAStruct => {
                "`Schema` can only be derived for a struct with named fields"@
            },
            SchemaFault::StructOption => "unknown option: the struct takes `rename_all`"@,
            SchemaFault::FieldOption => {
                "unknown option: a field takes `key`, `skip`, `rename`, `column` or `ty`"@
            },
            SchemaFault::Malformed(name) => "malformed option `"@ + name + "`"@,
            SchemaFault::Case(text) => "`"@ + text
                + "` is not a case: expected `camelCase`, `PascalCase` or `snake_case`"@,
            SchemaFault::Type(text) => "`"@ + text
                + "` is not a column type: expected `bool`, `int`, `float`, `text`, `bytes` or `timestamp`"@,
            SchemaFault::Untold(_) => {
                "cannot tell what column type this is: name it with `#[schema(ty = \"...\")]`, or leave the field out with `#[schema(skip)]`"@
            },
        }
    }
}

impl SchemaError {
    /// Describes this error.
    pub fn message(&self) -> (r: String)
        ensures
            r@ == self@.text(),
    {
        match self {
            SchemaError::Generic => copy_of(
                "`Schema` cannot be derived for a generic type: the schema is held in a `static`, which every instantiation would share",
            ),
            SchemaError::NotAStruct => copy_of(
                "`Schema` can only be derived for a struct with named fields",
            ),
            SchemaError::StructOption => copy_of("unknown option: the struct takes `rename_all`"),
            SchemaError::FieldOption => copy_of(
                "unknown option: a field takes `key`, `skip`, `rename`, `column` or `ty`",
            ),
            SchemaError::Malformed(name) => copy_of("malformed option `").concat(
                name.as_str(),
            ).concat("`"),
            SchemaError::Case(text) => copy_of("`").concat(text.as_str()).concat(
                "` is not a case: expected `camelCase`, `PascalCase` or `snake_case`",
            ),
            SchemaError::Type(text) => copy_of("`").concat(text.as_str()).concat(
                "` is not a column type: expected `bool`, `int`, `float`, `text`, `bytes` or `timestamp`",
            ),
            SchemaError::Untold(_) => copy_of(
                "cannot tell what column type this is: name it with `#[schema(ty = \"...\")]`, or leave the field out with `#[schema(skip)]`",
            ),
        }
    }
}

// ---------------------------------------------------------------------------
// Names
// ---------------------------------------------------------------------------

/// How a field's name becomes the name that a request uses.
#[derive(Debug, Clone, Copy, PartialEq, Eq, Structural)]
pub enum Case {
    /// As the field is spelled.
    AsIs,
    /// `readCount`.
    Camel,
    /// `ReadCount`.
    Pascal,
}

/// The upper case of a character beyond ASCII.
pub uninterp spec fn unicode_upper(c: char) -> Seq<char>;

/// The upper case of a character: what `char::to_uppercase` yields, which depends on the
/// character alone.
#[verifier::external_body]
fn to_unicode_upper(c: char) -> (r: String)
    ensures
        r@ == unicode_upper(c),
{
    c.to_uppercase().to_string()
}

/// The upper case of an ASCII character.
pub open spec fn ascii_upper(c: char) -> char {
    if 'a' <= c <= 'z' {
        (c as u32 - 32) as char
    } else {
        c
    }
}

/// The upper case of a character.
pub open spec fn upper(c: char) -> Seq<char> {
    if (c as u32) < 128 {
        seq![ascii_upper(c)]
    } else {
        unicode_upper(c)
    }
}

/// A name from `i` on, behind what was written: an underscore goes, and what follows it is
/// written large.
pub open spec fn converted_from(s: Seq<char>, i: int, large: bool, out: Seq<char>) -> Seq<char>
    decreases s.len() - i,
{
    if !(0 <= i < s.len()) {
        out
    } else if s[i] == '_' {
        converted_from(s, i + 1, true, out)
    } else if large {
        converted_from(s, i + 1, false, out + upper(s[i]))
    } else {
        converted_from(s, i + 1, false, out.push(s[i]))
    }
}

/// `read_count` as `readCount` or `ReadCount`.
pub open spec fn converted(s: Seq<char>, large: bool) -> Seq<char> {
    converted_from(s, 0, large, Seq::empty())
}

impl Case {
    /// A field's name in this case.
    pub open spec fn applied(self, field: Seq<char>) -> Seq<char> {
        match self {
            Case::AsIs => field,
            Case::Camel => converted(field, false),
            Case::Pascal => converted(field, true),
        }
    }

    /// A field's name in this case.
    pub fn apply(self, field: &str) -> (r: String)
        ensures
            r@ == self.applied(field@),
    {
        match self {
            Case::AsIs => copy_of(field),
            Case::Camel => convert(field, false),
            Case::Pascal => convert(field, true),
        }
    }
}

fn append_upper(out: &mut String, c: char)
    ensures
        final(out)@ == old(out)@ + upper(c),
{
    let ghost before = out@;
    if (c as u32) < 128 {
        let large = if 'a' <= c && c <= 'z' {
            ((c as u8) - 32) as char
        } else {
            c
        };
        push_char(out, large);
        assert(out@ =~= before + upper(c));
    } else {
        out.append(to_unicode_upper(c).as_str());
    }
}

/// Turns `read_count` into `readCount` or `ReadCount`.
pub fn convert(field: &str, capitalise_first: bool) -> (r: String)
    ensures
        r@ == converted(field@, capitalise_first),
{
    let s = chars_of(field);
    let mut out = String::new();
    let mut large = capitalise_first;
    let mut i: usize = 0;
    assert(out@ =~= Seq::<char>::empty());
    while i < s.len()
        invariant
            i <= s.len(),
            s@ == field@,
            converted(field@, capitalise_first) == converted_from(s@, i as int, large, out@),
        decreases s.len() - i,
    {
        let c = s[i];
        if c == '_' {
            large = true;
        } else if large {
            append_upper(&mut out, c);
            large = false;
        } else {
            push_char(&mut out, c);
        }
        i += 1;
    }
    out
}

// ---------------------------------------------------------------------------
// Settings
// ---------------------------------------------------------------------------

/// The case of that name.
pub open spec fn case_named(text: Seq<char>) -> Option<Case> {
    if text == "camelCase"@ {
        Some(Case::Camel)
    } else if text == "PascalCase"@ {
        Some(Case::Pascal)
    } else if text == "snake_case"@ {
        Some(Case::AsIs)
    } else {
        None
    }
}

/// The column type of that name.
pub open spec fn type_named(text: Seq<char>) -> Option<ColumnType> {
    if text == "bool"@ {
        Some(ColumnType::Bool)
    } else if text == "int"@ {
        Some(ColumnType::Int)
    } else if text == "float"@ {
        Some(ColumnType::Float)
    } else if text == "text"@ {
        Some(ColumnType::Text)
    } else if text == "bytes"@ {
        Some(ColumnType::Bytes)
    } else if text == "timestamp"@ {
        Some(ColumnType::Timestamp)
    } else {
        None
    }
}

/// The case that the settings of a struct choose, from the `i`th on. A later one counts.
pub open spec fn case_from(settings: Seq<Setting>, i: int, case: Case) -> Result<Case, SchemaFault>
    decreases settings.len() - i,
{
    if !(0 <= i < settings.len()) {
        Ok(case)
    } else if settings[i].name@ != "rename_all"@ {
        Err(SchemaFault::StructOption)
    } else {
        match settings[i].value {
            None => Err(SchemaFault::Malformed(settings[i].name@)),
            Some(value) => match case_named(value@) {
                Some(case) => case_from(settings, i + 1, case),
                None => Err(SchemaFault::Case(value@)),
            },
        }
    }
}

/// What the settings of a field choose.
pub struct Choice {
    pub rename: Option<Seq<char>>,
    pub column: Option<Seq<char>>,
    pub kind: Option<ColumnType>,
    pub key: bool,
    pub skip: bool,
}

/// Nothing chosen.
pub open spec fn no_choice() -> Choice {
    Choice { rename: None, column: None, kind: None, key: false, skip: false }
}

/// A choice and one more setting.
pub open spec fn chosen(choice: Choice, setting: Setting) -> Result<Choice, SchemaFault> {
    let name = setting.name@;
    if name == "key"@ || name == "skip"@ {
        if setting.value is Some {
            Err(SchemaFault::Malformed(name))
        } else if name == "key"@ {
            Ok(Choice { key: true, ..choice })
        } else {
            Ok(Choice { skip: true, ..choice })
        }
    } else if name == "rename"@ || name == "column"@ || name == "ty"@ {
        match setting.value {
            None => Err(SchemaFault::Malformed(name)),
            Some(value) => if name == "rename"@ {
                Ok(Choice { rename: Some(value@), ..choice })
            } else if name == "column"@ {
                Ok(Choice { column: Some(value@), ..choice })
            } else {
                match type_named(value@) {
                    Some(kind) => Ok(Choice { kind: Some(kind), ..choice }),
                    None => Err(SchemaFault::Type(value@)),
                }
            },
        }
    } else {
        Err(SchemaFault::FieldOption)
    }
}

/// What the settings of a field choose, from the `i`th on. A later one counts.
pub open spec fn choice_from(settings: Seq<Setting>, i: int, choice: Choice) -> Result<
    Choice,
    SchemaFault,
>
    decreases settings.len() - i,
{
    if !(0 <= i < settings.len()) {
        Ok(choice)
    } else {
        match chosen(choice, settings[i]) {
            Ok(choice) => choice_from(settings, i + 1, choice),
            Err(fault) => Err(fault),
        }
    }
}

/// The column type that a type tells. Anything that is not listed tells none.
pub open spec fn inferred(ty: Shape) -> Option<ColumnType>
    decreases ty,
{
    match ty {
        Shape::Reference(elem) => inferred(*elem),
        Shape::Path { name, inner, .. } => if name@ == "bool"@ {
            Some(ColumnType::Bool)
        } else if is_integer(name@) {
            Some(ColumnType::Int)
        } else if name@ == "f32"@ || name@ == "f64"@ {
            Some(ColumnType::Float)
        } else if name@ == "String"@ || name@ == "str"@ {
            Some(ColumnType::Text)
        } else if name@ == "DateTime"@ || name@ == "NaiveDateTime"@ {
            Some(ColumnType::Timestamp)
        } else if name@ == "Vec"@ {
            match inner {
                Some(inner) => if is_byte(*inner) {
                    Some(ColumnType::Bytes)
                } else {
                    None
                },
                None => None,
            }
        } else if name@ == "Option"@ {
            match inner {
                Some(inner) => inferred(*inner),
                None => None,
            }
        } else {
            None
        },
        Shape::Other => None,
    }
}

/// The integer types that a column can hold.
pub open spec fn is_integer(name: Seq<char>) -> bool {
    ||| name == "i8"@
    ||| name == "i16"@
    ||| name == "i32"@
    ||| name == "i64"@
    ||| name == "u8"@
    ||| name == "u16"@
    ||| name == "u32"@
}

/// The type `u8`, and nothing around it.
pub open spec fn is_byte(ty: Shape) -> bool {
    match ty {
        Shape::Path { name, bare, .. } => bare && name@ == "u8"@,
        _ => false,
    }
}

/// An entry of the allow-list: the name that a request uses, and the column.
pub struct EntryView {
    pub field: Seq<char>,
    pub column: ColumnView,
}

/// The entry of a field, if it has one.
pub open spec fn entry_of(field: Field, case: Case) -> Result<Option<EntryView>, SchemaFault> {
    match choice_from(field.settings@, 0, no_choice()) {
        Err(fault) => Err(fault),
        Ok(choice) => if choice.skip {
            Ok(None)
        } else {
            let kind = match choice.kind {
                Some(kind) => Some(kind),
                None => inferred(field.ty),
            };
            match kind {
                None => Err(SchemaFault::Untold(field.name@)),
                Some(ty) => Ok(
                    Some(
                        EntryView {
                            field: match choice.rename {
                                Some(rename) => rename,
                                None => case.applied(field.name@),
                            },
                            column: ColumnView {
                                name: match choice.column {
                                    Some(column) => column,
                                    None => field.name@,
                                },
                                ty,
                                unique: choice.key,
                            },
                        },
                    ),
                ),
            }
        },
    }
}

/// The entries of the fields from the `i`th on, behind those that were read.
pub open spec fn entries_from(
    fields: Seq<Field>,
    case: Case,
    i: int,
    entries: Seq<EntryView>,
) -> Result<Seq<EntryView>, SchemaFault>
    decreases fields.len() - i,
{
    if !(0 <= i < fields.len()) {
        Ok(entries)
    } else {
        match entry_of(fields[i], case) {
            Err(fault) => Err(fault),
            Ok(Some(entry)) => entries_from(fields, case, i + 1, entries.push(entry)),
            Ok(None) => entries_from(fields, case, i + 1, entries),
        }
    }
}

/// The allow-list that a declaration makes.
pub open spec fn expanded(generic: bool, fields: Option<Seq<Field>>, settings: Seq<Setting>) -> Result<
    Seq<EntryView>,
    SchemaFault,
> {
    if generic {
        Err(SchemaFault::Generic)
    } else {
        match fields {
            None => Err(SchemaFault::NotAStruct),
            Some(fields) => match case_from(settings, 0, Case::AsIs) {
                Err(fault) => Err(fault),
                Ok(case) => entries_from(fields, case, 0, Seq::empty()),
            },
        }
    }
}

/// The fields of a declaration.
pub open spec fn fields_of(declaration: Declaration) -> Option<Seq<Field>> {
    match declaration.fields {
        Some(fields) => Some(fields@),
        None => None,
    }
}

/// The columns that entries expose; a later one takes the place of an earlier one.
pub open spec fn exposed(entries: Seq<EntryView>) -> Map<Seq<char>, ColumnView>
    decreases entries.len(),
{
    if entries.len() == 0 {
        Map::empty()
    } else {
        exposed(entries.drop_last()).insert(entries.last().field, entries.last().column)
    }
}

// ---------------------------------------------------------------------------
// Expanding
// ---------------------------------------------------------------------------

fn read_case(settings: &[Setting]) -> (r: Result<Case, SchemaError>)
    ensures
        match (r, case_from(settings@, 0, Case::AsIs)) {
            (Ok(case), Ok(found)) => case == found,
            (Err(error), Err(fault)) => error@ == fault,
            _ => false,
        },
{
    let mut case = Case::AsIs;
    let mut i: usize = 0;
    while i < settings.len()
        invariant
            i <= settings.len(),
            case_from(settings@, 0, Case::AsIs) == case_from(settings@, i as int, case),
        decreases settings.len() - i,
    {
        if !same(settings[i].name.as_str(), "rename_all") {
            return Err(SchemaError::StructOption);
        }
        match &settings[i].value {
            None => {
                return Err(SchemaError::Malformed(copy_of(settings[i].name.as_str())));
            },
            Some(value) => {
                if same(value.as_str(), "camelCase") {
                    case = Case::Camel;
                } else if same(value.as_str(), "PascalCase") {
                    case = Case::Pascal;
                } else if same(value.as_str(), "snake_case") {
                    case = Case::AsIs;
                } else {
                    return Err(SchemaError::Case(copy_of(value.as_str())));
                }
            },
        }
        i += 1;
    }
    Ok(case)
}

fn read_type(text: &str) -> (r: Option<ColumnType>)
    ensures
        r == type_named(text@),
{
    if same(text, "bool") {
        Some(ColumnType::Bool)
    } else if same(text, "int") {
        Some(ColumnType::Int)
    } else if same(text, "float") {
        Some(ColumnType::Float)
    } else if same(text, "text") {
        Some(ColumnType::Text)
    } else if same(text, "bytes") {
        Some(ColumnType::Bytes)
    } else if same(text, "timestamp") {
        Some(ColumnType::Timestamp)
    } else {
        None
    }
}

/// What the settings of a field choose.
#[derive(Debug, PartialEq, Eq)]
pub struct FieldOptions {
    pub rename: Option<String>,
    pub column: Option<String>,
    pub kind: Option<ColumnType>,
    pub key: bool,
    pub skip: bool,
}

/// A text that may be missing.
pub open spec fn text_seen(text: Option<String>) -> Option<Seq<char>> {
    match text {
        Some(text) => Some(text@),
        None => None,
    }
}

impl View for FieldOptions {
    type V = Choice;

    open spec fn view(&self) -> Choice {
        Choice {
            rename: text_seen(self.rename),
            column: text_seen(self.column),
            kind: self.kind,
            key: self.key,
            skip: self.skip,
        }
    }
}

impl FieldOptions {
    /// Reads the settings of a field.
    pub fn parse(settings: &[Setting]) -> (r: Result<FieldOptions, SchemaError>)
        ensures
            match (r, choice_from(settings@, 0, no_choice())) {
                (Ok(options), Ok(choice)) => options@ == choice,
                (Err(error), Err(fault)) => error@ == fault,
                _ => false,
            },
    {
        let mut options = FieldOptions {
            rename: None,
            column: None,
            kind: None,
            key: false,
            skip: false,
        };
        let mut i: usize = 0;
        while i < settings.len()
            invariant
                i <= settings.len(),
                choice_from(settings@, 0, no_choice()) == choice_from(
                    settings@,
                    i as int,
                    options@,
                ),
            decreases settings.len() - i,
        {
            match options.choose_one(&settings[i]) {
                Ok(next) => {
                    options = next;
                },
                Err(error) => {
                    return Err(error);
                },
            }
            i += 1;
        }
        Ok(options)
    }

    fn choose_one(self, setting: &Setting) -> (r: Result<FieldOptions, SchemaError>)
        ensures
            match (r, chosen(self@, *setting)) {
                (Ok(options), Ok(choice)) => options@ == choice,
                (Err(error), Err(fault)) => error@ == fault,
                _ => false,
            },
    {
        let mut options = self;
        let name = setting.name.as_str();
        if same(name, "key") || same(name, "skip") {
            if setting.value.is_some() {
                return Err(SchemaError::Malformed(copy_of(name)));
            }
            if same(name, "key") {
                options.key = true;
            } else {
                options.skip = true;
            }
            return Ok(options);
        }
        if same(name, "rename") || same(name, "column") || same(name, "ty") {
            let value = match &setting.value {
                Some(value) => value.as_str(),
                None => {
                    return Err(SchemaError::Malformed(copy_of(name)));
                },
            };
            if same(name, "rename") {
                options.rename = Some(copy_of(value));
            } else if same(name, "column") {
                options.column = Some(copy_of(value));
            } else {
                match read_type(value) {
                    Some(kind) => {
                        options.kind = Some(kind);
                    },
                    None => {
                        return Err(SchemaError::Type(copy_of(value)));
                    },
                }
            }
            return Ok(options);
        }
        Err(SchemaError::FieldOption)
    }
}

fn integer(name: &str) -> (b: bool)
    ensures
        b == is_integer(name@),
{
    same(name, "i8") || same(name, "i16") || same(name, "i32") || same(name, "i64") || same(
        name,
        "u8",
    ) || same(name, "u16") || same(name, "u32")
}

fn byte(ty: &Shape) -> (b: bool)
    ensures
        b == is_byte(*ty),
{
    match ty {
        Shape::Path { name, bare, .. } => *bare && same(name.as_str(), "u8"),
        _ => false,
    }
}

/// Tells the column type from the type of a field. It is conservative: what is not listed is
/// refused rather than guessed.
pub fn infer(ty: &Shape) -> (r: Option<ColumnType>)
    ensures
        r == inferred(*ty),
    decreases ty,
{
    match ty {
        Shape::Reference(elem) => infer(elem),
        Shape::Path { name, inner, .. } => {
            let name = name.as_str();
            if same(name, "bool") {
                Some(ColumnType::Bool)
            } else if integer(name) {
                Some(ColumnType::Int)
            } else if same(name, "f32") || same(name, "f64") {
                Some(ColumnType::Float)
            } else if same(name, "String") || same(name, "str") {
                Some(ColumnType::Text)
            } else if same(name, "DateTime") || same(name, "NaiveDateTime") {
                Some(ColumnType::Timestamp)
            } else if same(name, "Vec") {
                match inner {
                    Some(inner) => if byte(inner) {
                        Some(ColumnType::Bytes)
                    } else {
                        None
                    },
                    None => None,
                }
            } else if same(name, "Option") {
                match inner {
                    Some(inner) => infer(inner),
                    None => None,
                }
            } else {
                None
            }
        },
        Shape::Other => None,
    }
}

/// An entry of the allow-list.
#[derive(Debug, PartialEq, Eq)]
pub struct Entry {
    pub field: String,
    pub column: Column,
}

impl View for Entry {
    type V = EntryView;

    open spec fn view(&self) -> EntryView {
        EntryView { field: self.field@, column: self.column@ }
    }
}

/// What entries hold.
pub open spec fn entry_views(entries: Seq<Entry>) -> Seq<EntryView> {
    entries.map_values(|entry: Entry| entry@)
}

fn read_entry(field: &Field, case: Case) -> (r: Result<Option<Entry>, SchemaError>)
    ensures
        match (r, entry_of(*field, case)) {
            (Ok(Some(entry)), Ok(Some(found))) => entry@ == found,
            (Ok(None), Ok(None)) => true,
            (Err(error), Err(fault)) => error@ == fault,
            _ => false,
        },
{
    let options = match FieldOptions::parse(field.settings.as_slice()) {
        Ok(options) => options,
        Err(error) => {
            return Err(error);
        },
    };
    if options.skip {
        return Ok(None);
    }
    let exposed = match &options.rename {
        Some(rename) => copy_of(rename.as_str()),
        None => case.apply(field.name.as_str()),
    };
    let name = match &options.column {
        Some(column) => copy_of(column.as_str()),
        None => copy_of(field.name.as_str()),
    };
    let kind = match options.kind {
        Some(kind) => Some(kind),
        None => infer(&field.ty),
    };
    match kind {
        Some(ty) => Ok(
            Some(Entry { field: exposed, column: Column { name, ty, unique: options.key } }),
        ),
        None => Err(SchemaError::Untold(copy_of(field.name.as_str()))),
    }
}

/// The entries of the allow-list that a declaration makes, in the order of its fields.
pub fn expand(declaration: &Declaration) -> (r: Result<Vec<Entry>, SchemaError>)
    ensures
        match (
            r,
            expanded(declaration.generic, fields_of(*declaration), declaration.settings@),
        ) {
            (Ok(entries), Ok(found)) => entry_views(entries@) == found,
            (Err(error), Err(fault)) => error@ == fault,
            _ => false,
        },
{
    if declaration.generic {
        return Err(SchemaError::Generic);
    }
    let fields = match &declaration.fields {
        Some(fields) => fields,
        None => {
            return Err(SchemaError::NotAStruct);
        },
    };
    let case = match read_case(declaration.settings.as_slice()) {
        Ok(case) => case,
        Err(error) => {
            return Err(error);
        },
    };
    let mut entries: Vec<Entry> = Vec::new();
    let mut i: usize = 0;
    assert(entry_views(entries@) =~= Seq::<EntryView>::empty());
    let ghost whole = entries_from(fields@, case, 0, Seq::empty());
    while i < fields.len()
        invariant
            i <= fields.len(),
            whole == entries_from(fields@, case, i as int, entry_views(entries@)),
            whole == expanded(
                declaration.generic,
                fields_of(*declaration),
                declaration.settings@,
            ),
        decreases fields.len() - i,
    {
        match read_entry(&fields[i], case) {
            Ok(Some(entry)) => {
                let ghost held = entry_views(entries@);
                entries.push(entry);
                assert(entry_views(entries@) =~= held.push(entry@));
            },
            Ok(None) => {},
            Err(error) => {
                return Err(error);
            },
        }
        i += 1;
    }
    Ok(entries)
}

/// The mapping that exposes these entries and nothing else.
pub fn table(entries: &[Entry]) -> (r: QueryMapping)
    ensures
        r@ == exposed(entry_views(entries@)),
{
    let ghost views = entry_views(entries@);
    let mut mapping = QueryMapping::new();
    let mut i: usize = 0;
    assert(views.take(0) =~= Seq::<EntryView>::empty());
    while i < entries.len()
        invariant
            i <= entries.len(),
            views == entry_views(entries@),
            mapping@ == exposed(views.take(i as int)),
        decreases entries.len() - i,
    {
        assert(views.take(i + 1).drop_last() =~= views.take(i as int));
        assert(views.take(i + 1).last() == entries@[i as int]@);
        mapping = mapping.add(entries[i].field.as_str(), entries[i].column.clone());
        i += 1;
    }
    assert(views.take(i as int) =~= views);
    mapping
}

// ---------------------------------------------------------------------------
// Laws
// ---------------------------------------------------------------------------

/// Some field has this entry.
pub open spec fn declared(fields: Seq<Field>, case: Case, entry: EntryView) -> bool {
    exists|i: int| 0 <= i < fields.len() && has_entry(#[trigger] fields[i], case, entry)
}

/// A field has this entry.
pub open spec fn has_entry(field: Field, case: Case, entry: EntryView) -> bool {
    match entry_of(field, case) {
        Ok(Some(found)) => found == entry,
        _ => false,
    }
}

proof fn lemma_entries(fields: Seq<Field>, case: Case, i: int, entries: Seq<EntryView>)
    requires
        0 <= i <= fields.len(),
        forall|j: int| 0 <= j < entries.len() ==> declared(fields, case, #[trigger] entries[j]),
    ensures
        entries_from(fields, case, i, entries) matches Ok(all) ==> forall|j: int|
            0 <= j < all.len() ==> declared(fields, case, #[trigger] all[j]),
    decreases fields.len() - i,
{
    if i < fields.len() {
        match entry_of(fields[i], case) {
            Ok(Some(entry)) => {
                assert(has_entry(fields[i], case, entry));
                let more = entries.push(entry);
                assert forall|j: int| 0 <= j < more.len() implies declared(
                    fields,
                    case,
                    #[trigger] more[j],
                ) by {
                    if j < entries.len() {
                        assert(more[j] == entries[j]);
                    }
                }
                lemma_entries(fields, case, i + 1, more);
            },
            Ok(None) => {
                lemma_entries(fields, case, i + 1, entries);
            },
            Err(_) => {},
        }
    }
}

/// Nothing is exposed but what a field declares.
pub proof fn law_only_declared_fields_are_exposed(
    fields: Seq<Field>,
    settings: Seq<Setting>,
    case: Case,
)
    requires
        case_from(settings, 0, Case::AsIs) == Ok::<Case, SchemaFault>(case),
    ensures
        expanded(false, Some(fields), settings) matches Ok(entries) ==> forall|j: int|
            0 <= j < entries.len() ==> declared(fields, case, #[trigger] entries[j]),
{
    lemma_entries(fields, case, 0, Seq::empty());
}

/// A field that is skipped has no entry, whatever else its settings say.
pub proof fn law_a_skipped_field_has_no_entry(field: Field, case: Case, choice: Choice)
    requires
        choice_from(field.settings@, 0, no_choice()) == Ok::<Choice, SchemaFault>(choice),
        choice.skip,
    ensures
        entry_of(field, case) == Ok::<Option<EntryView>, SchemaFault>(None),
{
}

/// A word with its first character written large.
pub open spec fn capitalised(s: Seq<char>) -> Seq<char> {
    if s.len() == 0 {
        s
    } else {
        upper(s[0]) + s.skip(1)
    }
}

/// The first `n` words written together: the first as it is, unless it is to be large, and every
/// other large.
pub open spec fn written_together(parts: Seq<Seq<char>>, n: nat, large: bool) -> Seq<char>
    decreases n,
{
    if n == 0 || n > parts.len() {
        Seq::empty()
    } else if n == 1 {
        if large {
            capitalised(parts[0])
        } else {
            parts[0]
        }
    } else {
        written_together(parts, (n - 1) as nat, large) + capitalised(parts[n - 1])
    }
}

proof fn lemma_together_front(parts: Seq<Seq<char>>, others: Seq<Seq<char>>, n: nat, large: bool)
    requires
        n <= parts.len(),
        n <= others.len(),
        forall|i: int| 0 <= i < n ==> parts[i] == others[i],
    ensures
        written_together(parts, n, large) == written_together(others, n, large),
    decreases n,
{
    if n > 0 {
        lemma_together_front(parts, others, (n - 1) as nat, large);
        assert(parts[n - 1] == others[n - 1]);
        assert(parts[0] == others[0]);
    }
}

#[verifier::rlimit(50)]
proof fn lemma_converted(s: Seq<char>, i: int, large: bool)
    requires
        0 <= i <= s.len(),
    ensures
        ({
            let parts = pieces(s.take(i), '_');
            let now = if parts.len() == 1 {
                large && parts.last().len() == 0
            } else {
                parts.last().len() == 0
            };
            converted(s, large) == converted_from(
                s,
                i,
                now,
                written_together(parts, parts.len(), large),
            )
        }),
    decreases i,
{
    let whole = s.take(i);
    let parts = pieces(whole, '_');
    lemma_pieces_nonempty(whole, '_');
    if i == 0 {
        assert(whole =~= Seq::<char>::empty());
        assert(parts =~= seq![Seq::<char>::empty()]);
        assert(written_together(parts, 1, large) =~= Seq::<char>::empty());
    } else {
        lemma_converted(s, i - 1, large);
        let less = s.take(i - 1);
        let before = pieces(less, '_');
        lemma_pieces_nonempty(less, '_');
        assert(whole.drop_last() =~= less);
        assert(whole.last() == s[i - 1]);
        let c = s[i - 1];
        let n = before.len();
        let out = written_together(before, n, large);
        if c == '_' {
            assert(parts =~= before.push(Seq::empty()));
            lemma_together_front(parts, before, n, large);
            assert(parts[n as int] == Seq::<char>::empty());
            assert(written_together(parts, (n + 1) as nat, large) =~= out);
        } else {
            let last = before.last().push(c);
            assert(parts =~= before.drop_last().push(last));
            assert(parts[n - 1] == last);
            if n > 1 {
                lemma_together_front(parts, before, (n - 1) as nat, large);
            }
            if before.last().len() == 0 {
                assert(last =~= seq![c]);
                assert(last.skip(1) =~= Seq::<char>::empty());
                assert(capitalised(last) =~= upper(c));
                assert(before.last() =~= Seq::<char>::empty());
                let now = if n == 1 {
                    large
                } else {
                    true
                };
                if now {
                    assert(written_together(parts, n, large) =~= out + upper(c));
                } else {
                    assert(written_together(parts, n, large) =~= out.push(c));
                }
            } else {
                assert(last.skip(1) =~= before.last().skip(1).push(c));
                assert(last[0] == before.last()[0]);
                assert(capitalised(last) =~= capitalised(before.last()).push(c));
                assert(written_together(parts, n, large) =~= out.push(c));
            }
        }
    }
}

/// A field's name in another case is its words, which underscores part, written together: every
/// word but the first begins large, and the first only in `PascalCase`. As it is spelled, it stays.
pub proof fn law_a_name_keeps_its_words(field: Seq<char>)
    ensures
        Case::AsIs.applied(field) == field,
        Case::Camel.applied(field) == written_together(
            pieces(field, '_'),
            pieces(field, '_').len(),
            false,
        ),
        Case::Pascal.applied(field) == written_together(
            pieces(field, '_'),
            pieces(field, '_').len(),
            true,
        ),
        case_named("camelCase"@) == Some(Case::Camel),
        case_named("PascalCase"@) == Some(Case::Pascal),
        case_named("snake_case"@) == Some(Case::AsIs),
{
    assert(field.take(field.len() as int) =~= field);
    lemma_converted(field, field.len() as int, false);
    lemma_converted(field, field.len() as int, true);
    reveal_strlit("camelCase");
    reveal_strlit("PascalCase");
    reveal_strlit("snake_case");
    assert("camelCase"@[0] == 'c' && "PascalCase"@[0] == 'P' && "snake_case"@[0] == 's');
}

/// A column type is named by its own name, and by no other.
pub proof fn law_a_type_is_named_by_its_own_name(ty: ColumnType, text: Seq<char>)
    ensures
        type_named(ty.text()) == Some(ty),
        type_named(text) == Some(ty) ==> text == ty.text(),
{
    reveal_strlit("bool");
    reveal_strlit("int");
    reveal_strlit("float");
    reveal_strlit("text");
    reveal_strlit("bytes");
    reveal_strlit("timestamp");
    assert("bool"@.len() == 4 && "int"@.len() == 3 && "float"@.len() == 5 && "text"@.len() == 4
        && "bytes"@.len() == 5 && "timestamp"@.len() == 9);
    assert("bool"@[0] == 'b' && "text"@[0] == 't' && "float"@[0] == 'f' && "bytes"@[0] == 'b');
}

/// The settings from the `i`th on hold one of this name.
pub open spec fn set_from(settings: Seq<Setting>, name: Seq<char>, i: int) -> bool {
    exists|j: int| i <= j < settings.len() && (#[trigger] settings[j]).name@ == name
}

/// The string of the last setting of this name, from the `i`th on.
pub open spec fn last_set(settings: Seq<Setting>, name: Seq<char>, i: int) -> Option<Seq<char>>
    decreases settings.len() - i,
{
    if !(0 <= i < settings.len()) {
        None
    } else {
        match last_set(settings, name, i + 1) {
            Some(value) => Some(value),
            None => if settings[i].name@ == name {
                text_seen(settings[i].value)
            } else {
                None
            },
        }
    }
}

#[verifier::rlimit(50)]
proof fn lemma_choice(settings: Seq<Setting>, i: int, choice: Choice)
    requires
        0 <= i <= settings.len(),
    ensures
        choice_from(settings, i, choice) matches Ok(found) ==> {
            &&& found.key == (choice.key || set_from(settings, "key"@, i))
            &&& found.skip == (choice.skip || set_from(settings, "skip"@, i))
            &&& found.rename == match last_set(settings, "rename"@, i) {
                Some(value) => Some(value),
                None => choice.rename,
            }
            &&& found.column == match last_set(settings, "column"@, i) {
                Some(value) => Some(value),
                None => choice.column,
            }
            &&& match last_set(settings, "ty"@, i) {
                Some(value) => found.kind is Some && value == found.kind->0.text(),
                None => found.kind == choice.kind,
            }
        },
    decreases settings.len() - i,
{
    if i < settings.len() {
        reveal_strlit("key");
        reveal_strlit("skip");
        reveal_strlit("rename");
        reveal_strlit("column");
        reveal_strlit("ty");
        assert("key"@.len() == 3 && "skip"@.len() == 4 && "rename"@.len() == 6 && "column"@.len()
            == 6 && "ty"@.len() == 2);
        assert("rename"@[0] != "column"@[0]);
        let setting = settings[i];
        if let Ok(next) = chosen(choice, setting) {
            lemma_choice(settings, i + 1, next);
            if choice_from(settings, i + 1, next) is Ok {
                if let Some(value) = setting.value {
                    if let Some(kind) = type_named(value@) {
                        law_a_type_is_named_by_its_own_name(kind, value@);
                    }
                }
                assert(set_from(settings, "key"@, i) == (setting.name@ == "key"@ || set_from(
                    settings,
                    "key"@,
                    i + 1,
                ))) by {
                    if set_from(settings, "key"@, i) {
                        let j = choose|j: int|
                            i <= j < settings.len() && (#[trigger] settings[j]).name@ == "key"@;
                        assert(j == i || i + 1 <= j);
                    }
                }
                assert(set_from(settings, "skip"@, i) == (setting.name@ == "skip"@ || set_from(
                    settings,
                    "skip"@,
                    i + 1,
                ))) by {
                    if set_from(settings, "skip"@, i) {
                        let j = choose|j: int|
                            i <= j < settings.len() && (#[trigger] settings[j]).name@ == "skip"@;
                        assert(j == i || i + 1 <= j);
                    }
                }
            }
        }
    }
}

/// A field is exposed as its settings say: under the name of its last `rename`, or else under its
/// own in the struct's case; as the column of its last `column`, or else of its own name; of the
/// type that its last `ty` names, or else the one that its type tells; unique exactly where it has
/// `key`; and not at all where it has `skip`.
pub proof fn law_a_field_is_exposed_as_its_settings_say(field: Field, case: Case)
    ensures
        entry_of(field, case) matches Ok(found) ==> {
            let settings = field.settings@;
            &&& found is None <==> set_from(settings, "skip"@, 0)
            &&& found matches Some(entry) ==> {
                &&& entry.field == match last_set(settings, "rename"@, 0) {
                    Some(name) => name,
                    None => case.applied(field.name@),
                }
                &&& entry.column.name == match last_set(settings, "column"@, 0) {
                    Some(name) => name,
                    None => field.name@,
                }
                &&& match last_set(settings, "ty"@, 0) {
                    Some(name) => entry.column.ty.text() == name,
                    None => inferred(field.ty) == Some(entry.column.ty),
                }
                &&& entry.column.unique == set_from(settings, "key"@, 0)
            }
        },
{
    lemma_choice(field.settings@, 0, no_choice());
}

/// A type tells the same behind a reference or inside an option. A whole number tells an integer
/// exactly where every value of it fits a signed one of sixty-four bits, a `Vec` only of bytes.
#[verifier::rlimit(50)]
pub proof fn law_a_type_tells_what_it_holds(
    name: String,
    bare: bool,
    inner: Option<Box<Shape>>,
    held: Shape,
)
    ensures
        inferred(Shape::Reference(Box::new(held))) == inferred(held),
        name@ == "Option"@ && inner == Some(Box::new(held)) ==> inferred(
            Shape::Path { name, bare, inner },
        ) == inferred(held),
        name@ == "i8"@ || name@ == "i16"@ || name@ == "i32"@ || name@ == "i64"@ || name@ == "u8"@
            || name@ == "u16"@ || name@ == "u32"@ ==> inferred(Shape::Path { name, bare, inner })
            == Some(ColumnType::Int),
        name@ == "u64"@ || name@ == "i128"@ || name@ == "u128"@ || name@ == "usize"@ || name@
            == "isize"@ ==> inferred(Shape::Path { name, bare, inner }) is None,
        name@ == "f32"@ || name@ == "f64"@ ==> inferred(Shape::Path { name, bare, inner }) == Some(
            ColumnType::Float,
        ),
        name@ == "String"@ || name@ == "str"@ ==> inferred(Shape::Path { name, bare, inner })
            == Some(ColumnType::Text),
        name@ == "bool"@ ==> inferred(Shape::Path { name, bare, inner }) == Some(ColumnType::Bool),
        name@ == "DateTime"@ || name@ == "NaiveDateTime"@ ==> inferred(
            Shape::Path { name, bare, inner },
        ) == Some(ColumnType::Timestamp),
        name@ == "Vec"@ ==> inferred(Shape::Path { name, bare, inner }) == (if inner matches Some(
            element,
        ) && (*element matches Shape::Path { name: of, bare: alone, .. } && alone && of@ == "u8"@) {
            Some(ColumnType::Bytes)
        } else {
            None
        }),
{
    lemma_type_names();
}

/// No two names of types that tell different things are one.
proof fn lemma_type_names()
    ensures
        "bool"@.len() == 4 && "bool"@[0] == 'b',
        "i8"@.len() == 2 && "u8"@.len() == 2,
        "i16"@.len() == 3 && "i32"@.len() == 3 && "i64"@.len() == 3,
        "u16"@.len() == 3 && "u32"@.len() == 3 && "u64"@.len() == 3,
        "i16"@[0] == 'i' && "i32"@[0] == 'i' && "i64"@[0] == 'i',
        "u16"@[0] == 'u' && "u32"@[0] == 'u' && "u64"@[0] == 'u',
        "u16"@[1] == '1' && "u32"@[1] == '3' && "u64"@[1] == '6',
        "i128"@.len() == 4 && "u128"@.len() == 4 && "i128"@[0] == 'i' && "u128"@[0] == 'u',
        "usize"@.len() == 5 && "isize"@.len() == 5,
        "f32"@.len() == 3 && "f64"@.len() == 3 && "f32"@[0] == 'f' && "f64"@[0] == 'f',
        "String"@.len() == 6 && "String"@[0] == 'S' && "str"@.len() == 3 && "str"@[0] == 's',
        "DateTime"@.len() == 8 && "NaiveDateTime"@.len() == 13,
        "Vec"@.len() == 3 && "Vec"@[0] == 'V',
        "Option"@.len() == 6 && "Option"@[0] == 'O',
{
    reveal_strlit("bool");
    reveal_strlit("i8");
    reveal_strlit("u8");
    reveal_strlit("i16");
    reveal_strlit("i32");
    reveal_strlit("i64");
    reveal_strlit("u16");
    reveal_strlit("u32");
    reveal_strlit("u64");
    reveal_strlit("i128");
    reveal_strlit("u128");
    reveal_strlit("usize");
    reveal_strlit("isize");
    reveal_strlit("f32");
    reveal_strlit("f64");
    reveal_strlit("String");
    reveal_strlit("str");
    reveal_strlit("DateTime");
    reveal_strlit("NaiveDateTime");
    reveal_strlit("Vec");
    reveal_strlit("Option");
}

/// A setting that a field can have: `key` or `skip` on its own, `rename` or `column` with a string,
/// and `ty` with the name of a column type.
pub open spec fn field_setting(setting: Setting) -> bool {
    let name = setting.name@;
    ||| (name == "key"@ || name == "skip"@) && setting.value is None
    ||| (name == "rename"@ || name == "column"@) && setting.value is Some
    ||| name == "ty"@ && (setting.value matches Some(value) && exists|ty: ColumnType|
        #![trigger ty.text()]
        ty.text() == value@)
}

/// A setting that a struct can have: `rename_all` with the name of a case.
pub open spec fn struct_setting(setting: Setting) -> bool {
    setting.name@ == "rename_all"@ && (setting.value matches Some(value) && (value@ == "camelCase"@
        || value@ == "PascalCase"@ || value@ == "snake_case"@))
}

#[verifier::rlimit(50)]
proof fn lemma_chosen(choice: Choice, setting: Setting)
    ensures
        chosen(choice, setting) is Ok <==> field_setting(setting),
{
    reveal_strlit("key");
    reveal_strlit("skip");
    reveal_strlit("rename");
    reveal_strlit("column");
    reveal_strlit("ty");
    assert("key"@.len() == 3 && "skip"@.len() == 4 && "rename"@.len() == 6 && "column"@.len() == 6
        && "ty"@.len() == 2);
    assert("rename"@[0] != "column"@[0]);
    if let Some(value) = setting.value {
        if let Some(kind) = type_named(value@) {
            law_a_type_is_named_by_its_own_name(kind, value@);
            assert(kind.text() == value@);
        }
        if exists|ty: ColumnType|
            #![trigger ty.text()]
            ty.text() == value@ {
            let ty = choose|ty: ColumnType|
                #![trigger ty.text()]
                ty.text() == value@;
            law_a_type_is_named_by_its_own_name(ty, value@);
        }
    }
}

proof fn lemma_choices(settings: Seq<Setting>, i: int, choice: Choice)
    requires
        0 <= i <= settings.len(),
    ensures
        choice_from(settings, i, choice) is Ok <==> forall|j: int|
            i <= j < settings.len() ==> field_setting(#[trigger] settings[j]),
    decreases settings.len() - i,
{
    if i < settings.len() {
        lemma_chosen(choice, settings[i]);
        if let Ok(next) = chosen(choice, settings[i]) {
            lemma_choices(settings, i + 1, next);
        }
    }
}

/// A field is taken exactly where every setting of it is one that fields have, and it is skipped or
/// its type is told: by a `ty`, or by itself.
pub proof fn law_a_field_is_taken_exactly_where_its_type_is_told(field: Field, case: Case)
    ensures
        entry_of(field, case) is Ok <==> (forall|j: int|
            0 <= j < field.settings@.len() ==> field_setting(#[trigger] field.settings@[j])) && (
        set_from(field.settings@, "skip"@, 0) || last_set(field.settings@, "ty"@, 0) is Some
            || inferred(field.ty) is Some),
{
    lemma_choices(field.settings@, 0, no_choice());
    lemma_choice(field.settings@, 0, no_choice());
}

/// What the last of the settings names, as a case; the fields' own spelling where there is none.
pub open spec fn case_of(settings: Seq<Setting>) -> Case {
    if settings.len() == 0 {
        Case::AsIs
    } else {
        match settings.last().value {
            Some(value) => if value@ == "camelCase"@ {
                Case::Camel
            } else if value@ == "PascalCase"@ {
                Case::Pascal
            } else {
                Case::AsIs
            },
            None => Case::AsIs,
        }
    }
}

#[verifier::rlimit(50)]
proof fn lemma_case(settings: Seq<Setting>, i: int, case: Case)
    requires
        0 <= i <= settings.len(),
    ensures
        case_from(settings, i, case) is Ok <==> forall|j: int|
            i <= j < settings.len() ==> struct_setting(#[trigger] settings[j]),
        case_from(settings, i, case) matches Ok(found) ==> found == if i < settings.len() {
            case_of(settings)
        } else {
            case
        },
    decreases settings.len() - i,
{
    law_a_name_keeps_its_words(Seq::empty());
    reveal_strlit("camelCase");
    reveal_strlit("PascalCase");
    reveal_strlit("snake_case");
    assert("camelCase"@[0] == 'c' && "PascalCase"@[0] == 'P' && "snake_case"@[0] == 's');
    if i < settings.len() {
        if let Some(value) = settings[i].value {
            if let Some(next) = case_named(value@) {
                lemma_case(settings, i + 1, next);
            }
        }
    }
}

/// A declaration makes an allow-list exactly where it is a struct without generics, its own settings
/// name cases and every field is taken; the list then holds every field that is not skipped, in
/// order, under the case that the last setting names.
pub proof fn law_a_declaration_is_taken_whole(
    generic: bool,
    fields: Option<Seq<Field>>,
    settings: Seq<Setting>,
)
    ensures
        expanded(generic, fields, settings) is Ok <==> !generic && (forall|j: int|
            0 <= j < settings.len() ==> struct_setting(#[trigger] settings[j])) && (fields matches Some(
            all,
        ) && forall|j: int|
            0 <= j < all.len() ==> entry_of(#[trigger] all[j], case_of(settings)) is Ok),
        expanded(generic, fields, settings) matches Ok(entries) ==> entries == kept_entries(
            fields->0,
            case_of(settings),
            fields->0.len(),
        ),
{
    lemma_case(settings, 0, Case::AsIs);
    if let Some(all) = fields {
        lemma_kept_entries(all, case_of(settings), 0, Seq::empty());
    }
}

/// The entries of the first `n` fields, without those that are skipped.
pub open spec fn kept_entries(fields: Seq<Field>, case: Case, n: nat) -> Seq<EntryView>
    decreases n,
{
    if n == 0 || n > fields.len() {
        Seq::empty()
    } else {
        let before = kept_entries(fields, case, (n - 1) as nat);
        match entry_of(fields[n - 1], case) {
            Ok(Some(entry)) => before.push(entry),
            _ => before,
        }
    }
}

proof fn lemma_kept_entries(fields: Seq<Field>, case: Case, i: int, entries: Seq<EntryView>)
    requires
        0 <= i <= fields.len(),
        entries == kept_entries(fields, case, i as nat),
    ensures
        entries_from(fields, case, i, entries) is Ok <==> forall|j: int|
            i <= j < fields.len() ==> entry_of(#[trigger] fields[j], case) is Ok,
        entries_from(fields, case, i, entries) matches Ok(found) ==> found == kept_entries(
            fields,
            case,
            fields.len(),
        ),
    decreases fields.len() - i,
{
    if i < fields.len() {
        match entry_of(fields[i], case) {
            Err(_) => {},
            Ok(Some(entry)) => {
                lemma_kept_entries(fields, case, i + 1, entries.push(entry));
            },
            Ok(None) => {
                lemma_kept_entries(fields, case, i + 1, entries);
            },
        }
    }
}

/// Each field of an allow-list means the column of the last entry under its name.
pub proof fn law_the_last_entry_of_a_name_counts(entries: Seq<EntryView>, i: int)
    requires
        0 <= i < entries.len(),
        forall|j: int| i < j < entries.len() ==> (#[trigger] entries[j]).field != entries[i].field,
    ensures
        exposed(entries).dom().contains(entries[i].field),
        exposed(entries)[entries[i].field] == entries[i].column,
    decreases entries.len(),
{
    let front = entries.drop_last();
    if i < entries.len() - 1 {
        assert forall|j: int| i < j < front.len() implies (#[trigger] front[j]).field
            != front[i].field by {
            assert(front[j] == entries[j]);
        }
        law_the_last_entry_of_a_name_counts(front, i);
        assert(entries[entries.len() - 1].field != entries[i].field);
    }
}

/// A setting that is refused is told by what is wrong with it: its name where fields have none of it,
/// that it has a value or lacks one, and the type that no column has.
pub proof fn law_a_refused_setting_says_why(choice: Choice, setting: Setting)
    ensures
        chosen(choice, setting) matches Err(fault) ==> {
            let name = setting.name@;
            let known = name == "key"@ || name == "skip"@ || name == "rename"@ || name == "column"@
                || name == "ty"@;
            &&& !known <==> fault == SchemaFault::FieldOption
            &&& known && fault is Malformed ==> fault == SchemaFault::Malformed(name) && (
            setting.value is Some <==> name == "key"@ || name == "skip"@)
            &&& known && !(fault is Malformed) ==> name == "ty"@ && (setting.value matches Some(value)
                && fault == SchemaFault::Type(value@))
        },
{
    reveal_strlit("key");
    reveal_strlit("skip");
    reveal_strlit("rename");
    reveal_strlit("column");
    reveal_strlit("ty");
    assert("key"@.len() == 3 && "skip"@.len() == 4 && "rename"@.len() == 6 && "column"@.len() == 6
        && "ty"@.len() == 2);
}

} // verus!

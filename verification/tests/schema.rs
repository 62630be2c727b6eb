use sqlx_query::template::mapping::{ColumnType, Mapping, QueryMapping};
use sqlx_query::template::schema::{
    convert, expand, infer, table, Declaration, Field, SchemaError, Setting, Shape,
};

fn path(name: &str) -> Shape {
    Shape::Path {
        name: name.into(),
        bare: true,
        inner: None,
    }
}

fn of(name: &str, inner: Shape) -> Shape {
    Shape::Path {
        name: name.into(),
        bare: false,
        inner: Some(Box::new(inner)),
    }
}

fn set(name: &str, value: &str) -> Setting {
    Setting {
        name: name.into(),
        value: Some(value.into()),
    }
}

fn flag(name: &str) -> Setting {
    Setting {
        name: name.into(),
        value: None,
    }
}

fn field(name: &str, ty: Shape, settings: Vec<Setting>) -> Field {
    Field {
        name: name.into(),
        ty,
        settings,
    }
}

fn declaration(fields: Vec<Field>, settings: Vec<Setting>) -> Declaration {
    Declaration {
        generic: false,
        fields: Some(fields),
        settings,
    }
}

fn schema(declaration: &Declaration) -> QueryMapping {
    table(&expand(declaration).unwrap())
}

fn volume() -> QueryMapping {
    schema(&declaration(
        vec![
            field("id", path("i64"), vec![flag("key")]),
            field("title", path("String"), vec![]),
            field("read_count", path("i64"), vec![]),
            field("price", path("f64"), vec![]),
            field("archived", path("bool"), vec![]),
            field("cover", of("Vec", path("u8")), vec![]),
            field("published_at", of("DateTime", path("Utc")), vec![]),
            field("author", path("String"), vec![set("column", "author_name")]),
            field(
                "label",
                of("Option", path("String")),
                vec![set("rename", "tag"), set("column", "tag_label")],
            ),
            field("opaque", path("SomethingCustom"), vec![set("ty", "text")]),
            field("internal_note", path("String"), vec![flag("skip")]),
        ],
        vec![set("rename_all", "camelCase")],
    ))
}

fn plain() -> QueryMapping {
    schema(&declaration(
        vec![
            field("id", path("i64"), vec![flag("key")]),
            field("read_count", path("i64"), vec![]),
        ],
        vec![],
    ))
}

#[test]
fn rename_all_maps_fields_to_their_request_names() {
    let schema = volume();

    assert_eq!(schema.resolve(&["readCount"]).unwrap().name, "read_count");
    assert_eq!(
        schema.resolve(&["publishedAt"]).unwrap().name,
        "published_at"
    );
    assert!(schema.resolve(&["read_count"]).is_none());
}

#[test]
fn a_column_may_be_spelled_differently_from_its_field() {
    let schema = volume();

    assert_eq!(schema.resolve(&["author"]).unwrap().name, "author_name");
    assert_eq!(schema.resolve(&["tag"]).unwrap().name, "tag_label");
    assert!(schema.resolve(&["label"]).is_none());
}

#[test]
fn derive_only_key_marks_a_column_unique() {
    let schema = volume();

    assert!(schema.resolve(&["id"]).unwrap().unique);
    assert!(!schema.resolve(&["title"]).unwrap().unique);
}

#[test]
fn types_are_inferred_from_the_rust_type() {
    let schema = volume();

    assert_eq!(schema.resolve(&["id"]).unwrap().ty, ColumnType::Int);
    assert_eq!(schema.resolve(&["title"]).unwrap().ty, ColumnType::Text);
    assert_eq!(schema.resolve(&["price"]).unwrap().ty, ColumnType::Float);
    assert_eq!(schema.resolve(&["archived"]).unwrap().ty, ColumnType::Bool);
    assert_eq!(schema.resolve(&["cover"]).unwrap().ty, ColumnType::Bytes);
    assert_eq!(
        schema.resolve(&["publishedAt"]).unwrap().ty,
        ColumnType::Timestamp
    );
}

#[test]
fn option_unwraps_to_its_inner_type() {
    assert_eq!(volume().resolve(&["tag"]).unwrap().ty, ColumnType::Text);
}

#[test]
fn an_explicit_type_overrides_inference() {
    assert_eq!(volume().resolve(&["opaque"]).unwrap().ty, ColumnType::Text);
}

#[test]
fn a_skipped_field_is_not_exposed() {
    assert!(volume().resolve(&["internalNote"]).is_none());
    assert!(volume().resolve(&["internal_note"]).is_none());
}

#[test]
fn the_default_is_the_field_name_as_written() {
    assert_eq!(
        plain().resolve(&["read_count"]).unwrap().name,
        "read_count"
    );
    assert!(plain().resolve(&["readCount"]).is_none());
}

#[test]
fn a_name_is_written_large_after_each_underscore() {
    assert_eq!(convert("read_count", false), "readCount");
    assert_eq!(convert("read_count", true), "ReadCount");
    assert_eq!(convert("_a__b9_", false), "AB9");
    assert_eq!(convert("größe_ßa_ñu", true), "GrößeSSaÑu");
}

#[test]
fn what_cannot_be_told_is_not_guessed() {
    assert_eq!(infer(&of("Vec", path("String"))), None);
    assert_eq!(infer(&path("Vec")), None);
    assert_eq!(infer(&path("u64")), None);
    assert_eq!(infer(&Shape::Other), None);
    assert_eq!(
        infer(&Shape::Reference(Box::new(path("str")))),
        Some(ColumnType::Text)
    );
    let qualified = Shape::Path {
        name: "u8".into(),
        bare: false,
        inner: None,
    };
    assert_eq!(infer(&of("Vec", qualified)), None);
}

fn refused(fields: Vec<Field>, settings: Vec<Setting>) -> SchemaError {
    expand(&declaration(fields, settings)).unwrap_err()
}

#[test]
fn what_a_declaration_cannot_say_is_refused() {
    let generic = Declaration {
        generic: true,
        fields: None,
        settings: vec![],
    };
    assert_eq!(expand(&generic).unwrap_err(), SchemaError::Generic);
    let unit = Declaration {
        generic: false,
        fields: None,
        settings: vec![],
    };
    let error = expand(&unit).unwrap_err();
    assert_eq!(error, SchemaError::NotAStruct);
    assert_eq!(
        error.message(),
        "`Schema` can only be derived for a struct with named fields"
    );
    assert_eq!(
        refused(vec![], vec![set("rename", "x")]),
        SchemaError::StructOption
    );
    let error = refused(vec![], vec![set("rename_all", "kebab-case")]);
    assert_eq!(
        error.message(),
        "`kebab-case` is not a case: expected `camelCase`, `PascalCase` or `snake_case`"
    );
    assert_eq!(
        refused(vec![], vec![flag("rename_all")]),
        SchemaError::Malformed("rename_all".into())
    );
    let with = |setting: Setting| refused(vec![field("a", path("i64"), vec![setting])], vec![]);
    assert_eq!(with(flag("unique")), SchemaError::FieldOption);
    assert_eq!(with(set("key", "x")), SchemaError::Malformed("key".into()));
    assert_eq!(with(flag("ty")), SchemaError::Malformed("ty".into()));
    assert_eq!(with(set("ty", "uuid")), SchemaError::Type("uuid".into()));
    assert_eq!(
        refused(vec![field("a", path("Other"), vec![])], vec![]),
        SchemaError::Untold("a".into())
    );
}

use sqlx_query::driver::{MySql, Postgres};
use sqlx_query::template::builder::{Argument, QueryBuilder, SlotBuilder};
use sqlx_query::template::dialect::Dialect;
use sqlx_query::template::error::Error;
use sqlx_query::template::fragment::QueryFragment;
use sqlx_query::template::query::QueryTemplate;
use sqlx_query::template::value::Value;

type Template = QueryTemplate<Postgres>;

fn slots_of(sql: &str) -> Vec<(String, String, bool)> {
    Template::parse(sql)
        .unwrap()
        .parts()
        .1
        .iter()
        .map(|slot| (slot.name.to_owned(), slot.joiner.to_owned(), slot.before))
        .collect()
}

#[test]
fn a_joiner_may_lead_or_trail_or_be_absent() {
    assert_eq!(
        slots_of("a /* AND query.filter */ b /* query.order , */ c /* query.bare */"),
        [
            ("filter".into(), "AND".into(), true),
            ("order".into(), ",".into(), false),
            ("bare".into(), String::new(), false),
        ]
    );
}

#[test]
fn the_skeleton_drops_sentinels_and_keeps_ordinary_comments() {
    let template = Template::parse(
        "SELECT id FROM t /* a note */ WHERE x = $1 /* AND query.filter */ ORDER BY id",
    )
    .unwrap();

    assert_eq!(
        template.skeleton(),
        "SELECT id FROM t /* a note */ WHERE x = $1  ORDER BY id"
    );
}

#[test]
fn a_sentinel_inside_a_literal_is_just_text() {
    for sql in [
        "SELECT '/* AND query.filter */' FROM t",
        "SELECT \"/* AND query.filter */\" FROM t",
        "SELECT $$/* AND query.filter */$$ FROM t",
        "SELECT $tag$/* AND query.filter */$tag$ FROM t",
        "SELECT 1 -- /* AND query.filter */",
    ] {
        assert_eq!(slots_of(sql), [], "found a slot in {sql}");
    }
}

#[test]
fn placeholders_are_not_dollar_quotes() {
    let sql = "SELECT $1, $2 FROM t WHERE x = $3 /* AND query.filter */";
    assert_eq!(slots_of(sql).len(), 1);
}

#[test]
fn doubled_quotes_escape_and_do_not_end_a_literal() {
    assert_eq!(
        slots_of("SELECT 'it''s /* query.a */' /* query.b */").len(),
        1
    );
    assert_eq!(
        slots_of(r#"SELECT "it""s /* query.a */" /* query.b */"#).len(),
        1
    );
}

#[test]
fn backslash_escapes_only_inside_an_e_literal() {
    assert_eq!(slots_of(r"SELECT E'\' /* query.a */' FROM t"), []);
}

#[test]
fn block_comments_nest() {
    assert_eq!(
        slots_of("SELECT 1 /* outer /* query.a */ still outer */"),
        []
    );
}

#[test]
fn a_comment_without_the_marker_is_left_alone() {
    assert_eq!(
        slots_of("SELECT 1 /* just a note about query design */"),
        []
    );
}

#[test]
fn a_duplicate_slot_is_rejected() {
    let error = Template::parse("a /* query.x */ b /* query.x */").unwrap_err();
    assert!(error.message().contains("more than once"), "{error:?}");
}

#[test]
fn an_ambiguous_comment_is_prose_not_an_error() {
    for sql in [
        "a /* see query.rs for the parser */",
        "a /* AND query.filter , */",
        "a /* query.x query.y */",
        "a /* query.not-an-ident */",
    ] {
        let template = Template::parse(sql).unwrap_or_else(|e| panic!("{sql}: {e:?}"));
        assert_eq!(template.slots().len(), 0, "found a slot in {sql}");
        assert_eq!(template.skeleton(), sql, "rewrote {sql}");
    }
}

#[test]
fn unterminated_constructs_are_rejected() {
    for sql in [
        "SELECT 'oops",
        "SELECT \"oops",
        "SELECT $tag$oops",
        "SELECT 1 /* oops",
    ] {
        assert!(Template::parse(sql).is_err(), "accepted {sql}");
    }
}

#[test]
fn slots_are_listed_in_order() {
    let template = Template::parse("a /* AND query.filter */ b /* query.order */").unwrap();
    assert_eq!(template.slots(), ["filter", "order"]);
}

#[test]
fn an_offset_counts_bytes() {
    let error = Template::parse("é 'oops").unwrap_err();
    assert!(matches!(error, Error::Template { offset: 3, .. }), "{error:?}");
}

// The builder.

const SKELETON: &str = "SELECT id FROM t WHERE tenant = $1 /* AND query.filter */ \
                        /* ORDER BY query.order */ LIMIT $2";

fn fragment<DB>(sql: &str, value: i64) -> QueryFragment<DB, Value> {
    let mut fragment = QueryFragment::new();
    fragment.push(sql).push_bind(Value::Int(value));
    fragment
}

fn text<DB>(sql: &str) -> QueryFragment<DB, Value> {
    let mut fragment = QueryFragment::new();
    fragment.push(sql);
    fragment
}

fn build_error<DB: Dialect>(builder: QueryBuilder<'_, DB>) -> Error {
    match builder.finish() {
        Err(error) => error,
        Ok(_) => panic!("expected the build to fail"),
    }
}

#[test]
fn numbering_follows_bind_order_not_text_order() {
    let template = QueryTemplate::<Postgres>::parse(SKELETON).unwrap();

    let sql = template
        .builder()
        .bind(Value::Int(7))
        .bind(Value::Int(50))
        .fill("filter", &fragment("reads > ", 100))
        .fill("filter", &fragment("id > ", 4711))
        .fill("order", &text("title ASC"))
        .sql();

    assert_eq!(
        sql,
        "SELECT id FROM t WHERE tenant = $1 AND reads > $3 AND id > $4 \
         ORDER BY title ASC LIMIT $2"
    );
}

#[test]
fn an_empty_fragment_takes_its_joiner_with_it() {
    let template = QueryTemplate::<Postgres>::parse(SKELETON).unwrap();

    let sql = template
        .builder()
        .bind(Value::Int(7))
        .bind(Value::Int(50))
        .fill("filter", &QueryFragment::<Postgres, Value>::new())
        .fill("order", &text("id ASC"))
        .sql();

    assert_eq!(
        sql,
        "SELECT id FROM t WHERE tenant = $1  ORDER BY id ASC LIMIT $2"
    );
}

#[test]
fn a_trailing_joiner_follows_each_fragment() {
    let template =
        QueryTemplate::<Postgres>::parse("SELECT 1 ORDER BY /* query.order , */ id").unwrap();

    let sql = template.builder().fill("order", &text("title DESC")).sql();

    assert_eq!(sql, "SELECT 1 ORDER BY title DESC , id");
}

#[test]
fn a_hand_built_slot_continues_the_numbering() {
    let template = QueryTemplate::<Postgres>::parse(SKELETON).unwrap();

    let mut slot = SlotBuilder::<Postgres>::new();
    slot.push("reads BETWEEN ")
        .push_bind(Value::Int(1))
        .push(" AND ")
        .push_bind(Value::Int(9));
    let sql = template
        .builder()
        .bind(Value::Int(7))
        .bind(Value::Int(50))
        .slot("filter", &slot)
        .sql();

    assert!(sql.contains("AND reads BETWEEN $3 AND $4"), "{sql}");
}

#[test]
fn an_unknown_slot_names_the_ones_that_exist() {
    let template = QueryTemplate::<Postgres>::parse(SKELETON).unwrap();

    let error = build_error(template.builder().fill("predicate", &text("x")));

    let message = error.message();
    assert!(message.contains("`predicate`"), "{message}");
    assert!(message.contains("`filter`"), "{message}");
    assert!(message.contains("`order`"), "{message}");
}

#[test]
fn a_positional_driver_refuses_a_bind_after_a_fill() {
    let template = QueryTemplate::<MySql>::parse(SKELETON).unwrap();

    let error = build_error(
        template
            .builder()
            .fill("filter", &text("reads > 1"))
            .bind(Value::Int(7)),
    );

    assert!(matches!(error, Error::Positional(_)), "{error:?}");
}

#[test]
fn a_positional_driver_refuses_slots_filled_out_of_order() {
    let template = QueryTemplate::<MySql>::parse(SKELETON).unwrap();

    let error = build_error(
        template
            .builder()
            .fill("order", &text("id ASC"))
            .fill("filter", &text("reads > 1")),
    );

    assert!(matches!(error, Error::Positional(_)), "{error:?}");
}

#[test]
fn a_positional_driver_refuses_a_placeholder_after_a_slot() {
    let template =
        QueryTemplate::<MySql>::parse("SELECT 1 /* AND query.filter */ LIMIT ?").unwrap();

    let error = build_error(
        template
            .builder()
            .bind(Value::Int(50))
            .fill("filter", &text("reads > 1")),
    );

    assert!(matches!(error, Error::Positional(_)), "{error:?}");
    assert!(error.message().contains("after a slot"), "{error:?}");
}

#[test]
fn a_late_placeholder_is_fine_while_the_slot_stays_empty() {
    let template =
        QueryTemplate::<MySql>::parse("SELECT 1 /* AND query.filter */ LIMIT ?").unwrap();

    assert_eq!(
        template.builder().bind(Value::Int(50)).sql(),
        "SELECT 1  LIMIT ?"
    );
}

#[test]
fn a_numbered_driver_allows_a_placeholder_after_a_slot() {
    let template =
        QueryTemplate::<Postgres>::parse("SELECT 1 /* AND query.filter */ LIMIT $1").unwrap();

    let sql = template
        .builder()
        .bind(Value::Int(50))
        .fill("filter", &fragment("reads > ", 1))
        .sql();

    assert_eq!(sql, "SELECT 1 AND reads > $2 LIMIT $1");
}

#[test]
fn a_question_mark_in_a_literal_is_not_a_placeholder() {
    let template =
        QueryTemplate::<MySql>::parse("SELECT 1 /* AND query.filter */ AND x = \'?\'").unwrap();

    let sql = template.builder().fill("filter", &text("reads > 1")).sql();

    assert_eq!(sql, "SELECT 1 AND reads > 1 AND x = \'?\'");
}

#[test]
fn a_numbered_driver_allows_slots_filled_out_of_order() {
    let template = QueryTemplate::<Postgres>::parse(SKELETON).unwrap();

    let sql = template
        .builder()
        .fill("order", &text("id ASC"))
        .fill("filter", &fragment("reads > ", 1))
        .bind(Value::Int(7))
        .sql();

    assert!(sql.contains("AND reads > $1"), "{sql}");
    assert!(sql.contains("ORDER BY id ASC"), "{sql}");
}

#[test]
fn what_is_bound_keeps_its_order() {
    let template = QueryTemplate::<Postgres>::parse(SKELETON).unwrap();
    let (_, arguments) = template
        .builder()
        .bind(Value::Int(7))
        .bind_opaque(3)
        .fill("filter", &fragment("reads > ", 100))
        .finish()
        .unwrap();
    assert_eq!(
        arguments,
        [
            Argument::Value(Value::Int(7)),
            Argument::Opaque(3),
            Argument::Value(Value::Int(100)),
        ]
    );
}

#[test]
fn the_first_failure_is_kept() {
    let template = QueryTemplate::<Postgres>::parse(SKELETON).unwrap();
    let error = build_error(
        template
            .builder()
            .fill_with("filter", Err(Error::Sort("first".into())))
            .fill("nowhere", &text("x")),
    );
    assert_eq!(error, Error::Sort("first".into()));
}

// Templates that are checked ahead of time.

const VOLUMES: &str = "SELECT id, title FROM volumes \
                       WHERE tenant_id = $1 \
                       /* AND query.filter */ \
                       /* ORDER BY query.order */";

#[test]
fn a_static_template_declares_its_slots() {
    let volumes = Template::parse(VOLUMES).unwrap();
    assert_eq!(volumes.slots(), ["filter", "order"]);
}

#[test]
fn the_skeleton_is_the_statement_without_its_sentinels() {
    let volumes = Template::parse(VOLUMES).unwrap();
    assert_eq!(
        volumes.skeleton(),
        "SELECT id, title FROM volumes WHERE tenant_id = $1  "
    );
}

#[test]
fn a_compiled_template_splices_like_a_parsed_one() {
    let mut predicate = QueryFragment::<Postgres, Value>::new();
    predicate.push("read_count > ").push_bind(Value::Int(100));

    let mut order = QueryFragment::<Postgres, Value>::new();
    order.push("\"title\" DESC");

    let volumes = Template::parse(VOLUMES).unwrap();
    let sql = volumes
        .builder()
        .bind(Value::Int(7))
        .fill("filter", &predicate)
        .fill("order", &order)
        .sql();

    assert_eq!(
        sql,
        "SELECT id, title FROM volumes WHERE tenant_id = $1 \
         AND read_count > $2 ORDER BY \"title\" DESC"
    );
}

#[test]
fn the_macro_and_parse_produce_the_same_template() {
    let scanned = sqlx_query::template::scan::scan(VOLUMES).unwrap();
    let parsed = Template::parse(VOLUMES).unwrap();

    assert_eq!(parsed.skeleton(), scanned.sql);
    assert_eq!(
        parsed.slots(),
        scanned.slots.iter().map(|slot| slot.name.as_str()).collect::<Vec<_>>()
    );
}

#[test]
fn a_hand_built_slot_binds_what_only_the_caller_knows() {
    let template = QueryTemplate::<Postgres>::parse(SKELETON).unwrap();

    let mut slot = SlotBuilder::<Postgres>::new();
    assert!(slot.is_empty());
    slot.push("reads BETWEEN ").push_opaque(4).push(" AND ").push_bind(Value::Int(9));
    assert!(!slot.is_empty());
    let (sql, arguments) = template
        .builder()
        .bind(Value::Int(7))
        .bind_opaque(0)
        .slot("filter", &slot)
        .finish()
        .unwrap();

    assert_eq!(
        sql,
        "SELECT id FROM t WHERE tenant = $1 AND reads BETWEEN $3 AND $4  LIMIT $2"
    );
    assert_eq!(
        arguments,
        [
            Argument::Value(Value::Int(7)),
            Argument::Opaque(0),
            Argument::Opaque(4),
            Argument::Value(Value::Int(9)),
        ]
    );
}

#[test]
fn a_value_that_cannot_be_encoded_is_reported_behind_the_order() {
    let encode = || Error::Encode("too long".into());
    let template =
        QueryTemplate::<MySql>::parse("SELECT ? FROM t /* WHERE query.filter */").unwrap();

    let early = build_error(template.builder().bind_with(Err(encode())));
    assert_eq!(early, encode());

    let filled = template.builder().bind_with(Ok(0)).fill("filter", &text("x"));
    let late = build_error(filled.bind_with(Err(encode())));
    assert!(matches!(late, Error::Positional(_)), "{late:?}");

    let (sql, arguments) = template.builder().bind_with(Ok(3)).finish().unwrap();
    assert_eq!(sql, "SELECT ? FROM t ");
    assert_eq!(arguments, [Argument::Opaque(3)]);
}

#[test]
fn a_copied_fragment_spells_the_same() {
    let mut original = fragment::<Postgres>("reads > ", 100);
    let copy = original.clone();
    original.push(" OR ").push_bind(Value::Int(1));
    assert_eq!(copy.preview(), "reads > ?");
    assert_eq!(copy.values(), [Value::Int(100)]);
    assert_eq!(original.preview(), "reads > ? OR ?");
}

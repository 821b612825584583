//! Tests for the query-building vocabulary and the connection settings.

use tusk_rs::config::DatabaseConfig;
use tusk_rs::query::{
    IntoSyntax, PostgresField, PostgresFieldLocation, PostgresJoin,
};

static ORG_JOIN: PostgresJoin = PostgresJoin {
    join_name: "org_join",
    join_type: "INNER JOIN",
    table: "organizations",
    local_field: "organization_id",
    condition: "=",
    foreign_field: "id",
};

static NAME_FIELD: PostgresField = PostgresField {
    alias: "organization_name",
    location: PostgresFieldLocation::Join("org_join", "name"),
};

static USERNAME_FIELD: PostgresField = PostgresField {
    alias: "username",
    location: PostgresFieldLocation::Local("username"),
};

static COUNT_FIELD: PostgresField = PostgresField {
    alias: "n",
    location: PostgresFieldLocation::Expression("count({}.id)"),
};

static FIELD_LIST: [&'static PostgresField; 2] = [&USERNAME_FIELD, &NAME_FIELD];

static JOIN_LIST: [&'static PostgresJoin; 1] = [&ORG_JOIN];

#[test]
fn join_renders_read_and_write_syntax() {
    assert_eq!(
        ORG_JOIN.to_read("users"),
        "INNER JOIN organizations org_join ON users.organization_id = org_join.id"
    );
    assert_eq!(
        ORG_JOIN.to_write("users"),
        "FROM organizations users WHERE org_join.organization_id = org_join.id"
    );
}

#[test]
fn fields_render_each_location_kind() {
    assert_eq!(USERNAME_FIELD.into_syntax("users"), "users.username AS username");
    assert_eq!(NAME_FIELD.into_syntax("users"), "org_join.name AS organization_name");
    assert_eq!(COUNT_FIELD.into_syntax("users"), "count(users.id) AS n");
}

#[test]
fn field_lists_join_with_commas() {
    let fields: &'static [&'static PostgresField] = &FIELD_LIST;
    assert_eq!(
        fields.as_syntax("users"),
        "users.username AS username,org_join.name AS organization_name"
    );
}

#[test]
fn join_lists_join_with_spaces() {
    let joins: &'static [&'static PostgresJoin] = &JOIN_LIST;
    assert_eq!(
        joins.as_syntax("users"),
        "INNER JOIN organizations org_join ON users.organization_id = org_join.id"
    );
}

#[test]
fn config_defaults_and_chaining() {
    let c = DatabaseConfig::new();
    assert_eq!(c.host, "localhost");
    assert_eq!(c.port, 5432);
    assert_eq!(c.username, "postgres");
    assert_eq!(c.password, "");
    assert_eq!(c.database, "postgres");
    assert!(!c.ssl);
    assert!(!c.debug);
    let c2 = DatabaseConfig::new()
        .host("db.example")
        .username("svc")
        .password("secret")
        .database("app")
        .port(6000)
        .ssl(true)
        .debug(true);
    assert_eq!(c2.host, "db.example");
    assert_eq!(c2.username, "svc");
    assert_eq!(c2.password, "secret");
    assert_eq!(c2.database, "app");
    assert_eq!(c2.port, 6000);
    assert!(c2.ssl);
    assert!(c2.debug);
}

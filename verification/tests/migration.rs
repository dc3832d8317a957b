use movine::errors::Error;
use movine::match_maker::sort_by_name;
use movine::migration::{
    hash_of_up_sql, name_has_timestamp_prefix, to_hex, Migration, MigrationBuilder, Timestamp,
};

/// The content hash is the SHA-256 digest of the up SQL, hex encoded.
#[test]
fn test_hash_known_values() {
    assert_eq!(
        hash_of_up_sql(""),
        "e3b0c44298fc1c149afbf4c8996fb92427ae41e4649b934ca495991b7852b855"
    );
    assert_eq!(
        hash_of_up_sql("CREATE TABLE t (id INTEGER);"),
        "3a87be158f3115dd426d34c8f1f3c52fa537d85fe413db831c486d1bb07dc290"
    );
}

/// Hex encoding writes two lower-case digits per byte.
#[test]
fn test_to_hex() {
    let empty: Vec<u8> = vec![];
    assert_eq!(to_hex(&empty), "");
    assert_eq!(to_hex(&vec![0x00, 0x0f, 0xa5, 0xff]), "000fa5ff");
}

/// The builder prepends the timestamp prefix when a date is given.
#[test]
fn test_builder_prepends_timestamp() {
    let m = MigrationBuilder::new()
        .name("create_users")
        .date(Timestamp {
            year: 2019,
            month: 3,
            day: 7,
            hour: 12,
            minute: 5,
            second: 9,
        })
        .up_sql("CREATE TABLE users;")
        .down_sql("DROP TABLE users;")
        .build()
        .unwrap();
    assert_eq!(m.name, "2019-03-07-120509_create_users");
    assert_eq!(m.up_sql.as_deref(), Some("CREATE TABLE users;"));
    assert_eq!(m.down_sql.as_deref(), Some("DROP TABLE users;"));
    assert!(m.hash.is_some());
}

/// A name that already carries a timestamp prefix is kept as it is.
#[test]
fn test_builder_keeps_existing_prefix() {
    let m = MigrationBuilder::new()
        .name("2020-01-01-000000_init")
        .date(Timestamp::epoch())
        .build()
        .unwrap();
    assert_eq!(m.name, "2020-01-01-000000_init");
    assert!(m.up_sql.is_none());
    assert!(m.hash.is_none());
}

/// The bootstrap date sorts before every generated migration.
#[test]
fn test_builder_epoch_prefix() {
    let m = MigrationBuilder::new()
        .name("movine_init")
        .date(Timestamp::epoch())
        .up_sql("CREATE TABLE movine_migrations;")
        .build()
        .unwrap();
    assert_eq!(m.name, "1970-01-01-000000_movine_init");
}

/// Empty and whitespace-only names are rejected.
#[test]
fn test_builder_rejects_blank_names() {
    let r = MigrationBuilder::new().build();
    assert!(matches!(r.err().unwrap(), Error::BadMigrationName));
    let r = MigrationBuilder::new().name("").build();
    assert!(matches!(r.err().unwrap(), Error::BadMigrationName));
    let r = MigrationBuilder::new().name(" \t\n ").build();
    assert!(matches!(r.err().unwrap(), Error::BadMigrationName));
}

/// Without a date the name is used as given.
#[test]
fn test_builder_no_date() {
    let m = MigrationBuilder::new().name("plain_name").build().unwrap();
    assert_eq!(m.name, "plain_name");
}

/// The timestamp prefix test asks for the full shape.
#[test]
fn test_timestamp_prefix_detection() {
    assert!(name_has_timestamp_prefix("2019-03-07-120509_x"));
    assert!(!name_has_timestamp_prefix("2019-03-07-120509"));
    assert!(!name_has_timestamp_prefix("create_users"));
    assert!(!name_has_timestamp_prefix("2019-3-07-120509_xx"));
    assert!(!name_has_timestamp_prefix(""));
}

/// Sorting orders the records ascending by name and keeps them all.
#[test]
fn test_sort_by_name() {
    let mk = |name: &str| Migration {
        name: name.to_string(),
        up_sql: None,
        down_sql: None,
        hash: None,
    };
    let sorted = sort_by_name(vec![mk("c"), mk("a"), mk("b"), mk("a")]);
    let names: Vec<&str> = sorted.iter().map(|m| m.name.as_str()).collect();
    assert_eq!(names, vec!["a", "a", "b", "c"]);
    let empty = sort_by_name(Vec::new());
    assert!(empty.is_empty());
}

use movine::errors::Error;
use movine::match_maker::Matching;
use movine::migration::Migration;
use movine::plan_builder::{Dir, PlanBuilder, Step};

fn migration_new(name: &str) -> Migration {
    Migration {
        name: name.to_string(),
        up_sql: None,
        down_sql: Some("test".to_owned()),
        hash: None,
    }
}

fn migration_new_with_hash(name: &str, hash: &str) -> Migration {
    Migration {
        name: name.to_string(),
        up_sql: None,
        down_sql: None,
        hash: Some(hash.to_string()),
    }
}

/// Up should run pending migrations in-order.
#[test]
fn test_up_1() {
    let local = vec![migration_new("test_1"), migration_new("test_2")];
    let db = vec![];
    let plan = PlanBuilder::new()
        .local_migrations(local.clone())
        .db_migrations(db)
        .build()
        .unwrap()
        .up()
        .unwrap();
    assert_eq!(
        plan.0,
        vec![
            Step(Dir::Up, local[0].clone()),
            Step(Dir::Up, local[1].clone()),
        ]
    )
}

/// Up should run pending migrations even if divergent migrations exist.
#[test]
fn test_up_2() {
    let local = vec![migration_new("test"), migration_new("test_2")];
    let db = vec![migration_new("test"), migration_new("test_3")];
    let plan = PlanBuilder::new()
        .local_migrations(local.clone())
        .db_migrations(db)
        .build()
        .unwrap()
        .up()
        .unwrap();
    assert_eq!(plan.0, vec![Step(Dir::Up, local[1].clone())])
}

/// Up should error with --strict if migrations are out-of-order.
#[test]
fn test_up_3() {
    let local = vec![migration_new("test"), migration_new("test_2")];
    let db = vec![migration_new("test"), migration_new("test_3")];
    let plan = PlanBuilder::new()
        .local_migrations(local)
        .db_migrations(db)
        .set_strict(true)
        .build()
        .unwrap()
        .up();
    assert!(plan.is_err());
    let is_correct_error = matches!(plan.err().unwrap(), Error::DirtyMigrations);
    assert!(is_correct_error);
}

/// Down should rollback the most recent migration (divergent included by default)
#[test]
fn test_down_1() {
    let local = vec![migration_new("test"), migration_new("test_2")];
    let db = vec![migration_new("test"), migration_new("test_3")];
    let plan = PlanBuilder::new()
        .local_migrations(local)
        .db_migrations(db.clone())
        .build()
        .unwrap()
        .down()
        .unwrap();
    assert_eq!(plan.0, vec![Step(Dir::Down, db[1].clone())])
}

/// Down should rollback the most recent migration (ignoring divergent)
#[test]
fn test_down_2() {
    let local = vec![migration_new("test"), migration_new("test_2")];
    let db = vec![migration_new("test"), migration_new("test_3")];
    let plan = PlanBuilder::new()
        .local_migrations(local.clone())
        .db_migrations(db)
        .set_ignore_divergent(true)
        .build()
        .unwrap()
        .down()
        .unwrap();
    assert_eq!(plan.0, vec![Step(Dir::Down, local[0].clone())])
}

/// Fix should rollback all variant and divergent migrations, and then run pending migrations.
#[test]
fn test_fix_1() {
    let local = vec![
        migration_new("test_0"),
        migration_new("test_1"),
        migration_new("test_2"),
    ];
    let db = vec![
        migration_new("test_0"),
        migration_new_with_hash("test_1", "hash"),
        migration_new_with_hash("test_2", "hash"),
        migration_new("test_3"),
    ];
    let plan = PlanBuilder::new()
        .local_migrations(local.clone())
        .db_migrations(db.clone())
        .build()
        .unwrap()
        .fix()
        .unwrap();
    assert_eq!(
        plan.0,
        vec![
            Step(Dir::Down, db[3].clone()),
            Step(Dir::Down, local[2].clone()),
            Step(Dir::Down, local[1].clone()),
            Step(Dir::Up, local[1].clone()),
            Step(Dir::Up, local[2].clone()),
        ]
    )
}

/// Fix should rollback applied migrations if they are ahead of variant migrations.
#[test]
fn test_fix_2() {
    let local = vec![
        migration_new("test"),
        migration_new("test_1"),
        migration_new("test_2"),
    ];
    let db = vec![
        migration_new("test"),
        migration_new_with_hash("test_1", "hash"),
        migration_new("test_2"),
    ];
    let plan = PlanBuilder::new()
        .local_migrations(local.clone())
        .db_migrations(db)
        .build()
        .unwrap()
        .fix()
        .unwrap();
    assert_eq!(
        plan.0,
        vec![
            Step(Dir::Down, local[2].clone()),
            Step(Dir::Down, local[1].clone()),
            Step(Dir::Up, local[1].clone()),
            Step(Dir::Up, local[2].clone()),
        ]
    )
}

/// Fix should rollback everything to a fully applied state and then roll back up, regardless
/// of applied/variant/diverget migration orders.
#[test]
fn test_fix_3() {
    let local = vec![
        migration_new("test_0"),
        migration_new("test_1"),
        migration_new("test_2"),
        migration_new("test_3"),
        migration_new("test_4"),
    ];
    let db = vec![
        migration_new("test_0"),
        migration_new_with_hash("test_1", "hash"),
        migration_new("test_2"),
        migration_new("test_3b"),
        migration_new("test_4"),
    ];
    let actual = PlanBuilder::new()
        .local_migrations(local.clone())
        .db_migrations(db.clone())
        .build()
        .unwrap()
        .fix()
        .unwrap();
    let expected = vec![
        Step(Dir::Down, local[4].clone()),
        Step(Dir::Down, db[3].clone()),
        Step(Dir::Down, local[2].clone()),
        Step(Dir::Down, local[1].clone()),
        Step(Dir::Up, local[1].clone()),
        Step(Dir::Up, local[2].clone()),
        Step(Dir::Up, local[3].clone()),
        Step(Dir::Up, local[4].clone()),
    ];
    assert_eq!(actual.0, expected)
}

/// Fix should run pending migrations without problems.
#[test]
fn test_fix_4() {
    let local = vec![migration_new("test_0"), migration_new("test_1")];
    let db = vec![migration_new("test_0")];
    let actual = PlanBuilder::new()
        .local_migrations(local.clone())
        .db_migrations(db)
        .build()
        .unwrap()
        .fix()
        .unwrap();
    let expected = vec![Step(Dir::Up, local[1].clone())];
    assert_eq!(actual.0, expected)
}

/// Redo should fail if there is a divergent migration (and we are not ignoring them)
#[test]
fn test_redo_1() {
    let local = vec![migration_new("test"), migration_new("test_2")];
    let db = vec![
        migration_new("test"),
        migration_new_with_hash("test_2", "hash_1"),
        migration_new("test_3"),
    ];
    let plan = PlanBuilder::new()
        .local_migrations(local)
        .db_migrations(db)
        .count(Some(2))
        .build()
        .unwrap()
        .redo();
    assert!(plan.is_err());
    let is_correct_err = matches!(plan.err().unwrap(), Error::DivergentMigration);
    assert!(is_correct_err);
}

/// Redo should properly ignore divergent migrations
#[test]
fn test_redo_2() {
    let local = vec![
        migration_new("test_0"),
        migration_new("test_1"),
        migration_new("test_2"),
    ];
    let db = vec![
        migration_new("test_0"),
        migration_new("test_1"),
        migration_new("test_2"),
        migration_new("test_3"),
    ];
    let plan = PlanBuilder::new()
        .local_migrations(local.clone())
        .db_migrations(db)
        .count(Some(2))
        .set_ignore_divergent(true)
        .build()
        .unwrap()
        .redo()
        .unwrap();
    assert_eq!(
        plan.0,
        vec![
            Step(Dir::Down, local[2].clone()),
            Step(Dir::Down, local[1].clone()),
            Step(Dir::Up, local[1].clone()),
            Step(Dir::Up, local[2].clone()),
        ]
    )
}

/// Redo should not care about variant migrations further than what we are redo'ing
#[test]
fn test_redo_3() {
    let local = vec![
        migration_new("test_0"),
        migration_new("test_1"),
        migration_new("test_2"),
    ];
    let db = vec![
        migration_new("test_0"),
        migration_new_with_hash("test_1", "hash_1"),
        migration_new("test_2"),
    ];
    let plan = PlanBuilder::new()
        .local_migrations(local.clone())
        .db_migrations(db)
        .count(Some(1))
        .build()
        .unwrap()
        .redo()
        .unwrap();
    assert_eq!(
        plan.0,
        vec![
            Step(Dir::Down, local[2].clone()),
            Step(Dir::Up, local[2].clone()),
        ]
    )
}

/// Redo should properly rollback variant migrations
#[test]
fn test_redo_4() {
    let local = vec![
        migration_new("test_0"),
        migration_new("test_1"),
        migration_new("test_2"),
    ];
    let db = vec![
        migration_new("test_0"),
        migration_new_with_hash("test_1", "hash_1"),
        migration_new("test_2"),
    ];
    let plan = PlanBuilder::new()
        .local_migrations(local.clone())
        .db_migrations(db)
        .count(Some(2))
        .build()
        .unwrap()
        .redo()
        .unwrap();
    assert_eq!(
        plan.0,
        vec![
            Step(Dir::Down, local[2].clone()),
            Step(Dir::Down, local[1].clone()),
            Step(Dir::Up, local[1].clone()),
            Step(Dir::Up, local[2].clone()),
        ]
    )
}

/// Building without both migration lists is refused.
#[test]
fn test_build_requires_both_lists() {
    let result = PlanBuilder::new()
        .local_migrations(vec![migration_new("test")])
        .build();
    assert!(matches!(result.err().unwrap(), Error::Unknown));
    let result = PlanBuilder::new().db_migrations(vec![]).build();
    assert!(matches!(result.err().unwrap(), Error::Unknown));
}

/// Down on an irreversible applied migration fails unless ignored.
#[test]
fn test_down_unrollbackable() {
    // the applied record stores no down SQL, and an applied matching
    // offers no local fallback
    let local = vec![Migration {
        name: "test_1".to_string(),
        up_sql: None,
        down_sql: None,
        hash: None,
    }];
    let db = local.clone();
    let plan = PlanBuilder::new()
        .local_migrations(local.clone())
        .db_migrations(db.clone())
        .build()
        .unwrap()
        .down();
    assert!(matches!(
        plan.err().unwrap(),
        Error::UnrollbackableMigration
    ));
    // with --ignore-unreversable the irreversible migration is skipped
    let plan = PlanBuilder::new()
        .local_migrations(local)
        .db_migrations(db)
        .set_ignore_unreversable(true)
        .build()
        .unwrap()
        .down()
        .unwrap();
    assert_eq!(plan.0, vec![]);
}

/// Status hands the matchings back for display.
#[test]
fn test_status_reports_matches() {
    let local = vec![migration_new("test_1"), migration_new("test_2")];
    let db = vec![migration_new("test_1"), migration_new("test_3")];
    let status = PlanBuilder::new()
        .local_migrations(local.clone())
        .db_migrations(db.clone())
        .build()
        .unwrap()
        .status()
        .unwrap();
    assert_eq!(
        status,
        vec![
            Matching::Applied(db[0].clone()),
            Matching::Pending(local[1].clone()),
            Matching::Divergent(db[1].clone()),
        ]
    );
}

/// The introspection queries see divergent and variant matchings.
#[test]
fn test_safe_to_migrate() {
    let local = vec![migration_new("test_1"), migration_new("test_2")];
    let db = vec![migration_new("test_1"), migration_new("test_2")];
    let builder = PlanBuilder::new()
        .local_migrations(local.clone())
        .db_migrations(db)
        .build()
        .unwrap();
    assert!(!builder.any_divergent());
    assert!(!builder.any_variant());
    assert!(builder.safe_to_migrate());

    let db = vec![
        migration_new_with_hash("test_1", "a"),
        migration_new("test_3"),
    ];
    let local_hashed = vec![
        Migration {
            name: "test_1".to_string(),
            up_sql: None,
            down_sql: None,
            hash: Some("b".to_string()),
        },
        migration_new("test_2"),
    ];
    let builder = PlanBuilder::new()
        .local_migrations(local_hashed)
        .db_migrations(db)
        .build()
        .unwrap();
    assert!(builder.any_divergent());
    assert!(builder.any_variant());
    assert!(!builder.safe_to_migrate());
}

/// Up stops appending once the count is reached.
#[test]
fn test_up_count() {
    let local = vec![
        migration_new("test_1"),
        migration_new("test_2"),
        migration_new("test_3"),
    ];
    let db = vec![];
    let plan = PlanBuilder::new()
        .local_migrations(local.clone())
        .db_migrations(db)
        .count(Some(2))
        .build()
        .unwrap()
        .up()
        .unwrap();
    assert_eq!(
        plan.0,
        vec![
            Step(Dir::Up, local[0].clone()),
            Step(Dir::Up, local[1].clone()),
        ]
    )
}

/// Without a count, down and redo take exactly one step back.
#[test]
fn test_redo_default_one() {
    let reversible = |name: &str| Migration {
        name: name.to_string(),
        up_sql: Some("up".to_owned()),
        down_sql: Some("down".to_owned()),
        hash: None,
    };
    let local = vec![reversible("a"), reversible("b")];
    let plan = PlanBuilder::new()
        .local_migrations(local.clone())
        .db_migrations(local.clone())
        .build()
        .unwrap()
        .redo()
        .unwrap();
    assert_eq!(
        plan.0,
        vec![
            Step(Dir::Down, local[1].clone()),
            Step(Dir::Up, local[1].clone()),
        ]
    )
}

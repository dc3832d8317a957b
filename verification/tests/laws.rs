use movine::migration::Migration;
use movine::plan_builder::{Dir, PlanBuilder, Step};

fn reversible(name: &str) -> Migration {
    Migration {
        name: name.to_string(),
        up_sql: Some("up".to_owned()),
        down_sql: Some("down".to_owned()),
        hash: None,
    }
}

/// Determinism on concrete values: the same inputs plan the same steps,
/// run after run.
#[test]
fn test_plan_deterministic() {
    let local = vec![reversible("a"), reversible("b"), reversible("c")];
    let db = vec![reversible("a")];
    let first = PlanBuilder::new()
        .local_migrations(local.clone())
        .db_migrations(db.clone())
        .build()
        .unwrap()
        .up()
        .unwrap();
    let second = PlanBuilder::new()
        .local_migrations(local)
        .db_migrations(db)
        .build()
        .unwrap()
        .up()
        .unwrap();
    assert_eq!(first.0, second.0);
}

/// Ordering on concrete values: up steps ascend, down steps descend.
#[test]
fn test_plan_ordering() {
    let local = vec![reversible("a"), reversible("b"), reversible("c")];
    let db = vec![];
    let up = PlanBuilder::new()
        .local_migrations(local.clone())
        .db_migrations(db)
        .build()
        .unwrap()
        .up()
        .unwrap();
    let up_names: Vec<&str> = up.0.iter().map(|s| s.1.name.as_str()).collect();
    assert_eq!(up_names, vec!["a", "b", "c"]);

    let down = PlanBuilder::new()
        .local_migrations(local.clone())
        .db_migrations(local)
        .count(Some(3))
        .build()
        .unwrap()
        .down()
        .unwrap();
    let down_names: Vec<&str> = down.0.iter().map(|s| s.1.name.as_str()).collect();
    assert_eq!(down_names, vec!["c", "b", "a"]);
}

/// Round trip on concrete values: with the applied set equal to the
/// local set the up plan is empty, and down --number 2 followed by
/// up --number 2 against the rolled-back state restores the set.
#[test]
fn test_round_trip() {
    let local = vec![reversible("a"), reversible("b"), reversible("c")];

    let up = PlanBuilder::new()
        .local_migrations(local.clone())
        .db_migrations(local.clone())
        .build()
        .unwrap()
        .up()
        .unwrap();
    assert_eq!(up.0, vec![]);

    let down = PlanBuilder::new()
        .local_migrations(local.clone())
        .db_migrations(local.clone())
        .count(Some(2))
        .build()
        .unwrap()
        .down()
        .unwrap();
    assert_eq!(
        down.0,
        vec![
            Step(Dir::Down, local[2].clone()),
            Step(Dir::Down, local[1].clone()),
        ]
    );

    // the rollback leaves only the first migration applied
    let remaining = vec![local[0].clone()];
    let up_again = PlanBuilder::new()
        .local_migrations(local.clone())
        .db_migrations(remaining.clone())
        .count(Some(2))
        .build()
        .unwrap()
        .up()
        .unwrap();
    assert_eq!(
        up_again.0,
        vec![
            Step(Dir::Up, local[1].clone()),
            Step(Dir::Up, local[2].clone()),
        ]
    );

    // what was left plus what is re-applied is the original set
    let mut restored = remaining;
    for step in up_again.0 {
        restored.push(step.1);
    }
    assert_eq!(restored, local);
}

/// Fix idempotence on concrete values: nothing to fix when the sets agree.
#[test]
fn test_fix_idempotent() {
    let local = vec![reversible("a"), reversible("b")];
    let builder = PlanBuilder::new()
        .local_migrations(local.clone())
        .db_migrations(local)
        .build()
        .unwrap();
    assert!(builder.safe_to_migrate());
    let fix = builder.fix().unwrap();
    assert_eq!(fix.0, vec![]);
}

/// Reversibility gate on concrete values: fix never plans a down step
/// for a migration without down SQL; it fails instead.
#[test]
fn test_fix_unrollbackable() {
    let local = vec![reversible("a")];
    let db = vec![Migration {
        name: "b".to_string(),
        up_sql: None,
        down_sql: None,
        hash: None,
    }];
    let fix = PlanBuilder::new()
        .local_migrations(local)
        .db_migrations(db)
        .build()
        .unwrap()
        .fix();
    assert!(matches!(
        fix.err().unwrap(),
        movine::errors::Error::UnrollbackableMigration
    ));
}

/// The empty state plans nothing anywhere.
#[test]
fn test_empty_inputs() {
    let builder = PlanBuilder::new()
        .local_migrations(vec![])
        .db_migrations(vec![])
        .build()
        .unwrap();
    assert!(builder.safe_to_migrate());
    let up = PlanBuilder::new()
        .local_migrations(vec![])
        .db_migrations(vec![])
        .build()
        .unwrap()
        .up()
        .unwrap();
    assert_eq!(up.0, vec![]);
    let down = PlanBuilder::new()
        .local_migrations(vec![])
        .db_migrations(vec![])
        .build()
        .unwrap()
        .down()
        .unwrap();
    assert_eq!(down.0, vec![]);
}

/// Fix failure condition on concrete values: an applied migration
/// without down SQL sitting after a disagreement must be peeled, so
/// fix fails; before any disagreement it is left alone and fix plans
/// the pending work only.
#[test]
fn test_fix_blocked_by_peel() {
    let irreversible_applied = Migration {
        name: "b".to_string(),
        up_sql: None,
        down_sql: None,
        hash: None,
    };
    // pending "a" sorts before applied "b": "b" must be peeled, cannot be
    let fix = PlanBuilder::new()
        .local_migrations(vec![reversible("a"), reversible("b")])
        .db_migrations(vec![irreversible_applied.clone()])
        .build()
        .unwrap()
        .fix();
    assert!(matches!(
        fix.err().unwrap(),
        movine::errors::Error::UnrollbackableMigration
    ));
    // pending "c" sorts after applied "b": nothing is peeled
    let fix = PlanBuilder::new()
        .local_migrations(vec![reversible("b"), reversible("c")])
        .db_migrations(vec![irreversible_applied])
        .build()
        .unwrap()
        .fix()
        .unwrap();
    assert_eq!(fix.0, vec![Step(Dir::Up, reversible("c"))]);
}

use movine::errors::Error;
use movine::migration::Migration;
use movine::plan_builder::{Dir, Plan, Step};
use movine::DbAdaptor;

/// A test double that records every call and fails on demand.
struct Recorder {
    log: Vec<String>,
    fail_on: Option<String>,
}

impl Recorder {
    fn new() -> Self {
        Recorder { log: Vec::new(), fail_on: None }
    }
}

impl DbAdaptor for Recorder {
    fn init_up_sql(&self) -> &'static str {
        "CREATE TABLE movine_migrations;"
    }

    fn init_down_sql(&self) -> &'static str {
        "DROP TABLE movine_migrations;"
    }

    fn load_migrations(&mut self) -> Result<Vec<Migration>, Error> {
        Ok(Vec::new())
    }

    fn run_up_migration(&mut self, migration: &Migration) -> Result<(), Error> {
        if self.fail_on.as_deref() == Some(migration.name.as_str()) {
            return Err(Error::Io("up failed".to_string()));
        }
        self.log.push(format!("up {}", migration.name));
        Ok(())
    }

    fn run_down_migration(&mut self, migration: &Migration) -> Result<(), Error> {
        if self.fail_on.as_deref() == Some(migration.name.as_str()) {
            return Err(Error::Io("down failed".to_string()));
        }
        self.log.push(format!("down {}", migration.name));
        Ok(())
    }
}

fn reversible(name: &str) -> Migration {
    Migration {
        name: name.to_string(),
        up_sql: Some("up".to_owned()),
        down_sql: Some("down".to_owned()),
        hash: None,
    }
}

fn irreversible(name: &str) -> Migration {
    Migration {
        name: name.to_string(),
        up_sql: Some("up".to_owned()),
        down_sql: None,
        hash: None,
    }
}

/// The plan runs in order and a down step on an irreversible migration
/// is silently skipped.
#[test]
fn test_run_plan_in_order_skips_irreversible() {
    let mut adaptor = Recorder::new();
    let plan = Plan(vec![
        Step(Dir::Down, reversible("b")),
        Step(Dir::Down, irreversible("c")),
        Step(Dir::Up, reversible("a")),
    ]);
    assert!(adaptor.run_migration_plan(&plan).is_ok());
    assert_eq!(adaptor.log, vec!["down b", "up a"]);
}

/// The empty plan succeeds without touching the adaptor.
#[test]
fn test_run_plan_empty() {
    let mut adaptor = Recorder::new();
    let plan = Plan(vec![]);
    assert!(adaptor.run_migration_plan(&plan).is_ok());
    assert!(adaptor.log.is_empty());
}

/// The first failing step aborts the plan; prior steps stay run.
#[test]
fn test_run_plan_aborts_on_error() {
    let mut adaptor = Recorder::new();
    adaptor.fail_on = Some("b".to_string());
    let plan = Plan(vec![
        Step(Dir::Up, reversible("a")),
        Step(Dir::Up, reversible("b")),
        Step(Dir::Up, reversible("c")),
    ]);
    let result = adaptor.run_migration_plan(&plan);
    assert!(matches!(result.err().unwrap(), Error::Io(_)));
    assert_eq!(adaptor.log, vec!["up a"]);
}

/// The adaptor capability forwards through boxes and mutable borrows.
#[test]
fn test_run_plan_through_box_and_borrow() {
    let mut boxed: Box<Recorder> = Box::new(Recorder::new());
    let plan = Plan(vec![Step(Dir::Up, reversible("a"))]);
    assert!(boxed.run_migration_plan(&plan).is_ok());
    assert_eq!(boxed.log, vec!["up a"]);

    let mut adaptor = Recorder::new();
    let mut borrowed: &mut Recorder = &mut adaptor;
    assert!(borrowed.run_migration_plan(&plan).is_ok());
    assert_eq!(adaptor.log, vec!["up a"]);
}

use vstd::prelude::*;

use crate::errors::Error;
use crate::migration::Migration;
use crate::plan_builder::{Dir, Plan};

verus! {

/// A database capability, one implementation per SQL dialect.
///
/// The host supplies the implementation; the engine only hands it
/// migration records and plan steps.  `run_up_migration` must execute
/// the migration's up SQL and insert its tracking row in one
/// transaction; `run_down_migration` must execute the down SQL and
/// delete the row in one transaction.
pub trait DbAdaptor {
    /// The SQL that creates the tracking table.
    fn init_up_sql(&self) -> &'static str;

    /// The SQL that drops the tracking table.
    fn init_down_sql(&self) -> &'static str;

    /// The applied migrations from the tracking table, ascending by
    /// name, with up SQL absent and down SQL and hash as recorded.
    fn load_migrations(&mut self) -> Result<Vec<Migration>, Error>;

    /// Apply one migration: run its up SQL and record it.
    fn run_up_migration(&mut self, migration: &Migration) -> Result<(), Error>;

    /// Roll one migration back: run its down SQL and delete its record.
    fn run_down_migration(&mut self, migration: &Migration) -> Result<(), Error>;

    /// Run a plan step by step, in order.  A down step on an
    /// irreversible migration is skipped.  The first failing step aborts
    /// the plan; steps already committed stay committed.
    ///
    /// Whether a step succeeds is the host's to decide, so success on a
    /// plan that makes a call cannot be promised here.  What is owed
    /// regardless of the host: an empty plan succeeds, a plan whose
    /// every step is skipped succeeds, and an error can only have come
    /// from a step of the plan.
    fn run_migration_plan(&mut self, plan: &Plan) -> (result: Result<(), Error>)
        ensures
            plan@.len() == 0 ==> result is Ok,
            (forall|i: int|
                0 <= i < plan@.len() ==> #[trigger] plan@[i].dir == Dir::Down
                    && plan@[i].migration.down_sql is None) ==> result is Ok,
            result is Err ==> plan@.len() > 0,
    {
        let mut i: usize = 0;
        while i < plan.0.len()
            invariant
                0 <= i <= plan@.len(),
                plan@.len() == plan.0@.len(),
            decreases plan.0@.len() - i,
        {
            let step = &plan.0[i];
            proof {
                assert(plan@[i as int] == plan.0@[i as int].deep_view());
            }
            match step.0 {
                Dir::Up => {
                    proof {
                        assert(plan@[i as int].dir == Dir::Up);
                    }
                    match self.run_up_migration(&step.1) {
                        Ok(()) => (),
                        Err(e) => {
                            return Err(e);
                        },
                    }
                },
                Dir::Down => {
                    if step.1.is_reversable() {
                        proof {
                            assert(plan@[i as int].migration.down_sql is Some);
                        }
                        match self.run_down_migration(&step.1) {
                            Ok(()) => (),
                            Err(e) => {
                                return Err(e);
                            },
                        }
                    }
                },
            }
            i += 1;
        }
        Ok(())
    }
}

impl<T: DbAdaptor> DbAdaptor for &mut T {
    fn init_up_sql(&self) -> &'static str {
        (**self).init_up_sql()
    }

    fn init_down_sql(&self) -> &'static str {
        (**self).init_down_sql()
    }

    fn load_migrations(&mut self) -> Result<Vec<Migration>, Error> {
        (**self).load_migrations()
    }

    fn run_up_migration(&mut self, migration: &Migration) -> Result<(), Error> {
        (**self).run_up_migration(migration)
    }

    fn run_down_migration(&mut self, migration: &Migration) -> Result<(), Error> {
        (**self).run_down_migration(migration)
    }
}

impl<T: DbAdaptor> DbAdaptor for Box<T> {
    fn init_up_sql(&self) -> &'static str {
        (**self).init_up_sql()
    }

    fn init_down_sql(&self) -> &'static str {
        (**self).init_down_sql()
    }

    fn load_migrations(&mut self) -> Result<Vec<Migration>, Error> {
        (**self).load_migrations()
    }

    fn run_up_migration(&mut self, migration: &Migration) -> Result<(), Error> {
        (**self).run_up_migration(migration)
    }

    fn run_down_migration(&mut self, migration: &Migration) -> Result<(), Error> {
        (**self).run_down_migration(migration)
    }
}

} // verus!

use vstd::prelude::*;

use crate::errors::Error;
use crate::match_maker::{find_matches, matches_of, Matching, MatchingModel};
use crate::migration::{Migration, MigrationModel};

verus! {

/// The direction of one step of a plan.
#[derive(Debug, PartialEq, Eq, Copy, Clone, Structural)]
pub enum Dir {
    Up,
    Down,
}

/// One step of a plan: run the migration's up SQL, or its down SQL.
#[derive(Debug, PartialEq, Eq)]
pub struct Step(pub Dir, pub Migration);

/// The mathematical model of a [`Step`].
pub struct StepModel {
    pub dir: Dir,
    pub migration: MigrationModel,
}

impl View for Step {
    type V = StepModel;

    open spec fn view(&self) -> StepModel {
        StepModel { dir: self.0, migration: self.1@ }
    }
}

impl DeepView for Step {
    type V = StepModel;

    open spec fn deep_view(&self) -> StepModel {
        self.view()
    }
}

/// An ordered, possibly empty sequence of steps.
#[derive(Debug, PartialEq, Eq)]
pub struct Plan(pub Vec<Step>);

impl View for Plan {
    type V = Seq<StepModel>;

    open spec fn view(&self) -> Seq<StepModel> {
        self.0.deep_view()
    }
}

/// Collects the two migration lists and the command flags, and computes
/// the matchings they induce.
pub struct PlanBuilder {
    pub local_migrations: Option<Vec<Migration>>,
    pub db_migrations: Option<Vec<Migration>>,
    pub count: Option<usize>,
    pub strict: bool,
    pub ignore_divergent: bool,
    pub ignore_unreversable: bool,
}

/// The matchings of the two lists plus the command flags: everything a
/// plan is compiled from.
pub struct PlanBuilder2 {
    pub matches: Vec<Matching>,
    pub count: Option<usize>,
    pub strict: bool,
    pub ignore_divergent: bool,
    pub ignore_unreversable: bool,
}

impl PlanBuilder {
    pub fn new() -> (result: Self)
        ensures
            result.local_migrations is None,
            result.db_migrations is None,
            result.count is None,
            !result.strict,
            !result.ignore_divergent,
            !result.ignore_unreversable,
    {
        PlanBuilder {
            local_migrations: None,
            db_migrations: None,
            count: None,
            strict: false,
            ignore_divergent: false,
            ignore_unreversable: false,
        }
    }

    pub fn local_migrations(self, m: Vec<Migration>) -> (result: Self)
        ensures
            result == (PlanBuilder { local_migrations: Some(m), ..self }),
    {
        PlanBuilder { local_migrations: Some(m), ..self }
    }

    pub fn db_migrations(self, m: Vec<Migration>) -> (result: Self)
        ensures
            result == (PlanBuilder { db_migrations: Some(m), ..self }),
    {
        PlanBuilder { db_migrations: Some(m), ..self }
    }

    pub fn count(self, count: Option<usize>) -> (result: Self)
        ensures
            result == (PlanBuilder { count, ..self }),
    {
        PlanBuilder { count, ..self }
    }

    pub fn set_strict(self, strict: bool) -> (result: Self)
        ensures
            result == (PlanBuilder { strict, ..self }),
    {
        PlanBuilder { strict, ..self }
    }

    pub fn set_ignore_divergent(self, ignore_divergent: bool) -> (result: Self)
        ensures
            result == (PlanBuilder { ignore_divergent, ..self }),
    {
        PlanBuilder { ignore_divergent, ..self }
    }

    pub fn set_ignore_unreversable(self, ignore_unreversable: bool) -> (result: Self)
        ensures
            result == (PlanBuilder { ignore_unreversable, ..self }),
    {
        PlanBuilder { ignore_unreversable, ..self }
    }

    /// Pair the two lists into matchings, keeping the flags.  Fails with
    /// `Unknown` exactly when a list was never supplied.
    pub fn build(self) -> (result: Result<PlanBuilder2, Error>)
        ensures
            result is Ok <==> (self.local_migrations is Some && self.db_migrations is Some),
            result is Err ==> result == Result::<PlanBuilder2, Error>::Err(Error::Unknown),
            result matches Ok(b) ==> {
                &&& b.matches.deep_view() == matches_of(
                    self.local_migrations->Some_0.deep_view(),
                    self.db_migrations->Some_0.deep_view(),
                )
                &&& b.count == self.count
                &&& b.strict == self.strict
                &&& b.ignore_divergent == self.ignore_divergent
                &&& b.ignore_unreversable == self.ignore_unreversable
            },
    {
        match (self.local_migrations, self.db_migrations) {
            (Some(local_migrations), Some(db_migrations)) => {
                let matches = find_matches(&local_migrations, &db_migrations);
                Ok(
                    PlanBuilder2 {
                        matches,
                        count: self.count,
                        strict: self.strict,
                        ignore_divergent: self.ignore_divergent,
                        ignore_unreversable: self.ignore_unreversable,
                    },
                )
            },
            _ => Err(Error::Unknown),
        }
    }
}

/// The up steps owed to the pending matchings, in walk order.
pub open spec fn pending_up_steps(ms: Seq<MatchingModel>) -> Seq<StepModel>
    decreases ms.len(),
{
    if ms.len() == 0 {
        Seq::empty()
    } else {
        let rest = pending_up_steps(ms.drop_last());
        match ms.last() {
            MatchingModel::Pending(l) => rest.push(StepModel { dir: Dir::Up, migration: l }),
            _ => rest,
        }
    }
}

/// Whether some pending matching is followed by a non-pending one: the
/// developer holds pending migrations that sort before already-applied
/// work.
pub open spec fn up_dirty(ms: Seq<MatchingModel>) -> bool {
    exists|i: int, j: int|
        0 <= i < j < ms.len() && ms[i] is Pending && !(ms[j] is Pending)
}

/// The first `count` steps, or all of them when no count is set.
pub open spec fn truncated(steps: Seq<StepModel>, count: Option<usize>) -> Seq<StepModel> {
    match count {
        Some(c) => if steps.len() <= c {
            steps
        } else {
            steps.take(c as int)
        },
        None => steps,
    }
}

/// The plan the `up` command owes: the pending migrations in ascending
/// name order, cut off at the count.
pub open spec fn up_plan(ms: Seq<MatchingModel>, count: Option<usize>) -> Seq<StepModel> {
    truncated(pending_up_steps(ms), count)
}

/// Whether a reverse walk is finished after `taken` appended steps: at
/// the count when one is set, after the first append otherwise.
pub open spec fn stop_now(count: Option<usize>, taken: nat) -> bool {
    match count {
        Some(c) => taken == c,
        None => taken == 1,
    }
}

/// The result the `down` command owes, walking the matchings newest
/// first with `taken` steps already appended.
///
/// A divergent matching is skipped outright under `ignore_divergent`
/// and rolled back otherwise.  An applied or variant matching rolls
/// back its best down migration when reversible; an irreversible one
/// fails with `UnrollbackableMigration` unless `ignore_unreversable`.
/// Pending matchings never count.  The walk stops once `stop_now` holds.
pub open spec fn down_plan(
    ms: Seq<MatchingModel>,
    count: Option<usize>,
    ignore_divergent: bool,
    ignore_unreversable: bool,
    taken: nat,
) -> Result<Seq<StepModel>, Error>
    decreases ms.len(),
{
    if ms.len() == 0 {
        Ok(Seq::empty())
    } else {
        let m = ms.last();
        let rest = ms.drop_last();
        match m {
            MatchingModel::Divergent(a) => if ignore_divergent {
                down_plan(rest, count, ignore_divergent, ignore_unreversable, taken)
            } else {
                let step = StepModel { dir: Dir::Down, migration: a };
                if stop_now(count, taken + 1) {
                    Ok(seq![step])
                } else {
                    match down_plan(rest, count, ignore_divergent, ignore_unreversable, taken + 1) {
                        Ok(r) => Ok(seq![step] + r),
                        Err(e) => Err(e),
                    }
                }
            },
            MatchingModel::Pending(_) => if stop_now(count, taken) {
                Ok(Seq::empty())
            } else {
                down_plan(rest, count, ignore_divergent, ignore_unreversable, taken)
            },
            _ => if m.is_reversable() {
                let step = StepModel { dir: Dir::Down, migration: m.best_down() };
                if stop_now(count, taken + 1) {
                    Ok(seq![step])
                } else {
                    match down_plan(rest, count, ignore_divergent, ignore_unreversable, taken + 1) {
                        Ok(r) => Ok(seq![step] + r),
                        Err(e) => Err(e),
                    }
                }
            } else if !ignore_unreversable {
                Err(Error::UnrollbackableMigration)
            } else {
                if stop_now(count, taken) {
                    Ok(Seq::empty())
                } else {
                    down_plan(rest, count, ignore_divergent, ignore_unreversable, taken)
                }
            },
        }
    }
}

/// The two halves the `fix` command owes, walking the matchings oldest
/// first: down steps in walk (ascending) order, and up steps in walk
/// order.  `bad_found` records whether a disagreement was already seen.
///
/// A divergent or variant matching is a disagreement and is rolled
/// back; a variant is also re-applied from its local record.  An
/// applied matching ahead of a disagreement is peeled and re-applied so
/// ordering is preserved.  A pending matching is re-applied only.  Any
/// needed rollback of an irreversible matching fails with
/// `UnrollbackableMigration`.
pub open spec fn fix_plans(ms: Seq<MatchingModel>, bad_found: bool) -> Result<
    (Seq<StepModel>, Seq<StepModel>),
    Error,
>
    decreases ms.len(),
{
    if ms.len() == 0 {
        Ok((Seq::empty(), Seq::empty()))
    } else {
        let m = ms.first();
        let rest = ms.drop_first();
        match m {
            MatchingModel::Divergent(x) => if m.is_reversable() {
                match fix_plans(rest, true) {
                    Ok(p) => Ok(
                        (seq![StepModel { dir: Dir::Down, migration: x }] + p.0, p.1),
                    ),
                    Err(e) => Err(e),
                }
            } else {
                Err(Error::UnrollbackableMigration)
            },
            MatchingModel::Variant(l, _) => if m.is_reversable() {
                match fix_plans(rest, true) {
                    Ok(p) => Ok(
                        (
                            seq![StepModel { dir: Dir::Down, migration: m.best_down() }] + p.0,
                            seq![StepModel { dir: Dir::Up, migration: l }] + p.1,
                        ),
                    ),
                    Err(e) => Err(e),
                }
            } else {
                Err(Error::UnrollbackableMigration)
            },
            MatchingModel::Applied(x) => if bad_found {
                if m.is_reversable() {
                    match fix_plans(rest, true) {
                        Ok(p) => Ok(
                            (
                                seq![StepModel { dir: Dir::Down, migration: x }] + p.0,
                                seq![StepModel { dir: Dir::Up, migration: x }] + p.1,
                            ),
                        ),
                        Err(e) => Err(e),
                    }
                } else {
                    Err(Error::UnrollbackableMigration)
                }
            } else {
                fix_plans(rest, false)
            },
            MatchingModel::Pending(x) => match fix_plans(rest, true) {
                Ok(p) => Ok((p.0, seq![StepModel { dir: Dir::Up, migration: x }] + p.1)),
                Err(e) => Err(e),
            },
        }
    }
}

/// The two halves the `redo` command owes, walking the matchings newest
/// first with `taken` rollback steps already appended: down steps in
/// walk order, and up steps in walk order (to be reversed).
///
/// A divergent matching fails with `DivergentMigration` unless
/// `ignore_divergent` skips it outright.  An applied or variant
/// matching is rolled back and re-applied when reversible; an
/// irreversible one fails with `UnrollbackableMigration` unless
/// `ignore_unreversable`.  The walk stops once `stop_now` holds of the
/// rollback count.
pub open spec fn redo_plans(
    ms: Seq<MatchingModel>,
    count: Option<usize>,
    ignore_divergent: bool,
    ignore_unreversable: bool,
    taken: nat,
) -> Result<(Seq<StepModel>, Seq<StepModel>), Error>
    decreases ms.len(),
{
    if ms.len() == 0 {
        Ok((Seq::empty(), Seq::empty()))
    } else {
        let m = ms.last();
        let rest = ms.drop_last();
        match m {
            MatchingModel::Divergent(_) => if ignore_divergent {
                redo_plans(rest, count, ignore_divergent, ignore_unreversable, taken)
            } else {
                Err(Error::DivergentMigration)
            },
            MatchingModel::Pending(_) => if stop_now(count, taken) {
                Ok((Seq::empty(), Seq::empty()))
            } else {
                redo_plans(rest, count, ignore_divergent, ignore_unreversable, taken)
            },
            _ => if m.is_reversable() {
                let down = StepModel { dir: Dir::Down, migration: m.best_down() };
                let up = StepModel { dir: Dir::Up, migration: m.local_of()->Some_0 };
                if stop_now(count, taken + 1) {
                    Ok((seq![down], seq![up]))
                } else {
                    match redo_plans(rest, count, ignore_divergent, ignore_unreversable, taken + 1) {
                        Ok(p) => Ok((seq![down] + p.0, seq![up] + p.1)),
                        Err(e) => Err(e),
                    }
                }
            } else if !ignore_unreversable {
                Err(Error::UnrollbackableMigration)
            } else {
                if stop_now(count, taken) {
                    Ok((Seq::empty(), Seq::empty()))
                } else {
                    redo_plans(rest, count, ignore_divergent, ignore_unreversable, taken)
                }
            },
        }
    }
}

impl PlanBuilder2 {
    /// Whether any matching is divergent: applied with no local file.
    pub fn any_divergent(&self) -> (result: bool)
        ensures
            result == exists|i: int|
                0 <= i < self.matches.deep_view().len() && self.matches.deep_view()[i]
                    is Divergent,
    {
        let ghost msv = self.matches.deep_view();
        let mut i: usize = 0;
        while i < self.matches.len()
            invariant
                msv == self.matches.deep_view(),
                msv.len() == self.matches@.len(),
                0 <= i <= msv.len(),
                forall|k: int| 0 <= k < i ==> !(msv[k] is Divergent),
            decreases msv.len() - i,
        {
            if let Matching::Divergent(_) = &self.matches[i] {
                proof {
                    assert(0 <= i < msv.len() && msv[i as int] is Divergent);
                }
                return true;
            }
            i += 1;
        }
        false
    }

    /// Whether any matching is a variant: present in both sets with
    /// disagreeing hashes.
    pub fn any_variant(&self) -> (result: bool)
        ensures
            result == exists|i: int|
                0 <= i < self.matches.deep_view().len() && self.matches.deep_view()[i] is Variant,
    {
        let ghost msv = self.matches.deep_view();
        let mut i: usize = 0;
        while i < self.matches.len()
            invariant
                msv == self.matches.deep_view(),
                msv.len() == self.matches@.len(),
                0 <= i <= msv.len(),
                forall|k: int| 0 <= k < i ==> !(msv[k] is Variant),
            decreases msv.len() - i,
        {
            if let Matching::Variant(_, _) = &self.matches[i] {
                proof {
                    assert(0 <= i < msv.len() && msv[i as int] is Variant);
                }
                return true;
            }
            i += 1;
        }
        false
    }

    /// Local and applied agree everywhere they overlap: no divergent and
    /// no variant matchings.
    pub fn safe_to_migrate(&self) -> (result: bool)
        ensures
            result == (forall|i: int|
                0 <= i < self.matches.deep_view().len() ==> !(self.matches.deep_view()[i]
                    is Divergent) && !(self.matches.deep_view()[i] is Variant)),
    {
        !self.any_divergent() && !self.any_variant()
    }

    /// Compile the `up` plan: pending migrations in ascending order, cut
    /// off at the count.  In strict mode, pending migrations that sort
    /// before non-pending work fail with `DirtyMigrations`.
    pub fn up(self) -> (result: Result<Plan, Error>)
        ensures
            result is Err <==> self.strict && up_dirty(self.matches.deep_view()),
            result is Err ==> result == Result::<Plan, Error>::Err(Error::DirtyMigrations),
            result matches Ok(p) ==> p@ == up_plan(self.matches.deep_view(), self.count),
    {
        let ghost msv = self.matches.deep_view();
        let mut dirty = false;
        let mut pending_found = false;
        let mut plan: Vec<Step> = Vec::new();
        let mut i: usize = 0;
        proof {
            assert(msv.take(0) =~= Seq::<MatchingModel>::empty());
        }
        while i < self.matches.len()
            invariant
                msv == self.matches.deep_view(),
                msv.len() == self.matches@.len(),
                0 <= i <= msv.len(),
                plan.deep_view() == up_plan(msv.take(i as int), self.count),
                dirty == up_dirty(msv.take(i as int)),
                pending_found == exists|k: int| 0 <= k < i && msv[k] is Pending,
            decreases msv.len() - i,
        {
            let ghost pre = msv.take(i as int);
            let ghost post = msv.take(i + 1);
            proof {
                assert(post.drop_last() =~= pre);
                assert(post.last() == msv[i as int]);
            }
            match &self.matches[i] {
                Matching::Pending(x) => {
                    pending_found = true;
                    let push_it = match self.count {
                        Some(count) => count != plan.len(),
                        None => true,
                    };
                    let ghost plan_pre = plan.deep_view();
                    if push_it {
                        plan.push(Step(Dir::Up, x.clone()));
                    }
                    proof {
                        let steps_pre = pending_up_steps(pre);
                        let steps_post = pending_up_steps(post);
                        assert(steps_post == steps_pre.push(
                            StepModel { dir: Dir::Up, migration: msv[i as int]->Pending_0 },
                        ));
                        if !push_it {
                            let c = self.count->Some_0 as int;
                            assert(plan_pre.len() == c);
                            assert(steps_pre.len() >= c);
                            assert(steps_post.take(c) =~= steps_pre.take(c));
                            if steps_pre.len() == c {
                                assert(steps_pre.take(c) =~= steps_pre);
                            }
                        } else {
                            match self.count {
                                Some(c) => {
                                    assert(plan_pre.len() != c);
                                    assert(steps_pre.len() < c);
                                    assert(plan.deep_view() =~= plan_pre.push(
                                        StepModel {
                                            dir: Dir::Up,
                                            migration: msv[i as int]->Pending_0,
                                        },
                                    ));
                                    assert(plan.deep_view() =~= steps_post);
                                },
                                None => {
                                    assert(plan.deep_view() =~= plan_pre.push(
                                        StepModel {
                                            dir: Dir::Up,
                                            migration: msv[i as int]->Pending_0,
                                        },
                                    ));
                                    assert(plan.deep_view() =~= steps_post);
                                },
                            }
                        }
                        assert(up_dirty(post) == up_dirty(pre)) by {
                            if up_dirty(post) {
                                let (a, b): (int, int) = choose|a: int, b: int|
                                    0 <= a < b < post.len() && post[a] is Pending && !(post[b]
                                        is Pending);
                                if b < i {
                                    assert(0 <= a < b < pre.len() && pre[a] is Pending && !(pre[b]
                                        is Pending));
                                }
                            }
                            if up_dirty(pre) {
                                let (a, b): (int, int) = choose|a: int, b: int|
                                    0 <= a < b < pre.len() && pre[a] is Pending && !(pre[b]
                                        is Pending);
                                assert(0 <= a < b < post.len() && post[a] is Pending && !(post[b]
                                    is Pending));
                            }
                        }
                    }
                },
                _ => {
                    if pending_found {
                        dirty = true;
                    }
                    proof {
                        assert(pending_up_steps(post) == pending_up_steps(pre));
                        if pending_found {
                            let k = choose|k: int| 0 <= k < i && msv[k] is Pending;
                            assert(post[k] is Pending && !(post[i as int] is Pending));
                            assert(up_dirty(post));
                        } else {
                            assert(up_dirty(post) == up_dirty(pre)) by {
                                if up_dirty(post) {
                                    let (a, b): (int, int) = choose|a: int, b: int|
                                        0 <= a < b < post.len() && post[a] is Pending && !(post[b]
                                            is Pending);
                                    assert(msv[a] is Pending);
                                    if b < i {
                                        assert(0 <= a < b < pre.len() && pre[a] is Pending
                                            && !(pre[b] is Pending));
                                    }
                                }
                                if up_dirty(pre) {
                                    let (a, b): (int, int) = choose|a: int, b: int|
                                        0 <= a < b < pre.len() && pre[a] is Pending && !(pre[b]
                                            is Pending);
                                    assert(0 <= a < b < post.len() && post[a] is Pending
                                        && !(post[b] is Pending));
                                }
                            }
                        }
                    }
                },
            }
            i += 1;
        }
        proof {
            assert(msv.take(msv.len() as int) =~= msv);
        }
        if self.strict && dirty {
            return Err(Error::DirtyMigrations);
        }
        Ok(Plan(plan))
    }

    /// Compile the `down` plan: walk the matchings newest first, rolling
    /// back until the count is reached (one step when no count is set).
    pub fn down(self) -> (result: Result<Plan, Error>)
        ensures
            ({
                let spec_result = down_plan(
                    self.matches.deep_view(),
                    self.count,
                    self.ignore_divergent,
                    self.ignore_unreversable,
                    0,
                );
                match result {
                    Ok(p) => spec_result == Ok::<Seq<StepModel>, Error>(p@),
                    Err(e) => spec_result == Err::<Seq<StepModel>, Error>(e),
                }
            }),
    {
        let ghost msv = self.matches.deep_view();
        let ghost full = down_plan(
            msv,
            self.count,
            self.ignore_divergent,
            self.ignore_unreversable,
            0,
        );
        let mut plan: Vec<Step> = Vec::new();
        let mut i: usize = self.matches.len();
        let mut stopped = false;
        proof {
            assert(msv.take(msv.len() as int) =~= msv);
            if full is Ok {
                assert(plan.deep_view() + full->Ok_0 =~= full->Ok_0);
            }
        }
        while i > 0 && !stopped
            invariant
                msv == self.matches.deep_view(),
                msv.len() == self.matches@.len(),
                0 <= i <= msv.len(),
                full == down_plan(
                    msv,
                    self.count,
                    self.ignore_divergent,
                    self.ignore_unreversable,
                    0,
                ),
                stopped ==> full == Ok::<Seq<StepModel>, Error>(plan.deep_view()),
                !stopped ==> full == (match down_plan(
                    msv.take(i as int),
                    self.count,
                    self.ignore_divergent,
                    self.ignore_unreversable,
                    plan.deep_view().len() as nat,
                ) {
                    Ok(r) => Ok::<Seq<StepModel>, Error>(plan.deep_view() + r),
                    Err(e) => Err::<Seq<StepModel>, Error>(e),
                }),
            decreases i,
        {
            i -= 1;
            let ghost pre = msv.take(i + 1);
            let ghost taken0 = plan.deep_view().len() as nat;
            let ghost plan_pre = plan.deep_view();
            proof {
                assert(pre.drop_last() =~= msv.take(i as int));
                assert(pre.last() == msv[i as int]);
            }
            let m = &self.matches[i];
            match m {
                Matching::Divergent(x) => {
                    if self.ignore_divergent {
                        // skipped outright: not even counted toward the stop
                        continue;
                    }
                    plan.push(Step(Dir::Down, x.clone()));
                    let stop = Self::stop_reached(self.count, plan.len());
                    if stop {
                        stopped = true;
                    }
                    proof {
                        let step = StepModel { dir: Dir::Down, migration: msv[i as int]->Divergent_0 };
                        assert(plan.deep_view() =~= plan_pre.push(step));
                        assert(plan_pre + seq![step] =~= plan_pre.push(step));
                        if !stop {
                            if down_plan(
                                msv.take(i as int),
                                self.count,
                                self.ignore_divergent,
                                self.ignore_unreversable,
                                taken0 + 1,
                            ) is Ok {
                                let r = down_plan(
                                    msv.take(i as int),
                                    self.count,
                                    self.ignore_divergent,
                                    self.ignore_unreversable,
                                    taken0 + 1,
                                )->Ok_0;
                                assert(plan_pre + (seq![step] + r) =~= plan.deep_view() + r);
                            }
                        }
                    }
                },
                Matching::Applied(_) | Matching::Variant(_, _) => {
                    if m.is_reversable() {
                        let best = m.get_best_down_migration().clone();
                        plan.push(Step(Dir::Down, best));
                        let stop = Self::stop_reached(self.count, plan.len());
                        if stop {
                            stopped = true;
                        }
                        proof {
                            let step = StepModel {
                                dir: Dir::Down,
                                migration: msv[i as int].best_down(),
                            };
                            assert(plan.deep_view() =~= plan_pre.push(step));
                            assert(plan_pre + seq![step] =~= plan_pre.push(step));
                            if !stop {
                                if down_plan(
                                    msv.take(i as int),
                                    self.count,
                                    self.ignore_divergent,
                                    self.ignore_unreversable,
                                    taken0 + 1,
                                ) is Ok {
                                    let r = down_plan(
                                        msv.take(i as int),
                                        self.count,
                                        self.ignore_divergent,
                                        self.ignore_unreversable,
                                        taken0 + 1,
                                    )->Ok_0;
                                    assert(plan_pre + (seq![step] + r) =~= plan.deep_view() + r);
                                }
                            }
                        }
                    } else if !self.ignore_unreversable {
                        return Err(Error::UnrollbackableMigration);
                    } else {
                        let stop = Self::stop_reached(self.count, plan.len());
                        if stop {
                            stopped = true;
                            proof {
                                assert(plan_pre + Seq::<StepModel>::empty() =~= plan_pre);
                            }
                        }
                    }
                },
                Matching::Pending(_) => {
                    let stop = Self::stop_reached(self.count, plan.len());
                    if stop {
                        stopped = true;
                        proof {
                            assert(plan_pre + Seq::<StepModel>::empty() =~= plan_pre);
                        }
                    }
                },
            }
        }
        proof {
            if !stopped {
                assert(msv.take(0) =~= Seq::<MatchingModel>::empty());
                assert(plan.deep_view() + Seq::<StepModel>::empty() =~= plan.deep_view());
            }
        }
        Ok(Plan(plan))
    }

    fn stop_reached(count: Option<usize>, len: usize) -> (result: bool)
        ensures
            result == stop_now(count, len as nat),
    {
        match count {
            Some(c) => c == len,
            None => len == 1,
        }
    }

    /// Compile the `fix` plan: roll back every disagreement (and the
    /// applied work ahead of it) newest first, then re-apply the local
    /// records oldest first.
    pub fn fix(self) -> (result: Result<Plan, Error>)
        ensures
            ({
                let spec_result = fix_plans(self.matches.deep_view(), false);
                match result {
                    Ok(p) => spec_result matches Ok(pair) && p@ == pair.0.reverse() + pair.1,
                    Err(e) => spec_result == Err::<(Seq<StepModel>, Seq<StepModel>), Error>(e),
                }
            }),
    {
        let ghost msv = self.matches.deep_view();
        let ghost full = fix_plans(msv, false);
        let mut bad_found = false;
        let mut rollback_rev: Vec<Step> = Vec::new();
        let mut rollup: Vec<Step> = Vec::new();
        let mut i: usize = 0;
        proof {
            assert(msv.skip(0) =~= msv);
            if full is Ok {
                assert(rollback_rev.deep_view() + full->Ok_0.0 =~= full->Ok_0.0);
                assert(rollup.deep_view() + full->Ok_0.1 =~= full->Ok_0.1);
            }
        }
        while i < self.matches.len()
            invariant
                msv == self.matches.deep_view(),
                msv.len() == self.matches@.len(),
                0 <= i <= msv.len(),
                full == fix_plans(msv, false),
                full == (match fix_plans(msv.skip(i as int), bad_found) {
                    Ok(p) => Ok::<(Seq<StepModel>, Seq<StepModel>), Error>(
                        (rollback_rev.deep_view() + p.0, rollup.deep_view() + p.1),
                    ),
                    Err(e) => Err::<(Seq<StepModel>, Seq<StepModel>), Error>(e),
                }),
            decreases msv.len() - i,
        {
            let ghost suffix = msv.skip(i as int);
            let ghost rb_pre = rollback_rev.deep_view();
            let ghost ru_pre = rollup.deep_view();
            proof {
                assert(suffix.len() == msv.len() - i);
                assert(suffix.drop_first() =~= msv.skip(i + 1));
                assert(suffix.first() == msv[i as int]);
            }
            let m = &self.matches[i];
            match m {
                Matching::Divergent(x) => {
                    bad_found = true;
                    if m.is_reversable() {
                        rollback_rev.push(Step(Dir::Down, x.clone()));
                        proof {
                            let step = StepModel {
                                dir: Dir::Down,
                                migration: msv[i as int]->Divergent_0,
                            };
                            assert(rollback_rev.deep_view() =~= rb_pre.push(step));
                            if fix_plans(msv.skip(i + 1), true) is Ok {
                                let p = fix_plans(msv.skip(i + 1), true)->Ok_0;
                                assert(rb_pre + (seq![step] + p.0) =~= rollback_rev.deep_view()
                                    + p.0);
                            }
                        }
                    } else {
                        return Err(Error::UnrollbackableMigration);
                    }
                },
                Matching::Variant(l, _) => {
                    bad_found = true;
                    if m.is_reversable() {
                        let best = m.get_best_down_migration().clone();
                        rollback_rev.push(Step(Dir::Down, best));
                        rollup.push(Step(Dir::Up, l.clone()));
                        proof {
                            let down = StepModel {
                                dir: Dir::Down,
                                migration: msv[i as int].best_down(),
                            };
                            let up = StepModel {
                                dir: Dir::Up,
                                migration: msv[i as int]->Variant_0,
                            };
                            assert(rollback_rev.deep_view() =~= rb_pre.push(down));
                            assert(rollup.deep_view() =~= ru_pre.push(up));
                            if fix_plans(msv.skip(i + 1), true) is Ok {
                                let p = fix_plans(msv.skip(i + 1), true)->Ok_0;
                                assert(rb_pre + (seq![down] + p.0) =~= rollback_rev.deep_view()
                                    + p.0);
                                assert(ru_pre + (seq![up] + p.1) =~= rollup.deep_view() + p.1);
                            }
                        }
                    } else {
                        return Err(Error::UnrollbackableMigration);
                    }
                },
                Matching::Applied(x) => {
                    if bad_found {
                        if m.is_reversable() {
                            rollback_rev.push(Step(Dir::Down, x.clone()));
                            rollup.push(Step(Dir::Up, x.clone()));
                            proof {
                                let down = StepModel {
                                    dir: Dir::Down,
                                    migration: msv[i as int]->Applied_0,
                                };
                                let up = StepModel {
                                    dir: Dir::Up,
                                    migration: msv[i as int]->Applied_0,
                                };
                                assert(rollback_rev.deep_view() =~= rb_pre.push(down));
                                assert(rollup.deep_view() =~= ru_pre.push(up));
                                if fix_plans(msv.skip(i + 1), true) is Ok {
                                    let p = fix_plans(msv.skip(i + 1), true)->Ok_0;
                                    assert(rb_pre + (seq![down] + p.0)
                                        =~= rollback_rev.deep_view() + p.0);
                                    assert(ru_pre + (seq![up] + p.1) =~= rollup.deep_view() + p.1);
                                }
                            }
                        } else {
                            return Err(Error::UnrollbackableMigration);
                        }
                    }
                },
                Matching::Pending(x) => {
                    bad_found = true;
                    rollup.push(Step(Dir::Up, x.clone()));
                    proof {
                        let up = StepModel { dir: Dir::Up, migration: msv[i as int]->Pending_0 };
                        assert(rollup.deep_view() =~= ru_pre.push(up));
                        if fix_plans(msv.skip(i + 1), true) is Ok {
                            let p = fix_plans(msv.skip(i + 1), true)->Ok_0;
                            assert(ru_pre + (seq![up] + p.1) =~= rollup.deep_view() + p.1);
                        }
                    }
                },
            }
            i += 1;
        }
        proof {
            assert(msv.skip(msv.len() as int) =~= Seq::<MatchingModel>::empty());
            assert(rollback_rev.deep_view() + Seq::<StepModel>::empty()
                =~= rollback_rev.deep_view());
            assert(rollup.deep_view() + Seq::<StepModel>::empty() =~= rollup.deep_view());
        }
        let mut plan = Self::extend_reversed(Vec::new(), rollback_rev);
        let ghost plan_mid = plan.deep_view();
        let ghost ru_final = rollup.deep_view();
        let mut rollup = rollup;
        plan.append(&mut rollup);
        proof {
            assert(plan.deep_view() =~= plan_mid + ru_final) by {
                assert forall|k: int| 0 <= k < plan.deep_view().len() implies plan.deep_view()[k]
                    == (plan_mid + ru_final)[k] by {
                    if k < plan_mid.len() {
                        assert(plan@[k] == plan@.subrange(0, plan_mid.len() as int)[k]);
                    }
                }
            }
            assert(Seq::<StepModel>::empty() + full->Ok_0.0.reverse() =~= full->Ok_0.0.reverse());
        }
        Ok(Plan(plan))
    }

    /// Compile the `redo` plan: roll back the most recent reversible
    /// migrations up to the count, newest first, then re-apply them
    /// oldest first.
    pub fn redo(self) -> (result: Result<Plan, Error>)
        ensures
            ({
                let spec_result = redo_plans(
                    self.matches.deep_view(),
                    self.count,
                    self.ignore_divergent,
                    self.ignore_unreversable,
                    0,
                );
                match result {
                    Ok(p) => spec_result matches Ok(pair) && p@ == pair.0 + pair.1.reverse(),
                    Err(e) => spec_result == Err::<(Seq<StepModel>, Seq<StepModel>), Error>(e),
                }
            }),
    {
        let ghost msv = self.matches.deep_view();
        let ghost full = redo_plans(
            msv,
            self.count,
            self.ignore_divergent,
            self.ignore_unreversable,
            0,
        );
        let mut rollback: Vec<Step> = Vec::new();
        let mut rollup_rev: Vec<Step> = Vec::new();
        let mut i: usize = self.matches.len();
        let mut stopped = false;
        proof {
            assert(msv.take(msv.len() as int) =~= msv);
            if full is Ok {
                assert(rollback.deep_view() + full->Ok_0.0 =~= full->Ok_0.0);
                assert(rollup_rev.deep_view() + full->Ok_0.1 =~= full->Ok_0.1);
            }
        }
        while i > 0 && !stopped
            invariant
                msv == self.matches.deep_view(),
                msv.len() == self.matches@.len(),
                0 <= i <= msv.len(),
                full == redo_plans(
                    msv,
                    self.count,
                    self.ignore_divergent,
                    self.ignore_unreversable,
                    0,
                ),
                stopped ==> full == Ok::<(Seq<StepModel>, Seq<StepModel>), Error>(
                    (rollback.deep_view(), rollup_rev.deep_view()),
                ),
                !stopped ==> full == (match redo_plans(
                    msv.take(i as int),
                    self.count,
                    self.ignore_divergent,
                    self.ignore_unreversable,
                    rollback.deep_view().len() as nat,
                ) {
                    Ok(p) => Ok::<(Seq<StepModel>, Seq<StepModel>), Error>(
                        (rollback.deep_view() + p.0, rollup_rev.deep_view() + p.1),
                    ),
                    Err(e) => Err::<(Seq<StepModel>, Seq<StepModel>), Error>(e),
                }),
            decreases i,
        {
            i -= 1;
            let ghost pre = msv.take(i + 1);
            let ghost taken0 = rollback.deep_view().len() as nat;
            let ghost rb_pre = rollback.deep_view();
            let ghost ru_pre = rollup_rev.deep_view();
            proof {
                assert(pre.drop_last() =~= msv.take(i as int));
                assert(pre.last() == msv[i as int]);
            }
            let m = &self.matches[i];
            match m {
                Matching::Divergent(_) => {
                    if self.ignore_divergent {
                        // skipped outright: not even counted toward the stop
                        continue;
                    }
                    return Err(Error::DivergentMigration);
                },
                Matching::Applied(_) | Matching::Variant(_, _) => {
                    if m.is_reversable() {
                        let best = m.get_best_down_migration().clone();
                        let local = match m.get_local_migration() {
                            Some(l) => l.clone(),
                            None => {
                                proof {
                                    assert(false);
                                }
                                return Err(Error::Unknown);
                            },
                        };
                        rollback.push(Step(Dir::Down, best));
                        rollup_rev.push(Step(Dir::Up, local));
                        let stop = Self::stop_reached(self.count, rollback.len());
                        if stop {
                            stopped = true;
                        }
                        proof {
                            let down = StepModel {
                                dir: Dir::Down,
                                migration: msv[i as int].best_down(),
                            };
                            let up = StepModel {
                                dir: Dir::Up,
                                migration: msv[i as int].local_of()->Some_0,
                            };
                            assert(rollback.deep_view() =~= rb_pre.push(down));
                            assert(rollup_rev.deep_view() =~= ru_pre.push(up));
                            assert(rb_pre + seq![down] =~= rb_pre.push(down));
                            assert(ru_pre + seq![up] =~= ru_pre.push(up));
                            if !stop {
                                if redo_plans(
                                    msv.take(i as int),
                                    self.count,
                                    self.ignore_divergent,
                                    self.ignore_unreversable,
                                    taken0 + 1,
                                ) is Ok {
                                    let p = redo_plans(
                                        msv.take(i as int),
                                        self.count,
                                        self.ignore_divergent,
                                        self.ignore_unreversable,
                                        taken0 + 1,
                                    )->Ok_0;
                                    assert(rb_pre + (seq![down] + p.0) =~= rollback.deep_view()
                                        + p.0);
                                    assert(ru_pre + (seq![up] + p.1) =~= rollup_rev.deep_view()
                                        + p.1);
                                }
                            }
                        }
                    } else if !self.ignore_unreversable {
                        return Err(Error::UnrollbackableMigration);
                    } else {
                        let stop = Self::stop_reached(self.count, rollback.len());
                        if stop {
                            stopped = true;
                            proof {
                                assert(rb_pre + Seq::<StepModel>::empty() =~= rb_pre);
                                assert(ru_pre + Seq::<StepModel>::empty() =~= ru_pre);
                            }
                        }
                    }
                },
                Matching::Pending(_) => {
                    let stop = Self::stop_reached(self.count, rollback.len());
                    if stop {
                        stopped = true;
                        proof {
                            assert(rb_pre + Seq::<StepModel>::empty() =~= rb_pre);
                            assert(ru_pre + Seq::<StepModel>::empty() =~= ru_pre);
                        }
                    }
                },
            }
        }
        proof {
            if !stopped {
                assert(msv.take(0) =~= Seq::<MatchingModel>::empty());
                assert(rollback.deep_view() + Seq::<StepModel>::empty() =~= rollback.deep_view());
                assert(rollup_rev.deep_view() + Seq::<StepModel>::empty()
                    =~= rollup_rev.deep_view());
            }
        }
        let plan = Self::extend_reversed(rollback, rollup_rev);
        Ok(Plan(plan))
    }

    /// Hand the matchings back unchanged, for display.
    pub fn status(self) -> (result: Result<Vec<Matching>, Error>)
        ensures
            result matches Ok(v) && v == self.matches,
    {
        Ok(self.matches)
    }

    /// Append the elements of `source` to `target` in reverse order.
    fn extend_reversed(target: Vec<Step>, source: Vec<Step>) -> (result: Vec<Step>)
        ensures
            result.deep_view() == target.deep_view() + source.deep_view().reverse(),
    {
        let mut target = target;
        let mut source = source;
        let ghost t0 = target.deep_view();
        let ghost s0 = source.deep_view();
        proof {
            assert(s0.take(source@.len() as int) =~= s0);
            assert(s0.skip(source@.len() as int).reverse() =~= Seq::<StepModel>::empty());
            assert(t0 + Seq::<StepModel>::empty() =~= t0);
        }
        while source.len() > 0
            invariant
                source.deep_view() == s0.take(source@.len() as int),
                target.deep_view() == t0 + s0.skip(source@.len() as int).reverse(),
                source@.len() <= s0.len(),
            decreases source@.len(),
        {
            let ghost j = source@.len() as int;
            let ghost src_pre = source.deep_view();
            let s = match source.pop() {
                Some(s) => s,
                None => {
                    proof {
                        assert(false);
                    }
                    return target;
                },
            };
            target.push(s);
            proof {
                assert(s@ == src_pre[j - 1]);
                assert(src_pre[j - 1] == s0.take(j)[j - 1]);
                assert(s@ == s0[j - 1]);
                assert(source.deep_view() =~= s0.take(j - 1));
                assert(target.deep_view() =~= (t0 + s0.skip(j).reverse()).push(s0[j - 1]));
                assert(target.deep_view() =~= t0 + s0.skip(j - 1).reverse()) by {
                    assert(s0.skip(j - 1).reverse() =~= s0.skip(j).reverse().push(s0[j - 1]))
                        by {
                        assert forall|k: int|
                            0 <= k < s0.skip(j - 1).reverse().len() implies #[trigger] s0.skip(
                            j - 1,
                        ).reverse()[k] == s0.skip(j).reverse().push(s0[j - 1])[k] by {
                            let n = s0.len();
                            assert(s0.skip(j - 1).reverse()[k] == s0.skip(j - 1)[n - j + 1 - 1
                                - k]);
                            if k < n - j {
                                assert(s0.skip(j).reverse()[k] == s0.skip(j)[n - j - 1 - k]);
                            }
                        }
                    }
                }
            }
        }
        proof {
            assert(s0.skip(0).reverse() =~= s0.reverse());
        }
        target
    }
}

} // verus!

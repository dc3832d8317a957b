use vstd::prelude::*;

use crate::errors::Error;
use crate::match_maker::{
    classify_pair, hashes_compatible, lemma_lex_lt_irreflexive, lemma_lex_lt_transitive,
    lemma_lex_lt_trichotomy, lex_le, lex_lt, matches_of, sorted_by_name, MatchingModel,
};
use crate::migration::MigrationModel;
use crate::plan_builder::{
    down_plan, fix_plans, pending_up_steps, redo_plans, stop_now, up_plan, Dir, StepModel,
};

verus! {

/// Names strictly ascend through the migration list.
pub open spec fn sorted_migrations(ms: Seq<MigrationModel>) -> bool {
    forall|i: int, j: int| 0 <= i < j < ms.len() ==> lex_lt(ms[i].name, ms[j].name)
}

/// Names strictly ascend through the matching list.
pub open spec fn sorted_matchings(ms: Seq<MatchingModel>) -> bool {
    forall|i: int, j: int| 0 <= i < j < ms.len() ==> lex_lt(ms[i].name_of(), ms[j].name_of())
}

/// Every matching in the list pairs records of one name.
pub open spec fn wf_matchings(ms: Seq<MatchingModel>) -> bool {
    forall|i: int| 0 <= i < ms.len() ==> ms[i].wf()
}

/// Step names strictly ascend through the plan.
pub open spec fn steps_ascending(s: Seq<StepModel>) -> bool {
    forall|i: int, j: int| 0 <= i < j < s.len() ==> lex_lt(s[i].migration.name, s[j].migration.name)
}

/// Step names strictly descend through the plan.
pub open spec fn steps_descending(s: Seq<StepModel>) -> bool {
    forall|i: int, j: int| 0 <= i < j < s.len() ==> lex_lt(s[j].migration.name, s[i].migration.name)
}

/// Every step of the plan goes the one direction.
pub open spec fn steps_all_dir(s: Seq<StepModel>, dir: Dir) -> bool {
    forall|i: int| 0 <= i < s.len() ==> s[i].dir == dir
}

/// Every step of the plan carries a down SQL.
pub open spec fn steps_reversible(s: Seq<StepModel>) -> bool {
    forall|i: int| 0 <= i < s.len() ==> s[i].migration.down_sql is Some
}

/// Every divergent matching in the list is reversible.
pub open spec fn divergent_reversible(ms: Seq<MatchingModel>) -> bool {
    forall|i: int| 0 <= i < ms.len() && ms[i] is Divergent ==> ms[i].is_reversable()
}

/// No two migrations in the list share a name.
pub open spec fn distinct_names(ms: Seq<MigrationModel>) -> bool {
    forall|i: int, j: int| 0 <= i < j < ms.len() ==> ms[i].name != ms[j].name
}

/// A list sorted by [`crate::match_maker::sort_by_name`] whose names
/// are distinct — unique by construction on disk and in the tracking
/// table — is strictly ascending, as the planning laws assume.
pub proof fn lemma_distinct_sorted_strict(ms: Seq<MigrationModel>)
    requires
        sorted_by_name(ms),
        distinct_names(ms),
    ensures
        sorted_migrations(ms),
{
    assert forall|i: int, j: int| 0 <= i < j < ms.len() implies lex_lt(
        ms[i].name,
        ms[j].name,
    ) by {
        lemma_lex_lt_trichotomy(ms[i].name, ms[j].name);
        assert(lex_le(ms[i].name, ms[j].name));
        assert(!lex_lt(ms[j].name, ms[i].name));
    }
}

/// The name occurs in one of the two migration lists.
pub open spec fn name_in_lists(
    n: Seq<char>,
    l: Seq<MigrationModel>,
    a: Seq<MigrationModel>,
) -> bool {
    (exists|i: int| 0 <= i < l.len() && l[i].name == n) || (exists|i: int|
        0 <= i < a.len() && a[i].name == n)
}

/// Every matching carries a name drawn from the two lists.
pub proof fn lemma_matches_of_names(l: Seq<MigrationModel>, a: Seq<MigrationModel>)
    ensures
        forall|k: int|
            0 <= k < matches_of(l, a).len() ==> name_in_lists(
                #[trigger] matches_of(l, a)[k].name_of(),
                l,
                a,
            ),
    decreases l.len() + a.len(),
{
    let ms = matches_of(l, a);
    if l.len() == 0 && a.len() == 0 {
    } else {
        let (l2, a2): (Seq<MigrationModel>, Seq<MigrationModel>) = if l.len() == 0 {
            (l, a.drop_first())
        } else if a.len() == 0 {
            (l.drop_first(), a)
        } else if lex_lt(l[0].name, a[0].name) {
            (l.drop_first(), a)
        } else if lex_lt(a[0].name, l[0].name) {
            (l, a.drop_first())
        } else {
            (l.drop_first(), a.drop_first())
        };
        lemma_matches_of_names(l2, a2);
        let rest = matches_of(l2, a2);
        assert forall|k: int| 0 <= k < ms.len() implies name_in_lists(
            #[trigger] ms[k].name_of(),
            l,
            a,
        ) by {
            if k == 0 {
                if l.len() == 0 {
                    assert(a[0].name == ms[0].name_of());
                } else if a.len() == 0 {
                    assert(l[0].name == ms[0].name_of());
                } else if lex_lt(l[0].name, a[0].name) {
                    assert(l[0].name == ms[0].name_of());
                } else if lex_lt(a[0].name, l[0].name) {
                    assert(a[0].name == ms[0].name_of());
                } else {
                    if hashes_compatible(l[0], a[0]) {
                        assert(a[0].name == ms[0].name_of());
                    } else {
                        assert(l[0].name == ms[0].name_of());
                    }
                }
            } else {
                assert(ms[k] == rest[k - 1]);
                assert(name_in_lists(rest[k - 1].name_of(), l2, a2));
                if exists|i: int| 0 <= i < l2.len() && l2[i].name == rest[k - 1].name_of() {
                    let i = choose|i: int|
                        0 <= i < l2.len() && l2[i].name == rest[k - 1].name_of();
                    if l2.len() < l.len() {
                        assert(l[i + 1].name == ms[k].name_of());
                    } else {
                        assert(l[i].name == ms[k].name_of());
                    }
                } else {
                    let i = choose|i: int|
                        0 <= i < a2.len() && a2[i].name == rest[k - 1].name_of();
                    if a2.len() < a.len() {
                        assert(a[i + 1].name == ms[k].name_of());
                    } else {
                        assert(a[i].name == ms[k].name_of());
                    }
                }
            }
        }
    }
}

/// Law (matcher ordering): pairing two sorted lists yields matchings
/// whose names strictly ascend, each pairing records of one name.
pub proof fn lemma_matches_of_sorted(l: Seq<MigrationModel>, a: Seq<MigrationModel>)
    requires
        sorted_migrations(l),
        sorted_migrations(a),
    ensures
        sorted_matchings(matches_of(l, a)),
        wf_matchings(matches_of(l, a)),
    decreases l.len() + a.len(),
{
    let ms = matches_of(l, a);
    if l.len() == 0 && a.len() == 0 {
    } else {
        let (l2, a2): (Seq<MigrationModel>, Seq<MigrationModel>) = if l.len() == 0 {
            (l, a.drop_first())
        } else if a.len() == 0 {
            (l.drop_first(), a)
        } else if lex_lt(l[0].name, a[0].name) {
            (l.drop_first(), a)
        } else if lex_lt(a[0].name, l[0].name) {
            (l, a.drop_first())
        } else {
            (l.drop_first(), a.drop_first())
        };
        assert(sorted_migrations(l2)) by {
            if l2.len() < l.len() {
                assert forall|i: int, j: int| 0 <= i < j < l2.len() implies lex_lt(
                    l2[i].name,
                    l2[j].name,
                ) by {
                    assert(l2[i] == l[i + 1] && l2[j] == l[j + 1]);
                }
            }
        }
        assert(sorted_migrations(a2)) by {
            if a2.len() < a.len() {
                assert forall|i: int, j: int| 0 <= i < j < a2.len() implies lex_lt(
                    a2[i].name,
                    a2[j].name,
                ) by {
                    assert(a2[i] == a[i + 1] && a2[j] == a[j + 1]);
                }
            }
        }
        lemma_matches_of_sorted(l2, a2);
        lemma_matches_of_names(l2, a2);
        let rest = matches_of(l2, a2);
        let head = ms[0];
        if l.len() > 0 && a.len() > 0 && !lex_lt(l[0].name, a[0].name) && !lex_lt(
            a[0].name,
            l[0].name,
        ) {
            lemma_lex_lt_trichotomy(l[0].name, a[0].name);
            assert(l[0].name == a[0].name);
        }
        // the head's name sits strictly below every name left in either list
        assert forall|k: int| 0 <= k < rest.len() implies lex_lt(
            head.name_of(),
            #[trigger] rest[k].name_of(),
        ) by {
            assert(name_in_lists(rest[k].name_of(), l2, a2));
            if exists|i: int| 0 <= i < l2.len() && l2[i].name == rest[k].name_of() {
                let i = choose|i: int| 0 <= i < l2.len() && l2[i].name == rest[k].name_of();
                if l2.len() < l.len() {
                    assert(l2[i] == l[i + 1]);
                    assert(lex_lt(l[0].name, l[i + 1].name));
                    if head.name_of() != l[0].name {
                        assert(a.len() > 0 && head.name_of() == a[0].name);
                        assert(lex_lt(a[0].name, l[0].name) || a[0].name == l[0].name);
                        if lex_lt(a[0].name, l[0].name) {
                            lemma_lex_lt_transitive(a[0].name, l[0].name, l[i + 1].name);
                        }
                    }
                } else {
                    // the head came from the applied side alone
                    assert(a.len() > 0 && head.name_of() == a[0].name);
                    assert(lex_lt(a[0].name, l[i].name) || i > 0);
                    if !lex_lt(a[0].name, l[i].name) {
                        assert(lex_lt(l[0].name, l[i].name));
                        assert(lex_lt(a[0].name, l[0].name));
                        lemma_lex_lt_transitive(a[0].name, l[0].name, l[i].name);
                    }
                }
            } else {
                let i = choose|i: int| 0 <= i < a2.len() && a2[i].name == rest[k].name_of();
                if a2.len() < a.len() {
                    assert(a2[i] == a[i + 1]);
                    assert(lex_lt(a[0].name, a[i + 1].name));
                    if head.name_of() != a[0].name {
                        assert(l.len() > 0 && head.name_of() == l[0].name);
                        assert(lex_lt(l[0].name, a[0].name) || l[0].name == a[0].name);
                        if lex_lt(l[0].name, a[0].name) {
                            lemma_lex_lt_transitive(l[0].name, a[0].name, a[i + 1].name);
                        }
                    }
                } else {
                    // the head came from the local side alone
                    assert(l.len() > 0 && head.name_of() == l[0].name);
                    if !lex_lt(l[0].name, a[i].name) {
                        assert(i > 0);
                        assert(lex_lt(a[0].name, a[i].name));
                        assert(lex_lt(l[0].name, a[0].name));
                        lemma_lex_lt_transitive(l[0].name, a[0].name, a[i].name);
                    }
                }
            }
        }
        assert forall|i: int, j: int| 0 <= i < j < ms.len() implies lex_lt(
            ms[i].name_of(),
            ms[j].name_of(),
        ) by {
            assert(ms[j] == rest[j - 1]);
            if i > 0 {
                assert(ms[i] == rest[i - 1]);
            }
        }
        assert forall|i: int| 0 <= i < ms.len() implies ms[i].wf() by {
            if i > 0 {
                assert(ms[i] == rest[i - 1]);
            }
        }
    }
}

/// Law: planning is deterministic.  The matchings are a function of the
/// two migration lists alone, and each command's plan is a function of
/// the matchings and the flags alone, so two runs over equal inputs
/// plan the same commands — nothing else (time, environment, iteration
/// order) enters the result.
pub proof fn lemma_planning_deterministic(
    local1: Seq<MigrationModel>,
    applied1: Seq<MigrationModel>,
    local2: Seq<MigrationModel>,
    applied2: Seq<MigrationModel>,
    count: Option<usize>,
    ignore_divergent: bool,
    ignore_unreversable: bool,
)
    requires
        local1 == local2,
        applied1 == applied2,
    ensures
        matches_of(local1, applied1) == matches_of(local2, applied2),
        up_plan(matches_of(local1, applied1), count) == up_plan(
            matches_of(local2, applied2),
            count,
        ),
        down_plan(matches_of(local1, applied1), count, ignore_divergent, ignore_unreversable, 0)
            == down_plan(
            matches_of(local2, applied2),
            count,
            ignore_divergent,
            ignore_unreversable,
            0,
        ),
        fix_plans(matches_of(local1, applied1), false) == fix_plans(
            matches_of(local2, applied2),
            false,
        ),
        redo_plans(matches_of(local1, applied1), count, ignore_divergent, ignore_unreversable, 0)
            == redo_plans(
            matches_of(local2, applied2),
            count,
            ignore_divergent,
            ignore_unreversable,
            0,
        ),
{
}

/// The name is the name of some matching in the list.
pub open spec fn step_name_in(ms: Seq<MatchingModel>, n: Seq<char>) -> bool {
    exists|i: int| 0 <= i < ms.len() && ms[i].name_of() == n
}

/// Every step's name is the name of some matching in the list.
pub open spec fn step_names_from(s: Seq<StepModel>, ms: Seq<MatchingModel>) -> bool {
    forall|k: int| 0 <= k < s.len() ==> step_name_in(ms, #[trigger] s[k].migration.name)
}

/// For a matching that pairs records of one name, the best down record
/// carries that name.
pub proof fn lemma_best_down_name(m: MatchingModel)
    requires
        m.wf(),
    ensures
        m.best_down().name == m.name_of(),
{
}

/// For a non-divergent matching that pairs records of one name, the
/// local record carries that name.
pub proof fn lemma_local_name(m: MatchingModel)
    requires
        m.wf(),
        !(m is Divergent),
    ensures
        m.local_of() matches Some(r) && r.name == m.name_of(),
{
}

/// Ascending step names survive a reversal, descending.
pub proof fn lemma_reverse_flips(s: Seq<StepModel>)
    requires
        steps_ascending(s),
    ensures
        steps_descending(s.reverse()),
{
    assert forall|i: int, j: int| 0 <= i < j < s.reverse().len() implies lex_lt(
        s.reverse()[j].migration.name,
        s.reverse()[i].migration.name,
    ) by {
        assert(s.reverse()[i] == s[s.len() - 1 - i]);
        assert(s.reverse()[j] == s[s.len() - 1 - j]);
    }
}

/// The walk behind the `up` plan keeps ascending names, each drawn from
/// the matchings, and every step going up.
pub proof fn lemma_pending_up_steps_ordered(ms: Seq<MatchingModel>)
    requires
        sorted_matchings(ms),
    ensures
        steps_ascending(pending_up_steps(ms)),
        steps_all_dir(pending_up_steps(ms), Dir::Up),
        step_names_from(pending_up_steps(ms), ms),
    decreases ms.len(),
{
    let s = pending_up_steps(ms);
    if ms.len() > 0 {
        let msr = ms.drop_last();
        assert forall|i: int, j: int| 0 <= i < j < msr.len() implies lex_lt(
            msr[i].name_of(),
            msr[j].name_of(),
        ) by {
            assert(msr[i] == ms[i] && msr[j] == ms[j]);
        }
        lemma_pending_up_steps_ordered(msr);
        let rest = pending_up_steps(msr);
        assert forall|k: int| 0 <= k < rest.len() implies lex_lt(
            #[trigger] rest[k].migration.name,
            ms.last().name_of(),
        ) by {
            let i = choose|i: int| 0 <= i < msr.len() && msr[i].name_of() == rest[k].migration.name;
            assert(msr[i] == ms[i]);
            assert(lex_lt(ms[i].name_of(), ms[ms.len() - 1].name_of()));
        }
        match ms.last() {
            MatchingModel::Pending(l) => {
                assert(s == rest.push(StepModel { dir: Dir::Up, migration: l }));
                assert(l.name == ms.last().name_of());
                assert forall|k: int| 0 <= k < s.len() implies step_name_in(
                    ms,
                    #[trigger] s[k].migration.name,
                ) by {
                    if k < rest.len() {
                        let i = choose|i: int|
                            0 <= i < msr.len() && msr[i].name_of() == rest[k].migration.name;
                        assert(ms[i].name_of() == s[k].migration.name);
                    } else {
                        assert(ms[ms.len() - 1].name_of() == s[k].migration.name);
                    }
                }
            },
            _ => {
                assert(s == rest);
                assert forall|k: int| 0 <= k < s.len() implies step_name_in(
                    ms,
                    #[trigger] s[k].migration.name,
                ) by {
                    let i = choose|i: int|
                        0 <= i < msr.len() && msr[i].name_of() == rest[k].migration.name;
                    assert(ms[i].name_of() == s[k].migration.name);
                }
            },
        }
    }
}

/// Law (`up` ordering): against sorted matchings, the `up` plan walks
/// strictly ascending names, and every step goes up — so it never rolls
/// anything back.
pub proof fn lemma_up_plan_ordered(ms: Seq<MatchingModel>, count: Option<usize>)
    requires
        sorted_matchings(ms),
    ensures
        steps_ascending(up_plan(ms, count)),
        steps_all_dir(up_plan(ms, count), Dir::Up),
    decreases ms.len(),
{
    lemma_pending_up_steps_ordered(ms);
    let s = pending_up_steps(ms);
    let p = up_plan(ms, count);
    assert forall|i: int| 0 <= i < p.len() implies p[i] == s[i] by {}
}

/// Law (`down` ordering and reversibility gate): against sorted
/// matchings, a successful `down` plan walks strictly descending names,
/// every step goes down, and — as long as every divergent matching
/// still has its down SQL — every step can actually be rolled back.
pub proof fn lemma_down_plan_ordered(
    ms: Seq<MatchingModel>,
    count: Option<usize>,
    ignore_divergent: bool,
    ignore_unreversable: bool,
    taken: nat,
)
    requires
        sorted_matchings(ms),
        wf_matchings(ms),
    ensures
        down_plan(ms, count, ignore_divergent, ignore_unreversable, taken) matches Ok(s) ==> {
            &&& steps_descending(s)
            &&& steps_all_dir(s, Dir::Down)
            &&& step_names_from(s, ms)
            &&& (divergent_reversible(ms) ==> steps_reversible(s))
        },
    decreases ms.len(),
{
    if ms.len() > 0 {
        let msr = ms.drop_last();
        let m = ms.last();
        assert forall|i: int, j: int| 0 <= i < j < msr.len() implies lex_lt(
            msr[i].name_of(),
            msr[j].name_of(),
        ) by {
            assert(msr[i] == ms[i] && msr[j] == ms[j]);
        }
        assert forall|i: int| 0 <= i < msr.len() implies msr[i].wf() by {
            assert(msr[i] == ms[i]);
        }
        assert(divergent_reversible(ms) ==> divergent_reversible(msr)) by {
            if divergent_reversible(ms) {
                assert forall|i: int|
                    0 <= i < msr.len() && msr[i] is Divergent implies msr[i].is_reversable() by {
                    assert(msr[i] == ms[i]);
                }
            }
        }
        lemma_down_plan_ordered(msr, count, ignore_divergent, ignore_unreversable, taken);
        lemma_down_plan_ordered(msr, count, ignore_divergent, ignore_unreversable, taken + 1);
        lemma_best_down_name(m);
        let full = down_plan(ms, count, ignore_divergent, ignore_unreversable, taken);
        if full is Ok {
            let s = full->Ok_0;
            let appended: bool = match m {
                MatchingModel::Divergent(_) => !ignore_divergent,
                MatchingModel::Pending(_) => false,
                _ => m.is_reversable(),
            };
            if appended {
                let step = StepModel { dir: Dir::Down, migration: m.best_down() };
                assert(step.migration.name == m.name_of());
                assert(m.is_reversable() && !(m is Pending) ==> step.migration.down_sql is Some);
                let r: Seq<StepModel> = if stop_now(count, taken + 1) {
                    Seq::empty()
                } else {
                    down_plan(msr, count, ignore_divergent, ignore_unreversable, taken + 1)->Ok_0
                };
                assert(s == seq![step] + r);
                assert(step_names_from(r, msr) || r.len() == 0);
                assert forall|k: int| 0 <= k < s.len() implies step_name_in(
                    ms,
                    #[trigger] s[k].migration.name,
                ) by {
                    if k == 0 {
                        assert(ms[ms.len() - 1].name_of() == s[0].migration.name);
                    } else {
                        let i = choose|i: int|
                            0 <= i < msr.len() && msr[i].name_of() == r[k - 1].migration.name;
                        assert(ms[i].name_of() == s[k].migration.name);
                    }
                }
                assert forall|i: int, j: int| 0 <= i < j < s.len() implies lex_lt(
                    s[j].migration.name,
                    s[i].migration.name,
                ) by {
                    if i == 0 {
                        let w = choose|w: int|
                            0 <= w < msr.len() && msr[w].name_of() == r[j - 1].migration.name;
                        assert(msr[w] == ms[w]);
                        assert(lex_lt(ms[w].name_of(), m.name_of()));
                    } else {
                        assert(s[i] == r[i - 1] && s[j] == r[j - 1]);
                    }
                }
                if divergent_reversible(ms) {
                    assert(m is Divergent ==> m.is_reversable());
                    assert(step.migration.down_sql is Some);
                    assert forall|k: int|
                        0 <= k < s.len() implies #[trigger] s[k].migration.down_sql is Some by {
                        if k > 0 {
                            assert(s[k] == r[k - 1]);
                        }
                    }
                }
            } else {
                let skipped: Seq<StepModel> = Seq::empty();
                if s != skipped {
                    let r = down_plan(msr, count, ignore_divergent, ignore_unreversable, taken);
                    assert(r == Ok::<Seq<StepModel>, Error>(s));
                }
            }
        }
    }
}

/// Steps drawn from the tail of the matchings are drawn from the whole.
proof fn lemma_names_weaken_front(r: Seq<StepModel>, ms: Seq<MatchingModel>)
    requires
        ms.len() > 0,
        step_names_from(r, ms.drop_first()),
    ensures
        step_names_from(r, ms),
{
    let msr = ms.drop_first();
    assert forall|k: int| 0 <= k < r.len() implies step_name_in(
        ms,
        #[trigger] r[k].migration.name,
    ) by {
        let i = choose|i: int| 0 <= i < msr.len() && msr[i].name_of() == r[k].migration.name;
        assert(msr[i] == ms[i + 1]);
        assert(ms[i + 1].name_of() == r[k].migration.name);
    }
}

/// Prepending the head matching's step to steps drawn from the tail
/// keeps the names ascending and drawn from the whole.
proof fn lemma_prepend_step(head: StepModel, r: Seq<StepModel>, ms: Seq<MatchingModel>)
    requires
        ms.len() > 0,
        sorted_matchings(ms),
        steps_ascending(r),
        step_names_from(r, ms.drop_first()),
        head.migration.name == ms[0].name_of(),
    ensures
        steps_ascending(seq![head] + r),
        step_names_from(seq![head] + r, ms),
{
    let msr = ms.drop_first();
    let s = seq![head] + r;
    assert forall|k: int| 0 <= k < r.len() implies lex_lt(
        head.migration.name,
        #[trigger] r[k].migration.name,
    ) by {
        let i = choose|i: int| 0 <= i < msr.len() && msr[i].name_of() == r[k].migration.name;
        assert(msr[i] == ms[i + 1]);
        assert(lex_lt(ms[0].name_of(), ms[i + 1].name_of()));
    }
    assert forall|i: int, j: int| 0 <= i < j < s.len() implies lex_lt(
        s[i].migration.name,
        s[j].migration.name,
    ) by {
        assert(s[j] == r[j - 1]);
        if i > 0 {
            assert(s[i] == r[i - 1]);
        }
    }
    assert forall|k: int| 0 <= k < s.len() implies step_name_in(
        ms,
        #[trigger] s[k].migration.name,
    ) by {
        if k == 0 {
            assert(ms[0].name_of() == s[0].migration.name);
        } else {
            let i = choose|i: int| 0 <= i < msr.len() && msr[i].name_of() == r[k - 1].migration.name;
            assert(msr[i] == ms[i + 1]);
            assert(ms[i + 1].name_of() == s[k].migration.name);
        }
    }
}

/// Law (`fix` ordering and reversibility gate): against sorted
/// matchings, a successful `fix` gathers its down steps and its up
/// steps each in strictly ascending walk order — so the final plan
/// (downs reversed, then ups) rolls back newest first and re-applies
/// oldest first — and every down step can actually be rolled back.
pub proof fn lemma_fix_plans_ordered(ms: Seq<MatchingModel>, bad_found: bool)
    requires
        sorted_matchings(ms),
        wf_matchings(ms),
    ensures
        fix_plans(ms, bad_found) matches Ok(p) ==> {
            &&& steps_ascending(p.0)
            &&& steps_ascending(p.1)
            &&& steps_all_dir(p.0, Dir::Down)
            &&& steps_all_dir(p.1, Dir::Up)
            &&& steps_reversible(p.0)
            &&& step_names_from(p.0, ms)
            &&& step_names_from(p.1, ms)
        },
    decreases ms.len(),
{
    if ms.len() > 0 {
        let msr = ms.drop_first();
        let m = ms.first();
        assert forall|i: int, j: int| 0 <= i < j < msr.len() implies lex_lt(
            msr[i].name_of(),
            msr[j].name_of(),
        ) by {
            assert(msr[i] == ms[i + 1] && msr[j] == ms[j + 1]);
        }
        assert forall|i: int| 0 <= i < msr.len() implies msr[i].wf() by {
            assert(msr[i] == ms[i + 1]);
        }
        lemma_fix_plans_ordered(msr, true);
        lemma_fix_plans_ordered(msr, false);
        lemma_best_down_name(m);
        let full = fix_plans(ms, bad_found);
        if full is Ok {
            let p = full->Ok_0;
            match m {
                MatchingModel::Divergent(x) => {
                    let rest = fix_plans(msr, true)->Ok_0;
                    let down = StepModel { dir: Dir::Down, migration: x };
                    assert(p.0 == seq![down] + rest.0 && p.1 == rest.1);
                    lemma_prepend_step(down, rest.0, ms);
                    lemma_names_weaken_front(rest.1, ms);
                },
                MatchingModel::Variant(l, _) => {
                    let rest = fix_plans(msr, true)->Ok_0;
                    let down = StepModel { dir: Dir::Down, migration: m.best_down() };
                    let up = StepModel { dir: Dir::Up, migration: l };
                    assert(p.0 == seq![down] + rest.0 && p.1 == seq![up] + rest.1);
                    assert(down.migration.down_sql is Some);
                    lemma_prepend_step(down, rest.0, ms);
                    lemma_prepend_step(up, rest.1, ms);
                },
                MatchingModel::Applied(x) => {
                    if bad_found {
                        let rest = fix_plans(msr, true)->Ok_0;
                        let down = StepModel { dir: Dir::Down, migration: x };
                        let up = StepModel { dir: Dir::Up, migration: x };
                        assert(p.0 == seq![down] + rest.0 && p.1 == seq![up] + rest.1);
                        lemma_prepend_step(down, rest.0, ms);
                        lemma_prepend_step(up, rest.1, ms);
                    } else {
                        let rest = fix_plans(msr, false)->Ok_0;
                        assert(p == rest);
                        lemma_names_weaken_front(rest.0, ms);
                        lemma_names_weaken_front(rest.1, ms);
                    }
                },
                MatchingModel::Pending(x) => {
                    let rest = fix_plans(msr, true)->Ok_0;
                    let up = StepModel { dir: Dir::Up, migration: x };
                    assert(p.0 == rest.0 && p.1 == seq![up] + rest.1);
                    lemma_names_weaken_front(rest.0, ms);
                    lemma_prepend_step(up, rest.1, ms);
                },
            }
        }
    }
}

/// Law (`redo` ordering and reversibility gate): against sorted
/// matchings, a successful `redo` gathers its down steps in strictly
/// descending walk order and its up steps likewise — so the final plan
/// (downs, then ups reversed) rolls back newest first and re-applies
/// oldest first — and every down step can actually be rolled back.
pub proof fn lemma_redo_plans_ordered(
    ms: Seq<MatchingModel>,
    count: Option<usize>,
    ignore_divergent: bool,
    ignore_unreversable: bool,
    taken: nat,
)
    requires
        sorted_matchings(ms),
        wf_matchings(ms),
    ensures
        redo_plans(ms, count, ignore_divergent, ignore_unreversable, taken) matches Ok(p) ==> {
            &&& steps_descending(p.0)
            &&& steps_descending(p.1)
            &&& steps_all_dir(p.0, Dir::Down)
            &&& steps_all_dir(p.1, Dir::Up)
            &&& steps_reversible(p.0)
            &&& step_names_from(p.0, ms)
            &&& step_names_from(p.1, ms)
        },
    decreases ms.len(),
{
    if ms.len() > 0 {
        let msr = ms.drop_last();
        let m = ms.last();
        assert forall|i: int, j: int| 0 <= i < j < msr.len() implies lex_lt(
            msr[i].name_of(),
            msr[j].name_of(),
        ) by {
            assert(msr[i] == ms[i] && msr[j] == ms[j]);
        }
        assert forall|i: int| 0 <= i < msr.len() implies msr[i].wf() by {
            assert(msr[i] == ms[i]);
        }
        lemma_redo_plans_ordered(msr, count, ignore_divergent, ignore_unreversable, taken);
        lemma_redo_plans_ordered(msr, count, ignore_divergent, ignore_unreversable, taken + 1);
        lemma_best_down_name(m);
        let full = redo_plans(ms, count, ignore_divergent, ignore_unreversable, taken);
        if full is Ok {
            let p = full->Ok_0;
            let appended: bool = match m {
                MatchingModel::Divergent(_) => false,
                MatchingModel::Pending(_) => false,
                _ => m.is_reversable(),
            };
            if appended {
                lemma_local_name(m);
                let down = StepModel { dir: Dir::Down, migration: m.best_down() };
                let up = StepModel { dir: Dir::Up, migration: m.local_of()->Some_0 };
                assert(down.migration.down_sql is Some);
                let (rd, ru): (Seq<StepModel>, Seq<StepModel>) = if stop_now(count, taken + 1) {
                    (Seq::empty(), Seq::empty())
                } else {
                    let rest = redo_plans(
                        msr,
                        count,
                        ignore_divergent,
                        ignore_unreversable,
                        taken + 1,
                    )->Ok_0;
                    (rest.0, rest.1)
                };
                assert(p.0 == seq![down] + rd && p.1 == seq![up] + ru);
                assert forall|k: int| 0 <= k < rd.len() implies lex_lt(
                    #[trigger] rd[k].migration.name,
                    m.name_of(),
                ) by {
                    let i = choose|i: int|
                        0 <= i < msr.len() && msr[i].name_of() == rd[k].migration.name;
                    assert(msr[i] == ms[i]);
                    assert(lex_lt(ms[i].name_of(), ms[ms.len() - 1].name_of()));
                }
                assert forall|k: int| 0 <= k < ru.len() implies lex_lt(
                    #[trigger] ru[k].migration.name,
                    m.name_of(),
                ) by {
                    let i = choose|i: int|
                        0 <= i < msr.len() && msr[i].name_of() == ru[k].migration.name;
                    assert(msr[i] == ms[i]);
                    assert(lex_lt(ms[i].name_of(), ms[ms.len() - 1].name_of()));
                }
                assert forall|i: int, j: int| 0 <= i < j < p.0.len() implies lex_lt(
                    p.0[j].migration.name,
                    p.0[i].migration.name,
                ) by {
                    assert(p.0[j] == rd[j - 1]);
                    if i > 0 {
                        assert(p.0[i] == rd[i - 1]);
                    }
                }
                assert forall|i: int, j: int| 0 <= i < j < p.1.len() implies lex_lt(
                    p.1[j].migration.name,
                    p.1[i].migration.name,
                ) by {
                    assert(p.1[j] == ru[j - 1]);
                    if i > 0 {
                        assert(p.1[i] == ru[i - 1]);
                    }
                }
                assert forall|k: int| 0 <= k < p.0.len() implies step_name_in(
                    ms,
                    #[trigger] p.0[k].migration.name,
                ) by {
                    if k == 0 {
                        assert(ms[ms.len() - 1].name_of() == p.0[0].migration.name);
                    } else {
                        let i = choose|i: int|
                            0 <= i < msr.len() && msr[i].name_of() == rd[k - 1].migration.name;
                        assert(ms[i].name_of() == p.0[k].migration.name);
                    }
                }
                assert forall|k: int| 0 <= k < p.1.len() implies step_name_in(
                    ms,
                    #[trigger] p.1[k].migration.name,
                ) by {
                    if k == 0 {
                        assert(ms[ms.len() - 1].name_of() == p.1[0].migration.name);
                    } else {
                        let i = choose|i: int|
                            0 <= i < msr.len() && msr[i].name_of() == ru[k - 1].migration.name;
                        assert(ms[i].name_of() == p.1[k].migration.name);
                    }
                }
                assert forall|k: int|
                    0 <= k < p.0.len() implies #[trigger] p.0[k].migration.down_sql is Some by {
                    if k > 0 {
                        assert(p.0[k] == rd[k - 1]);
                    }
                }
            } else {
                let empty_pair: (Seq<StepModel>, Seq<StepModel>) = (Seq::empty(), Seq::empty());
                if p != empty_pair {
                    assert(redo_plans(msr, count, ignore_divergent, ignore_unreversable, taken)
                        == Ok::<(Seq<StepModel>, Seq<StepModel>), Error>(p));
                }
            }
        }
    }
}

/// Pairing two lists that agree position by position — same names,
/// agreeing hashes — classifies every name as applied, keeping the
/// applied record.
pub proof fn lemma_matches_of_aligned(l: Seq<MigrationModel>, a: Seq<MigrationModel>)
    requires
        l.len() == a.len(),
        forall|i: int| 0 <= i < l.len() ==> #[trigger] l[i].name == a[i].name,
        forall|i: int| 0 <= i < l.len() ==> hashes_compatible(#[trigger] l[i], a[i]),
    ensures
        matches_of(l, a).len() == l.len(),
        forall|i: int|
            0 <= i < l.len() ==> #[trigger] matches_of(l, a)[i] == MatchingModel::Applied(a[i]),
    decreases l.len(),
{
    if l.len() > 0 {
        lemma_lex_lt_irreflexive(l[0].name);
        assert(hashes_compatible(l[0], a[0]));
        let l2 = l.drop_first();
        let a2 = a.drop_first();
        assert(forall|i: int| 0 <= i < l2.len() ==> #[trigger] l2[i] == l[i + 1]);
        assert(forall|i: int| 0 <= i < a2.len() ==> #[trigger] a2[i] == a[i + 1]);
        lemma_matches_of_aligned(l2, a2);
        let rest = matches_of(l2, a2);
        assert forall|i: int| 0 <= i < l.len() implies #[trigger] matches_of(l, a)[i]
            == MatchingModel::Applied(a[i]) by {
            if i > 0 {
                assert(matches_of(l, a)[i] == rest[i - 1]);
            }
        }
    }
}

/// Pairing a sorted list against itself classifies every name as
/// applied: equal names pair up, and a record's hash always agrees with
/// itself.
pub proof fn lemma_matches_of_self(local: Seq<MigrationModel>)
    ensures
        matches_of(local, local).len() == local.len(),
        forall|i: int| 0 <= i < local.len() ==> matches_of(local, local)[i] == MatchingModel::Applied(local[i]),
{
    lemma_matches_of_aligned(local, local);
}

/// No pending matchings means no up steps.
pub proof fn lemma_no_pending_no_up_steps(ms: Seq<MatchingModel>)
    requires
        forall|i: int| 0 <= i < ms.len() ==> !(ms[i] is Pending),
    ensures
        pending_up_steps(ms) == Seq::<StepModel>::empty(),
    decreases ms.len(),
{
    if ms.len() > 0 {
        assert(!(ms.last() is Pending));
        assert(forall|i: int| 0 <= i < ms.drop_last().len() ==> !(ms.drop_last()[i] is Pending));
        lemma_no_pending_no_up_steps(ms.drop_last());
    }
}

/// Law (round trip, settled side): when the applied set equals the
/// local set, every matching is applied and the `up` plan is empty.
pub proof fn lemma_up_round_trip_empty(local: Seq<MigrationModel>, count: Option<usize>)
    ensures
        up_plan(matches_of(local, local), count) == Seq::<StepModel>::empty(),
{
    lemma_matches_of_self(local);
    let ms = matches_of(local, local);
    assert(forall|i: int| 0 <= i < ms.len() ==> !(ms[i] is Pending));
    lemma_no_pending_no_up_steps(ms);
    assert(up_plan(ms, count) =~= Seq::<StepModel>::empty());
}

/// Rolling back a run of applied, reversible matchings takes the
/// newest ones, newest first, up to the count.
proof fn lemma_down_plan_all_applied(
    ms: Seq<MatchingModel>,
    c: usize,
    ignore_divergent: bool,
    ignore_unreversable: bool,
    taken: nat,
)
    requires
        forall|i: int| 0 <= i < ms.len() ==> ms[i] is Applied && ms[i].is_reversable(),
        taken < c,
    ensures
        down_plan(ms, Some(c), ignore_divergent, ignore_unreversable, taken) == Ok::<
            Seq<StepModel>,
            Error,
        >(
            Seq::new(
                if c - taken <= ms.len() {
                    (c - taken) as nat
                } else {
                    ms.len() as nat
                },
                |i: int|
                    StepModel { dir: Dir::Down, migration: ms[ms.len() - 1 - i]->Applied_0 },
            ),
        ),
    decreases ms.len(),
{
    let want = c - taken;
    let goal = Seq::new(
        if c - taken <= ms.len() {
            (c - taken) as nat
        } else {
            ms.len() as nat
        },
        |i: int| StepModel { dir: Dir::Down, migration: ms[ms.len() - 1 - i]->Applied_0 },
    );
    if ms.len() == 0 {
        assert(goal =~= Seq::<StepModel>::empty());
    } else {
        let m = ms.last();
        let step = StepModel { dir: Dir::Down, migration: m.best_down() };
        assert(m.best_down() == m->Applied_0);
        if stop_now(Some(c), taken + 1) {
            assert(want == 1);
            assert(goal =~= seq![step]);
        } else {
            let msr = ms.drop_last();
            assert(forall|i: int|
                0 <= i < msr.len() ==> #[trigger] msr[i] == ms[i]);
            lemma_down_plan_all_applied(msr, c, ignore_divergent, ignore_unreversable, taken + 1);
            let rest = down_plan(msr, Some(c), ignore_divergent, ignore_unreversable, taken + 1);
            assert(goal =~= seq![step] + rest->Ok_0);
        }
    }
}

/// Pairing a local list against an aligned prefix of the applied list
/// marks the prefix applied — keeping the applied records — and the
/// remainder pending, keeping the local records.
proof fn lemma_matches_of_prefix(l: Seq<MigrationModel>, a: Seq<MigrationModel>, m: int)
    requires
        l.len() == a.len(),
        forall|i: int| 0 <= i < l.len() ==> #[trigger] l[i].name == a[i].name,
        forall|i: int| 0 <= i < l.len() ==> hashes_compatible(#[trigger] l[i], a[i]),
        0 <= m <= l.len(),
    ensures
        matches_of(l, a.take(m)).len() == l.len(),
        forall|i: int|
            0 <= i < m ==> #[trigger] matches_of(l, a.take(m))[i] == MatchingModel::Applied(a[i]),
        forall|i: int|
            m <= i < l.len() ==> #[trigger] matches_of(l, a.take(m))[i]
                == MatchingModel::Pending(l[i]),
    decreases l.len(),
{
    let ap = a.take(m);
    let ms = matches_of(l, ap);
    if l.len() == 0 {
    } else if m == 0 {
        assert(ap =~= Seq::<MigrationModel>::empty());
        let l2 = l.drop_first();
        let a2 = a.drop_first();
        assert(forall|i: int| 0 <= i < l2.len() ==> #[trigger] l2[i] == l[i + 1]);
        assert(forall|i: int| 0 <= i < a2.len() ==> #[trigger] a2[i] == a[i + 1]);
        lemma_matches_of_prefix(l2, a2, 0);
        assert(a2.take(0) =~= Seq::<MigrationModel>::empty());
        let rest = matches_of(l2, a2.take(0));
        assert(matches_of(l2, Seq::<MigrationModel>::empty()) == rest);
        assert forall|i: int| 0 <= i < l.len() implies #[trigger] ms[i]
            == MatchingModel::Pending(l[i]) by {
            if i > 0 {
                assert(ms[i] == rest[i - 1]);
            }
        }
    } else {
        assert(ap[0] == a[0]);
        lemma_lex_lt_irreflexive(l[0].name);
        assert(hashes_compatible(l[0], ap[0]));
        assert(classify_pair(l[0], ap[0]) == MatchingModel::Applied(a[0]));
        let l2 = l.drop_first();
        let a2 = a.drop_first();
        assert(forall|i: int| 0 <= i < l2.len() ==> #[trigger] l2[i] == l[i + 1]);
        assert(forall|i: int| 0 <= i < a2.len() ==> #[trigger] a2[i] == a[i + 1]);
        assert(ap.drop_first() =~= a2.take(m - 1));
        lemma_matches_of_prefix(l2, a2, m - 1);
        let rest = matches_of(l2, a2.take(m - 1));
        assert forall|i: int| 0 <= i < m implies #[trigger] ms[i] == MatchingModel::Applied(
            a[i],
        ) by {
            if i > 0 {
                assert(ms[i] == rest[i - 1]);
            }
        }
        assert forall|i: int| m <= i < l.len() implies #[trigger] ms[i] == MatchingModel::Pending(
            l[i],
        ) by {
            assert(ms[i] == rest[i - 1]);
        }
    }
}

/// When the matchings are a non-pending prefix followed by a pending
/// suffix, the up walk yields exactly the suffix.
proof fn lemma_pending_up_steps_suffix(ms: Seq<MatchingModel>, m: int)
    requires
        0 <= m <= ms.len(),
        forall|i: int| 0 <= i < m ==> !(#[trigger] ms[i] is Pending),
        forall|i: int| m <= i < ms.len() ==> #[trigger] ms[i] is Pending,
    ensures
        pending_up_steps(ms) == Seq::new(
            (ms.len() - m) as nat,
            |i: int| StepModel { dir: Dir::Up, migration: ms[m + i]->Pending_0 },
        ),
    decreases ms.len(),
{
    let goal = Seq::new(
        (ms.len() - m) as nat,
        |i: int| StepModel { dir: Dir::Up, migration: ms[m + i]->Pending_0 },
    );
    if ms.len() == m {
        lemma_no_pending_no_up_steps(ms);
        assert(goal =~= Seq::<StepModel>::empty());
    } else {
        let msr = ms.drop_last();
        assert(forall|i: int| 0 <= i < msr.len() ==> #[trigger] msr[i] == ms[i]);
        lemma_pending_up_steps_suffix(msr, m);
        let step = StepModel { dir: Dir::Up, migration: ms.last()->Pending_0 };
        assert(goal =~= Seq::new(
            (msr.len() - m) as nat,
            |i: int| StepModel { dir: Dir::Up, migration: msr[m + i]->Pending_0 },
        ).push(step));
    }
}

/// Law (round trip): from a fully applied, fully reversible state —
/// every local migration applied under its name with agreeing hashes —
/// `down --number N` plans exactly the newest `N` applied records,
/// newest first; against the applied rows that rollback leaves behind,
/// `up --number N` plans exactly the `N` local records of those names
/// again, oldest first; and what was left plus what is re-applied
/// carries the applied set's names unchanged.
pub proof fn lemma_down_up_round_trip(
    l: Seq<MigrationModel>,
    a: Seq<MigrationModel>,
    n: usize,
    ignore_divergent: bool,
    ignore_unreversable: bool,
)
    requires
        l.len() == a.len(),
        forall|i: int| 0 <= i < l.len() ==> #[trigger] l[i].name == a[i].name,
        forall|i: int| 0 <= i < l.len() ==> hashes_compatible(#[trigger] l[i], a[i]),
        forall|i: int| 0 <= i < a.len() ==> #[trigger] a[i].down_sql is Some,
        0 < n <= l.len(),
    ensures
        down_plan(matches_of(l, a), Some(n), ignore_divergent, ignore_unreversable, 0) == Ok::<
            Seq<StepModel>,
            Error,
        >(Seq::new(n as nat, |i: int| StepModel { dir: Dir::Down, migration: a[a.len() - 1 - i] })),
        up_plan(matches_of(l, a.take(l.len() - n)), Some(n)) == Seq::new(
            n as nat,
            |i: int| StepModel { dir: Dir::Up, migration: l[l.len() - n + i] },
        ),
        (a.take(l.len() - n) + Seq::new(n as nat, |i: int| l[l.len() - n + i])).map_values(
            |m: MigrationModel| m.name,
        ) == a.map_values(|m: MigrationModel| m.name),
{
    let ms = matches_of(l, a);
    lemma_matches_of_aligned(l, a);
    assert(forall|i: int|
        0 <= i < ms.len() ==> #[trigger] ms[i] is Applied && ms[i].is_reversable());
    lemma_down_plan_all_applied(ms, n, ignore_divergent, ignore_unreversable, 0);
    assert(Seq::new(
        n as nat,
        |i: int| StepModel { dir: Dir::Down, migration: ms[ms.len() - 1 - i]->Applied_0 },
    ) =~= Seq::new(n as nat, |i: int| StepModel { dir: Dir::Down, migration: a[a.len() - 1 - i] }));

    let m = l.len() - n;
    let ms2 = matches_of(l, a.take(m as int));
    lemma_matches_of_prefix(l, a, m as int);
    lemma_pending_up_steps_suffix(ms2, m as int);
    let pendings = pending_up_steps(ms2);
    assert(pendings =~= Seq::new(
        n as nat,
        |i: int| StepModel { dir: Dir::Up, migration: l[l.len() - n + i] },
    ));
    assert(up_plan(ms2, Some(n)) == pendings);

    assert((a.take(l.len() - n) + Seq::new(n as nat, |i: int| l[l.len() - n + i])).map_values(
        |mm: MigrationModel| mm.name,
    ) =~= a.map_values(|mm: MigrationModel| mm.name));
}

/// Some disagreement — a matching other than applied — stands before
/// position `i` of the walk.
pub open spec fn disagreement_before(ms: Seq<MatchingModel>, i: int) -> bool {
    exists|j: int| 0 <= j < i && !(#[trigger] ms[j] is Applied)
}

/// Whether the `fix` walk fails at position `i`, having started with
/// `bad_found`: a divergent or variant matching that cannot be rolled
/// back, or an applied matching that cannot be rolled back yet must be
/// peeled because a disagreement stands at or before it.  A pending
/// matching never fails.
pub open spec fn fix_blocked_at(ms: Seq<MatchingModel>, bad_found: bool, i: int) -> bool
    recommends
        0 <= i < ms.len(),
{
    match ms[i] {
        MatchingModel::Divergent(_) => !ms[i].is_reversable(),
        MatchingModel::Variant(_, _) => !ms[i].is_reversable(),
        MatchingModel::Applied(_) => (bad_found || disagreement_before(ms, i))
            && !ms[i].is_reversable(),
        MatchingModel::Pending(_) => false,
    }
}

/// Whether the `fix` walk fails anywhere.
pub open spec fn fix_errs(ms: Seq<MatchingModel>, bad_found: bool) -> bool {
    exists|i: int| 0 <= i < ms.len() && #[trigger] fix_blocked_at(ms, bad_found, i)
}

/// Failing positions shift by one across the head of the walk, as long
/// as the head itself does not fail.
proof fn lemma_fix_errs_shift(ms: Seq<MatchingModel>, bad_found: bool)
    requires
        ms.len() > 0,
        !fix_blocked_at(ms, bad_found, 0),
    ensures
        fix_errs(ms, bad_found) <==> fix_errs(
            ms.drop_first(),
            bad_found || !(ms[0] is Applied),
        ),
{
    let rest = ms.drop_first();
    let bad_next = bad_found || !(ms[0] is Applied);
    if fix_errs(ms, bad_found) {
        let i = choose|i: int| 0 <= i < ms.len() && #[trigger] fix_blocked_at(ms, bad_found, i);
        assert(i > 0);
        assert(rest[i - 1] == ms[i]);
        assert(fix_blocked_at(rest, bad_next, i - 1)) by {
            if ms[i] is Applied && !bad_found {
                assert(disagreement_before(ms, i));
                let j = choose|j: int| 0 <= j < i && !(#[trigger] ms[j] is Applied);
                if j > 0 {
                    assert(rest[j - 1] == ms[j]);
                    assert(!(rest[j - 1] is Applied));
                    assert(disagreement_before(rest, i - 1));
                }
            }
        }
        assert(fix_errs(rest, bad_next));
    }
    if fix_errs(rest, bad_next) {
        let i = choose|i: int| 0 <= i < rest.len() && #[trigger] fix_blocked_at(rest, bad_next, i);
        assert(rest[i] == ms[i + 1]);
        assert(fix_blocked_at(ms, bad_found, i + 1)) by {
            if ms[i + 1] is Applied && !bad_found {
                if !(ms[0] is Applied) {
                    assert(disagreement_before(ms, i + 1));
                } else {
                    assert(disagreement_before(rest, i));
                    let j = choose|j: int| 0 <= j < i && !(#[trigger] rest[j] is Applied);
                    assert(rest[j] == ms[j + 1]);
                    assert(!(ms[j + 1] is Applied));
                    assert(disagreement_before(ms, i + 1));
                }
            }
        }
        assert(fix_errs(ms, bad_found));
    }
}

/// Law (`fix` failure condition): `fix` fails exactly when its walk
/// hits an unrollbackable matching — a divergent or variant without
/// down SQL, or an applied matching without down SQL at or after the
/// first disagreement — and the only error it ever reports is
/// `UnrollbackableMigration`.  No flag suppresses this: `fix` ignores
/// `ignore_unreversable`.
pub proof fn lemma_fix_error_condition(ms: Seq<MatchingModel>, bad_found: bool)
    ensures
        fix_plans(ms, bad_found) is Err <==> fix_errs(ms, bad_found),
        fix_plans(ms, bad_found) is Err ==> fix_plans(ms, bad_found) == Err::<
            (Seq<StepModel>, Seq<StepModel>),
            Error,
        >(Error::UnrollbackableMigration),
    decreases ms.len(),
{
    if ms.len() == 0 {
    } else if fix_blocked_at(ms, bad_found, 0) {
        assert(!disagreement_before(ms, 0));
        assert(fix_plans(ms, bad_found) is Err);
        assert(fix_errs(ms, bad_found));
    } else {
        let rest = ms.drop_first();
        let bad_next = bad_found || !(ms[0] is Applied);
        lemma_fix_error_condition(rest, bad_next);
        lemma_fix_errs_shift(ms, bad_found);
        assert(!disagreement_before(ms, 0));
        assert(fix_plans(ms, bad_found) is Err <==> fix_plans(rest, bad_next) is Err);
    }
}

/// Law (fix idempotence): when local and applied agree everywhere — no
/// divergent, no variant, and nothing pending — `fix` plans nothing.
pub proof fn lemma_fix_idempotent(ms: Seq<MatchingModel>)
    requires
        forall|i: int|
            0 <= i < ms.len() ==> !(ms[i] is Divergent) && !(ms[i] is Variant) && !(ms[i]
                is Pending),
    ensures
        fix_plans(ms, false) == Ok::<(Seq<StepModel>, Seq<StepModel>), Error>(
            (Seq::empty(), Seq::empty()),
        ),
    decreases ms.len(),
{
    if ms.len() > 0 {
        assert(ms.first() is Applied);
        assert(forall|i: int|
            0 <= i < ms.drop_first().len() ==> !(ms.drop_first()[i] is Divergent) && !(
            ms.drop_first()[i] is Variant) && !(ms.drop_first()[i] is Pending));
        lemma_fix_idempotent(ms.drop_first());
    }
}

} // verus!

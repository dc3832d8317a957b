use vstd::multiset::Multiset;
use vstd::prelude::*;

use crate::migration::{Migration, MigrationModel};

verus! {

/// Strict lexicographic order on character sequences: the order in which
/// migration names are walked, which coincides with chronological order
/// for timestamp-prefixed names.
pub open spec fn lex_lt(a: Seq<char>, b: Seq<char>) -> bool
    decreases a.len(),
{
    if b.len() == 0 {
        false
    } else if a.len() == 0 {
        true
    } else if a[0] != b[0] {
        (a[0] as int) < (b[0] as int)
    } else {
        lex_lt(a.drop_first(), b.drop_first())
    }
}

/// No sequence is below itself.
pub proof fn lemma_lex_lt_irreflexive(a: Seq<char>)
    ensures
        !lex_lt(a, a),
    decreases a.len(),
{
    if a.len() > 0 {
        lemma_lex_lt_irreflexive(a.drop_first());
    }
}

/// Exactly one of `a < b`, `a == b`, `b < a` holds.
pub proof fn lemma_lex_lt_trichotomy(a: Seq<char>, b: Seq<char>)
    ensures
        lex_lt(a, b) || lex_lt(b, a) || a == b,
    decreases a.len(),
{
    if a.len() == 0 && b.len() == 0 {
        assert(a =~= b);
    } else if a.len() > 0 && b.len() > 0 && a[0] == b[0] {
        lemma_lex_lt_trichotomy(a.drop_first(), b.drop_first());
        if !lex_lt(a, b) && !lex_lt(b, a) {
            assert(a.drop_first() == b.drop_first());
            assert(a =~= b) by {
                assert forall|i: int| 0 <= i < a.len() implies a[i] == b[i] by {
                    if i > 0 {
                        assert(a.drop_first()[i - 1] == b.drop_first()[i - 1]);
                    }
                }
            }
        }
    }
}

/// The order is transitive.
pub proof fn lemma_lex_lt_transitive(a: Seq<char>, b: Seq<char>, c: Seq<char>)
    requires
        lex_lt(a, b),
        lex_lt(b, c),
    ensures
        lex_lt(a, c),
    decreases a.len() + b.len() + c.len(),
{
    if a.len() > 0 && b.len() > 0 && c.len() > 0 {
        if a[0] == b[0] && b[0] == c[0] {
            lemma_lex_lt_transitive(a.drop_first(), b.drop_first(), c.drop_first());
        }
    }
}

/// Compare two names in the lexicographic order.
pub fn name_lt(a: &str, b: &str) -> (result: bool)
    ensures
        result == lex_lt(a@, b@),
{
    let a_len: usize = a.unicode_len();
    let b_len: usize = b.unicode_len();
    let mut i: usize = 0;
    proof {
        assert(a@.skip(0) =~= a@);
        assert(b@.skip(0) =~= b@);
    }
    while i < a_len && i < b_len
        invariant
            a_len == a@.len(),
            b_len == b@.len(),
            0 <= i <= a_len,
            0 <= i <= b_len,
            lex_lt(a@, b@) == lex_lt(a@.skip(i as int), b@.skip(i as int)),
        decreases a_len - i,
    {
        let ca = a.get_char(i) as u32;
        let cb = b.get_char(i) as u32;
        if ca != cb {
            return ca < cb;
        }
        proof {
            assert(a@.skip(i as int).drop_first() =~= a@.skip(i + 1));
            assert(b@.skip(i as int).drop_first() =~= b@.skip(i + 1));
        }
        i += 1;
    }
    i < b_len
}

/// The order runs one way only.
pub proof fn lemma_lex_lt_asymmetric(a: Seq<char>, b: Seq<char>)
    requires
        lex_lt(a, b),
    ensures
        !lex_lt(b, a),
{
    if lex_lt(b, a) {
        lemma_lex_lt_transitive(a, b, a);
        lemma_lex_lt_irreflexive(a);
    }
}

/// Non-strict lexicographic order: `a` at or below `b`.
pub open spec fn lex_le(a: Seq<char>, b: Seq<char>) -> bool {
    !lex_lt(b, a)
}

/// The non-strict order is transitive.
pub proof fn lemma_lex_le_transitive(a: Seq<char>, b: Seq<char>, c: Seq<char>)
    requires
        lex_le(a, b),
        lex_le(b, c),
    ensures
        lex_le(a, c),
{
    if lex_lt(c, a) {
        lemma_lex_lt_trichotomy(a, b);
        if a == b {
            assert(lex_lt(c, b));
        } else {
            lemma_lex_lt_transitive(c, a, b);
        }
    }
}

/// Names ascend through the migration list, duplicates allowed.
pub open spec fn sorted_by_name(ms: Seq<MigrationModel>) -> bool {
    forall|i: int, j: int| 0 <= i < j < ms.len() ==> lex_le(ms[i].name, ms[j].name)
}

fn insert_position(sorted: &Vec<Migration>, name: &str) -> (position: usize)
    requires
        sorted_by_name(sorted.deep_view()),
    ensures
        position <= sorted.deep_view().len(),
        forall|k: int|
            0 <= k < position ==> lex_le(#[trigger] sorted.deep_view()[k].name, name@),
        forall|k: int|
            position <= k < sorted.deep_view().len() ==> lex_lt(
                name@,
                #[trigger] sorted.deep_view()[k].name,
            ),
{
    let ghost sv = sorted.deep_view();
    let mut position: usize = sorted.len();
    let mut searching = true;
    while searching && position > 0
        invariant
            sv == sorted.deep_view(),
            sv.len() == sorted@.len(),
            0 <= position <= sv.len(),
            sorted_by_name(sv),
            forall|k: int| position <= k < sv.len() ==> lex_lt(name@, #[trigger] sv[k].name),
            !searching ==> position > 0 && lex_le(sv[position - 1].name, name@),
        decreases position + (if searching {
            1int
        } else {
            0int
        }),
    {
        if name_lt(name, sorted[position - 1].name.as_str()) {
            position -= 1;
        } else {
            searching = false;
        }
    }
    proof {
        if position > 0 {
            assert forall|k: int| 0 <= k < position implies lex_le(
                #[trigger] sv[k].name,
                name@,
            ) by {
                if k < position - 1 {
                    lemma_lex_le_transitive(sv[k].name, sv[position - 1].name, name@);
                }
            }
        }
    }
    position
}

proof fn lemma_sorted_insert(rv: Seq<MigrationModel>, x: MigrationModel, p: int)
    requires
        sorted_by_name(rv),
        0 <= p <= rv.len(),
        forall|k: int| 0 <= k < p ==> lex_le(#[trigger] rv[k].name, x.name),
        forall|k: int| p <= k < rv.len() ==> lex_lt(x.name, #[trigger] rv[k].name),
    ensures
        sorted_by_name(rv.take(p) + (seq![x] + rv.skip(p))),
{
    let rv2 = rv.take(p) + (seq![x] + rv.skip(p));
    assert forall|k1: int, k2: int| 0 <= k1 < k2 < rv2.len() implies lex_le(
        rv2[k1].name,
        rv2[k2].name,
    ) by {
        if k2 < p {
            assert(rv2[k1] == rv[k1] && rv2[k2] == rv[k2]);
            assert(lex_le(rv[k1].name, rv[k2].name));
        } else if k2 == p {
            assert(rv2[k1] == rv[k1] && rv2[k2] == x);
            assert(lex_le(rv[k1].name, x.name));
        } else if k1 < p {
            assert(rv2[k1] == rv[k1] && rv2[k2] == rv[k2 - 1]);
            assert(lex_le(rv[k1].name, rv[k2 - 1].name));
        } else if k1 == p {
            assert(rv2[k1] == x && rv2[k2] == rv[k2 - 1]);
            assert(lex_lt(x.name, rv[k2 - 1].name));
            lemma_lex_lt_asymmetric(x.name, rv[k2 - 1].name);
        } else {
            assert(rv2[k1] == rv[k1 - 1] && rv2[k2] == rv[k2 - 1]);
            assert(lex_le(rv[k1 - 1].name, rv[k2 - 1].name));
        }
    }
}

proof fn lemma_insert_multiset(rv: Seq<MigrationModel>, x: MigrationModel, p: int)
    requires
        0 <= p <= rv.len(),
    ensures
        (rv.take(p) + (seq![x] + rv.skip(p))).to_multiset() == rv.to_multiset().insert(x),
{
    broadcast use vstd::seq_lib::group_to_multiset_ensures;

    vstd::seq_lib::lemma_multiset_commutative(rv.take(p), seq![x] + rv.skip(p));
    vstd::seq_lib::lemma_multiset_commutative(seq![x], rv.skip(p));
    vstd::seq_lib::lemma_multiset_commutative(rv.take(p), rv.skip(p));
    assert(rv =~= rv.take(p) + rv.skip(p));
    assert(seq![x] =~= Seq::<MigrationModel>::empty().push(x));
    assert(Seq::<MigrationModel>::empty().to_multiset() =~= Multiset::empty());
    assert((rv.take(p) + (seq![x] + rv.skip(p))).to_multiset() =~= rv.to_multiset().insert(x));
}

/// Order a migration list ascending by name: the same records, sorted.
pub fn sort_by_name(migrations: Vec<Migration>) -> (result: Vec<Migration>)
    ensures
        sorted_by_name(result.deep_view()),
        result.deep_view().to_multiset() == migrations.deep_view().to_multiset(),
{
    let ghost mv = migrations.deep_view();
    let mut result: Vec<Migration> = Vec::new();
    let mut i: usize = 0;
    proof {
        broadcast use vstd::seq_lib::group_to_multiset_ensures;

        assert(mv.take(0) =~= Seq::<MigrationModel>::empty());
        assert(result.deep_view() =~= Seq::<MigrationModel>::empty());
    }
    while i < migrations.len()
        invariant
            mv == migrations.deep_view(),
            mv.len() == migrations@.len(),
            0 <= i <= mv.len(),
            sorted_by_name(result.deep_view()),
            result.deep_view().to_multiset() == mv.take(i as int).to_multiset(),
        decreases mv.len() - i,
    {
        let m = migrations[i].clone();
        let position = insert_position(&result, m.name.as_str());
        let ghost rv = result.deep_view();
        let ghost p = position as int;
        result.insert(position, m);
        proof {
            broadcast use vstd::seq_lib::group_to_multiset_ensures;

            let x = mv[i as int];
            let rv2 = result.deep_view();
            assert(rv2 =~= rv.take(p) + (seq![x] + rv.skip(p)));
            lemma_sorted_insert(rv, x, p);
            lemma_insert_multiset(rv, x, p);
            assert(mv.take(i + 1) =~= mv.take(i as int).push(x));
            assert(rv2.to_multiset() =~= mv.take(i + 1).to_multiset());
        }
        i += 1;
    }
    proof {
        assert(mv.take(mv.len() as int) =~= mv);
    }
    result
}

/// One local/applied pair, classified.
///
/// `Applied`: present in both sets with agreeing hashes.
/// `Variant`: present in both sets with disagreeing hashes.
/// `Divergent`: present only in the applied set.
/// `Pending`: present only in the local set.
#[derive(Debug, PartialEq, Eq)]
pub enum Matching {
    Applied(Migration),
    Variant(Migration, Migration),
    Divergent(Migration),
    Pending(Migration),
}

/// The mathematical model of a [`Matching`].
pub enum MatchingModel {
    Applied(MigrationModel),
    Variant(MigrationModel, MigrationModel),
    Divergent(MigrationModel),
    Pending(MigrationModel),
}

impl View for Matching {
    type V = MatchingModel;

    open spec fn view(&self) -> MatchingModel {
        match self {
            Matching::Applied(m) => MatchingModel::Applied(m@),
            Matching::Variant(l, a) => MatchingModel::Variant(l@, a@),
            Matching::Divergent(m) => MatchingModel::Divergent(m@),
            Matching::Pending(m) => MatchingModel::Pending(m@),
        }
    }
}

impl DeepView for Matching {
    type V = MatchingModel;

    open spec fn deep_view(&self) -> MatchingModel {
        self.view()
    }
}

impl MatchingModel {
    /// The name this matching stands for.  For paired variants both
    /// records carry it; the local one is as good as the applied one.
    pub open spec fn name_of(self) -> Seq<char> {
        match self {
            MatchingModel::Applied(m) => m.name,
            MatchingModel::Variant(l, _) => l.name,
            MatchingModel::Divergent(a) => a.name,
            MatchingModel::Pending(l) => l.name,
        }
    }

    /// Whether a down SQL exists on some side the engine could execute.
    pub open spec fn is_reversable(self) -> bool {
        match self {
            MatchingModel::Applied(m) => m.down_sql is Some,
            MatchingModel::Variant(l, a) => a.down_sql is Some || l.down_sql is Some,
            MatchingModel::Divergent(a) => a.down_sql is Some,
            MatchingModel::Pending(l) => l.down_sql is Some,
        }
    }

    /// The record whose down SQL best reverses what is in the database:
    /// the applied record where one exists (its stored down SQL matches
    /// what was run), falling back to the local record for a variant
    /// whose applied side stored none.
    pub open spec fn best_down(self) -> MigrationModel {
        match self {
            MatchingModel::Applied(m) => m,
            MatchingModel::Variant(l, a) => if a.down_sql is Some {
                a
            } else {
                l
            },
            MatchingModel::Divergent(a) => a,
            MatchingModel::Pending(l) => l,
        }
    }

    /// The record that exists locally; none for a divergent matching.
    pub open spec fn local_of(self) -> Option<MigrationModel> {
        match self {
            MatchingModel::Applied(m) => Some(m),
            MatchingModel::Variant(l, _) => Some(l),
            MatchingModel::Divergent(_) => None,
            MatchingModel::Pending(l) => Some(l),
        }
    }

    /// Both records of a paired matching carry the same name.
    pub open spec fn wf(self) -> bool {
        match self {
            MatchingModel::Variant(l, a) => l.name == a.name,
            _ => true,
        }
    }
}

impl Matching {
    /// Whether a down SQL exists on some side the engine could execute.
    pub fn is_reversable(&self) -> (result: bool)
        ensures
            result == self@.is_reversable(),
    {
        match self {
            Matching::Applied(m) => m.down_sql.is_some(),
            Matching::Variant(l, a) => a.down_sql.is_some() || l.down_sql.is_some(),
            Matching::Divergent(a) => a.down_sql.is_some(),
            Matching::Pending(l) => l.down_sql.is_some(),
        }
    }

    /// The record whose down SQL best reverses what is in the database.
    pub fn get_best_down_migration(&self) -> (result: &Migration)
        ensures
            result@ == self@.best_down(),
    {
        match self {
            Matching::Applied(m) => m,
            Matching::Variant(l, a) => if a.down_sql.is_some() {
                a
            } else {
                l
            },
            Matching::Divergent(a) => a,
            Matching::Pending(l) => l,
        }
    }

    /// The record that exists locally; none for a divergent matching.
    pub fn get_local_migration(&self) -> (result: Option<&Migration>)
        ensures
            match result {
                Some(m) => self@.local_of() == Some(m@),
                None => self@.local_of() is None,
            },
    {
        match self {
            Matching::Applied(m) => Some(m),
            Matching::Variant(l, _) => Some(l),
            Matching::Divergent(_) => None,
            Matching::Pending(l) => Some(l),
        }
    }
}

/// Whether the two hashes agree: recorded equal, or unknown on both
/// sides.  A hash known on one side only counts as disagreement — the
/// content can no longer be vouched for.
pub open spec fn hashes_compatible(l: MigrationModel, a: MigrationModel) -> bool {
    l.hash == a.hash
}

/// The classification of a name present in both sets.
pub open spec fn classify_pair(l: MigrationModel, a: MigrationModel) -> MatchingModel {
    if hashes_compatible(l, a) {
        MatchingModel::Applied(a)
    } else {
        MatchingModel::Variant(l, a)
    }
}

/// The matchings of two name-sorted migration lists: a merge over the
/// union of their names, classifying each name by where it occurs and,
/// when it occurs in both, by whether the hashes agree.
pub open spec fn matches_of(
    local: Seq<MigrationModel>,
    applied: Seq<MigrationModel>,
) -> Seq<MatchingModel>
    decreases local.len() + applied.len(),
{
    if local.len() == 0 && applied.len() == 0 {
        Seq::empty()
    } else if local.len() == 0 {
        seq![MatchingModel::Divergent(applied[0])] + matches_of(local, applied.drop_first())
    } else if applied.len() == 0 {
        seq![MatchingModel::Pending(local[0])] + matches_of(local.drop_first(), applied)
    } else if lex_lt(local[0].name, applied[0].name) {
        seq![MatchingModel::Pending(local[0])] + matches_of(local.drop_first(), applied)
    } else if lex_lt(applied[0].name, local[0].name) {
        seq![MatchingModel::Divergent(applied[0])] + matches_of(local, applied.drop_first())
    } else {
        seq![classify_pair(local[0], applied[0])] + matches_of(
            local.drop_first(),
            applied.drop_first(),
        )
    }
}

fn hashes_compatible_exec(l: &Migration, a: &Migration) -> (result: bool)
    ensures
        result == hashes_compatible(l@, a@),
{
    match (&l.hash, &a.hash) {
        (Some(lh), Some(ah)) => lh.eq(ah),
        (None, None) => true,
        _ => false,
    }
}

/// Pair two name-sorted migration lists into the sorted matching list.
pub fn find_matches(local: &Vec<Migration>, applied: &Vec<Migration>) -> (result: Vec<Matching>)
    ensures
        result.deep_view() == matches_of(local.deep_view(), applied.deep_view()),
{
    let ghost lv = local.deep_view();
    let ghost av = applied.deep_view();
    let mut result: Vec<Matching> = Vec::new();
    let mut i: usize = 0;
    let mut j: usize = 0;
    proof {
        assert(lv.skip(0) =~= lv);
        assert(av.skip(0) =~= av);
        assert(result.deep_view() + matches_of(lv, av) =~= matches_of(lv, av));
    }
    while i < local.len() || j < applied.len()
        invariant
            0 <= i <= local@.len(),
            0 <= j <= applied@.len(),
            lv == local.deep_view(),
            av == applied.deep_view(),
            lv.len() == local@.len(),
            av.len() == applied@.len(),
            matches_of(lv, av) == result.deep_view() + matches_of(
                lv.skip(i as int),
                av.skip(j as int),
            ),
        decreases local@.len() - i + applied@.len() - j,
    {
        let ghost rest = matches_of(lv.skip(i as int), av.skip(j as int));
        proof {
            assert(lv.skip(i as int).len() == lv.len() - i);
            assert(av.skip(j as int).len() == av.len() - j);
        }
        if i >= local.len() {
            let step = Matching::Divergent(applied[j].clone());
            proof {
                assert(av.skip(j as int)[0] == av[j as int]);
                assert(av.skip(j as int).drop_first() =~= av.skip(j + 1));
                assert(lv.skip(i as int) =~= lv.skip(i as int));
            }
            result.push(step);
            j += 1;
        } else if j >= applied.len() {
            let step = Matching::Pending(local[i].clone());
            proof {
                assert(lv.skip(i as int)[0] == lv[i as int]);
                assert(lv.skip(i as int).drop_first() =~= lv.skip(i + 1));
            }
            result.push(step);
            i += 1;
        } else {
            let l_first = name_lt(local[i].name.as_str(), applied[j].name.as_str());
            let a_first = name_lt(applied[j].name.as_str(), local[i].name.as_str());
            proof {
                assert(lv.skip(i as int)[0] == lv[i as int]);
                assert(av.skip(j as int)[0] == av[j as int]);
                assert(lv[i as int] == local@[i as int]@);
                assert(av[j as int] == applied@[j as int]@);
            }
            if l_first {
                let step = Matching::Pending(local[i].clone());
                proof {
                    assert(lv.skip(i as int).drop_first() =~= lv.skip(i + 1));
                }
                result.push(step);
                i += 1;
            } else if a_first {
                let step = Matching::Divergent(applied[j].clone());
                proof {
                    assert(av.skip(j as int).drop_first() =~= av.skip(j + 1));
                }
                result.push(step);
                j += 1;
            } else {
                proof {
                    lemma_lex_lt_trichotomy(lv[i as int].name, av[j as int].name);
                    assert(lv.skip(i as int).drop_first() =~= lv.skip(i + 1));
                    assert(av.skip(j as int).drop_first() =~= av.skip(j + 1));
                }
                let step = if hashes_compatible_exec(&local[i], &applied[j]) {
                    Matching::Applied(applied[j].clone())
                } else {
                    Matching::Variant(local[i].clone(), applied[j].clone())
                };
                result.push(step);
                i += 1;
                j += 1;
            }
        }
    }
    proof {
        assert(lv.skip(lv.len() as int) =~= Seq::<MigrationModel>::empty());
        assert(av.skip(av.len() as int) =~= Seq::<MigrationModel>::empty());
        assert(result.deep_view() + matches_of(
            lv.skip(lv.len() as int),
            av.skip(av.len() as int),
        ) =~= result.deep_view());
    }
    result
}

} // verus!

//! Planning: diffing a registry against the versions a database has applied.
use vstd::prelude::*;

use std::collections::BTreeSet;
use vstd::string::StringExecFns;

use crate::migration::Migration;
use crate::registry::{ascending_versions, Registry};
use crate::text::{append_radix, decimal_digits, hex_digits};

verus! {

/// The migrations that still need to run to bring a database up to date with
/// a [`Registry`], in ascending version order.
#[derive(Debug, Clone, PartialEq, Eq)]
pub struct ApplyPlan<'a> {
    pub pending: Vec<&'a Migration>,
}

/// Why a plan could not be made, or why recorded history no longer matches the registry.
#[derive(Debug, Clone, Copy, PartialEq, Eq)]
pub enum PlanError {
    /// A version is recorded as applied but isn't in the registry, so
    /// there's no way to tell whether it's safe to leave alone or how to
    /// roll it back.
    AppliedVersionNotInRegistry { version: u64 },
    /// Rolling back this version would need its `down.sql`, which the
    /// migration was built without.
    MissingDownSql { version: u64 },
    /// The `up_sql` on file for this version no longer matches the checksum
    /// recorded when it was applied, so someone edited a migration after it
    /// already ran.
    ChecksumMismatch { version: u64, recorded: u64, current: u64 },
}

/// One migration a caller's bookkeeping says has already run, paired with
/// the `up_checksum` that was recorded at the time it applied.
#[derive(Debug, Clone, Copy, PartialEq, Eq)]
pub struct AppliedMigration {
    pub version: u64,
    pub up_checksum: u64,
}

/// The text of a plan error's message.
pub open spec fn plan_error_text(e: PlanError) -> Seq<char> {
    match e {
        PlanError::AppliedVersionNotInRegistry { version } => "version "@ + decimal_digits(
            version as nat,
        ) + " is recorded as applied but is not in the registry"@,
        PlanError::MissingDownSql { version } => "version "@ + decimal_digits(version as nat)
            + " has no down.sql, so it cannot be rolled back"@,
        PlanError::ChecksumMismatch { version, recorded, current } => "version "@ + decimal_digits(
            version as nat,
        ) + " was applied with checksum "@ + hex_digits(recorded as nat)
            + " but the file on disk now checksums to "@ + hex_digits(current as nat),
    }
}

impl PlanError {
    /// A human-readable description of the error.
    pub fn message(&self) -> (r: String)
        ensures
            r@ == plan_error_text(*self),
    {
        let mut out = String::new();
        out.append("version ");
        match self {
            PlanError::AppliedVersionNotInRegistry { version } => {
                append_radix(&mut out, *version, 10);
                out.append(" is recorded as applied but is not in the registry");
            },
            PlanError::MissingDownSql { version } => {
                append_radix(&mut out, *version, 10);
                out.append(" has no down.sql, so it cannot be rolled back");
            },
            PlanError::ChecksumMismatch { version, recorded, current } => {
                append_radix(&mut out, *version, 10);
                out.append(" was applied with checksum ");
                append_radix(&mut out, *recorded, 16);
                out.append(" but the file on disk now checksums to ");
                append_radix(&mut out, *current, 16);
            },
        }
        assert(out@ =~= plan_error_text(*self));
        out
    }
}

/// `refs` refers, in order, to exactly the migrations `ms`.
pub open spec fn refers_to(refs: Seq<&Migration>, ms: Seq<Migration>) -> bool {
    &&& refs.len() == ms.len()
    &&& forall|i: int| 0 <= i < ms.len() ==> *(#[trigger] refs[i]) == ms[i]
}

/// Migrations whose version is not among `applied`.
pub open spec fn not_applied(applied: Seq<u64>) -> spec_fn(Migration) -> bool {
    |m: Migration| !applied.contains(m.version)
}

/// Migrations above `target` whose version is among `applied`.
pub open spec fn applied_above(applied: Seq<u64>, target: u64) -> spec_fn(Migration) -> bool {
    |m: Migration| m.version > target && applied.contains(m.version)
}

/// `i` is the first position in `ms` of a migration without `down_sql`.
pub open spec fn is_first_without_down(ms: Seq<Migration>, i: int) -> bool {
    &&& 0 <= i < ms.len()
    &&& ms[i].down_sql is None
    &&& forall|j: int| 0 <= j < i ==> (#[trigger] ms[j]).down_sql is Some
}

impl Registry {
    /// Every version in `applied` is a version of the registry.
    pub open spec fn knows_all(&self, applied: Seq<u64>) -> bool {
        forall|i: int| 0 <= i < applied.len() ==> self.has_version(#[trigger] applied[i])
    }

    /// `version` is the smallest version in `applied` that the registry does not have.
    pub open spec fn is_least_unknown(&self, applied: Seq<u64>, version: u64) -> bool {
        &&& applied.contains(version)
        &&& !self.has_version(version)
        &&& forall|i: int|
            0 <= i < applied.len() && !self.has_version(#[trigger] applied[i]) ==> version
                <= applied[i]
    }

    /// The migrations a rollback to `target` undoes, newest first.
    pub open spec fn rollback_selection(&self, applied: Seq<u64>, target: u64) -> Seq<Migration> {
        self.migrations@.filter(applied_above(applied, target)).reverse()
    }

    /// What checking one applied record finds, if anything.
    pub open spec fn drift_error(&self, record: AppliedMigration) -> Option<PlanError> {
        match self.spec_get(record.version) {
            None => Some(PlanError::AppliedVersionNotInRegistry { version: record.version }),
            Some(m) => if m.up_checksum != record.up_checksum {
                Some(
                    PlanError::ChecksumMismatch {
                        version: record.version,
                        recorded: record.up_checksum,
                        current: m.up_checksum,
                    },
                )
            } else {
                None
            },
        }
    }

    /// The set of versions of the registry's migrations.
    fn known_versions(&self) -> (r: BTreeSet<u64>)
        ensures
            forall|v: u64| #[trigger] r@.contains(v) <==> self.has_version(v),
    {
        let mut r: BTreeSet<u64> = BTreeSet::new();
        let mut k: usize = 0;
        while k < self.migrations.len()
            invariant
                k <= self.migrations@.len(),
                forall|v: u64|
                    #[trigger] r@.contains(v) <==> exists|i: int|
                        0 <= i < k && #[trigger] self.migrations@[i].version == v,
            decreases self.migrations@.len() - k,
        {
            r.insert(self.migrations[k].version);
            assert(self.migrations@[k as int].version == self.migrations[k as int].version);
            k = k + 1;
        }
        r
    }

    /// The smallest applied version that the registry does not have, if any.
    fn least_unknown(&self, applied: &[u64]) -> (r: Option<u64>)
        ensures
            match r {
                Some(v) => self.is_least_unknown(applied@, v),
                None => self.knows_all(applied@),
            },
    {
        let known = self.known_versions();
        let mut least: Option<u64> = None;
        let mut i: usize = 0;
        while i < applied.len()
            invariant
                i <= applied@.len(),
                forall|v: u64| #[trigger] known@.contains(v) <==> self.has_version(v),
                match least {
                    None => forall|j: int| 0 <= j < i ==> self.has_version(#[trigger] applied@[j]),
                    Some(v) => {
                        &&& exists|j: int| 0 <= j < i && #[trigger] applied@[j] == v
                        &&& !self.has_version(v)
                        &&& forall|j: int|
                            0 <= j < i && !self.has_version(#[trigger] applied@[j]) ==> v
                                <= applied@[j]
                    },
                },
            decreases applied@.len() - i,
        {
            let a = applied[i];
            let found = known.contains(&a);
            if !found {
                least = match least {
                    None => Some(a),
                    Some(v) => if a < v {
                        Some(a)
                    } else {
                        Some(v)
                    },
                };
            }
            i = i + 1;
        }
        proof {
            if let Some(v) = least {
                let j = choose|j: int| 0 <= j < i && #[trigger] applied@[j] == v;
                assert(applied@.contains(v));
            }
        }
        least
    }

    /// The migrations of the registry, in registry order, that are applied and above
    /// `target` when `above` holds, or that are not applied when it does not
    /// (`target` is then ignored).
    fn select(&self, applied: &[u64], above: bool, target: u64) -> (r: Vec<&Migration>)
        ensures
            above ==> refers_to(r@, self.migrations@.filter(applied_above(applied@, target))),
            !above ==> refers_to(r@, self.migrations@.filter(not_applied(applied@))),
    {
        let ghost ms = self.migrations@;
        let ghost keep = if above {
            applied_above(applied@, target)
        } else {
            not_applied(applied@)
        };
        let listed_versions = version_set(applied);
        let mut r: Vec<&Migration> = Vec::new();
        let mut k: usize = 0;
        assert(ms.take(0) =~= Seq::<Migration>::empty());
        proof {
            reveal(Seq::filter);
        }
        while k < self.migrations.len()
            invariant
                ms == self.migrations@,
                k <= ms.len(),
                keep == (if above {
                    applied_above(applied@, target)
                } else {
                    not_applied(applied@)
                }),
                refers_to(r@, ms.take(k as int).filter(keep)),
                forall|v: u64| #[trigger] listed_versions@.contains(v) <==> applied@.contains(v),
            decreases ms.len() - k,
        {
            let m = &self.migrations[k];
            let listed = listed_versions.contains(&m.version);
            let wanted = if above {
                m.version > target && listed
            } else {
                !listed
            };
            assert(wanted == keep(ms[k as int]));
            proof {
                reveal(Seq::filter);
                assert(ms.take(k + 1).drop_last() =~= ms.take(k as int));
                assert(ms.take(k + 1).last() == ms[k as int]);
            }
            if wanted {
                r.push(m);
            }
            k = k + 1;
        }
        assert(ms.take(k as int) =~= ms);
        r
    }

    /// Diffs `applied` (versions already recorded as run against a
    /// database) against this registry and returns the migrations that
    /// still need to run, in registry (ascending version) order.
    pub fn plan_apply(&self, applied: &[u64]) -> (r: Result<ApplyPlan<'_>, PlanError>)
        ensures
            r is Ok <==> self.knows_all(applied@),
            r matches Err(e) ==> (e matches PlanError::AppliedVersionNotInRegistry { version }
                && self.is_least_unknown(applied@, version)),
            r matches Ok(plan) ==> refers_to(
                plan.pending@,
                self.migrations@.filter(not_applied(applied@)),
            ),
    {
        if let Some(version) = self.least_unknown(applied) {
            return Err(PlanError::AppliedVersionNotInRegistry { version });
        }
        let pending = self.select(applied, false, 0);
        Ok(ApplyPlan { pending })
    }

    /// Diffs `applied` against this registry and returns the migrations
    /// that need to be rolled back to bring the database down to `target`,
    /// in descending (reverse registry) order, so callers can run them in that
    /// order without re-sorting.
    ///
    /// A migration is included if it's in `applied` and its version is
    /// greater than `target`. `target` doesn't need to be a real migration
    /// version; passing 0 rolls back everything, since 0 is reserved and no
    /// migration can ever be built with that version.
    pub fn plan_rollback(&self, applied: &[u64], target: u64) -> (r: Result<Vec<&Migration>, PlanError>)
        ensures
            (r matches Err(PlanError::AppliedVersionNotInRegistry { .. })) <==> !self.knows_all(
                applied@,
            ),
            r matches Err(PlanError::AppliedVersionNotInRegistry { version }) ==> self.is_least_unknown(
                applied@,
                version,
            ),
            (r matches Err(PlanError::MissingDownSql { .. })) <==> (self.knows_all(applied@)
                && exists|i: int| is_first_without_down(self.rollback_selection(applied@, target), i)),
            r matches Err(PlanError::MissingDownSql { version }) ==> exists|i: int|
                is_first_without_down(self.rollback_selection(applied@, target), i)
                    && self.rollback_selection(applied@, target)[i].version == version,
            !(r matches Err(PlanError::ChecksumMismatch { .. })),
            r matches Ok(list) ==> refers_to(list@, self.rollback_selection(applied@, target)),
    {
        if let Some(version) = self.least_unknown(applied) {
            return Err(PlanError::AppliedVersionNotInRegistry { version });
        }
        let ghost sel = self.rollback_selection(applied@, target);
        let chosen = self.select(applied, true, target);
        let ghost fwd = self.migrations@.filter(applied_above(applied@, target));
        let mut rollback: Vec<&Migration> = Vec::new();
        let mut k: usize = chosen.len();
        while k > 0
            invariant
                k <= chosen@.len(),
                refers_to(chosen@, fwd),
                sel == fwd.reverse(),
                rollback@.len() == chosen@.len() - k,
                forall|j: int| 0 <= j < rollback@.len() ==> *(#[trigger] rollback@[j]) == sel[j],
            decreases k,
        {
            k = k - 1;
            rollback.push(chosen[k]);
        }
        let mut i: usize = 0;
        while i < rollback.len()
            invariant
                self.knows_all(applied@),
                sel == self.rollback_selection(applied@, target),
                refers_to(rollback@, sel),
                i <= rollback@.len(),
                forall|j: int| 0 <= j < i ==> (#[trigger] sel[j]).down_sql is Some,
            decreases rollback@.len() - i,
        {
            if rollback[i].down_sql.is_none() {
                assert(is_first_without_down(sel, i as int));
                return Err(PlanError::MissingDownSql { version: rollback[i].version });
            }
            i = i + 1;
        }
        assert(!exists|j: int| is_first_without_down(sel, j));
        Ok(rollback)
    }

    /// Every applied record names a version of the registry.
    pub open spec fn knows_all_records(&self, applied: Seq<AppliedMigration>) -> bool {
        forall|i: int| 0 <= i < applied.len() ==> self.has_version(#[trigger] applied[i].version)
    }

    /// Record `k` is the first in `applied` whose version the registry does not have.
    pub open spec fn is_first_unknown_record(&self, applied: Seq<AppliedMigration>, k: int) -> bool {
        &&& 0 <= k < applied.len()
        &&& !self.has_version(applied[k].version)
        &&& forall|j: int| 0 <= j < k ==> self.has_version(#[trigger] applied[j].version)
    }

    /// Record `k` is the first in `applied` that checking finds a problem with.
    pub open spec fn is_first_drifted_record(&self, applied: Seq<AppliedMigration>, k: int) -> bool {
        &&& 0 <= k < applied.len()
        &&& self.drift_error(applied[k]) is Some
        &&& forall|j: int| 0 <= j < k ==> self.drift_error(#[trigger] applied[j]) is None
    }

    /// Checks a caller's record of already-applied migrations against the
    /// `up_sql` this registry has on file for those versions.
    ///
    /// Returns the first version whose recorded checksum no longer matches,
    /// meaning the migration file was edited after it ran against a
    /// database. Fails with `AppliedVersionNotInRegistry` first if `applied`
    /// names a version this registry doesn't know about at all (the first
    /// such record, in the order given).
    pub fn check_drift(&self, applied: &[AppliedMigration]) -> (r: Result<(), PlanError>)
        ensures
            r is Ok <==> forall|i: int|
                0 <= i < applied@.len() ==> self.drift_error(#[trigger] applied@[i]) is None,
            r matches Err(e) ==> if self.knows_all_records(applied@) {
                exists|k: int|
                    self.is_first_drifted_record(applied@, k) && self.drift_error(applied@[k])
                        == Some(e)
            } else {
                exists|k: int|
                    self.is_first_unknown_record(applied@, k) && e
                        == PlanError::AppliedVersionNotInRegistry { version: applied@[k].version }
            },
    {
        let mut i: usize = 0;
        while i < applied.len()
            invariant
                i <= applied@.len(),
                forall|j: int| 0 <= j < i ==> self.has_version(#[trigger] applied@[j].version),
            decreases applied@.len() - i,
        {
            let version = applied[i].version;
            if self.position(version).is_none() {
                assert(self.is_first_unknown_record(applied@, i as int));
                assert(self.drift_error(applied@[i as int]) is Some);
                return Err(PlanError::AppliedVersionNotInRegistry { version });
            }
            i = i + 1;
        }
        assert(self.knows_all_records(applied@));
        let mut i: usize = 0;
        while i < applied.len()
            invariant
                i <= applied@.len(),
                self.knows_all_records(applied@),
                forall|j: int| 0 <= j < i ==> self.drift_error(#[trigger] applied@[j]) is None,
            decreases applied@.len() - i,
        {
            let record = applied[i];
            match self.get(record.version) {
                None => {
                    assert(self.has_version(applied@[i as int].version));
                    return Err(PlanError::AppliedVersionNotInRegistry { version: record.version });
                },
                Some(migration) => {
                    if migration.up_checksum != record.up_checksum {
                        let e = PlanError::ChecksumMismatch {
                            version: record.version,
                            recorded: record.up_checksum,
                            current: migration.up_checksum,
                        };
                        assert(self.drift_error(applied@[i as int]) == Some(e));
                        assert(self.is_first_drifted_record(applied@, i as int));
                        return Err(e);
                    }
                },
            }
            i = i + 1;
        }
        Ok(())
    }
}

/// The versions of `ms` strictly decrease.
pub open spec fn descending_versions(ms: Seq<Migration>) -> bool {
    forall|i: int, j: int| 0 <= i < j < ms.len() ==> #[trigger] ms[i].version > #[trigger] ms[j].version
}

/// Migrations whose version is among `applied`.
pub open spec fn is_applied(applied: Seq<u64>) -> spec_fn(Migration) -> bool {
    |m: Migration| applied.contains(m.version)
}

/// Every element of a filtered sequence comes from the sequence, at a position
/// no later than its own.
proof fn lemma_filter_from<A>(s: Seq<A>, p: spec_fn(A) -> bool)
    ensures
        forall|i: int|
            0 <= i < s.filter(p).len() ==> exists|j: int|
                i <= j < s.len() && s[j] == #[trigger] s.filter(p)[i],
    decreases s.len(),
{
    reveal(Seq::filter);
    if s.len() > 0 {
        lemma_filter_from(s.drop_last(), p);
        let f = s.filter(p);
        let g = s.drop_last().filter(p);
        assert forall|i: int| 0 <= i < f.len() implies exists|j: int|
            i <= j < s.len() && s[j] == #[trigger] f[i] by {
            if i < g.len() {
                assert(f[i] == g[i]);
                let j = choose|j: int| i <= j < s.drop_last().len() && s.drop_last()[j] == #[trigger] g[i];
                assert(s[j] == f[i]);
            } else {
                assert(f[i] == s.last());
                assert(s[s.len() - 1] == f[i]);
            }
        }
    }
}

/// Filtering keeps ascending versions ascending.
proof fn lemma_filter_ascending(s: Seq<Migration>, p: spec_fn(Migration) -> bool)
    requires
        ascending_versions(s),
    ensures
        ascending_versions(s.filter(p)),
    decreases s.len(),
{
    reveal(Seq::filter);
    if s.len() > 0 {
        let g = s.drop_last().filter(p);
        lemma_filter_ascending(s.drop_last(), p);
        lemma_filter_from(s.drop_last(), p);
        assert forall|i: int| 0 <= i < g.len() implies (#[trigger] g[i]).version < s.last().version by {
            let j = choose|j: int| i <= j < s.drop_last().len() && s.drop_last()[j] == #[trigger] g[i];
            assert(s[j] == g[i]);
        }
    }
}

/// Filters whose predicates agree on every element give the same sequence.
proof fn lemma_filter_agreeing(
    s: Seq<Migration>,
    p: spec_fn(Migration) -> bool,
    q: spec_fn(Migration) -> bool,
)
    requires
        forall|i: int| 0 <= i < s.len() ==> p(#[trigger] s[i]) == q(s[i]),
    ensures
        s.filter(p) == s.filter(q),
    decreases s.len(),
{
    reveal(Seq::filter);
    if s.len() > 0 {
        assert(p(s[s.len() - 1]) == q(s[s.len() - 1]));
        lemma_filter_agreeing(s.drop_last(), p, q);
    }
}

/// A filter that keeps every element keeps the whole sequence; one that keeps
/// none leaves nothing.
proof fn lemma_filter_all_or_nothing(s: Seq<Migration>, p: spec_fn(Migration) -> bool)
    ensures
        (forall|i: int| 0 <= i < s.len() ==> p(#[trigger] s[i])) ==> s.filter(p) == s,
        (forall|i: int| 0 <= i < s.len() ==> !p(#[trigger] s[i])) ==> s.filter(p).len() == 0,
    decreases s.len(),
{
    reveal(Seq::filter);
    if s.len() > 0 {
        lemma_filter_all_or_nothing(s.drop_last(), p);
        if forall|i: int| 0 <= i < s.len() ==> p(#[trigger] s[i]) {
            assert forall|i: int| 0 <= i < s.drop_last().len() implies p(#[trigger] s.drop_last()[i]) by {
                assert(s.drop_last()[i] == s[i]);
            }
            assert(p(s[s.len() - 1]));
            assert(s.drop_last().push(s.last()) =~= s);
        }
        if forall|i: int| 0 <= i < s.len() ==> !p(#[trigger] s[i]) {
            assert forall|i: int| 0 <= i < s.drop_last().len() implies !p(#[trigger] s.drop_last()[i]) by {
                assert(s.drop_last()[i] == s[i]);
            }
            assert(!p(s[s.len() - 1]));
        }
    }
}

/// The versions of `ms`, in order.
pub open spec fn versions_of(ms: Seq<Migration>) -> Seq<u64> {
    ms.map_values(|m: Migration| m.version)
}

/// `applied` without the versions in `removed`.
pub open spec fn without(applied: Seq<u64>, removed: Seq<u64>) -> Seq<u64> {
    applied.filter(|v: u64| !removed.contains(v))
}

/// What is in a filtered sequence is exactly what is in the sequence and passes the filter.
proof fn lemma_filter_membership<A>(s: Seq<A>, p: spec_fn(A) -> bool, x: A)
    ensures
        s.filter(p).contains(x) <==> s.contains(x) && p(x),
{
    broadcast use vstd::seq_lib::group_filter_ensures;

    lemma_filter_from(s, p);
    if s.filter(p).contains(x) {
        let i = choose|i: int| 0 <= i < s.filter(p).len() && s.filter(p)[i] == x;
        let j = choose|j: int| i <= j < s.len() && s[j] == #[trigger] s.filter(p)[i];
        assert(s[j] == x);
        assert(p(s.filter(p)[i]));
    }
    if s.contains(x) && p(x) {
        let j = choose|j: int| 0 <= j < s.len() && s[j] == x;
        assert(s.filter(p).contains(s[j]));
    }
}

impl Registry {
    /// A plan holds exactly the migrations whose version was not applied:
    /// everything it lists is unapplied, and every unapplied migration is listed.
    pub proof fn lemma_pending_exactly_unapplied(&self, applied: Seq<u64>)
        ensures
            forall|i: int|
                0 <= i < self.migrations@.filter(not_applied(applied)).len()
                    ==> !applied.contains(
                    (#[trigger] self.migrations@.filter(not_applied(applied))[i]).version,
                ),
            forall|i: int|
                0 <= i < self.migrations@.len() && !applied.contains(
                    (#[trigger] self.migrations@[i]).version,
                ) ==> self.migrations@.filter(not_applied(applied)).contains(self.migrations@[i]),
    {
        broadcast use vstd::seq_lib::group_filter_ensures;

        let ms = self.migrations@;
        let p = not_applied(applied);
        assert forall|i: int| 0 <= i < ms.filter(p).len() implies !applied.contains(
            (#[trigger] ms.filter(p)[i]).version,
        ) by {
            assert(p(ms.filter(p)[i]));
        }
        assert forall|i: int|
            0 <= i < ms.len() && !applied.contains((#[trigger] ms[i]).version) implies ms.filter(
            p,
        ).contains(ms[i]) by {
            assert(p(ms[i]));
        }
    }

    /// With nothing applied, every migration is pending.
    pub proof fn lemma_nothing_applied_all_pending(&self, applied: Seq<u64>)
        requires
            applied.len() == 0,
        ensures
            self.migrations@.filter(not_applied(applied)) == self.migrations@,
    {
        lemma_filter_all_or_nothing(self.migrations@, not_applied(applied));
    }

    /// With every version of the registry applied, nothing is pending.
    pub proof fn lemma_all_applied_nothing_pending(&self, applied: Seq<u64>)
        requires
            forall|i: int|
                0 <= i < self.migrations@.len() ==> applied.contains(
                    (#[trigger] self.migrations@[i]).version,
                ),
        ensures
            self.migrations@.filter(not_applied(applied)).len() == 0,
    {
        lemma_filter_all_or_nothing(self.migrations@, not_applied(applied));
    }

    /// In a registry with ascending versions (as every built registry has),
    /// a plan lists its migrations in ascending version order and a rollback
    /// in descending version order.
    pub proof fn lemma_plans_are_ordered(&self, applied: Seq<u64>, target: u64)
        requires
            ascending_versions(self.migrations@),
        ensures
            ascending_versions(self.migrations@.filter(not_applied(applied))),
            descending_versions(self.rollback_selection(applied, target)),
    {
        lemma_filter_ascending(self.migrations@, not_applied(applied));
        let f = self.migrations@.filter(applied_above(applied, target));
        lemma_filter_ascending(self.migrations@, applied_above(applied, target));
        let r = self.rollback_selection(applied, target);
        assert forall|i: int, j: int| 0 <= i < j < r.len() implies #[trigger] r[i].version
            > #[trigger] r[j].version by {
            assert(r[i] == f[f.len() - 1 - i]);
            assert(r[j] == f[f.len() - 1 - j]);
        }
    }

    /// Target 0 rolls back everything: in a registry without version 0 (as
    /// every built registry is), a rollback to 0 undoes every applied migration.
    pub proof fn lemma_rollback_to_zero_takes_all_applied(&self, applied: Seq<u64>)
        requires
            forall|i: int| 0 <= i < self.migrations@.len() ==> (#[trigger] self.migrations@[i]).version != 0,
        ensures
            self.rollback_selection(applied, 0) == self.migrations@.filter(is_applied(applied)).reverse(),
    {
        let ms = self.migrations@;
        assert forall|i: int| 0 <= i < ms.len() implies applied_above(applied, 0)(#[trigger] ms[i])
            == is_applied(applied)(ms[i]) by {
            assert(ms[i].version != 0);
        }
        lemma_filter_agreeing(ms, applied_above(applied, 0), is_applied(applied));
    }

    /// After running every pending migration and recording its version,
    /// planning again finds nothing pending.
    pub proof fn lemma_applying_pending_leaves_nothing(&self, applied: Seq<u64>)
        requires
            self.knows_all(applied),
        ensures
            self.knows_all(applied + versions_of(self.migrations@.filter(not_applied(applied)))),
            self.migrations@.filter(
                not_applied(applied + versions_of(self.migrations@.filter(not_applied(applied)))),
            ).len() == 0,
    {
        let ms = self.migrations@;
        let f = ms.filter(not_applied(applied));
        let a2 = applied + versions_of(f);
        lemma_filter_from(ms, not_applied(applied));
        assert forall|i: int| 0 <= i < a2.len() implies self.has_version(#[trigger] a2[i]) by {
            if i >= applied.len() {
                let k = i - applied.len();
                assert(a2[i] == f[k].version);
                let j = choose|j: int| k <= j < ms.len() && ms[j] == #[trigger] f[k];
                assert(ms[j].version == a2[i]);
            } else {
                assert(a2[i] == applied[i]);
            }
        }
        assert forall|i: int| 0 <= i < ms.len() implies !not_applied(a2)(#[trigger] ms[i]) by {
            let v = ms[i].version;
            if applied.contains(v) {
                let k = choose|k: int| 0 <= k < applied.len() && applied[k] == v;
                assert(a2[k] == v);
            } else {
                lemma_filter_membership(ms, not_applied(applied), ms[i]);
                let k = choose|k: int| 0 <= k < f.len() && f[k] == ms[i];
                assert(a2[applied.len() + k] == v);
            }
        }
        lemma_filter_all_or_nothing(ms, not_applied(a2));
    }

    /// After a rollback, with its versions taken out of the applied ones,
    /// rolling back to the same target again finds nothing, and the versions
    /// pending are those pending before together with those rolled back.
    pub proof fn lemma_rollback_then_plan(&self, applied: Seq<u64>, target: u64)
        requires
            self.knows_all(applied),
        ensures
            self.knows_all(without(applied, versions_of(self.rollback_selection(applied, target)))),
            self.rollback_selection(
                without(applied, versions_of(self.rollback_selection(applied, target))),
                target,
            ).len() == 0,
            versions_of(
                self.migrations@.filter(
                    not_applied(without(applied, versions_of(self.rollback_selection(applied, target)))),
                ),
            ).to_set() == versions_of(self.migrations@.filter(not_applied(applied))).to_set()
                + versions_of(self.rollback_selection(applied, target)).to_set(),
    {
        let ms = self.migrations@;
        let fwd = ms.filter(applied_above(applied, target));
        let sel = self.rollback_selection(applied, target);
        let rolled = versions_of(sel);
        let keep = |v: u64| !rolled.contains(v);
        let a2 = without(applied, rolled);
        assert(a2 == applied.filter(keep));
        // membership in what is left applied
        assert forall|x: u64| a2.contains(x) <==> applied.contains(x) && !rolled.contains(x) by {
            lemma_filter_membership(applied, keep, x);
        }
        // a version is rolled back exactly when some migration above the target with it was applied
        assert forall|x: u64| rolled.contains(x) <==> exists|j: int|
            0 <= j < ms.len() && #[trigger] ms[j].version == x && x > target && applied.contains(x) by {
            if rolled.contains(x) {
                let k = choose|k: int| 0 <= k < rolled.len() && rolled[k] == x;
                assert(sel[k] == fwd[fwd.len() - 1 - k]);
                lemma_filter_membership(ms, applied_above(applied, target), sel[k]);
                let j = choose|j: int| 0 <= j < ms.len() && ms[j] == sel[k];
                assert(ms[j].version == x);
            }
            if exists|j: int| 0 <= j < ms.len() && #[trigger] ms[j].version == x && x > target && applied.contains(x) {
                let j = choose|j: int| 0 <= j < ms.len() && #[trigger] ms[j].version == x && x > target && applied.contains(x);
                lemma_filter_membership(ms, applied_above(applied, target), ms[j]);
                let k = choose|k: int| 0 <= k < fwd.len() && fwd[k] == ms[j];
                assert(sel[fwd.len() - 1 - k] == ms[j]);
                assert(rolled[fwd.len() - 1 - k] == x);
            }
        }
        assert forall|i: int| 0 <= i < a2.len() implies self.has_version(#[trigger] a2[i]) by {
            assert(a2.contains(a2[i]));
            let k = choose|k: int| 0 <= k < applied.len() && applied[k] == a2[i];
        }
        assert forall|i: int| 0 <= i < ms.len() implies !applied_above(a2, target)(#[trigger] ms[i]) by {
            let v = ms[i].version;
            if v > target && a2.contains(v) {
                assert(rolled.contains(v));
            }
        }
        lemma_filter_all_or_nothing(ms, applied_above(a2, target));
        let before = versions_of(ms.filter(not_applied(applied)));
        let after = versions_of(ms.filter(not_applied(a2)));
        assert forall|x: u64| after.to_set().contains(x) <==> (before.to_set() + rolled.to_set()).contains(x) by {
            if after.contains(x) {
                let k = choose|k: int| 0 <= k < after.len() && after[k] == x;
                let m = ms.filter(not_applied(a2))[k];
                lemma_filter_membership(ms, not_applied(a2), m);
                let j = choose|j: int| 0 <= j < ms.len() && ms[j] == m;
                if !applied.contains(x) {
                    lemma_filter_membership(ms, not_applied(applied), m);
                    let k2 = choose|k2: int| 0 <= k2 < ms.filter(not_applied(applied)).len() && ms.filter(not_applied(applied))[k2] == m;
                    assert(before[k2] == x);
                }
            }
            if before.contains(x) {
                let k = choose|k: int| 0 <= k < before.len() && before[k] == x;
                let m = ms.filter(not_applied(applied))[k];
                lemma_filter_membership(ms, not_applied(applied), m);
                lemma_filter_membership(ms, not_applied(a2), m);
                let k2 = choose|k2: int| 0 <= k2 < ms.filter(not_applied(a2)).len() && ms.filter(not_applied(a2))[k2] == m;
                assert(after[k2] == x);
            }
            if rolled.contains(x) {
                let j = choose|j: int| 0 <= j < ms.len() && #[trigger] ms[j].version == x && x > target && applied.contains(x);
                lemma_filter_membership(ms, not_applied(a2), ms[j]);
                let k2 = choose|k2: int| 0 <= k2 < ms.filter(not_applied(a2)).len() && ms.filter(not_applied(a2))[k2] == ms[j];
                assert(after[k2] == x);
            }
        }
        assert(after.to_set() =~= before.to_set() + rolled.to_set());
    }

    /// A rollback to `target` undoes exactly the applied migrations above the
    /// target: everything it lists has a version greater than `target` that is
    /// among `applied`, and every such migration of the registry is listed;
    /// in particular it never lists a migration at or below the target.
    pub proof fn lemma_rollback_takes_exactly_applied_above_target(&self, applied: Seq<u64>, target: u64)
        ensures
            forall|i: int|
                0 <= i < self.rollback_selection(applied, target).len() ==> {
                    let m = #[trigger] self.rollback_selection(applied, target)[i];
                    m.version > target && applied.contains(m.version) && self.migrations@.contains(m)
                },
            forall|j: int|
                0 <= j < self.migrations@.len() && (#[trigger] self.migrations@[j]).version > target
                    && applied.contains(self.migrations@[j].version) ==> self.rollback_selection(
                    applied,
                    target,
                ).contains(self.migrations@[j]),
    {
        let ms = self.migrations@;
        let p = applied_above(applied, target);
        let f = ms.filter(p);
        let sel = self.rollback_selection(applied, target);
        assert forall|i: int| 0 <= i < sel.len() implies {
            let m = #[trigger] sel[i];
            m.version > target && applied.contains(m.version) && ms.contains(m)
        } by {
            assert(sel[i] == f[f.len() - 1 - i]);
            assert(f.contains(sel[i]));
            lemma_filter_membership(ms, p, sel[i]);
        }
        assert forall|j: int|
            0 <= j < ms.len() && (#[trigger] ms[j]).version > target && applied.contains(
                ms[j].version,
            ) implies sel.contains(ms[j]) by {
            assert(ms.contains(ms[j]));
            lemma_filter_membership(ms, p, ms[j]);
            let k = choose|k: int| 0 <= k < f.len() && f[k] == ms[j];
            assert(sel[f.len() - 1 - k] == ms[j]);
        }
    }

    /// The version an unknown-version error reports is determined by the
    /// applied versions: at most one is the least unknown one.
    pub proof fn lemma_least_unknown_unique(&self, applied: Seq<u64>, v: u64, w: u64)
        requires
            self.is_least_unknown(applied, v),
            self.is_least_unknown(applied, w),
        ensures
            v == w,
    {
        let i = choose|i: int| 0 <= i < applied.len() && applied[i] == v;
        let j = choose|j: int| 0 <= j < applied.len() && applied[j] == w;
        assert(!self.has_version(applied[i]));
        assert(!self.has_version(applied[j]));
    }

    /// Records taken from the registry's own migrations never drift, provided
    /// no two migrations share a version (as in every built registry).
    pub proof fn lemma_own_records_do_not_drift(&self, records: Seq<AppliedMigration>)
        requires
            ascending_versions(self.migrations@),
            forall|k: int|
                0 <= k < records.len() ==> exists|i: int|
                    0 <= i < self.migrations@.len() && #[trigger] records[k] == (AppliedMigration {
                        version: self.migrations@[i].version,
                        up_checksum: self.migrations@[i].up_checksum,
                    }),
        ensures
            forall|k: int| 0 <= k < records.len() ==> self.drift_error(#[trigger] records[k]) is None,
    {
        let ms = self.migrations@;
        assert forall|k: int| 0 <= k < records.len() implies self.drift_error(#[trigger] records[k])
            is None by {
            let i = choose|i: int|
                0 <= i < ms.len() && #[trigger] records[k] == (AppliedMigration {
                    version: ms[i].version,
                    up_checksum: ms[i].up_checksum,
                });
            let v = ms[i].version;
            assert forall|j: int| 0 <= j < i implies ms[j].version != v by {
                assert(ms[j].version < ms[i].version);
            }
            assert(crate::registry::is_first_with_version(ms, v, i));
            crate::registry::lemma_position_of_is(ms, v, i);
        }
    }
}

/// The set of the values in `values`.
fn version_set(values: &[u64]) -> (r: BTreeSet<u64>)
    ensures
        forall|v: u64| #[trigger] r@.contains(v) <==> values@.contains(v),
{
    let mut r: BTreeSet<u64> = BTreeSet::new();
    let mut k: usize = 0;
    while k < values.len()
        invariant
            k <= values@.len(),
            forall|v: u64|
                #[trigger] r@.contains(v) <==> exists|i: int| 0 <= i < k && #[trigger] values@[i] == v,
        decreases values@.len() - k,
    {
        r.insert(values[k]);
        k = k + 1;
    }
    assert forall|v: u64| #[trigger] r@.contains(v) <==> values@.contains(v) by {
        if values@.contains(v) {
            let i = choose|i: int| 0 <= i < values@.len() && values@[i] == v;
            assert(values@[i] == v);
        }
    }
    r
}

} // verus!

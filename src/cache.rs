//! Retention of the newest versions of each package in a package cache.
use vstd::prelude::*;

use crate::ranking::{
    is_ranking, kept_count, lemma_kept_are_newest, lemma_ranking_unique, rank_versions,
    removed_count, VersionEntry,
};

verus! {

/// How many versions of each package a cleaning keeps unless told otherwise.
pub const DEFAULT_VERSIONS_KEPT: usize = 2;

/// One package directory of the cache, with the versions found in it.
#[derive(Clone, Debug)]
pub struct PackageEntry {
    pub name: String,
    pub versions: Vec<VersionEntry>,
}

/// What a cleaning decides for one package: its versions' indices from
/// newest to oldest, of which the first `keep` stay and the rest go.
#[derive(Clone, Debug)]
pub struct PackagePlan {
    pub ranked: Vec<usize>,
    pub keep: usize,
}

/// The outcome of cleaning a cache: one plan per package, in the order of the
/// listing, and the totals over the packages that hold any version.
#[derive(Clone, Debug)]
pub struct CleanReport {
    pub plans: Vec<PackagePlan>,
    pub packages: usize,
    pub kept: usize,
    pub removed: usize,
}

/// The first `n` versions of the ranking `r`, newest first.
pub open spec fn retained(vs: Seq<VersionEntry>, r: Seq<usize>, n: nat) -> Seq<VersionEntry> {
    Seq::new(n, |j: int| vs[r[j] as int])
}

/// `plan` ranks the versions `vs` and keeps the newest `k` of them.
pub open spec fn plan_fits(vs: Seq<VersionEntry>, plan: PackagePlan, k: nat) -> bool {
    &&& is_ranking(vs, plan.ranked@)
    &&& plan.keep == kept_count(vs.len(), k)
}

/// `plans` holds, package by package, the plan that keeps the newest `k`
/// versions of each package of `c`.
pub open spec fn plans_fit(c: Seq<PackageEntry>, plans: Seq<PackagePlan>, k: nat) -> bool {
    &&& plans.len() == c.len()
    &&& forall|i: int| 0 <= i < c.len() ==> plan_fits(c[i].versions@, #[trigger] plans[i], k)
}

/// `after` is the cache `before` once each package holds only the versions
/// that its plan keeps.
pub open spec fn is_cleaned(
    before: Seq<PackageEntry>,
    after: Seq<PackageEntry>,
    plans: Seq<PackagePlan>,
) -> bool {
    &&& after.len() == before.len()
    &&& forall|i: int|
        0 <= i < before.len() ==> {
            &&& (#[trigger] after[i]).name == before[i].name
            &&& after[i].versions@ == retained(
                before[i].versions@,
                plans[i].ranked@,
                plans[i].keep as nat,
            )
        }
}

/// The number of packages of `c` that hold at least one version.
pub open spec fn listed_packages(c: Seq<PackageEntry>) -> nat
    decreases c.len(),
{
    if c.len() == 0 {
        0
    } else {
        listed_packages(c.drop_last()) + if c.last().versions@.len() > 0 {
            1nat
        } else {
            0nat
        }
    }
}

/// The number of versions over all packages of `c`.
pub open spec fn total_versions(c: Seq<PackageEntry>) -> nat
    decreases c.len(),
{
    if c.len() == 0 {
        0
    } else {
        total_versions(c.drop_last()) + c.last().versions@.len()
    }
}

/// The number of versions kept over all packages of `c`, `k` per package.
pub open spec fn total_kept(c: Seq<PackageEntry>, k: nat) -> nat
    decreases c.len(),
{
    if c.len() == 0 {
        0
    } else {
        total_kept(c.drop_last(), k) + kept_count(c.last().versions@.len(), k)
    }
}

/// The number of versions removed over all packages of `c`, `k` kept per package.
pub open spec fn total_removed(c: Seq<PackageEntry>, k: nat) -> nat
    decreases c.len(),
{
    if c.len() == 0 {
        0
    } else {
        total_removed(c.drop_last(), k) + removed_count(c.last().versions@.len(), k)
    }
}

proof fn lemma_total_versions_prefix(c: Seq<PackageEntry>, i: int)
    requires
        0 <= i <= c.len(),
    ensures
        total_versions(c.take(i)) <= total_versions(c),
    decreases c.len(),
{
    if i < c.len() {
        lemma_total_versions_prefix(c.drop_last(), i);
        assert(c.drop_last().take(i) =~= c.take(i));
    } else {
        assert(c.take(i) =~= c);
    }
}

impl PackagePlan {
    /// Whether the package is reported at all: one without versions is not.
    pub fn is_reported(&self) -> (r: bool)
        ensures
            r == (self.ranked@.len() > 0),
    {
        self.ranked.len() > 0
    }
}

/// Ranks the versions of one package and keeps the newest `keep` of them.
pub fn plan_package(versions: &Vec<VersionEntry>, keep: usize) -> (plan: PackagePlan)
    ensures
        plan_fits(versions@, plan, keep as nat),
{
    let ranked = rank_versions(versions);
    let n = versions.len();
    let kept = if n < keep {
        n
    } else {
        keep
    };
    PackagePlan { ranked, keep: kept }
}

/// Plans the cleaning of every package of `cache`, keeping the newest `keep`
/// versions of each, and counts the packages that hold versions, the
/// versions kept and the versions removed.
pub fn plan_cleanup(cache: &Vec<PackageEntry>, keep: usize) -> (report: CleanReport)
    requires
        total_versions(cache@) <= usize::MAX,
    ensures
        plans_fit(cache@, report.plans@, keep as nat),
        report.packages == listed_packages(cache@),
        report.kept == total_kept(cache@, keep as nat),
        report.removed == total_removed(cache@, keep as nat),
{
    let ghost c = cache@;
    let ghost k = keep as nat;
    let mut plans: Vec<PackagePlan> = Vec::new();
    let mut packages: usize = 0;
    let mut kept: usize = 0;
    let mut removed: usize = 0;
    let mut i: usize = 0;
    while i < cache.len()
        invariant
            i <= cache.len(),
            c == cache@,
            k == keep as nat,
            total_versions(c) <= usize::MAX,
            plans.len() == i,
            forall|m: int| 0 <= m < i ==> plan_fits(c[m].versions@, #[trigger] plans@[m], k),
            packages <= i,
            packages == listed_packages(c.take(i as int)),
            kept == total_kept(c.take(i as int), k),
            removed == total_removed(c.take(i as int), k),
            kept + removed == total_versions(c.take(i as int)),
        decreases cache.len() - i,
    {
        let plan = plan_package(&cache[i].versions, keep);
        let n = cache[i].versions.len();
        proof {
            assert(c.take(i + 1).drop_last() =~= c.take(i as int));
            assert(c.take(i + 1).last() == c[i as int]);
            lemma_total_versions_prefix(c, i + 1);
        }
        if n > 0 {
            packages = packages + 1;
        }
        kept = kept + plan.keep;
        removed = removed + (n - plan.keep);
        plans.push(plan);
        i = i + 1;
    }
    assert(c.take(i as int) =~= c);
    CleanReport { plans, packages, kept, removed }
}

/// The versions of one package that its plan keeps, newest first.
fn retained_versions(versions: &Vec<VersionEntry>, plan: &PackagePlan) -> (r: Vec<VersionEntry>)
    requires
        plan.keep <= plan.ranked.len(),
        forall|p: int| 0 <= p < plan.ranked.len() ==> plan.ranked@[p] < versions.len(),
    ensures
        r@ == retained(versions@, plan.ranked@, plan.keep as nat),
{
    let mut r: Vec<VersionEntry> = Vec::new();
    let mut j: usize = 0;
    while j < plan.keep
        invariant
            j <= plan.keep,
            plan.keep <= plan.ranked.len(),
            forall|p: int| 0 <= p < plan.ranked.len() ==> plan.ranked@[p] < versions.len(),
            r@ =~= retained(versions@, plan.ranked@, j as nat),
        decreases plan.keep - j,
    {
        r.push(versions[plan.ranked[j]].duplicate());
        j = j + 1;
    }
    r
}

/// Cleans the cache listed in `cache`, keeping the newest `keep` versions of
/// each package. A live run leaves in `cache` only the versions kept; a dry
/// run leaves `cache` as it was. Either way the report is the same.
pub fn clean_package_cache(cache: &mut Vec<PackageEntry>, keep: usize, dry_run: bool) -> (report:
    CleanReport)
    requires
        total_versions(old(cache)@) <= usize::MAX,
    ensures
        plans_fit(old(cache)@, report.plans@, keep as nat),
        report.packages == listed_packages(old(cache)@),
        report.kept == total_kept(old(cache)@, keep as nat),
        report.removed == total_removed(old(cache)@, keep as nat),
        dry_run ==> final(cache)@ == old(cache)@,
        !dry_run ==> is_cleaned(old(cache)@, final(cache)@, report.plans@),
{
    let report = plan_cleanup(cache, keep);
    if !dry_run {
        let ghost before = cache@;
        let mut after: Vec<PackageEntry> = Vec::new();
        let mut i: usize = 0;
        while i < cache.len()
            invariant
                i <= cache.len(),
                before == cache@,
                plans_fit(before, report.plans@, keep as nat),
                after.len() == i,
                forall|m: int|
                    0 <= m < i ==> {
                        &&& (#[trigger] after@[m]).name == before[m].name
                        &&& after@[m].versions@ == retained(
                            before[m].versions@,
                            report.plans@[m].ranked@,
                            report.plans@[m].keep as nat,
                        )
                    },
            decreases cache.len() - i,
        {
            let plan = &report.plans[i];
            assert(plan_fits(before[i as int].versions@, report.plans@[i as int], keep as nat));
            let versions = retained_versions(&cache[i].versions, plan);
            after.push(PackageEntry { name: cache[i].name.clone(), versions });
            i = i + 1;
        }
        *cache = after;
    }
    report
}

/// A package cleaned to its newest `k` versions keeps `min(n, k)` of its `n`
/// versions and loses the other `n - min(n, k)`, and no version kept was
/// modified earlier than a version removed.
pub proof fn lemma_cleaning_keeps_newest(vs: Seq<VersionEntry>, plan: PackagePlan, k: nat)
    requires
        plan_fits(vs, plan, k),
    ensures
        retained(vs, plan.ranked@, plan.keep as nat).len() == if vs.len() < k {
            vs.len()
        } else {
            k
        },
        vs.len() - plan.keep == if vs.len() > k {
            vs.len() - k
        } else {
            0
        },
        forall|j: int, q: int|
            0 <= j < plan.keep <= q < vs.len() ==> #[trigger] retained(
                vs,
                plan.ranked@,
                plan.keep as nat,
            )[j].modified >= vs[#[trigger] plan.ranked@[q] as int].modified,
{
    lemma_kept_are_newest(vs, plan.ranked@, k);
    assert forall|j: int, q: int| 0 <= j < plan.keep <= q < vs.len() implies #[trigger] retained(
        vs,
        plan.ranked@,
        plan.keep as nat,
    )[j].modified >= vs[#[trigger] plan.ranked@[q] as int].modified by {
        assert(vs[plan.ranked@[j] as int].modified >= vs[plan.ranked@[q] as int].modified);
    }
}

proof fn lemma_nothing_removed_when_small(c: Seq<PackageEntry>, k: nat)
    requires
        forall|i: int| 0 <= i < c.len() ==> (#[trigger] c[i]).versions@.len() <= k,
    ensures
        total_removed(c, k) == 0,
    decreases c.len(),
{
    if c.len() > 0 {
        lemma_nothing_removed_when_small(c.drop_last(), k);
    }
}

/// After a live cleaning that keeps `k` versions per package, every package
/// holds at most `k` versions, so cleaning again removes nothing.
pub proof fn lemma_cleaning_is_idempotent(
    before: Seq<PackageEntry>,
    after: Seq<PackageEntry>,
    plans: Seq<PackagePlan>,
    k: nat,
)
    requires
        plans_fit(before, plans, k),
        is_cleaned(before, after, plans),
    ensures
        forall|i: int| 0 <= i < after.len() ==> (#[trigger] after[i]).versions@.len() <= k,
        total_removed(after, k) == 0,
{
    assert forall|i: int| 0 <= i < after.len() implies (#[trigger] after[i]).versions@.len()
        <= k by {
        assert(plan_fits(before[i].versions@, plans[i], k));
    }
    lemma_nothing_removed_when_small(after, k);
}

/// Two plans of the same cache with the same retention are the same plans:
/// what a dry run announces is what a live run on the unchanged cache removes.
pub proof fn lemma_plans_are_determined(
    c: Seq<PackageEntry>,
    plans1: Seq<PackagePlan>,
    plans2: Seq<PackagePlan>,
    k: nat,
)
    requires
        plans_fit(c, plans1, k),
        plans_fit(c, plans2, k),
    ensures
        plans1.len() == plans2.len(),
        forall|i: int|
            0 <= i < plans1.len() ==> (#[trigger] plans1[i]).ranked@ == plans2[i].ranked@
                && plans1[i].keep == plans2[i].keep,
{
    assert forall|i: int| 0 <= i < plans1.len() implies (#[trigger] plans1[i]).ranked@
        == plans2[i].ranked@ && plans1[i].keep == plans2[i].keep by {
        assert(plan_fits(c[i].versions@, plans1[i], k));
        assert(plan_fits(c[i].versions@, plans2[i], k));
        lemma_ranking_unique(c[i].versions@, plans1[i].ranked@, plans2[i].ranked@);
    }
}

/// A package with at most `k` versions loses none: every one of its versions
/// is kept.
pub proof fn lemma_small_package_untouched(vs: Seq<VersionEntry>, plan: PackagePlan, k: nat)
    requires
        plan_fits(vs, plan, k),
        vs.len() <= k,
    ensures
        plan.keep == vs.len(),
        removed_count(vs.len(), k) == 0,
        retained(vs, plan.ranked@, plan.keep as nat).len() == vs.len(),
        forall|j: int| 0 <= j < vs.len() ==> retained(vs, plan.ranked@, plan.keep as nat).contains(
            #[trigger] vs[j],
        ),
{
    let kept = retained(vs, plan.ranked@, plan.keep as nat);
    assert forall|j: int| 0 <= j < vs.len() implies kept.contains(#[trigger] vs[j]) by {
        assert(plan.ranked@.contains(j as usize));
        let p = choose|p: int| 0 <= p < plan.ranked@.len() && plan.ranked@[p] == j as usize;
        assert(kept[p] == vs[j]);
    }
}

} // verus!

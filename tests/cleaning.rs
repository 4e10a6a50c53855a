use cleanpkgcache::cache::{
    clean_package_cache, plan_cleanup, plan_package, PackageEntry, DEFAULT_VERSIONS_KEPT,
};
use cleanpkgcache::checkpoints::{
    decide_task, plan_checkpoint_pruning, task_age, TaskDecision, TaskEntry,
    DEFAULT_AGE_THRESHOLD_NANOS,
};
use cleanpkgcache::ranking::{rank_versions, VersionEntry};

fn version(name: &str, modified: u64) -> VersionEntry {
    VersionEntry { name: name.to_string(), modified }
}

fn package(name: &str, versions: &[(&str, u64)]) -> PackageEntry {
    PackageEntry {
        name: name.to_string(),
        versions: versions.iter().map(|(n, t)| version(n, *t)).collect(),
    }
}

fn names(p: &PackageEntry) -> Vec<String> {
    p.versions.iter().map(|v| v.name.clone()).collect()
}

fn example_cache() -> Vec<PackageEntry> {
    vec![
        package("pkgA", &[("1.0", 100), ("1.1", 200), ("1.2", 300)]),
        package("pkgB", &[("2.0", 50)]),
    ]
}

#[test]
fn example_two_packages() {
    let mut cache = example_cache();
    let report = clean_package_cache(&mut cache, 2, false);
    assert_eq!(report.packages, 2);
    assert_eq!(report.kept, 3);
    assert_eq!(report.removed, 1);
    assert_eq!(report.plans[0].ranked, vec![2, 1, 0]);
    assert_eq!(report.plans[0].keep, 2);
    assert_eq!(report.plans[1].ranked, vec![0]);
    assert_eq!(report.plans[1].keep, 1);
    assert_eq!(cache[0].name, "pkgA");
    assert_eq!(names(&cache[0]), vec!["1.2", "1.1"]);
    assert_eq!(cache[1].name, "pkgB");
    assert_eq!(names(&cache[1]), vec!["2.0"]);
}

#[test]
fn default_keeps_two() {
    assert_eq!(DEFAULT_VERSIONS_KEPT, 2);
}

#[test]
fn keep_and_remove_counts_by_size() {
    for (n, kept, removed) in [(0usize, 0usize, 0usize), (1, 1, 0), (2, 2, 0), (5, 2, 3)] {
        let versions: Vec<VersionEntry> =
            (0..n).map(|i| version(&format!("v{}", i), 10 * i as u64)).collect();
        let plan = plan_package(&versions, 2);
        assert_eq!(plan.keep, kept);
        assert_eq!(plan.ranked.len() - plan.keep, removed);
        assert_eq!(plan.is_reported(), n > 0);
    }
}

#[test]
fn five_versions_keep_newest_two() {
    let mut cache = vec![package(
        "p",
        &[("a", 30), ("b", 50), ("c", 10), ("d", 40), ("e", 20)],
    )];
    let report = clean_package_cache(&mut cache, 2, false);
    assert_eq!(report.plans[0].ranked, vec![1, 3, 0, 4, 2]);
    assert_eq!(report.kept, 2);
    assert_eq!(report.removed, 3);
    assert_eq!(names(&cache[0]), vec!["b", "d"]);
}

#[test]
fn small_packages_untouched() {
    let mut cache = vec![
        package("one", &[("x", 7)]),
        package("two", &[("y", 1), ("z", 2)]),
    ];
    let report = clean_package_cache(&mut cache, 2, false);
    assert_eq!(report.removed, 0);
    assert_eq!(report.kept, 3);
    assert_eq!(names(&cache[0]), vec!["x"]);
    assert_eq!(names(&cache[1]), vec!["z", "y"]);
}

#[test]
fn empty_packages_not_counted() {
    let cache = vec![package("empty", &[]), package("full", &[("1", 1)])];
    let report = plan_cleanup(&cache, 2);
    assert_eq!(report.packages, 1);
    assert!(!report.plans[0].is_reported());
    assert!(report.plans[1].is_reported());
    assert_eq!(report.kept, 1);
    assert_eq!(report.removed, 0);
}

fn ranked(versions: &[(&str, u64)]) -> Vec<usize> {
    let entries: Vec<VersionEntry> = versions.iter().map(|(n, t)| version(n, *t)).collect();
    rank_versions(&entries)
}

#[test]
fn equal_times_ordered_by_name() {
    assert_eq!(
        ranked(&[("b", 5), ("a", 9), ("a", 5), ("c", 9), ("z", 1)]),
        vec![1, 3, 2, 0, 4]
    );
    assert_eq!(ranked(&[("9", 1), ("10", 1)]), vec![1, 0]);
    assert_eq!(ranked(&[("a", 1), ("B", 1)]), vec![1, 0]);
    assert_eq!(ranked(&[("1.0", 1), ("1.0.1", 1), ("1", 1)]), vec![2, 0, 1]);
}

#[test]
fn same_time_and_name_keep_listing_order() {
    assert_eq!(ranked(&[("x", 3), ("x", 3), ("w", 2)]), vec![0, 1, 2]);
    assert_eq!(ranked(&[]), Vec::<usize>::new());
}

#[test]
fn tie_on_time_decides_what_is_kept() {
    let mut cache = vec![package("p", &[("c", 7), ("a", 7), ("b", 7)])];
    let report = clean_package_cache(&mut cache, 2, false);
    assert_eq!(report.plans[0].ranked, vec![1, 2, 0]);
    assert_eq!(names(&cache[0]), vec!["a", "b"]);
}

#[test]
fn dry_run_leaves_cache_and_matches_live_run() {
    let mut cache = example_cache();
    let dry = clean_package_cache(&mut cache, 2, true);
    assert_eq!(names(&cache[0]), vec!["1.0", "1.1", "1.2"]);
    assert_eq!(names(&cache[1]), vec!["2.0"]);
    let live = clean_package_cache(&mut cache, 2, false);
    assert_eq!(dry.removed, live.removed);
    assert_eq!(dry.kept, live.kept);
    assert_eq!(dry.packages, live.packages);
    for (d, l) in dry.plans.iter().zip(live.plans.iter()) {
        assert_eq!(d.ranked, l.ranked);
        assert_eq!(d.keep, l.keep);
    }
}

#[test]
fn second_live_run_removes_nothing() {
    let mut cache = vec![
        package("p", &[("a", 3), ("b", 1), ("c", 4), ("d", 1), ("e", 5)]),
        package("q", &[("f", 2), ("g", 2), ("h", 2)]),
    ];
    let first = clean_package_cache(&mut cache, 2, false);
    assert_eq!(first.removed, 4);
    let second = clean_package_cache(&mut cache, 2, false);
    assert_eq!(second.removed, 0);
    assert_eq!(second.kept, 4);
    assert_eq!(names(&cache[0]), vec!["e", "c"]);
    assert_eq!(names(&cache[1]), vec!["f", "g"]);
}

#[test]
fn other_retention_counts() {
    let mut cache = example_cache();
    let report = clean_package_cache(&mut cache, 0, false);
    assert_eq!(report.kept, 0);
    assert_eq!(report.removed, 4);
    assert!(cache[0].versions.is_empty());
    let mut cache = example_cache();
    let report = clean_package_cache(&mut cache, 1, false);
    assert_eq!(report.removed, 2);
    assert_eq!(names(&cache[0]), vec!["1.2"]);
}

#[test]
fn duplicate_copies_entry() {
    let v = version("1.0", 42);
    let d = v.duplicate();
    assert_eq!(d.name, "1.0");
    assert_eq!(d.modified, 42);
}

#[test]
fn age_is_clamped_at_zero() {
    assert_eq!(task_age(1_000, 400), 600);
    assert_eq!(task_age(400, 1_000), 0);
    assert_eq!(task_age(5, 5), 0);
}

#[test]
fn default_threshold_is_sixty_days() {
    assert_eq!(DEFAULT_AGE_THRESHOLD_NANOS, 5_184_000 * 1_000_000_000);
}

#[test]
fn threshold_boundary() {
    let threshold = DEFAULT_AGE_THRESHOLD_NANOS;
    let now = 10 * threshold;
    let just_short = TaskEntry { modified: now - threshold + 1_000, has_checkpoints: true };
    let at = TaskEntry { modified: now - threshold, has_checkpoints: true };
    let older = TaskEntry { modified: now - threshold - 1_000, has_checkpoints: true };
    assert_eq!(decide_task(&just_short, now, threshold), TaskDecision::Young);
    assert_eq!(decide_task(&at, now, threshold), TaskDecision::Prune);
    assert_eq!(decide_task(&older, now, threshold), TaskDecision::Prune);
}

#[test]
fn future_task_is_young() {
    let task = TaskEntry { modified: 2_000, has_checkpoints: true };
    assert_eq!(decide_task(&task, 1_000, 1), TaskDecision::Young);
}

#[test]
fn old_task_without_checkpoints_not_counted() {
    let tasks = vec![
        TaskEntry { modified: 0, has_checkpoints: false },
        TaskEntry { modified: 0, has_checkpoints: true },
        TaskEntry { modified: 95, has_checkpoints: true },
    ];
    let report = plan_checkpoint_pruning(&tasks, 100, 10);
    assert_eq!(report.inspected, 3);
    assert_eq!(report.pruned, 1);
    assert_eq!(
        report.decisions,
        vec![TaskDecision::NoCheckpoints, TaskDecision::Prune, TaskDecision::Young]
    );
}

#[test]
fn no_tasks() {
    let report = plan_checkpoint_pruning(&vec![], 100, 10);
    assert_eq!(report.inspected, 0);
    assert_eq!(report.pruned, 0);
    assert!(report.decisions.is_empty());
}

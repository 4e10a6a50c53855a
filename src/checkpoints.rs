//! Pruning of the checkpoints kept by old task folders.
use vstd::prelude::*;

verus! {

/// The age past which a task's checkpoints are pruned unless told otherwise:
/// sixty days, in nanoseconds.
pub const DEFAULT_AGE_THRESHOLD_NANOS: u64 = 60 * 24 * 60 * 60 * 1_000_000_000;

/// One task folder: its modification time, in nanoseconds since the Unix
/// epoch, and whether it holds a checkpoints folder.
#[derive(Clone, Copy, Debug)]
pub struct TaskEntry {
    pub modified: u64,
    pub has_checkpoints: bool,
}

/// What pruning does with one task folder.
#[derive(Clone, Copy, Debug, PartialEq, Eq, Structural)]
pub enum TaskDecision {
    /// Younger than the threshold: left alone.
    Young,
    /// Old enough, but holds no checkpoints: left alone and not counted.
    NoCheckpoints,
    /// Old enough and holds checkpoints: they are removed.
    Prune,
}

/// The outcome of pruning: one decision per task, in the order given, how
/// many tasks were inspected and how many checkpoint folders go.
#[derive(Clone, Debug)]
pub struct PruneReport {
    pub decisions: Vec<TaskDecision>,
    pub inspected: usize,
    pub pruned: usize,
}

/// Time elapsed from `modified` to `now`; a modification in the future has
/// age zero.
pub open spec fn age_of(now: u64, modified: u64) -> u64 {
    if modified <= now {
        (now - modified) as u64
    } else {
        0
    }
}

/// The decision for a task at time `now`, pruning at ages of `threshold` and above.
pub open spec fn decision_of(task: TaskEntry, now: u64, threshold: u64) -> TaskDecision {
    if age_of(now, task.modified) < threshold {
        TaskDecision::Young
    } else if !task.has_checkpoints {
        TaskDecision::NoCheckpoints
    } else {
        TaskDecision::Prune
    }
}

/// The number of tasks of `tasks` whose checkpoints are pruned.
pub open spec fn pruned_count(tasks: Seq<TaskEntry>, now: u64, threshold: u64) -> nat
    decreases tasks.len(),
{
    if tasks.len() == 0 {
        0
    } else {
        pruned_count(tasks.drop_last(), now, threshold) + if decision_of(
            tasks.last(),
            now,
            threshold,
        ) == TaskDecision::Prune {
            1nat
        } else {
            0nat
        }
    }
}

/// A task is left alone exactly while its age is below the threshold; from
/// the threshold on its checkpoints go, and a task without checkpoints is
/// never counted as pruned, however old.
pub proof fn lemma_threshold_boundary(task: TaskEntry, now: u64, threshold: u64)
    ensures
        (decision_of(task, now, threshold) == TaskDecision::Young) <==> age_of(now, task.modified)
            < threshold,
        task.has_checkpoints && age_of(now, task.modified) >= threshold ==> decision_of(
            task,
            now,
            threshold,
        ) == TaskDecision::Prune,
        !task.has_checkpoints ==> decision_of(task, now, threshold) != TaskDecision::Prune,
        task.modified <= now && now - task.modified == threshold && task.has_checkpoints
            ==> decision_of(task, now, threshold) == TaskDecision::Prune,
        task.modified <= now && now - task.modified + 1000 == threshold ==> decision_of(
            task,
            now,
            threshold,
        ) == TaskDecision::Young,
{
}

/// The age of a task modified at `modified`, seen at `now`.
pub fn task_age(now: u64, modified: u64) -> (age: u64)
    ensures
        age == age_of(now, modified),
{
    if modified <= now {
        now - modified
    } else {
        0
    }
}

/// Decides what happens to one task's checkpoints at time `now`: a task
/// younger than `threshold` keeps them, an older one loses them if it has any.
pub fn decide_task(task: &TaskEntry, now: u64, threshold: u64) -> (d: TaskDecision)
    ensures
        d == decision_of(*task, now, threshold),
{
    if task_age(now, task.modified) < threshold {
        TaskDecision::Young
    } else if !task.has_checkpoints {
        TaskDecision::NoCheckpoints
    } else {
        TaskDecision::Prune
    }
}

/// Decides for every task at time `now` and counts the tasks inspected and
/// the checkpoint folders pruned.
pub fn plan_checkpoint_pruning(tasks: &Vec<TaskEntry>, now: u64, threshold: u64) -> (report:
    PruneReport)
    ensures
        report.decisions@.len() == tasks@.len(),
        forall|i: int|
            0 <= i < tasks@.len() ==> #[trigger] report.decisions@[i] == decision_of(
                tasks@[i],
                now,
                threshold,
            ),
        report.inspected == tasks@.len(),
        report.pruned == pruned_count(tasks@, now, threshold),
{
    let mut decisions: Vec<TaskDecision> = Vec::new();
    let mut pruned: usize = 0;
    let mut i: usize = 0;
    while i < tasks.len()
        invariant
            i <= tasks.len(),
            decisions@.len() == i,
            forall|m: int|
                0 <= m < i ==> #[trigger] decisions@[m] == decision_of(tasks@[m], now, threshold),
            pruned == pruned_count(tasks@.take(i as int), now, threshold),
            pruned <= i,
        decreases tasks.len() - i,
    {
        let d = decide_task(&tasks[i], now, threshold);
        proof {
            assert(tasks@.take(i + 1).drop_last() =~= tasks@.take(i as int));
        }
        if d == TaskDecision::Prune {
            pruned = pruned + 1;
        }
        decisions.push(d);
        i = i + 1;
    }
    assert(tasks@.take(i as int) =~= tasks@);
    PruneReport { decisions, inspected: tasks.len(), pruned }
}

} // verus!

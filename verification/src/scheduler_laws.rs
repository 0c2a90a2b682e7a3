//! What the scheduler and its workers do with a job, from its submission to its end.

use vstd::prelude::*;
use vstd::string::*;
use vstd::utf8::encode_utf8;

use crate::daemon_error::{DaemonError, DaemonErrorView, PersistFailure, PersistencePhase};
use crate::jobs::{
    in_state, job_id_of, job_line, job_number, reserve, six_digits, snapshot, JobState, JobView,
};
use crate::json::{json_string, json_string_is_self_delimiting};
use crate::scheduler::{
    admission, check_snapshot_size, claimable, snapshot_rows, claimed, count, finished, first_named,
    fresh, health_is, line_error, observed, recovered, requeued, restored, rounded_up, start_error,
    submit_reply, submitted, unclaimed, wall_error, wall_sum, worker_count, Admission, DaemonConfig,
    RowView, Scheduler, SchedulerHealth, SchedulerLimits, SchedulerView, TimeSpan,
};
use crate::text::{
    all_digits, contains, debugged, split_bytes_on, decimal, decimal_value, digit,
    lemma_decimal_parses, starts_with,
};
use crate::text_laws::{
    a_part_is_contained, joining_is_associative, numbers_are_told_by_what_ends_them,
    parts_of_parts_are_contained, the_rest_is_told_by_the_whole,
};
use crate::worker::{wall_limit, WallLimit};

verus! {

/// A span of time in nanoseconds.
pub open spec fn nanoseconds(t: TimeSpan) -> int {
    t.secs * 1_000_000_000 + t.nanos
}

/// A job that is taken in is the one that was asked for: its project, its harness, and its
/// budget in whole seconds, which is no less than what was asked for and less than a second
/// more. It waits, and only a budget of nothing leaves it without a bound.
pub proof fn an_admitted_job_is_the_one_asked_for(
    s: SchedulerView,
    project_dir: Seq<char>,
    harness_id: Seq<char>,
    budget: TimeSpan,
    fits: bool,
)
    requires
        budget.well_formed(),
    ensures
        admission(s, project_dir, harness_id, budget, fits) matches Ok(job) ==> {
            &&& job.project_dir == project_dir
            &&& job.harness_id == harness_id
            &&& job.state == JobState::Queued
            &&& nanoseconds(budget) <= job.time_budget_secs * 1_000_000_000
            &&& job.time_budget_secs * 1_000_000_000 < nanoseconds(budget) + 1_000_000_000
            &&& job.time_budget_secs >= budget.secs
            &&& job.time_budget_secs == 0 <==> nanoseconds(budget) == 0
        },
{
}

/// What is written down and handed on for a submission is the job that was asked for, and
/// the file that is written is the one that the next listing stands for.
pub proof fn a_planned_submission_is_the_one_asked_for(
    s: &Scheduler,
    project_dir: &str,
    harness_id: &str,
    budget: TimeSpan,
    fits: bool,
    plan: Admission,
)
    requires
        budget.well_formed(),
        call_ensures(
            Scheduler::judge_submit,
            (s, project_dir, harness_id, budget, fits),
            Ok::<Admission, DaemonError>(plan),
        ),
    ensures
        plan.job.project_dir@ == project_dir@,
        plan.job.harness_id@ == harness_id@,
        plan.job.state == JobState::Queued,
        nanoseconds(budget) <= plan.job.time_budget_secs * 1_000_000_000 < nanoseconds(budget)
            + 1_000_000_000,
        s@.next_id <= u64::MAX ==> job_number(plan.job.job_id@) == Some(s@.next_id),
        plan.snapshot@ == snapshot(s@.seen.push(plan.job@)),
        encode_utf8(job_line(plan.job@)).len() < plan.reserved,
        plan.reserved <= s@.limits.max_job_bytes,
        s@.reserved + plan.reserved <= s@.limits.max_snapshot_bytes,
{
    crate::jobs::every_state_fits_the_reserve(plan.job@, JobState::Queued);
    assert(in_state(plan.job@, JobState::Queued) == plan.job@);
    if s@.next_id <= u64::MAX {
        crate::jobs::job_ids_name_their_number(s@.next_id);
    }
}

/// A submission is refused for what is wrong with it or with the scheduler, and for nothing
/// else.
pub proof fn a_submission_is_refused_for_a_reason(
    s: SchedulerView,
    project_dir: Seq<char>,
    harness_id: Seq<char>,
    budget: TimeSpan,
    fits: bool,
)
    requires
        budget.well_formed(),
    ensures
        match admission(s, project_dir, harness_id, budget, fits) {
            Ok(job) => {
                &&& !s.shutdown
                &&& s.seen.len() < s.limits.max_jobs
                &&& s.queue.len() < s.limits.max_queued_jobs
                &&& s.next_id < u64::MAX
                &&& reserve(job) <= s.limits.max_job_bytes
                &&& s.reserved + reserve(job) <= s.limits.max_snapshot_bytes
                &&& job.time_budget_secs > 0 ==> fits && job.time_budget_secs + s.grace.secs
                    <= u64::MAX
            },
            Err(DaemonErrorView::Shutdown) => s.shutdown,
            Err(DaemonErrorView::IdExhausted) => s.next_id >= u64::MAX,
            Err(DaemonErrorView::InvalidBudget(_)) => nanoseconds(budget) > 0 && (!fits
                || nanoseconds(budget) + s.grace.secs * 1_000_000_000 > u64::MAX * 1_000_000_000),
            Err(DaemonErrorView::Capacity(what)) => {
                ||| what == "retained jobs"@ && s.seen.len() >= s.limits.max_jobs
                ||| what == "queued jobs"@ && s.queue.len() >= s.limits.max_queued_jobs
                ||| what == "job record bytes"@ && (encode_utf8(project_dir).len() + encode_utf8(
                    harness_id,
                ).len() > s.limits.max_job_bytes || exists|job: JobView|
                    job.project_dir == project_dir && job.harness_id == harness_id
                        && #[trigger] reserve(job) > s.limits.max_job_bytes)
                ||| what == "jobs snapshot bytes"@ && exists|job: JobView|
                    job.project_dir == project_dir && job.harness_id == harness_id && s.reserved
                        + #[trigger] reserve(job) > s.limits.max_snapshot_bytes
            },
            Err(_) => false,
        },
        s.shutdown ==> admission(s, project_dir, harness_id, budget, fits) == Err::<
            JobView,
            DaemonErrorView,
        >(DaemonErrorView::Shutdown),
{
    let secs = rounded_up(budget);
    let job = JobView {
        job_id: job_id_of(s.next_id),
        project_dir,
        harness_id,
        time_budget_secs: secs as u64,
        state: JobState::Queued,
    };
    assert(job.project_dir == project_dir && job.harness_id == harness_id);
    assert(reserve(job) == reserve(job));
}

/// A job that was written down waits behind the others, is listed last, and is told by its
/// identifier. One whose file may or may not have been replaced is listed but never runs.
pub proof fn a_submitted_job_waits_its_turn(
    s: SchedulerView,
    job: JobView,
    outcome: Result<(), PersistFailure>,
)
    ensures
        ({
            let t = submitted(s, job, outcome);
            &&& t.limits == s.limits && t.grace == s.grace
            &&& outcome is Ok ==> {
                &&& t.queue == s.queue.push(job)
                &&& t.seen == s.seen.push(job)
                &&& t.next_id == s.next_id + 1
                &&& t.reserved == s.reserved + reserve(job)
                &&& t.shutdown == s.shutdown
                &&& t.fault == s.fault
                &&& submit_reply(job.job_id, outcome) == Ok::<Seq<char>, DaemonErrorView>(
                    job.job_id,
                )
            }
            &&& outcome matches Err(failure) ==> {
                &&& t.queue == s.queue
                &&& t.shutdown
                &&& t.fault is Some
                &&& s.fault is None ==> t.fault->0.phase == PersistencePhase::Admission
                    && t.fault->0.job_id == job.job_id && t.fault->0.snapshot_installed
                    == failure.installed && t.fault->0.io_error_kind == failure.error.kind@
                    && t.fault->0.raw_os_error == failure.error.raw_os_error
                &&& failure.installed ==> t.seen == s.seen.push(job) && t.next_id == s.next_id + 1
                    && t.reserved == s.reserved + reserve(job)
                &&& !failure.installed ==> t.seen == s.seen && t.next_id == s.next_id && t.reserved
                    == s.reserved
                &&& match submit_reply(job.job_id, outcome) {
                    Err(DaemonErrorView::DurabilityUncertain { job_id, source }) => {
                        failure.installed && job_id == job.job_id && source == failure.error@
                    },
                    Err(DaemonErrorView::Io(error)) => !failure.installed && error
                        == failure.error@,
                    _ => false,
                }
            }
        }),
{
}

/// The job that a worker takes is the one that waited longest. Only that one changes, only
/// in its state, and the others keep waiting in their order.
pub proof fn workers_take_the_job_that_waited_longest(
    s: SchedulerView,
    i: int,
    outcome: Result<(), PersistFailure>,
)
    requires
        claimable(s) == Some(i),
    ensures
        !s.shutdown,
        s.queue.len() > 0,
        0 <= i < s.seen.len(),
        s.seen[i].job_id == s.queue[0].job_id,
        forall|k: int| 0 <= k < i ==> (#[trigger] s.seen[k]).job_id != s.queue[0].job_id,
        ({
            let t = claimed(s, i, outcome);
            &&& t.seen.len() == s.seen.len()
            &&& forall|k: int|
                0 <= k < s.seen.len() && k != i ==> #[trigger] t.seen[k] == s.seen[k]
            &&& t.seen[i].job_id == s.seen[i].job_id && t.seen[i].project_dir
                == s.seen[i].project_dir && t.seen[i].harness_id == s.seen[i].harness_id
                && t.seen[i].time_budget_secs == s.seen[i].time_budget_secs
            &&& t.next_id == s.next_id && t.reserved == s.reserved && t.limits == s.limits
                && t.grace == s.grace
            &&& outcome is Ok ==> t.queue == s.queue.skip(1) && t.seen[i].state
                == JobState::Running && t.shutdown == s.shutdown && t.fault == s.fault
            &&& outcome matches Err(failure) ==> t.queue == s.queue && t.seen[i].state
                == JobState::Queued && t.shutdown && t.fault is Some && (s.fault is None
                ==> t.fault->0.phase == PersistencePhase::Start && t.fault->0.job_id
                == s.queue[0].job_id && t.fault->0.snapshot_installed == failure.installed
                && t.fault->0.io_error_kind == failure.error.kind@)
        }),
{
    lemma_first_named(s.seen, s.queue[0].job_id);
    assert(s.queue.drop_first() =~= s.queue.skip(1));
}

proof fn lemma_first_named(jobs: Seq<JobView>, id: Seq<char>)
    ensures
        match first_named(jobs, id) {
            Some(i) => 0 <= i < jobs.len() && jobs[i].job_id == id && forall|k: int|
                0 <= k < i ==> (#[trigger] jobs[k]).job_id != id,
            None => forall|k: int| 0 <= k < jobs.len() ==> (#[trigger] jobs[k]).job_id != id,
        },
    decreases jobs.len(),
{
    if jobs.len() > 0 {
        let front = jobs.drop_last();
        lemma_first_named(front, id);
        match first_named(front, id) {
            Some(i) => {
                assert(front[i] == jobs[i]);
                assert forall|k: int| 0 <= k < i implies (#[trigger] jobs[k]).job_id != id by {
                    assert(front[k] == jobs[k]);
                }
            },
            None => {
                assert forall|k: int| 0 <= k < front.len() implies (#[trigger] jobs[k]).job_id
                    != id by {
                    assert(front[k] == jobs[k]);
                }
            },
        }
    }
}

/// A scheduler that stops, or in which nothing waits, hands out no job and stays as it is; a
/// job that waits but is not listed stops it.
pub proof fn nothing_is_claimed_in_silence(s: SchedulerView)
    requires
        claimable(s) is None,
    ensures
        s.shutdown || s.queue.len() == 0 ==> unclaimed(s) == s,
        !s.shutdown && s.queue.len() > 0 ==> {
            &&& forall|k: int| 0 <= k < s.seen.len() ==> (#[trigger] s.seen[k]).job_id
                != s.queue[0].job_id
            &&& unclaimed(s).shutdown
            &&& unclaimed(s).fault is Some
            &&& s.fault is None ==> unclaimed(s).fault->0.job_id == s.queue[0].job_id
                && unclaimed(s).fault->0.phase == PersistencePhase::Start
            &&& unclaimed(s).queue == s.queue && unclaimed(s).seen == s.seen
        },
{
    if !s.shutdown && s.queue.len() > 0 {
        lemma_first_named(s.seen, s.queue[0].job_id);
    }
}

/// The end of a job is recorded of that job and of no other, and takes nothing from the
/// queue; where it could not be written down the scheduler stops.
pub proof fn the_end_of_a_job_is_its_own(
    s: SchedulerView,
    id: Seq<char>,
    state: JobState,
    outcome: Result<(), PersistFailure>,
)
    ensures
        ({
            let t = observed(s, id, state);
            &&& t.seen.len() == s.seen.len()
            &&& t.queue == s.queue && t.next_id == s.next_id && t.reserved == s.reserved
                && t.shutdown == s.shutdown && t.fault == s.fault && t.limits == s.limits
                && t.grace == s.grace
            &&& forall|k: int|
                #![trigger t.seen[k]]
                0 <= k < s.seen.len() ==> {
                    &&& t.seen[k].job_id == s.seen[k].job_id
                    &&& t.seen[k].project_dir == s.seen[k].project_dir
                    &&& t.seen[k].harness_id == s.seen[k].harness_id
                    &&& t.seen[k].time_budget_secs == s.seen[k].time_budget_secs
                    &&& s.seen[k].job_id != id ==> t.seen[k].state == s.seen[k].state
                    &&& s.seen[k].job_id == id && (forall|j: int|
                        0 <= j < k ==> (#[trigger] s.seen[j]).job_id != id) ==> t.seen[k].state
                        == state
                }
        }),
        outcome is Ok ==> finished(s, id, outcome) == s,
        outcome matches Err(failure) ==> {
            let t = finished(s, id, outcome);
            &&& t.seen == s.seen && t.queue == s.queue
            &&& t.shutdown
            &&& t.fault is Some
            &&& s.fault is Some ==> t.fault == s.fault
            &&& s.fault is None ==> t.fault->0.phase == PersistencePhase::Completion
                && t.fault->0.job_id == id && t.fault->0.snapshot_installed == failure.installed
                && t.fault->0.io_error_kind == failure.error.kind@ && t.fault->0.raw_os_error
                == failure.error.raw_os_error
        },
{
    lemma_first_named(s.seen, id);
}

/// How many jobs are in a state is how many there are of that state, and no more than that.
pub proof fn counts_are_of_their_state(jobs: Seq<JobView>, state: JobState)
    ensures
        count(jobs, state) == jobs.filter(|job: JobView| job.state == state).len(),
        count(jobs, state) <= jobs.len(),
        count(jobs, state) == 0 <==> forall|i: int|
            0 <= i < jobs.len() ==> (#[trigger] jobs[i]).state != state,
    decreases jobs.len(),
{
    reveal(Seq::filter);
    if jobs.len() > 0 {
        let front = jobs.drop_last();
        counts_are_of_their_state(front, state);
        if count(jobs, state) == 0 {
            assert forall|i: int| 0 <= i < jobs.len() implies (#[trigger] jobs[i]).state != state by {
                if i < front.len() {
                    assert(front[i] == jobs[i]);
                }
            }
        }
        if forall|i: int| 0 <= i < jobs.len() ==> (#[trigger] jobs[i]).state != state {
            assert forall|i: int| 0 <= i < front.len() implies (#[trigger] front[i]).state
                != state by {
                assert(front[i] == jobs[i]);
            }
            assert(jobs[jobs.len() - 1].state != state);
        }
    }
}

/// What the scheduler tells of itself is what a submission meets: while it says that it
/// takes no submissions it refuses every one, and otherwise it refuses none for want of
/// room for jobs. Each number is that of the jobs in that state.
pub proof fn the_health_tells_what_a_submission_meets(
    h: SchedulerHealth,
    s: SchedulerView,
    project_dir: Seq<char>,
    harness_id: Seq<char>,
    budget: TimeSpan,
    fits: bool,
)
    requires
        health_is(h, s),
    ensures
        !h.accepting_submissions ==> admission(s, project_dir, harness_id, budget, fits) is Err,
        h.accepting_submissions ==> match admission(s, project_dir, harness_id, budget, fits) {
            Err(DaemonErrorView::Shutdown) => false,
            Err(DaemonErrorView::Capacity(what)) => what == "job record bytes"@ || what
                == "jobs snapshot bytes"@,
            _ => true,
        },
        h.schema_version == 1,
        h.shutdown_requested == s.shutdown,
        h.retained_jobs == s.seen.len(),
        h.queued_jobs == s.seen.filter(|job: JobView| job.state == JobState::Queued).len(),
        h.running_jobs == s.seen.filter(|job: JobView| job.state == JobState::Running).len(),
        h.complete_jobs == s.seen.filter(|job: JobView| job.state == JobState::Complete).len(),
        h.failed_jobs == s.seen.filter(|job: JobView| job.state == JobState::Failed).len(),
        h.max_jobs == s.limits.max_jobs,
        h.max_queued_jobs == s.limits.max_queued_jobs,
        h.max_snapshot_bytes == s.limits.max_snapshot_bytes,
        h.snapshot_bytes_reserved == s.reserved,
        h.storage_fault is Some <==> s.fault is Some,
        h.storage_fault matches Some(fault) ==> fault.phase == s.fault->0.phase && fault.job_id@
            == s.fault->0.job_id && fault.snapshot_installed == s.fault->0.snapshot_installed
            && fault.io_error_kind@ == s.fault->0.io_error_kind && fault.raw_os_error
            == s.fault->0.raw_os_error,
{
    counts_are_of_their_state(s.seen, JobState::Queued);
    counts_are_of_their_state(s.seen, JobState::Running);
    counts_are_of_their_state(s.seen, JobState::Complete);
    counts_are_of_their_state(s.seen, JobState::Failed);
    reveal_strlit("retained jobs");
    reveal_strlit("queued jobs");
    reveal_strlit("job record bytes");
    reveal_strlit("jobs snapshot bytes");
    let job = JobView {
        job_id: job_id_of(s.next_id),
        project_dir,
        harness_id,
        time_budget_secs: rounded_up(budget) as u64,
        state: JobState::Queued,
    };
    assert(reserve(job) > 0);
}

/// A job may take its budget and the allowance together, to the nanosecond, where that can
/// be counted, and has no bound where it has no budget.
pub proof fn the_allowance_is_added_to_the_budget(budget_secs: u64, grace: TimeSpan, fits: bool)
    ensures
        match wall_sum(budget_secs, grace) {
            Some(wall) => nanoseconds(wall) == budget_secs * 1_000_000_000 + nanoseconds(grace)
                && (grace.well_formed() ==> wall.well_formed()),
            None => budget_secs + grace.secs > u64::MAX,
        },
        wall_error(budget_secs, grace, fits) is None <==> budget_secs == 0 || (fits && budget_secs
            + grace.secs <= u64::MAX),
        wall_error(budget_secs, grace, fits) matches Some(e) ==> e is InvalidBudget,
{
}

/// The deadline of a running job is that of its budget: none without a budget.
pub proof fn the_deadline_is_that_of_the_budget(budget_secs: u64, grace: TimeSpan, r: WallLimit)
    requires
        call_ensures(wall_limit, (budget_secs, grace), r),
    ensures
        match r {
            WallLimit::Unbounded => budget_secs == 0,
            WallLimit::Within(wall) => budget_secs > 0 && nanoseconds(wall) == budget_secs
                * 1_000_000_000 + nanoseconds(grace),
            WallLimit::Overflow => budget_secs > 0 && budget_secs + grace.secs > u64::MAX,
        },
{
}

/// A scheduler starts only where everything that it needs is there, and the reason for
/// which it does not is one that holds.
pub proof fn a_scheduler_starts_where_it_can_work(
    config: &DaemonConfig,
    limits: SchedulerLimits,
    data_dir_there: bool,
    bin_there: bool,
)
    ensures
        match start_error(config, limits, data_dir_there, bin_there) {
            None => {
                &&& data_dir_there && bin_there
                &&& config.max_concurrent_jobs <= 64
                &&& nanoseconds(config.poll_interval) > 0
                &&& limits.max_jobs > 0 && limits.max_queued_jobs > 0 && limits.max_job_bytes > 0
                &&& limits.max_snapshot_bytes > 0 && limits.max_list_page > 0
            },
            Some(DaemonErrorView::DataDirMissing(path)) => !data_dir_there && path
                == config.data_dir@,
            Some(DaemonErrorView::BinMissing(path)) => !bin_there && path == config.bhf_bin@,
            Some(DaemonErrorView::InvalidLimits) => {
                ||| nanoseconds(config.poll_interval) == 0
                ||| limits.max_jobs == 0 || limits.max_queued_jobs == 0 || limits.max_job_bytes == 0
                ||| limits.max_snapshot_bytes == 0 || limits.max_list_page == 0
            },
            Some(DaemonErrorView::Capacity(what)) => what == "worker threads"@
                && config.max_concurrent_jobs > 64,
            _ => false,
        },
{
}

/// There is always a worker, and never more or fewer than were asked for otherwise.
pub proof fn there_is_always_a_worker(wanted: u32, r: u32)
    requires
        call_ensures(worker_count, (wanted,), r),
    ensures
        r >= 1,
        r >= wanted,
        wanted >= 1 ==> r == wanted,
        wanted == 0 ==> r == 1,
{
}

/// The limits where none are given can be worked with, and bound what they say they do.
pub proof fn the_usual_limits_are_usable(r: SchedulerLimits)
    requires
        call_ensures(<SchedulerLimits as Default>::default, (), r),
    ensures
        r.usable(),
        r.max_jobs == 10 * r.max_list_page,
        r.max_list_page == 1000,
        r.max_queued_jobs == 1024,
        r.max_job_bytes == 64 * r.max_queued_jobs,
        r.max_snapshot_bytes == r.max_queued_jobs * r.max_job_bytes,
{
}

/// A job that is taken up again is the one that was written down. Only one that ran has
/// changed: it waits.
pub proof fn a_job_is_taken_up_as_it_was_written_down(
    limits: SchedulerLimits,
    grace: TimeSpan,
    path: Seq<char>,
    rows: Seq<RowView>,
    fits: Seq<bool>,
    i: int,
)
    requires
        0 <= i < rows.len(),
    ensures
        recovered(fresh(limits, grace), path, rows, fits) matches Ok(s) ==> (
        rows[i].parsed matches Ok(job) && {
            &&& s.seen[i].job_id == job.job_id
            &&& s.seen[i].project_dir == job.project_dir
            &&& s.seen[i].harness_id == job.harness_id
            &&& s.seen[i].time_budget_secs == job.time_budget_secs
            &&& job.state == JobState::Running ==> s.seen[i].state == JobState::Queued
            &&& job.state != JobState::Running ==> s.seen[i].state == job.state
            &&& s.seen[i].state == JobState::Queued ==> s.queue.contains(s.seen[i])
            &&& job.time_budget_secs > 0 ==> fits[i] && job.time_budget_secs + grace.secs
                <= u64::MAX
        }),
{
    crate::scheduler::a_recovery_takes_up_the_lines_it_accepts(limits, grace, path, rows, fits);
    if let Ok(s) = recovered(fresh(limits, grace), path, rows, fits) {
        lemma_recovered_fits(limits, grace, path, rows, fits, i);
        let waits = |job: JobView| job.state == JobState::Queued;
        assert(s.seen[i] == requeued(rows[i].parsed->Ok_0));
        if waits(s.seen[i]) {
            s.seen.lemma_filter_contains_rev(waits, s.seen[i]);
        }
    }
}

proof fn lemma_recovered_fits(
    limits: SchedulerLimits,
    grace: TimeSpan,
    path: Seq<char>,
    rows: Seq<RowView>,
    fits: Seq<bool>,
    i: int,
)
    requires
        0 <= i < rows.len(),
        recovered(fresh(limits, grace), path, rows, fits) is Ok,
    ensures
        rows[i].parsed is Ok,
        (rows[i].parsed->Ok_0).time_budget_secs > 0 ==> fits[i] && (
        rows[i].parsed->Ok_0).time_budget_secs + grace.secs <= u64::MAX,
    decreases rows.len(),
{
    let front = rows.drop_last();
    crate::scheduler::a_recovery_takes_up_the_lines_it_accepts(limits, grace, path, front, fits);
    if i < front.len() {
        lemma_recovered_fits(limits, grace, path, front, fits, i);
        assert(front[i] == rows[i]);
    }
}

/// A line is refused for what is wrong with its job or for want of room, and for nothing
/// else; the refusal names the file, the line and, where it is at fault, the identifier.
pub proof fn a_line_is_refused_for_a_reason(
    s: SchedulerView,
    path: Seq<char>,
    line: nat,
    job: JobView,
    fits: bool,
)
    ensures
        match restored(s, path, line, job, fits) {
            Ok(t) => {
                &&& job_number(job.job_id) matches Some(n) && n < u64::MAX && n < t.next_id
                &&& forall|k: int|
                    0 <= k < s.seen.len() ==> job_number(#[trigger] s.seen[k].job_id)
                        != job_number(job.job_id)
                &&& t.seen.drop_last() == s.seen
                &&& t.seen.last().job_id == job.job_id
                &&& t.next_id >= s.next_id
                &&& t.next_id == s.next_id || t.next_id == job_number(job.job_id)->0 + 1
                &&& job.time_budget_secs > 0 ==> fits
            },
            Err(DaemonErrorView::CorruptJobs { path: p, line: l, reason }) => {
                &&& p == path && l == line
                &&& {
                    ||| contains(reason, debugged(job.job_id)) && (job_number(job.job_id) is None
                        || job_number(job.job_id)->0 >= u64::MAX || exists|k: int|
                        0 <= k < s.seen.len() && job_number(#[trigger] s.seen[k].job_id)
                            == job_number(job.job_id))
                    ||| job.time_budget_secs > 0 && (!fits || job.time_budget_secs + s.grace.secs
                        > u64::MAX)
                }
            },
            Err(DaemonErrorView::Capacity(what)) => {
                ||| what == "queued jobs"@ && (job.state == JobState::Queued || job.state
                    == JobState::Running) && s.queue.len() >= s.limits.max_queued_jobs
                ||| what == "jobs snapshot bytes"@ && (reserve(job) > s.limits.max_job_bytes
                    || s.reserved + reserve(job) > s.limits.max_snapshot_bytes)
            },
            Err(_) => false,
        },
{
    let id = debugged(job.job_id);
    a_part_is_contained("invalid job ID "@, id, Seq::empty());
    a_part_is_contained("duplicate numeric job ID "@, id, Seq::empty());
    a_part_is_contained("job ID "@, id, " exhausts ID space"@);
    assert(in_state(requeued(job), JobState::Complete) == in_state(job, JobState::Complete));
    if let Ok(t) = restored(s, path, line, job, fits) {
        assert(t.seen.drop_last() =~= s.seen);
    }
}

/// A recovery that fails names the first line that cannot be taken up: all before it can.
pub proof fn a_recovery_fails_at_the_first_bad_line(
    s: SchedulerView,
    path: Seq<char>,
    rows: Seq<RowView>,
    fits: Seq<bool>,
) -> (n: nat)
    requires
        recovered(s, path, rows, fits) is Err,
    ensures
        1 <= n <= rows.len(),
        recovered(s, path, rows.take(n - 1), fits) is Ok,
        recovered(s, path, rows.take(n as int), fits) == recovered(s, path, rows, fits),
        recovered(s, path, rows, fits)->Err_0 matches DaemonErrorView::CorruptJobs {
            path: p,
            line,
            reason,
        } ==> p == path && line == n && (rows[n - 1].parsed matches Err(why) ==> reason == why),
        rows[n - 1].parsed is Err ==> recovered(s, path, rows, fits)->Err_0 is CorruptJobs
            || recovered(s, path, rows, fits)->Err_0 is Capacity,
    decreases rows.len(),
{
    let front = rows.drop_last();
    if recovered(s, path, front, fits) is Err {
        let n = a_recovery_fails_at_the_first_bad_line(s, path, front, fits);
        assert(front.take(n as int) =~= rows.take(n as int));
        assert(front.take(n - 1) =~= rows.take(n - 1));
        assert(front[n - 1] == rows[n - 1]);
        n
    } else {
        let n = rows.len();
        assert(rows.take(n as int) =~= rows);
        assert(rows.take(n - 1) =~= front);
        if let Ok(job) = rows.last().parsed {
            let t = recovered(s, path, front, fits)->Ok_0;
            a_line_is_refused_for_a_reason(t, path, n, job, fits[n - 1]);
        }
        n
    }
}

/// A line is not even read where it is too long or there is no room for its job.
pub proof fn lines_that_are_not_read(s: SchedulerView, length: nat)
    ensures
        line_error(s, length) is None <==> length <= s.limits.max_job_bytes && s.seen.len()
            < s.limits.max_jobs,
        line_error(s, length) matches Some(e) ==> match e {
            DaemonErrorView::Capacity(what) => (what == "job record bytes"@ && length
                > s.limits.max_job_bytes) || (what == "retained jobs"@ && s.seen.len()
                >= s.limits.max_jobs),
            _ => false,
        },
{
}

proof fn lemma_decimal_len(n: nat)
    ensures
        n < 1_000_000 ==> decimal(n).len() <= 6,
        n >= 1_000_000 ==> decimal(n).len() >= 7,
{
    reveal_with_fuel(decimal, 8);
}

/// An identifier is `J-` and at least six digits, no more of them than the number needs.
pub proof fn identifiers_have_six_digits(n: nat)
    ensures
        starts_with(job_id_of(n), "J-"@),
        all_digits(job_id_of(n).skip(2)),
        n < 1_000_000 ==> job_id_of(n).len() == 8,
        n >= 1_000_000 ==> job_id_of(n).skip(2) == decimal(n),
        decimal_value(job_id_of(n).skip(2)) == n,
{
    reveal_strlit("J-");
    let id = job_id_of(n);
    lemma_decimal_len(n);
    lemma_decimal_parses(n, n);
    assert(id.subrange(0, 2) =~= "J-"@);
    assert(id.skip(2) =~= six_digits(n));
    if n <= u64::MAX {
        crate::jobs::job_ids_name_their_number(n);
    }
    assert forall|i: int| 0 <= i < six_digits(n).len() implies digit(#[trigger] six_digits(n)[i]) by {
        if decimal(n).len() < 6 && i >= 6 - decimal(n).len() {
            assert(six_digits(n)[i] == decimal(n)[i - (6 - decimal(n).len())]);
        }
    }
}

/// What stands in a record behind the first key, and behind each value in turn.
spec fn record_tail(job: JobView, n: nat) -> Seq<char> {
    let e = json_string(job.state.word()) + "}"@;
    let d = decimal(job.time_budget_secs as nat) + (",\"state\":"@ + e);
    let c = json_string(job.harness_id) + (",\"time_budget_secs\":"@ + d);
    let b = json_string(job.project_dir) + (",\"harness_id\":"@ + c);
    let a = json_string(job.job_id) + (",\"project_dir\":"@ + b);
    if n == 0 {
        a
    } else if n == 1 {
        b
    } else if n == 2 {
        c
    } else if n == 3 {
        d
    } else {
        e
    }
}

proof fn lemma_regroup(
    k0: Seq<char>,
    j0: Seq<char>,
    k1: Seq<char>,
    j1: Seq<char>,
    k2: Seq<char>,
    j2: Seq<char>,
    k3: Seq<char>,
    j3: Seq<char>,
    k4: Seq<char>,
    j4: Seq<char>,
    k5: Seq<char>,
)
    ensures
        k0 + j0 + k1 + j1 + k2 + j2 + k3 + j3 + k4 + j4 + k5 == k0 + (j0 + (k1 + (j1 + (k2 + (j2 + (
        k3 + (j3 + (k4 + (j4 + k5))))))))),
{
    let t9 = j4 + k5;
    joining_is_associative(k0 + j0 + k1 + j1 + k2 + j2 + k3 + j3 + k4, j4, k5);
    let t8 = k4 + t9;
    joining_is_associative(k0 + j0 + k1 + j1 + k2 + j2 + k3 + j3, k4, t9);
    let t7 = j3 + t8;
    joining_is_associative(k0 + j0 + k1 + j1 + k2 + j2 + k3, j3, t8);
    let t6 = k3 + t7;
    joining_is_associative(k0 + j0 + k1 + j1 + k2 + j2, k3, t7);
    let t5 = j2 + t6;
    joining_is_associative(k0 + j0 + k1 + j1 + k2, j2, t6);
    let t4 = k2 + t5;
    joining_is_associative(k0 + j0 + k1 + j1, k2, t5);
    let t3 = j1 + t4;
    joining_is_associative(k0 + j0 + k1, j1, t4);
    let t2 = k1 + t3;
    joining_is_associative(k0 + j0, k1, t3);
    joining_is_associative(k0, j0, t2);
}

proof fn lemma_record(job: JobView)
    ensures
        job_line(job) == "{\"job_id\":"@ + record_tail(job, 0),
{
    lemma_regroup(
        "{\"job_id\":"@,
        json_string(job.job_id),
        ",\"project_dir\":"@,
        json_string(job.project_dir),
        ",\"harness_id\":"@,
        json_string(job.harness_id),
        ",\"time_budget_secs\":"@,
        decimal(job.time_budget_secs as nat),
        ",\"state\":"@,
        json_string(job.state.word()),
        "}"@,
    );
}

/// The record of a job tells everything of it: no two jobs have the same record.
pub proof fn a_record_tells_the_job(a: JobView, b: JobView)
    requires
        job_line(a) == job_line(b),
    ensures
        a == b,
{
    lemma_record(a);
    lemma_record(b);
    let k1 = ",\"project_dir\":"@;
    let k2 = ",\"harness_id\":"@;
    let k3 = ",\"time_budget_secs\":"@;
    let k4 = ",\"state\":"@;
    the_rest_is_told_by_the_whole("{\"job_id\":"@, record_tail(a, 0), record_tail(b, 0));
    json_string_is_self_delimiting(
        a.job_id,
        b.job_id,
        k1 + record_tail(a, 1),
        k1 + record_tail(b, 1),
    );
    the_rest_is_told_by_the_whole(k1, record_tail(a, 1), record_tail(b, 1));
    json_string_is_self_delimiting(
        a.project_dir,
        b.project_dir,
        k2 + record_tail(a, 2),
        k2 + record_tail(b, 2),
    );
    the_rest_is_told_by_the_whole(k2, record_tail(a, 2), record_tail(b, 2));
    json_string_is_self_delimiting(
        a.harness_id,
        b.harness_id,
        k3 + record_tail(a, 3),
        k3 + record_tail(b, 3),
    );
    the_rest_is_told_by_the_whole(k3, record_tail(a, 3), record_tail(b, 3));
    lemma_number_behind(a, b);
    json_string_is_self_delimiting(a.state.word(), b.state.word(), "}"@, "}"@);
    states_have_their_own_words(a.state, b.state);
}

proof fn lemma_number_behind(a: JobView, b: JobView)
    requires
        record_tail(a, 3) == record_tail(b, 3),
    ensures
        a.time_budget_secs == b.time_budget_secs,
        record_tail(a, 4) == record_tail(b, 4),
{
    reveal_strlit(",\"state\":");
    let k4 = ",\"state\":"@;
    let tail = k4.skip(1);
    let m = decimal(a.time_budget_secs as nat);
    let n = decimal(b.time_budget_secs as nat);
    assert(k4 =~= seq![','] + tail);
    joining_is_associative(seq![','], tail, record_tail(a, 4));
    joining_is_associative(seq![','], tail, record_tail(b, 4));
    joining_is_associative(m, seq![','], tail + record_tail(a, 4));
    joining_is_associative(n, seq![','], tail + record_tail(b, 4));
    numbers_are_told_by_what_ends_them(
        a.time_budget_secs as nat,
        b.time_budget_secs as nat,
        ',',
        tail + record_tail(a, 4),
        tail + record_tail(b, 4),
    );
    the_rest_is_told_by_the_whole(tail, record_tail(a, 4), record_tail(b, 4));
}

/// A state is told by its word.
pub proof fn states_have_their_own_words(a: JobState, b: JobState)
    ensures
        a.word() == b.word() <==> a == b,
        a == JobState::Queued ==> a.word() == "queued"@,
        a == JobState::Running ==> a.word() == "running"@,
        a == JobState::Complete ==> a.word() == "complete"@,
        a == JobState::Failed ==> a.word() == "failed"@,
{
    reveal_strlit("queued");
    reveal_strlit("running");
    reveal_strlit("complete");
    reveal_strlit("failed");
    assert("queued"@.len() == 6 && "running"@.len() == 7 && "complete"@.len() == 8);
    assert("failed"@.len() == 6 && "failed"@[0] == 'f' && "queued"@[0] == 'q');
}

/// Whether the value of the field `name` is `value` in the record `line`.
pub open spec fn field_reads(line: Seq<char>, name: Seq<char>, value: Seq<char>) -> bool {
    contains(line, name + value)
}

/// The record of a job has its fields under their names, each with its value.
pub proof fn a_record_names_its_fields(job: JobView)
    ensures
        field_reads(job_line(job), "{\"job_id\":"@, json_string(job.job_id)),
        field_reads(job_line(job), ",\"project_dir\":"@, json_string(job.project_dir)),
        field_reads(job_line(job), ",\"harness_id\":"@, json_string(job.harness_id)),
        field_reads(
            job_line(job),
            ",\"time_budget_secs\":"@,
            decimal(job.time_budget_secs as nat),
        ),
        field_reads(job_line(job), ",\"state\":"@, json_string(job.state.word())),
        job_line(job).last() == '}',
{
    lemma_record(job);
    let k0 = "{\"job_id\":"@;
    let k1 = ",\"project_dir\":"@;
    let k2 = ",\"harness_id\":"@;
    let k3 = ",\"time_budget_secs\":"@;
    let k4 = ",\"state\":"@;
    let r1 = k1 + record_tail(job, 1);
    let r2 = k2 + record_tail(job, 2);
    let r3 = k3 + record_tail(job, 3);
    let r4 = k4 + record_tail(job, 4);
    let none = Seq::<char>::empty();
    let j4 = json_string(job.state.word());
    joining_is_associative(k4, j4, "}"@);
    a_part_is_contained(none, k4 + j4, "}"@);
    let d = decimal(job.time_budget_secs as nat);
    joining_is_associative(k3, d, r4);
    a_part_is_contained(none, k3 + d, r4);
    parts_of_parts_are_contained(k3 + d, r4, none, k4 + j4);
    let j2 = json_string(job.harness_id);
    joining_is_associative(k2, j2, r3);
    a_part_is_contained(none, k2 + j2, r3);
    parts_of_parts_are_contained(k2 + j2, r3, none, k4 + j4);
    parts_of_parts_are_contained(k2 + j2, r3, none, k3 + d);
    let j1 = json_string(job.project_dir);
    joining_is_associative(k1, j1, r2);
    a_part_is_contained(none, k1 + j1, r2);
    parts_of_parts_are_contained(k1 + j1, r2, none, k4 + j4);
    parts_of_parts_are_contained(k1 + j1, r2, none, k3 + d);
    parts_of_parts_are_contained(k1 + j1, r2, none, k2 + j2);
    let j0 = json_string(job.job_id);
    joining_is_associative(k0, j0, r1);
    a_part_is_contained(none, k0 + j0, r1);
    parts_of_parts_are_contained(k0 + j0, r1, none, k4 + j4);
    parts_of_parts_are_contained(k0 + j0, r1, none, k3 + d);
    parts_of_parts_are_contained(k0 + j0, r1, none, k2 + j2);
    parts_of_parts_are_contained(k0 + j0, r1, none, k1 + j1);
    assert(job_line(job).last() == '}') by {
        reveal_strlit("}");
    }
}

/// What is reserved for a job is what its longest record takes, with its line feed.
pub proof fn the_reserve_is_that_of_the_longest_record(job: JobView)
    ensures
        encode_utf8(job_line(in_state(job, JobState::Complete))).len() + 1 == reserve(job),
        encode_utf8(job_line(in_state(job, JobState::Queued))).len() + 1 <= reserve(job),
        encode_utf8(job_line(in_state(job, JobState::Running))).len() + 1 <= reserve(job),
        encode_utf8(job_line(in_state(job, JobState::Failed))).len() + 1 <= reserve(job),
{
    crate::jobs::every_state_fits_the_reserve(job, JobState::Queued);
    crate::jobs::every_state_fits_the_reserve(job, JobState::Running);
    crate::jobs::every_state_fits_the_reserve(job, JobState::Failed);
}

/// A file of jobs is read if it is no larger than it may be.
pub proof fn files_of_jobs_have_a_bound(
    limits: SchedulerLimits,
    size: usize,
    r: Result<(), DaemonError>,
)
    requires
        call_ensures(check_snapshot_size, (limits, size), r),
    ensures
        r is Ok <==> size <= limits.max_snapshot_bytes,
        r matches Err(e) ==> e@ is Capacity,
{
}

/// The lines of a file of jobs make it up again, each with its line feed but for the last,
/// which may lack it; none holds a line feed.
pub proof fn lines_make_up_the_file_of_jobs(bytes: Seq<u8>)
    ensures
        ({
            let rows = snapshot_rows(bytes);
            &&& bytes.len() == 0 || bytes.last() == 10 ==> ended_rows(rows) == bytes
            &&& bytes.len() > 0 && bytes.last() != 10 ==> ended_rows(rows) == bytes.push(10)
            &&& forall|i: int| 0 <= i < rows.len() ==> !(#[trigger] rows[i]).contains(10)
        }),
{
    lemma_pieces(bytes);
    let all = split_bytes_on(bytes, 10);
    assert(all.drop_last().push(all.last()) =~= all);
    if bytes.len() > 0 && bytes.last() == 10 {
        assert(all.last().len() == 0);
    }
    if bytes.len() == 0 {
        assert(all.drop_last() =~= Seq::<Seq<u8>>::empty());
    }
    assert(ended_rows(all) == ended_rows(all.drop_last()) + all.last().push(10));
    if all.last().len() == 0 {
        assert(ended_rows(all.drop_last()) + all.last().push(10) =~= ended_rows(
            all.drop_last(),
        ).push(10));
        assert(ended_rows(all.drop_last()).push(10).drop_last() =~= ended_rows(all.drop_last()));
        assert(bytes.push(10).drop_last() =~= bytes);
    }
}

/// The rows one after another, each ended by a line feed.
pub open spec fn ended_rows(rows: Seq<Seq<u8>>) -> Seq<u8>
    decreases rows.len(),
{
    if rows.len() == 0 {
        Seq::empty()
    } else {
        ended_rows(rows.drop_last()) + rows.last().push(10)
    }
}

proof fn lemma_pieces(bytes: Seq<u8>)
    ensures
        split_bytes_on(bytes, 10).len() >= 1,
        ended_rows(split_bytes_on(bytes, 10)) == bytes.push(10),
        bytes.len() > 0 ==> (split_bytes_on(bytes, 10).last().len() == 0 <==> bytes.last() == 10),
        forall|i: int|
            0 <= i < split_bytes_on(bytes, 10).len() ==> !(#[trigger] split_bytes_on(
                bytes,
                10,
            )[i]).contains(10),
    decreases bytes.len(),
{
    let all = split_bytes_on(bytes, 10);
    let none = Seq::<u8>::empty();
    if bytes.len() == 0 {
        reveal_with_fuel(ended_rows, 2);
        assert(all.drop_last() =~= Seq::<Seq<u8>>::empty());
        assert(all.last() =~= none);
        assert(ended_rows(all) =~= bytes.push(10));
    } else {
        let front = bytes.drop_last();
        let before = split_bytes_on(front, 10);
        lemma_pieces(front);
        assert(front.push(bytes.last()) =~= bytes);
        if bytes.last() == 10 {
            assert(all.drop_last() =~= before);
            assert(ended_rows(all) =~= bytes.push(10));
            assert forall|i: int| 0 <= i < all.len() implies !(#[trigger] all[i]).contains(10) by {
                if i < before.len() {
                    assert(all[i] == before[i]);
                }
            }
        } else {
            assert(all.drop_last() =~= before.drop_last());
            let stem = ended_rows(before.drop_last());
            assert(ended_rows(before) == stem + before.last().push(10));
            assert((stem + before.last().push(10)).drop_last() =~= stem + before.last());
            assert(front.push(10).drop_last() =~= front);
            assert(stem + before.last() =~= front);
            assert(ended_rows(all) =~= bytes.push(10));
            assert forall|i: int| 0 <= i < all.len() implies !(#[trigger] all[i]).contains(10) by {
                if i < before.len() - 1 {
                    assert(all[i] == before[i]);
                } else {
                    let piece = before.last().push(bytes.last());
                    assert(all[i] == piece);
                    assert(!before[before.len() - 1].contains(10));
                    if piece.contains(10) {
                        let k = choose|k: int| 0 <= k < piece.len() && piece[k] == 10;
                        assert(before.last()[k] == 10);
                        assert(before[before.len() - 1].contains(10));
                    }
                }
            }
        }
    }
}

/// So is what is planned with the clock asked: the job is the one that was asked for, with
/// its budget rounded up to the second, and it is in the file that is to be written.
pub proof fn a_submission_with_the_clock_asked_is_the_one_asked_for(
    s: &Scheduler,
    project_dir: &str,
    harness_id: &str,
    budget: TimeSpan,
    r: Result<Admission, DaemonError>,
)
    requires
        budget.well_formed(),
        s@.grace.well_formed(),
        call_ensures(Scheduler::plan_submit, (s, project_dir, harness_id, budget), r),
    ensures
        r matches Ok(plan) ==> {
            &&& plan.job.project_dir@ == project_dir@
            &&& plan.job.harness_id@ == harness_id@
            &&& plan.job.state == JobState::Queued
            &&& nanoseconds(budget) <= plan.job.time_budget_secs * 1_000_000_000
            &&& plan.job.time_budget_secs * 1_000_000_000 < nanoseconds(budget) + 1_000_000_000
            &&& plan.job.time_budget_secs == 0 <==> nanoseconds(budget) == 0
            &&& plan.snapshot@ == snapshot(s@.seen.push(plan.job@))
            &&& !s@.shutdown
        },
        s@.shutdown ==> (r matches Err(e) && e@ is Shutdown),
{
    let fits = choose|fits: bool|
        crate::scheduler::budget_answer(budget, s@.grace, fits) && match (
            r,
            #[trigger] admission(s@, project_dir@, harness_id@, budget, fits),
        ) {
            (Ok(plan), Ok(job)) => crate::scheduler::admission_is(plan, s@, job)
                && crate::scheduler::admissible(s@, job),
            (Err(e), Err(want)) => e@ == want,
            _ => false,
        };
    an_admitted_job_is_the_one_asked_for(s@, project_dir@, harness_id@, budget, fits);
}

} // verus!

//! The fuzz-job scheduler: which jobs it takes, in which order it hands them out, what it
//! writes down before it acts, and what a failed write does to it.

use std::collections::{HashSet, VecDeque};

use vstd::prelude::*;
use vstd::string::*;
use vstd::utf8::encode_utf8;

use crate::daemon_error::{
    error_sentence, fault_view, DaemonError, DaemonErrorView, IoError, IoErrorView, PersistFailure,
    PersistencePhase, StorageFault, StorageFaultView,
};
use crate::jobs::{
    every_state_fits_the_reserve, in_state, job_id_of, job_id_text, job_ids_name_their_number,
    job_line, job_number, job_text, job_views, number_of_job, reserve, reserved_job_bytes, snapshot,
    snapshot_text, snapshots_fit_the_reserve, total_reserve, FuzzJob, JobState, JobView,
};
use crate::text::{
    byte_rows, bytes_of, cat2, cat3, debug_text, debugged, same, split_bytes, split_bytes_on,
};

verus! {

/// The most worker threads a scheduler runs.
pub const MAX_CONCURRENT_WORKERS: u32 = 64;

/// Bounds on history, waiting work and the file of jobs.
#[derive(Debug, Clone, Copy, PartialEq, Eq, Structural)]
pub struct SchedulerLimits {
    pub max_jobs: usize,
    pub max_queued_jobs: usize,
    pub max_snapshot_bytes: usize,
    pub max_job_bytes: usize,
    pub max_list_page: usize,
}

impl Default for SchedulerLimits {
    fn default() -> (r: SchedulerLimits)
        ensures
            r == (SchedulerLimits {
                max_jobs: 10_000,
                max_queued_jobs: 1_024,
                max_snapshot_bytes: 67_108_864,
                max_job_bytes: 65_536,
                max_list_page: 1_000,
            }),
    {
        SchedulerLimits {
            max_jobs: 10_000,
            max_queued_jobs: 1_024,
            max_snapshot_bytes: 67_108_864,
            max_job_bytes: 65_536,
            max_list_page: 1_000,
        }
    }
}

impl SchedulerLimits {
    /// Whether every bound admits something.
    pub open spec fn usable(self) -> bool {
        &&& self.max_jobs > 0
        &&& self.max_queued_jobs > 0
        &&& self.max_snapshot_bytes > 0
        &&& self.max_job_bytes > 0
        &&& self.max_list_page > 0
    }

    pub fn valid(self) -> (r: bool)
        ensures
            r == self.usable(),
    {
        self.max_jobs > 0 && self.max_queued_jobs > 0 && self.max_snapshot_bytes > 0
            && self.max_job_bytes > 0 && self.max_list_page > 0
    }
}

/// A length of time.
#[derive(Debug, Clone, Copy, PartialEq, Eq, Structural)]
pub struct TimeSpan {
    pub secs: u64,
    pub nanos: u32,
}

impl TimeSpan {
    /// Whether the part of a second is less than one.
    pub open spec fn well_formed(self) -> bool {
        self.nanos < 1_000_000_000
    }
}

/// The whole seconds that hold `budget`.
pub open spec fn rounded_up(budget: TimeSpan) -> nat {
    budget.secs as nat + if budget.nanos > 0 {
        1nat
    } else {
        0nat
    }
}

/// The whole seconds that hold `budget`: a part of a second counts as one.
pub fn rounded_budget_secs(budget: TimeSpan) -> (r: Result<u64, DaemonError>)
    ensures
        match r {
            Ok(secs) => secs == rounded_up(budget),
            Err(e) => rounded_up(budget) > u64::MAX && e@ == DaemonErrorView::InvalidBudget(
                "seconds exceed u64 range"@,
            ),
        },
{
    let part: u64 = if budget.nanos > 0 {
        1
    } else {
        0
    };
    match budget.secs.checked_add(part) {
        Some(secs) => Ok(secs),
        None => Err(DaemonError::InvalidBudget("seconds exceed u64 range".to_owned())),
    }
}

/// What is wrong with a budget of `budget_secs` under the allowance `grace`, `fits` saying
/// whether the clock can reach their sum. A budget of zero is unbounded.
pub open spec fn wall_error(budget_secs: u64, grace: TimeSpan, fits: bool) -> Option<
    DaemonErrorView,
> {
    if budget_secs == 0 {
        None
    } else if wall_sum(budget_secs, grace) is None {
        Some(DaemonErrorView::InvalidBudget("budget plus grace overflows"@))
    } else if !fits {
        Some(DaemonErrorView::InvalidBudget("monotonic deadline overflows"@))
    } else {
        None
    }
}

/// Whether a check gave this error or none.
pub open spec fn gives<T>(r: Result<T, DaemonError>, error: Option<DaemonErrorView>) -> bool {
    match r {
        Ok(_) => error is None,
        Err(e) => error == Some(e@),
    }
}

pub fn judge_wall_budget(budget_secs: u64, grace: TimeSpan, fits: bool) -> (r: Result<
    (),
    DaemonError,
>)
    ensures
        gives(r, wall_error(budget_secs, grace, fits)),
{
    if budget_secs == 0 {
        return Ok(());
    }
    if wall_span(budget_secs, grace).is_none() {
        return Err(DaemonError::InvalidBudget("budget plus grace overflows".to_owned()));
    }
    if !fits {
        return Err(DaemonError::InvalidBudget("monotonic deadline overflows".to_owned()));
    }
    Ok(())
}

/// A moment of the monotonic clock.
#[verifier::external_type_specification]
#[verifier::external_body]
pub struct ExInstant(std::time::Instant);

/// `std::time::Instant::now`. Nothing is claimed of the moment it gives.
#[verifier::external_body]
fn clock_now() -> (r: std::time::Instant)
{
    std::time::Instant::now()
}

/// Whether the monotonic clock has a moment `wall` after `start`, as
/// `std::time::Instant::checked_add` tells. It depends on the machine, so that nothing is
/// claimed of it.
#[verifier::external_body]
fn clock_reaches(start: std::time::Instant, wall: TimeSpan) -> (r: bool)
    requires
        wall.nanos < 1_000_000_000,
{
    start.checked_add(std::time::Duration::new(wall.secs, wall.nanos)).is_some()
}

/// How long a job with the budget and the allowance may take, `None` where the sum cannot
/// be counted.
pub open spec fn wall_sum(budget_secs: u64, grace: TimeSpan) -> Option<TimeSpan> {
    if budget_secs + grace.secs > u64::MAX {
        None
    } else {
        Some(TimeSpan { secs: (budget_secs + grace.secs) as u64, nanos: grace.nanos })
    }
}

/// The budget and the allowance together: what the clock is asked to reach.
pub fn wall_span(budget_secs: u64, grace: TimeSpan) -> (r: Option<TimeSpan>)
    ensures
        r == wall_sum(budget_secs, grace),
{
    match budget_secs.checked_add(grace.secs) {
        Some(secs) => Some(TimeSpan { secs, nanos: grace.nanos }),
        None => None,
    }
}

/// Whether the clock, asked at a moment that it gave whether it reaches a moment `wall`
/// later, answered `fits`.
pub closed spec fn clock_answered(wall: TimeSpan, fits: bool) -> bool {
    exists|start: std::time::Instant|
        call_ensures(clock_now, (), start) && #[trigger] call_ensures(
            clock_reaches,
            (start, wall),
            fits,
        )
}

/// Whether `fits` is what the clock said of the budget and the allowance together. Where
/// their sum cannot be counted it is not asked, and the answer is no.
pub open spec fn deadline_answer(budget_secs: u64, grace: TimeSpan, fits: bool) -> bool {
    match wall_sum(budget_secs, grace) {
        Some(wall) => clock_answered(wall, fits),
        None => !fits,
    }
}

/// Whether the monotonic clock can reach a moment [`wall_span`] from now. It reaches none
/// where the sum cannot be counted.
fn deadline_fits(budget_secs: u64, grace: TimeSpan) -> (r: bool)
    requires
        grace.well_formed(),
    ensures
        deadline_answer(budget_secs, grace, r),
{
    match wall_span(budget_secs, grace) {
        Some(wall) => {
            let start = clock_now();
            let fits = clock_reaches(start, wall);
            proof {
                assert(call_ensures(clock_now, (), start));
                assert(call_ensures(clock_reaches, (start, wall), fits));
            }
            fits
        },
        None => false,
    }
}

/// Whether `fits` is what the clock said of `budget` in whole seconds and the allowance.
/// Where the seconds cannot be counted it is not asked, and the answer is no.
pub open spec fn budget_answer(budget: TimeSpan, grace: TimeSpan, fits: bool) -> bool {
    if rounded_up(budget) > u64::MAX {
        !fits
    } else {
        deadline_answer(rounded_up(budget) as u64, grace, fits)
    }
}

/// Whether a job may run for `budget_secs` under the allowance `grace`.
pub fn validate_wall_budget(budget_secs: u64, grace: TimeSpan) -> (r: Result<(), DaemonError>)
    requires
        grace.well_formed(),
    ensures
        exists|fits: bool|
            deadline_answer(budget_secs, grace, fits) && gives(
                r,
                #[trigger] wall_error(budget_secs, grace, fits),
            ),
        budget_secs == 0 ==> r is Ok,
        budget_secs > 0 && budget_secs + grace.secs > u64::MAX ==> gives(
            r,
            wall_error(budget_secs, grace, false),
        ),
{
    let fits = deadline_fits(budget_secs, grace);
    judge_wall_budget(budget_secs, grace, fits)
}

/// How a daemon is set up.
#[derive(Debug, Clone, PartialEq, Eq)]
pub struct DaemonConfig {
    pub data_dir: String,
    pub max_concurrent_jobs: u32,
    pub bhf_bin: String,
    pub webhook_url: Option<String>,
    pub poll_interval: TimeSpan,
}

/// What is wrong with a start, if anything: the limits, then the number of workers, then
/// the poll interval, then the data directory, then the program.
pub open spec fn start_error(
    config: &DaemonConfig,
    limits: SchedulerLimits,
    data_dir_there: bool,
    bin_there: bool,
) -> Option<DaemonErrorView> {
    if !limits.usable() {
        Some(DaemonErrorView::InvalidLimits)
    } else if config.max_concurrent_jobs > MAX_CONCURRENT_WORKERS {
        Some(DaemonErrorView::Capacity("worker threads"@))
    } else if config.poll_interval.secs == 0 && config.poll_interval.nanos == 0 {
        Some(DaemonErrorView::InvalidLimits)
    } else if !data_dir_there {
        Some(DaemonErrorView::DataDirMissing(config.data_dir@))
    } else if !bin_there {
        Some(DaemonErrorView::BinMissing(config.bhf_bin@))
    } else {
        None
    }
}

/// Whether a scheduler may start.
pub fn check_start(
    config: &DaemonConfig,
    limits: SchedulerLimits,
    data_dir_there: bool,
    bin_there: bool,
) -> (r: Result<(), DaemonError>)
    ensures
        gives(r, start_error(config, limits, data_dir_there, bin_there)),
{
    if !limits.valid() {
        return Err(DaemonError::InvalidLimits);
    }
    if config.max_concurrent_jobs > MAX_CONCURRENT_WORKERS {
        return Err(DaemonError::Capacity("worker threads"));
    }
    if config.poll_interval.secs == 0 && config.poll_interval.nanos == 0 {
        return Err(DaemonError::InvalidLimits);
    }
    if !data_dir_there {
        return Err(DaemonError::DataDirMissing(config.data_dir.clone()));
    }
    if !bin_there {
        return Err(DaemonError::BinMissing(config.bhf_bin.clone()));
    }
    Ok(())
}

/// How many workers run where `wanted` are asked for.
pub fn worker_count(wanted: u32) -> (r: u32)
    ensures
        r == if wanted == 0 {
            1u32
        } else {
            wanted
        },
{
    if wanted == 0 {
        1
    } else {
        wanted
    }
}

/// The scheduler's jobs and what it has come to.
pub struct Scheduler {
    queue: VecDeque<FuzzJob>,
    seen: Vec<FuzzJob>,
    shutdown: bool,
    next_id: u64,
    snapshot_bytes_reserved: usize,
    storage_fault: Option<StorageFault>,
    limits: SchedulerLimits,
    job_wall_grace: TimeSpan,
}

/// A scheduler as lists and numbers.
#[verifier::ext_equal]
pub struct SchedulerView {
    /// The jobs that wait for a worker, the next one first.
    pub queue: Seq<JobView>,
    /// Every job there was, in the order of submission.
    pub seen: Seq<JobView>,
    pub shutdown: bool,
    /// The number of the next job.
    pub next_id: nat,
    /// The bytes reserved for the file of jobs.
    pub reserved: nat,
    pub fault: Option<StorageFaultView>,
    pub limits: SchedulerLimits,
    pub grace: TimeSpan,
}

impl View for Scheduler {
    type V = SchedulerView;

    closed spec fn view(&self) -> SchedulerView {
        SchedulerView {
            queue: job_views(self.queue@),
            seen: job_views(self.seen@),
            shutdown: self.shutdown,
            next_id: self.next_id as nat,
            reserved: self.snapshot_bytes_reserved as nat,
            fault: fault_view(self.storage_fault),
            limits: self.limits,
            grace: self.job_wall_grace,
        }
    }
}

impl SchedulerView {
    /// Every job has a number of its own below the next one and a budget that can be kept,
    /// what is reserved is what the jobs need and within the bounds, a waiting job is one
    /// of the jobs, and a storage fault stops admission.
    pub open spec fn well_formed(self) -> bool {
        &&& self.limits.usable()
        &&& self.grace.well_formed()
        &&& self.next_id <= u64::MAX
        &&& self.seen.len() <= self.limits.max_jobs
        &&& self.queue.len() <= self.limits.max_queued_jobs
        &&& self.reserved == total_reserve(self.seen)
        &&& self.reserved <= self.limits.max_snapshot_bytes
        &&& forall|i: int|
            0 <= i < self.seen.len() ==> reserve(#[trigger] self.seen[i])
                <= self.limits.max_job_bytes
        &&& forall|i: int|
            0 <= i < self.seen.len() ==> wall_error(
                (#[trigger] self.seen[i]).time_budget_secs,
                self.grace,
                true,
            ) is None
        &&& forall|i: int|
            0 <= i < self.seen.len() ==> (job_number(#[trigger] self.seen[i].job_id) matches Some(n)
                && n < self.next_id)
        &&& forall|i: int, j: int|
            0 <= i < j < self.seen.len() ==> job_number(#[trigger] self.seen[i].job_id)
                != job_number(#[trigger] self.seen[j].job_id)
        &&& forall|k: int| 0 <= k < self.queue.len() ==> self.remembers(#[trigger] self.queue[k])
        &&& forall|k: int, l: int|
            0 <= k < l < self.queue.len() ==> #[trigger] self.queue[k].job_id
                != #[trigger] self.queue[l].job_id
        &&& self.fault is Some ==> self.shutdown
    }

    /// Whether `job` is waiting and is one of the jobs but for the state.
    pub open spec fn remembers(self, job: JobView) -> bool {
        &&& job.state == JobState::Queued
        &&& exists|i: int|
            0 <= i < self.seen.len() && #[trigger] in_state(self.seen[i], JobState::Queued) == job
    }
}

/// An empty scheduler.
pub open spec fn fresh(limits: SchedulerLimits, grace: TimeSpan) -> SchedulerView {
    SchedulerView {
        queue: Seq::empty(),
        seen: Seq::empty(),
        shutdown: false,
        next_id: 0,
        reserved: 0,
        fault: None,
        limits,
        grace,
    }
}

/// The job that a submission makes, or why it is refused; `fits` says whether the clock
/// can reach the job's deadline.
pub open spec fn admission(
    s: SchedulerView,
    project_dir: Seq<char>,
    harness_id: Seq<char>,
    budget: TimeSpan,
    fits: bool,
) -> Result<JobView, DaemonErrorView> {
    let secs = rounded_up(budget);
    let job = JobView {
        job_id: job_id_of(s.next_id),
        project_dir,
        harness_id,
        time_budget_secs: secs as u64,
        state: JobState::Queued,
    };
    if s.shutdown {
        Err(DaemonErrorView::Shutdown)
    } else if s.seen.len() >= s.limits.max_jobs {
        Err(DaemonErrorView::Capacity("retained jobs"@))
    } else if s.queue.len() >= s.limits.max_queued_jobs {
        Err(DaemonErrorView::Capacity("queued jobs"@))
    } else if encode_utf8(project_dir).len() + encode_utf8(harness_id).len()
        > s.limits.max_job_bytes {
        Err(DaemonErrorView::Capacity("job record bytes"@))
    } else if secs > u64::MAX {
        Err(DaemonErrorView::InvalidBudget("seconds exceed u64 range"@))
    } else if wall_error(secs as u64, s.grace, fits) is Some {
        Err(wall_error(secs as u64, s.grace, fits)->0)
    } else if s.next_id >= u64::MAX {
        Err(DaemonErrorView::IdExhausted)
    } else if reserve(job) > s.limits.max_job_bytes {
        Err(DaemonErrorView::Capacity("job record bytes"@))
    } else if s.reserved + reserve(job) > s.limits.max_snapshot_bytes {
        Err(DaemonErrorView::Capacity("jobs snapshot bytes"@))
    } else {
        Ok(job)
    }
}

/// Whether `job` can be committed to `s`.
pub open spec fn admissible(s: SchedulerView, job: JobView) -> bool {
    &&& !s.shutdown
    &&& s.seen.len() < s.limits.max_jobs
    &&& s.queue.len() < s.limits.max_queued_jobs
    &&& s.next_id < u64::MAX
    &&& job.job_id == job_id_of(s.next_id)
    &&& job.state == JobState::Queued
    &&& reserve(job) <= s.limits.max_job_bytes
    &&& s.reserved + reserve(job) <= s.limits.max_snapshot_bytes
}

/// `s` with the first storage fault recorded and admission stopped.
pub open spec fn latched(
    s: SchedulerView,
    phase: PersistencePhase,
    job_id: Seq<char>,
    installed: bool,
    error: IoErrorView,
) -> SchedulerView {
    SchedulerView {
        fault: match s.fault {
            Some(fault) => Some(fault),
            None => Some(
                StorageFaultView {
                    phase,
                    job_id,
                    snapshot_installed: installed,
                    io_error_kind: error.kind,
                    raw_os_error: error.raw_os_error,
                },
            ),
        },
        shutdown: true,
        ..s
    }
}

/// `s` with `job` in its history.
pub open spec fn retained(s: SchedulerView, job: JobView) -> SchedulerView {
    SchedulerView {
        seen: s.seen.push(job),
        next_id: s.next_id + 1,
        reserved: s.reserved + reserve(job),
        ..s
    }
}

/// `s` after the job was written down: it waits. A failed write stops admission; where the
/// file was replaced all the same the job keeps its number but does not wait.
pub open spec fn submitted(
    s: SchedulerView,
    job: JobView,
    outcome: Result<(), PersistFailure>,
) -> SchedulerView {
    match outcome {
        Ok(_) => SchedulerView { queue: s.queue.push(job), ..retained(s, job) },
        Err(failure) => {
            let stopped = latched(
                s,
                PersistencePhase::Admission,
                job.job_id,
                failure.installed,
                failure.error@,
            );
            if failure.installed {
                retained(stopped, job)
            } else {
                stopped
            }
        },
    }
}

/// What the submitter is told.
pub open spec fn submit_reply(
    job_id: Seq<char>,
    outcome: Result<(), PersistFailure>,
) -> Result<Seq<char>, DaemonErrorView> {
    match outcome {
        Ok(_) => Ok(job_id),
        Err(failure) => if failure.installed {
            Err(DaemonErrorView::DurabilityUncertain { job_id, source: failure.error@ })
        } else {
            Err(DaemonErrorView::Io(failure.error@))
        },
    }
}

/// A job that is about to be written down.
#[derive(Debug, Clone, PartialEq, Eq)]
pub struct Admission {
    pub job: FuzzJob,
    /// The bytes reserved for it.
    pub reserved: usize,
    /// The file of jobs with the job in it.
    pub snapshot: String,
}

/// Whether `plan` is the admission of `job` to `s`.
pub open spec fn admission_is(plan: Admission, s: SchedulerView, job: JobView) -> bool {
    &&& plan.job@ == job
    &&& plan.reserved == reserve(job)
    &&& plan.snapshot@ == snapshot(s.seen.push(job))
}

proof fn lemma_job_views_push(jobs: Seq<FuzzJob>, job: FuzzJob)
    ensures
        job_views(jobs.push(job)) == job_views(jobs).push(job@),
{
    assert(job_views(jobs.push(job)) =~= job_views(jobs).push(job@));
}

impl Scheduler {
    /// An empty scheduler.
    pub fn new(limits: SchedulerLimits, job_wall_grace: TimeSpan) -> (r: Scheduler)
        ensures
            r@ == fresh(limits, job_wall_grace),
    {
        let r = Scheduler {
            queue: VecDeque::new(),
            seen: Vec::new(),
            shutdown: false,
            next_id: 0,
            snapshot_bytes_reserved: 0,
            storage_fault: None,
            limits,
            job_wall_grace,
        };
        proof {
            assert(r@ =~= fresh(limits, job_wall_grace));
        }
        r
    }

    /// The job that a submission makes and what is to be written down for it, or why it is
    /// refused; `fits` says whether the clock can reach the job's deadline.
    pub fn judge_submit(
        &self,
        project_dir: &str,
        harness_id: &str,
        budget: TimeSpan,
        fits: bool,
    ) -> (r: Result<Admission, DaemonError>)
        ensures
            match (r, admission(self@, project_dir@, harness_id@, budget, fits)) {
                (Ok(plan), Ok(job)) => admission_is(plan, self@, job) && admissible(self@, job),
                (Err(e), Err(want)) => e@ == want,
                _ => false,
            },
    {
        proof {
            assert(self@.seen.len() == self.seen@.len());
            assert(self@.queue.len() == self.queue@.len());
        }
        if self.shutdown {
            return Err(DaemonError::Shutdown);
        }
        if self.seen.len() >= self.limits.max_jobs {
            return Err(DaemonError::Capacity("retained jobs"));
        }
        if self.queue.len() >= self.limits.max_queued_jobs {
            return Err(DaemonError::Capacity("queued jobs"));
        }
        let path_bytes: usize = bytes_of(project_dir).len();
        let name_bytes: usize = bytes_of(harness_id).len();
        if path_bytes > self.limits.max_job_bytes || name_bytes > self.limits.max_job_bytes
            - path_bytes {
            return Err(DaemonError::Capacity("job record bytes"));
        }
        let secs: u64 = match rounded_budget_secs(budget) {
            Ok(secs) => secs,
            Err(e) => {
                return Err(e);
            },
        };
        if let Err(e) = judge_wall_budget(secs, self.job_wall_grace, fits) {
            return Err(e);
        }
        if self.next_id == u64::MAX {
            return Err(DaemonError::IdExhausted);
        }
        let job = FuzzJob {
            job_id: job_id_text(self.next_id),
            project_dir: project_dir.to_owned(),
            harness_id: harness_id.to_owned(),
            time_budget_secs: secs,
            state: JobState::Queued,
        };
        let reserved: usize = match reserved_job_bytes(&job) {
            Some(reserved) => reserved,
            None => {
                return Err(DaemonError::Capacity("job record bytes"));
            },
        };
        if reserved > self.limits.max_job_bytes {
            return Err(DaemonError::Capacity("job record bytes"));
        }
        if self.snapshot_bytes_reserved > self.limits.max_snapshot_bytes || reserved
            > self.limits.max_snapshot_bytes - self.snapshot_bytes_reserved {
            return Err(DaemonError::Capacity("jobs snapshot bytes"));
        }
        let mut text = snapshot_text(self.seen.as_slice());
        text.append(job_text(&job).as_str());
        text.append("\n");
        proof {
            assert(self@.seen.push(job@).drop_last() =~= self@.seen);
        }
        Ok(Admission { job, reserved, snapshot: text })
    }

    /// As [`Scheduler::judge_submit`], with the clock asked now.
    pub fn plan_submit(&self, project_dir: &str, harness_id: &str, budget: TimeSpan) -> (r: Result<
        Admission,
        DaemonError,
    >)
        requires
            self@.grace.well_formed(),
        ensures
            exists|fits: bool|
                budget_answer(budget, self@.grace, fits) && match (r, #[trigger] admission(self@, project_dir@, harness_id@, budget, fits)) {
                    (Ok(plan), Ok(job)) => admission_is(plan, self@, job) && admissible(
                        self@,
                        job,
                    ),
                    (Err(e), Err(want)) => e@ == want,
                    _ => false,
                },
    {
        let fits = match rounded_budget_secs(budget) {
            Ok(secs) => deadline_fits(secs, self.job_wall_grace),
            Err(_) => false,
        };
        self.judge_submit(project_dir, harness_id, budget, fits)
    }

    /// Takes the job of `plan` in, `outcome` being what came of writing it down.
    pub fn commit_submit(&mut self, plan: Admission, outcome: Result<(), PersistFailure>) -> (r:
        Result<String, DaemonError>)
        requires
            admissible(old(self)@, plan.job@),
            plan.reserved == reserve(plan.job@),
        ensures
            final(self)@ == submitted(old(self)@, plan.job@, outcome),
            match (r, submit_reply(plan.job@.job_id, outcome)) {
                (Ok(got), Ok(want)) => got@ == want,
                (Err(e), Err(want)) => e@ == want,
                _ => false,
            },
    {
        let ghost s = self@;
        let job = plan.job;
        let job_id = job.job_id.clone();
        match outcome {
            Ok(_) => {
                let copy = job.clone();
                proof {
                    lemma_job_views_push(self.seen@, copy);
                    lemma_job_views_push(self.queue@, job);
                }
                self.seen.push(copy);
                self.next_id = self.next_id + 1;
                self.snapshot_bytes_reserved = self.snapshot_bytes_reserved + plan.reserved;
                self.queue.push_back(job);
                Ok(job_id)
            },
            Err(failure) => {
                self.latch_storage_fault(PersistencePhase::Admission, job_id.as_str(), &failure);
                if failure.installed {
                    proof {
                        lemma_job_views_push(self.seen@, job);
                    }
                    self.seen.push(job);
                    self.next_id = self.next_id + 1;
                    self.snapshot_bytes_reserved = self.snapshot_bytes_reserved + plan.reserved;
                    return Err(
                        DaemonError::DurabilityUncertain { job_id, source: failure.error },
                    );
                }
                Err(DaemonError::Io(failure.error))
            },
        }
    }

    /// Records the first storage fault and stops admission.
    pub fn latch_storage_fault(
        &mut self,
        phase: PersistencePhase,
        job_id: &str,
        failure: &PersistFailure,
    )
        ensures
            final(self)@ == latched(
                old(self)@,
                phase,
                job_id@,
                failure.installed,
                failure.error@,
            ),
    {
        if self.storage_fault.is_none() {
            self.storage_fault = Some(
                StorageFault {
                    phase,
                    job_id: job_id.to_owned(),
                    snapshot_installed: failure.installed,
                    io_error_kind: failure.error.kind.clone(),
                    raw_os_error: failure.error.raw_os_error,
                },
            );
        }
        self.shutdown = true;
    }

    /// Stops admission.
    pub fn request_shutdown(&mut self)
        ensures
            final(self)@ == (SchedulerView { shutdown: true, ..old(self)@ }),
    {
        self.shutdown = true;
    }

    /// Whether admission has stopped.
    pub fn is_shutting_down(&self) -> (r: bool)
        ensures
            r == self@.shutdown,
    {
        self.shutdown
    }
}

/// The index of the first of `jobs` that `id` names.
pub open spec fn first_named(jobs: Seq<JobView>, id: Seq<char>) -> Option<int>
    decreases jobs.len(),
{
    if jobs.len() == 0 {
        None
    } else {
        match first_named(jobs.drop_last(), id) {
            Some(i) => Some(i),
            None => if jobs.last().job_id == id {
                Some(jobs.len() - 1)
            } else {
                None
            },
        }
    }
}

proof fn lemma_first_named(jobs: Seq<JobView>, id: Seq<char>)
    ensures
        match first_named(jobs, id) {
            Some(i) => 0 <= i < jobs.len() && jobs[i].job_id == id && forall|k: int|
                0 <= k < i ==> (#[trigger] jobs[k]).job_id != id,
            None => forall|k: int| 0 <= k < jobs.len() ==> (#[trigger] jobs[k]).job_id != id,
        },
    decreases jobs.len(),
{
    if jobs.len() > 0 {
        lemma_first_named(jobs.drop_last(), id);
        assert forall|k: int| 0 <= k < jobs.len() - 1 implies #[trigger] jobs[k]
            == jobs.drop_last()[k] by {}
        assert(jobs.last() == jobs[jobs.len() - 1]);
    }
}

/// `jobs` with the job at `i` in the state `state`.
pub open spec fn with_state(jobs: Seq<JobView>, i: int, state: JobState) -> Seq<JobView> {
    jobs.update(i, in_state(jobs[i], state))
}

/// The index in the history of the job that a worker may take: the first that waits,
/// unless admission has stopped.
pub open spec fn claimable(s: SchedulerView) -> Option<int> {
    if s.shutdown || s.queue.len() == 0 {
        None
    } else {
        first_named(s.seen, s.queue[0].job_id)
    }
}

/// `s` where no job can be taken: as it was, but stopped where the first waiting job is
/// not in the history.
pub open spec fn unclaimed(s: SchedulerView) -> SchedulerView {
    if s.shutdown || s.queue.len() == 0 {
        s
    } else {
        latched(
            s,
            PersistencePhase::Start,
            s.queue[0].job_id,
            false,
            IoErrorView {
                kind: "InvalidData"@,
                raw_os_error: None,
                message: "queued job missing from scheduler history"@,
            },
        )
    }
}

/// `s` after it was written down that the job at `i` of the history runs: the job no
/// longer waits. After a failed write it waits as before and admission has stopped.
pub open spec fn claimed(
    s: SchedulerView,
    i: int,
    outcome: Result<(), PersistFailure>,
) -> SchedulerView {
    match outcome {
        Ok(_) => SchedulerView {
            seen: with_state(s.seen, i, JobState::Running),
            queue: s.queue.drop_first(),
            ..s
        },
        Err(failure) => latched(
            SchedulerView { seen: with_state(s.seen, i, JobState::Queued), ..s },
            PersistencePhase::Start,
            s.queue[0].job_id,
            failure.installed,
            failure.error@,
        ),
    }
}

/// `s` with the first job that `id` names in the state `state`.
pub open spec fn observed(s: SchedulerView, id: Seq<char>, state: JobState) -> SchedulerView {
    match first_named(s.seen, id) {
        Some(i) => SchedulerView { seen: with_state(s.seen, i, state), ..s },
        None => s,
    }
}

/// `s` after the end of the job that `id` names was written down, or could not be.
pub open spec fn finished(
    s: SchedulerView,
    id: Seq<char>,
    outcome: Result<(), PersistFailure>,
) -> SchedulerView {
    match outcome {
        Ok(_) => s,
        Err(failure) => latched(
            s,
            PersistencePhase::Completion,
            id,
            failure.installed,
            failure.error@,
        ),
    }
}

/// How many of `jobs` are in the state `state`.
pub open spec fn count(jobs: Seq<JobView>, state: JobState) -> nat
    decreases jobs.len(),
{
    if jobs.len() == 0 {
        0
    } else {
        count(jobs.drop_last(), state) + if jobs.last().state == state {
            1nat
        } else {
            0nat
        }
    }
}

/// What the scheduler observes of itself.
#[derive(Debug, Clone, PartialEq, Eq)]
pub struct SchedulerHealth {
    pub schema_version: u32,
    pub accepting_submissions: bool,
    pub shutdown_requested: bool,
    pub retained_jobs: usize,
    pub queued_jobs: usize,
    pub running_jobs: usize,
    pub complete_jobs: usize,
    pub failed_jobs: usize,
    pub max_jobs: usize,
    pub max_queued_jobs: usize,
    pub snapshot_bytes_reserved: usize,
    pub max_snapshot_bytes: usize,
    pub storage_fault: Option<StorageFault>,
}

/// Whether `h` is what `s` observes of itself.
pub open spec fn health_is(h: SchedulerHealth, s: SchedulerView) -> bool {
    &&& h.schema_version == 1
    &&& h.accepting_submissions == (!s.shutdown && s.seen.len() < s.limits.max_jobs
        && s.queue.len() < s.limits.max_queued_jobs && s.reserved < s.limits.max_snapshot_bytes)
    &&& h.shutdown_requested == s.shutdown
    &&& h.retained_jobs == s.seen.len()
    &&& h.queued_jobs == count(s.seen, JobState::Queued)
    &&& h.running_jobs == count(s.seen, JobState::Running)
    &&& h.complete_jobs == count(s.seen, JobState::Complete)
    &&& h.failed_jobs == count(s.seen, JobState::Failed)
    &&& h.max_jobs == s.limits.max_jobs
    &&& h.max_queued_jobs == s.limits.max_queued_jobs
    &&& h.snapshot_bytes_reserved == s.reserved
    &&& h.max_snapshot_bytes == s.limits.max_snapshot_bytes
    &&& fault_view(h.storage_fault) == s.fault
}

/// A job that a worker is about to take.
#[derive(Debug, Clone, PartialEq, Eq)]
pub struct Claim {
    /// Its index in the history.
    pub index: usize,
    /// The file of jobs in which it runs.
    pub snapshot: String,
}

/// The jobs of the page that begins at `offset` and holds at most `limit`.
pub open spec fn page(jobs: Seq<JobView>, offset: nat, limit: nat) -> Seq<JobView> {
    let from = if offset < jobs.len() {
        offset as int
    } else {
        jobs.len() as int
    };
    let to = if from + limit < jobs.len() {
        from + limit
    } else {
        jobs.len() as int
    };
    jobs.subrange(from, to)
}

fn copy_jobs(jobs: &[FuzzJob], from: usize, to: usize) -> (r: Vec<FuzzJob>)
    requires
        from <= to <= jobs@.len(),
    ensures
        job_views(r@) == job_views(jobs@).subrange(from as int, to as int),
{
    let mut out: Vec<FuzzJob> = Vec::new();
    let mut i: usize = from;
    while i < to
        invariant
            from <= i <= to <= jobs@.len(),
            job_views(out@) == job_views(jobs@).subrange(from as int, i as int),
        decreases to - i,
    {
        let copy = jobs[i].clone();
        proof {
            lemma_job_views_push(out@, copy);
            assert(job_views(jobs@).subrange(from as int, i + 1) =~= job_views(jobs@).subrange(
                from as int,
                i as int,
            ).push(jobs@[i as int]@));
        }
        out.push(copy);
        i = i + 1;
    }
    out
}

impl Scheduler {
    fn position(&self, id: &str) -> (r: Option<usize>)
        ensures
            match r {
                Some(i) => first_named(self@.seen, id@) == Some(i as int) && i < self.seen@.len(),
                None => first_named(self@.seen, id@) is None,
            },
    {
        let mut i: usize = 0;
        while i < self.seen.len()
            invariant
                i <= self.seen@.len(),
                forall|k: int| 0 <= k < i ==> (#[trigger] self.seen@[k])@.job_id != id@,
            decreases self.seen@.len() - i,
        {
            if same(self.seen[i].job_id.as_str(), id) {
                proof {
                    lemma_first_named(self@.seen, id@);
                    assert(self@.seen[i as int] == self.seen@[i as int]@);
                    assert forall|k: int| 0 <= k < i implies (#[trigger] self@.seen[k]).job_id
                        != id@ by {
                        assert(self@.seen[k] == self.seen@[k]@);
                    }
                }
                return Some(i);
            }
            i = i + 1;
        }
        proof {
            lemma_first_named(self@.seen, id@);
            assert forall|k: int| 0 <= k < self@.seen.len() implies (
            #[trigger] self@.seen[k]).job_id != id@ by {
                assert(self@.seen[k] == self.seen@[k]@);
            }
        }
        None
    }

    fn set_state(&mut self, index: usize, state: JobState)
        requires
            index < old(self)@.seen.len(),
        ensures
            final(self)@ == (SchedulerView {
                seen: with_state(old(self)@.seen, index as int, state),
                ..old(self)@
            }),
    {
        let mut job = self.seen[index].clone();
        job.state = state;
        self.seen.set(index, job);
        proof {
            assert(job_views(self.seen@) =~= with_state(old(self)@.seen, index as int, state));
        }
    }

    /// The job that a worker may take, and what is to be written down before it does.
    pub fn plan_claim(&mut self) -> (r: Option<Claim>)
        ensures
            match (r, claimable(old(self)@)) {
                (Some(claim), Some(i)) => {
                    &&& claim.index == i
                    &&& claim.snapshot@ == snapshot(
                        with_state(old(self)@.seen, i, JobState::Running),
                    )
                    &&& final(self)@ == old(self)@
                },
                (None, None) => final(self)@ == unclaimed(old(self)@),
                _ => false,
            },
    {
        if self.shutdown || self.queue.len() == 0 {
            return None;
        }
        let id = self.queue[0].job_id.clone();
        proof {
            assert(self@.queue[0] == self.queue@[0]@);
        }
        let index: usize = match self.position(id.as_str()) {
            None => {
                let failure = PersistFailure::before(
                    IoError::new("InvalidData", "queued job missing from scheduler history"),
                );
                self.latch_storage_fault(PersistencePhase::Start, id.as_str(), &failure);
                return None;
            },
            Some(index) => index,
        };
        let mut rows = copy_jobs(self.seen.as_slice(), 0, self.seen.len());
        proof {
            assert(job_views(rows@) =~= self@.seen);
            assert(rows@.len() == job_views(rows@).len());
        }
        let mut job = self.seen[index].clone();
        job.state = JobState::Running;
        rows.set(index, job);
        proof {
            assert(job_views(rows@) =~= with_state(self@.seen, index as int, JobState::Running));
        }
        Some(Claim { index, snapshot: snapshot_text(rows.as_slice()) })
    }

    /// Hands the first waiting job to a worker, `outcome` being what came of writing down
    /// that it runs.
    pub fn commit_claim(&mut self, claim: Claim, outcome: Result<(), PersistFailure>) -> (r: Option<
        FuzzJob,
    >)
        requires
            claimable(old(self)@) == Some(claim.index as int),
        ensures
            final(self)@ == claimed(old(self)@, claim.index as int, outcome),
            match r {
                Some(job) => outcome is Ok && job@ == old(self)@.queue[0],
                None => outcome is Err,
            },
    {
        let ghost s = self@;
        proof {
            lemma_first_named(s.seen, s.queue[0].job_id);
            assert(s.queue[0] == self.queue@[0]@);
        }
        match outcome {
            Ok(_) => {
                self.set_state(claim.index, JobState::Running);
                let ghost waiting = self.queue@;
                proof {
                    assert(job_views(waiting).len() == waiting.len());
                    assert(job_views(waiting)[0] == waiting[0]@);
                }
                let job = self.queue.pop_front();
                proof {
                    assert(job_views(self.queue@) =~= s.queue.drop_first());
                }
                job
            },
            Err(failure) => {
                let id = self.queue[0].job_id.clone();
                self.set_state(claim.index, JobState::Queued);
                self.latch_storage_fault(PersistencePhase::Start, id.as_str(), &failure);
                None
            },
        }
    }

    /// Notes the state in which the job that `job_id` names ended, and gives what is to be
    /// written down; nothing is once storage has failed.
    pub fn plan_finish(&mut self, job_id: &str, final_state: JobState) -> (r: Option<String>)
        ensures
            final(self)@ == observed(old(self)@, job_id@, final_state),
            match r {
                Some(text) => old(self)@.fault is None && text@ == snapshot(final(self)@.seen),
                None => old(self)@.fault is Some,
            },
    {
        if let Some(index) = self.position(job_id) {
            self.set_state(index, final_state);
        }
        if self.storage_fault.is_some() {
            return None;
        }
        Some(snapshot_text(self.seen.as_slice()))
    }

    /// Whether the worker may go on, `outcome` being what came of writing down the end of
    /// its job.
    pub fn commit_finish(&mut self, job_id: &str, outcome: Result<(), PersistFailure>) -> (r: bool)
        ensures
            final(self)@ == finished(old(self)@, job_id@, outcome),
            r == (outcome is Ok),
    {
        match outcome {
            Ok(_) => true,
            Err(failure) => {
                self.latch_storage_fault(PersistencePhase::Completion, job_id, &failure);
                false
            },
        }
    }

    /// What the scheduler observes of itself. The counts stay available after admission
    /// has stopped.
    pub fn health(&self) -> (r: SchedulerHealth)
        ensures
            health_is(r, self@),
    {
        let mut queued: usize = 0;
        let mut running: usize = 0;
        let mut complete: usize = 0;
        let mut failed: usize = 0;
        let mut i: usize = 0;
        proof {
            assert(self@.seen.take(0) =~= Seq::empty());
        }
        while i < self.seen.len()
            invariant
                i <= self.seen@.len(),
                queued + running + complete + failed == i,
                queued == count(self@.seen.take(i as int), JobState::Queued),
                running == count(self@.seen.take(i as int), JobState::Running),
                complete == count(self@.seen.take(i as int), JobState::Complete),
                failed == count(self@.seen.take(i as int), JobState::Failed),
            decreases self.seen@.len() - i,
        {
            proof {
                assert(self@.seen.take(i + 1).drop_last() =~= self@.seen.take(i as int));
                assert(self@.seen.take(i + 1).last() == self.seen@[i as int]@);
            }
            match self.seen[i].state {
                JobState::Queued => {
                    queued = queued + 1;
                },
                JobState::Running => {
                    running = running + 1;
                },
                JobState::Complete => {
                    complete = complete + 1;
                },
                JobState::Failed => {
                    failed = failed + 1;
                },
            }
            i = i + 1;
        }
        proof {
            assert(self@.seen.take(i as int) =~= self@.seen);
            assert(self@.seen.len() == self.seen@.len());
            assert(self@.queue.len() == self.queue@.len());
        }
        SchedulerHealth {
            schema_version: 1,
            accepting_submissions: !self.shutdown && self.seen.len() < self.limits.max_jobs
                && self.queue.len() < self.limits.max_queued_jobs && self.snapshot_bytes_reserved
                < self.limits.max_snapshot_bytes,
            shutdown_requested: self.shutdown,
            retained_jobs: self.seen.len(),
            queued_jobs: queued,
            running_jobs: running,
            complete_jobs: complete,
            failed_jobs: failed,
            max_jobs: self.limits.max_jobs,
            max_queued_jobs: self.limits.max_queued_jobs,
            snapshot_bytes_reserved: self.snapshot_bytes_reserved,
            max_snapshot_bytes: self.limits.max_snapshot_bytes,
            storage_fault: match &self.storage_fault {
                Some(fault) => Some(fault.clone()),
                None => None,
            },
        }
    }

    /// Every job there was, in the order of submission.
    pub fn list_jobs(&self) -> (r: Vec<FuzzJob>)
        ensures
            job_views(r@) == self@.seen,
    {
        proof {
            assert(self@.seen.subrange(0, self.seen@.len() as int) =~= self@.seen);
        }
        copy_jobs(self.seen.as_slice(), 0, self.seen.len())
    }

    /// At most one page of the jobs, in the order of submission.
    pub fn list_jobs_page(&self, offset: usize, limit: usize) -> (r: Vec<FuzzJob>)
        ensures
            job_views(r@) == page(
                self@.seen,
                offset as nat,
                if limit < self@.limits.max_list_page {
                    limit as nat
                } else {
                    self@.limits.max_list_page as nat
                },
            ),
    {
        proof {
            assert(self@.seen.len() == self.seen@.len());
        }
        let size: usize = if limit < self.limits.max_list_page {
            limit
        } else {
            self.limits.max_list_page
        };
        let n: usize = self.seen.len();
        let from: usize = if offset < n {
            offset
        } else {
            n
        };
        let to: usize = if size < n - from {
            from + size
        } else {
            n
        };
        copy_jobs(self.seen.as_slice(), from, to)
    }
}

/// A job as it is taken up again: one that ran waits, its work being lost.
pub open spec fn requeued(job: JobView) -> JobView {
    if job.state == JobState::Running {
        in_state(job, JobState::Queued)
    } else {
        job
    }
}

/// Whether one of `jobs` has the number `n`.
pub open spec fn number_taken(jobs: Seq<JobView>, n: nat) -> bool {
    exists|i: int| 0 <= i < jobs.len() && job_number(#[trigger] jobs[i].job_id) == Some(n)
}

/// Why a line of the file of jobs is not even read, if there is a reason.
pub open spec fn line_error(s: SchedulerView, length: nat) -> Option<DaemonErrorView> {
    if length > s.limits.max_job_bytes {
        Some(DaemonErrorView::Capacity("job record bytes"@))
    } else if s.seen.len() >= s.limits.max_jobs {
        Some(DaemonErrorView::Capacity("retained jobs"@))
    } else {
        None
    }
}

/// `s` with `job`, read from the line `line` of the file `path`, taken up again, or why it
/// cannot be; `fits` says whether the clock can reach the job's deadline.
pub open spec fn restored(
    s: SchedulerView,
    path: Seq<char>,
    line: nat,
    job: JobView,
    fits: bool,
) -> Result<SchedulerView, DaemonErrorView> {
    let back = requeued(job);
    if job_number(job.job_id) is None {
        Err(corrupt(path, line, "invalid job ID "@ + debugged(job.job_id)))
    } else if number_taken(s.seen, job_number(job.job_id)->0) {
        Err(corrupt(path, line, "duplicate numeric job ID "@ + debugged(job.job_id)))
    } else if job_number(job.job_id)->0 >= u64::MAX {
        Err(corrupt(path, line, "job ID "@ + debugged(job.job_id) + " exhausts ID space"@))
    } else if wall_error(job.time_budget_secs, s.grace, fits) is Some {
        Err(
            corrupt(
                path,
                line,
                error_sentence(wall_error(job.time_budget_secs, s.grace, fits)->0),
            ),
        )
    } else if reserve(back) > s.limits.max_job_bytes || s.reserved + reserve(back)
        > s.limits.max_snapshot_bytes {
        Err(DaemonErrorView::Capacity("jobs snapshot bytes"@))
    } else if back.state == JobState::Queued && s.queue.len() >= s.limits.max_queued_jobs {
        Err(DaemonErrorView::Capacity("queued jobs"@))
    } else {
        let next = job_number(job.job_id)->0 + 1;
        Ok(
            SchedulerView {
                seen: s.seen.push(back),
                queue: if back.state == JobState::Queued {
                    s.queue.push(back)
                } else {
                    s.queue
                },
                next_id: if next > s.next_id {
                    next
                } else {
                    s.next_id
                },
                reserved: s.reserved + reserve(back),
                ..s
            },
        )
    }
}

/// A line of the file of jobs that is not a job.
pub open spec fn corrupt(path: Seq<char>, line: nat, reason: Seq<char>) -> DaemonErrorView {
    DaemonErrorView::CorruptJobs { path, line, reason }
}

/// The lines of the file of jobs: what stands between the line feeds, but for what is
/// behind the last one where that is empty.
pub open spec fn snapshot_rows(bytes: Seq<u8>) -> Seq<Seq<u8>> {
    let rows = split_bytes_on(bytes, 10);
    if rows.last().len() == 0 {
        rows.drop_last()
    } else {
        rows
    }
}

/// The lines of the file of jobs.
pub fn snapshot_lines(bytes: &[u8]) -> (r: Vec<Vec<u8>>)
    ensures
        byte_rows(r@) == snapshot_rows(bytes@),
{
    let mut rows = split_bytes(bytes, 10);
    proof {
        assert(byte_rows(rows@).last() == rows@.last()@);
    }
    if rows[rows.len() - 1].len() == 0 {
        let ghost all = rows@;
        let _ = rows.pop();
        proof {
            assert(byte_rows(rows@) =~= byte_rows(all).drop_last());
        }
    }
    rows
}

/// Whether the file of jobs, which holds `size` bytes, may be read.
pub fn check_snapshot_size(limits: SchedulerLimits, size: usize) -> (r: Result<(), DaemonError>)
    ensures
        gives(
            r,
            if size > limits.max_snapshot_bytes {
                Some(DaemonErrorView::Capacity("jobs snapshot bytes"@))
            } else {
                None
            },
        ),
{
    if size > limits.max_snapshot_bytes {
        return Err(DaemonError::Capacity("jobs snapshot bytes"));
    }
    Ok(())
}

/// A scheduler that is taking its jobs up again.
pub struct Recovery {
    scheduler: Scheduler,
    numbers: HashSet<u64>,
    path: String,
}

impl Recovery {
    /// The scheduler so far.
    pub closed spec fn state(&self) -> SchedulerView {
        self.scheduler@
    }

    /// The name of the file of jobs.
    pub closed spec fn file(&self) -> Seq<char> {
        self.path@
    }

    /// The numbers kept are those of the jobs so far.
    pub closed spec fn well_formed(&self) -> bool {
        forall|n: u64| #[trigger]
            self.numbers@.contains(n) <==> number_taken(self.scheduler@.seen, n as nat)
    }

    /// Nothing is taken up yet.
    pub fn new(limits: SchedulerLimits, job_wall_grace: TimeSpan, path: &str) -> (r: Recovery)
        ensures
            r.state() == fresh(limits, job_wall_grace),
            r.file() == path@,
            r.well_formed(),
    {
        broadcast use vstd::std_specs::hash::group_hash_axioms;

        Recovery {
            scheduler: Scheduler::new(limits, job_wall_grace),
            numbers: HashSet::new(),
            path: path.to_owned(),
        }
    }

    /// Whether a line of `length` bytes may be read.
    pub fn check_line(&self, length: usize) -> (r: Result<(), DaemonError>)
        ensures
            gives(r, line_error(self.state(), length as nat)),
    {
        proof {
            assert(self.scheduler@.seen.len() == self.scheduler.seen@.len());
        }
        if length > self.scheduler.limits.max_job_bytes {
            return Err(DaemonError::Capacity("job record bytes"));
        }
        if self.scheduler.seen.len() >= self.scheduler.limits.max_jobs {
            return Err(DaemonError::Capacity("retained jobs"));
        }
        Ok(())
    }

    /// Takes up what was read from the line `line`: a job, or the reason for which it is
    /// none; `fits` says whether the clock can reach the job's deadline.
    pub fn judge_restore(&mut self, line: usize, parsed: Result<FuzzJob, String>, fits: bool) -> (r:
        Result<(), DaemonError>)
        requires
            old(self).well_formed(),
        ensures
            final(self).well_formed(),
            final(self).file() == old(self).file(),
            match parsed {
                Err(reason) => gives(r, Some(corrupt(old(self).file(), line as nat, reason@)))
                    && final(self).state() == old(self).state(),
                Ok(job) => match (
                    r,
                    restored(old(self).state(), old(self).file(), line as nat, job@, fits),
                ) {
                    (Ok(_), Ok(next)) => final(self).state() == next,
                    (Err(e), Err(want)) => e@ == want && final(self).state() == old(self).state(),
                    _ => false,
                },
            },
    {
        broadcast use vstd::std_specs::hash::group_hash_axioms;

        let ghost s = self.scheduler@;
        let mut job = match parsed {
            Ok(job) => job,
            Err(reason) => {
                return Err(DaemonError::CorruptJobs { path: self.path.clone(), line, reason });
            },
        };
        let ghost given = job@;
        let number: u64 = match number_of_job(job.job_id.as_str()) {
            Some(number) => number,
            None => {
                return Err(
                    self.corrupt_line(
                        line,
                        cat2("invalid job ID ", debug_text(job.job_id.as_str()).as_str()),
                    ),
                );
            },
        };
        if self.numbers.contains(&number) {
            return Err(
                self.corrupt_line(
                    line,
                    cat2("duplicate numeric job ID ", debug_text(job.job_id.as_str()).as_str()),
                ),
            );
        }
        if number == u64::MAX {
            return Err(
                self.corrupt_line(
                    line,
                    cat3(
                        "job ID ",
                        debug_text(job.job_id.as_str()).as_str(),
                        " exhausts ID space",
                    ),
                ),
            );
        }
        if let Err(e) = judge_wall_budget(job.time_budget_secs, self.scheduler.job_wall_grace, fits) {
            return Err(self.corrupt_line(line, e.sentence()));
        }
        if let JobState::Running = job.state {
            job.state = JobState::Queued;
        }
        let waits = matches!(job.state, JobState::Queued);
        let reserved: usize = match reserved_job_bytes(&job) {
            Some(reserved) => reserved,
            None => {
                return Err(DaemonError::Capacity("jobs snapshot bytes"));
            },
        };
        let limits = self.scheduler.limits;
        let so_far: usize = self.scheduler.snapshot_bytes_reserved;
        if reserved > limits.max_job_bytes || so_far > limits.max_snapshot_bytes || reserved
            > limits.max_snapshot_bytes - so_far {
            return Err(DaemonError::Capacity("jobs snapshot bytes"));
        }
        proof {
            assert(s.queue.len() == self.scheduler.queue@.len());
        }
        if waits && self.scheduler.queue.len() >= limits.max_queued_jobs {
            return Err(DaemonError::Capacity("queued jobs"));
        }
        let ghost back = job@;
        if number + 1 > self.scheduler.next_id {
            self.scheduler.next_id = number + 1;
        }
        self.scheduler.snapshot_bytes_reserved = so_far + reserved;
        let copy = job.clone();
        proof {
            lemma_job_views_push(self.scheduler.seen@, copy);
            lemma_job_views_push(self.scheduler.queue@, job);
        }
        self.scheduler.seen.push(copy);
        if waits {
            self.scheduler.queue.push_back(job);
        }
        let _ = self.numbers.insert(number);
        proof {
            assert(self.scheduler@ =~= restored(s, self.path@, line as nat, given, fits)->Ok_0);
            assert forall|n: u64| #[trigger]
                self.numbers@.contains(n) <==> number_taken(self.scheduler@.seen, n as nat) by {
                lemma_number_taken_push(s.seen, back, n as nat);
            }
        }
        Ok(())
    }

    fn corrupt_line(&self, line: usize, reason: String) -> (r: DaemonError)
        ensures
            r@ == corrupt(self.file(), line as nat, reason@),
    {
        DaemonError::CorruptJobs { path: self.path.clone(), line, reason }
    }

    /// As [`Recovery::judge_restore`], with the clock asked now.
    pub fn restore(&mut self, line: usize, parsed: Result<FuzzJob, String>) -> (r: Result<
        (),
        DaemonError,
    >)
        requires
            old(self).well_formed(),
            old(self).state().grace.well_formed(),
        ensures
            final(self).well_formed(),
            final(self).file() == old(self).file(),
            match parsed {
                Err(reason) => gives(r, Some(corrupt(old(self).file(), line as nat, reason@)))
                    && final(self).state() == old(self).state(),
                Ok(job) => exists|fits: bool|
                    deadline_answer(job@.time_budget_secs, old(self).state().grace, fits) && match (
                        r,
                        #[trigger] restored(
                            old(self).state(),
                            old(self).file(),
                            line as nat,
                            job@,
                            fits,
                        ),
                    ) {
                        (Ok(_), Ok(next)) => final(self).state() == next,
                        (Err(e), Err(want)) => e@ == want && final(self).state()
                            == old(self).state(),
                        _ => false,
                    },
            },
    {
        let fits = match &parsed {
            Ok(job) => deadline_fits(job.time_budget_secs, self.scheduler.job_wall_grace),
            Err(_) => false,
        };
        self.judge_restore(line, parsed, fits)
    }

    /// The scheduler with the jobs taken up.
    pub fn finish(self) -> (r: Scheduler)
        ensures
            r@ == self.state(),
    {
        self.scheduler
    }
}

/// A line of the file of jobs: how many bytes it has, and the job that was read from it or
/// the reason for which it is none.
#[derive(Debug, PartialEq, Eq)]
pub struct SnapshotRow {
    pub length: usize,
    pub parsed: Result<FuzzJob, String>,
}

pub struct RowView {
    pub length: nat,
    pub parsed: Result<JobView, Seq<char>>,
}

impl View for SnapshotRow {
    type V = RowView;

    open spec fn view(&self) -> RowView {
        RowView {
            length: self.length as nat,
            parsed: match self.parsed {
                Ok(job) => Ok(job@),
                Err(reason) => Err(reason@),
            },
        }
    }
}

pub open spec fn row_views(rows: Seq<SnapshotRow>) -> Seq<RowView> {
    Seq::new(rows.len(), |i: int| rows[i]@)
}

/// `s` with the jobs of the lines `rows` of the file `path` taken up again, or why the
/// first line that cannot be taken up is refused; `fits` says of each whether the clock can
/// reach its job's deadline.
pub open spec fn recovered(
    s: SchedulerView,
    path: Seq<char>,
    rows: Seq<RowView>,
    fits: Seq<bool>,
) -> Result<SchedulerView, DaemonErrorView>
    decreases rows.len(),
{
    if rows.len() == 0 {
        Ok(s)
    } else {
        match recovered(s, path, rows.drop_last(), fits) {
            Err(e) => Err(e),
            Ok(t) => match line_error(t, rows.last().length) {
                Some(e) => Err(e),
                None => match rows.last().parsed {
                    Err(reason) => Err(corrupt(path, rows.len(), reason)),
                    Ok(job) => restored(t, path, rows.len(), job, fits[rows.len() - 1]),
                },
            },
        }
    }
}

proof fn lemma_recovery_stays_failed(
    s: SchedulerView,
    path: Seq<char>,
    rows: Seq<RowView>,
    fits: Seq<bool>,
    n: int,
)
    requires
        0 <= n <= rows.len(),
        recovered(s, path, rows.take(n), fits) is Err,
    ensures
        recovered(s, path, rows, fits) == recovered(s, path, rows.take(n), fits),
    decreases rows.len(),
{
    if n < rows.len() {
        assert(rows.drop_last().take(n) =~= rows.take(n));
        lemma_recovery_stays_failed(s, path, rows.drop_last(), fits, n);
    } else {
        assert(rows.take(n) =~= rows);
    }
}

/// Whether a recovery gave a scheduler in this state, or this error.
pub open spec fn recovers(
    r: Result<Scheduler, DaemonError>,
    want: Result<SchedulerView, DaemonErrorView>,
) -> bool {
    match (r, want) {
        (Ok(scheduler), Ok(state)) => scheduler@ == state,
        (Err(e), Err(error)) => e@ == error,
        _ => false,
    }
}

/// A scheduler with the jobs of a file taken up again; `fits` says of each line whether the
/// clock can reach its job's deadline.
pub fn judge_recovery(
    limits: SchedulerLimits,
    job_wall_grace: TimeSpan,
    path: &str,
    rows: Vec<SnapshotRow>,
    fits: &[bool],
) -> (r: Result<Scheduler, DaemonError>)
    requires
        fits@.len() == rows@.len(),
    ensures
        recovers(r, recovered(fresh(limits, job_wall_grace), path@, row_views(rows@), fits@)),
{
    let ghost all = row_views(rows@);
    let ghost start = fresh(limits, job_wall_grace);
    let mut recovery = Recovery::new(limits, job_wall_grace, path);
    let mut line: usize = 0;
    proof {
        assert(all.take(0) =~= Seq::empty());
    }
    for row in it: rows.into_iter()
        invariant
            it.seq() == rows@,
            all == row_views(rows@),
            start == fresh(limits, job_wall_grace),
            fits@.len() == rows@.len(),
            line == it.index(),
            recovery.well_formed(),
            recovery.file() == path@,
            recovered(start, path@, all.take(it.index()), fits@) == Ok::<
                SchedulerView,
                DaemonErrorView,
            >(recovery.state()),
    {
        let ghost i = it.index();
        proof {
            assert(row == rows@[i]);
            assert(all.take(i + 1).drop_last() =~= all.take(i));
            assert(all.take(i + 1).last() == row@);
        }
        if let Err(e) = recovery.check_line(row.length) {
            proof {
                lemma_recovery_stays_failed(start, path@, all, fits@, i + 1);
            }
            return Err(e);
        }
        let fit = fits[line];
        line = line + 1;
        if let Err(e) = recovery.judge_restore(line, row.parsed, fit) {
            proof {
                lemma_recovery_stays_failed(start, path@, all, fits@, i + 1);
            }
            return Err(e);
        }
    }
    proof {
        assert(all.take(all.len() as int) =~= all);
    }
    Ok(recovery.finish())
}

/// Whether `fits` is, line by line, what the clock said of the job's deadline. It is not
/// asked of a line that is no job.
pub open spec fn deadline_answers(rows: Seq<RowView>, grace: TimeSpan, fits: Seq<bool>) -> bool {
    &&& fits.len() == rows.len()
    &&& forall|i: int|
        0 <= i < rows.len() ==> (#[trigger] rows[i].parsed matches Ok(job) ==> deadline_answer(
            job.time_budget_secs,
            grace,
            fits[i],
        ))
}

/// As [`judge_recovery`], with the clock asked now.
pub fn recover(
    limits: SchedulerLimits,
    job_wall_grace: TimeSpan,
    path: &str,
    rows: Vec<SnapshotRow>,
) -> (r: Result<Scheduler, DaemonError>)
    requires
        job_wall_grace.well_formed(),
    ensures
        exists|fits: Seq<bool>|
            deadline_answers(row_views(rows@), job_wall_grace, fits) && recovers(
                r,
                #[trigger] recovered(
                    fresh(limits, job_wall_grace),
                    path@,
                    row_views(rows@),
                    fits,
                ),
            ),
{
    let mut fits: Vec<bool> = Vec::new();
    let mut i: usize = 0;
    while i < rows.len()
        invariant
            i <= rows@.len(),
            fits@.len() == i,
            job_wall_grace.well_formed(),
            forall|k: int|
                0 <= k < i ==> (#[trigger] row_views(rows@)[k].parsed matches Ok(job)
                    ==> deadline_answer(job.time_budget_secs, job_wall_grace, fits@[k])),
        decreases rows@.len() - i,
    {
        let fit = match &rows[i].parsed {
            Ok(job) => deadline_fits(job.time_budget_secs, job_wall_grace),
            Err(_) => false,
        };
        fits.push(fit);
        i = i + 1;
    }
    judge_recovery(limits, job_wall_grace, path, rows, fits.as_slice())
}

proof fn lemma_number_taken_push(jobs: Seq<JobView>, job: JobView, n: nat)
    ensures
        number_taken(jobs.push(job), n) <==> (number_taken(jobs, n) || job_number(job.job_id)
            == Some(n)),
{
    let all = jobs.push(job);
    if number_taken(jobs, n) {
        let i = choose|i: int| 0 <= i < jobs.len() && job_number(#[trigger] jobs[i].job_id) == Some(n);
        assert(all[i] == jobs[i]);
    }
    if job_number(job.job_id) == Some(n) {
        assert(all[jobs.len() as int] == job);
    }
    if number_taken(all, n) {
        let i = choose|i: int| 0 <= i < all.len() && job_number(#[trigger] all[i].job_id) == Some(n);
        if i < jobs.len() {
            assert(all[i] == jobs[i]);
        }
    }
}

/// What the clock is asked of is the deadline, at a moment of the clock: the budget and the
/// allowance after it, both to the last second and with the allowance's part of one.
proof fn the_clock_is_asked_of_the_deadline(
    budget: TimeSpan,
    budget_secs: u64,
    grace: TimeSpan,
    fits: bool,
)
    requires
        budget.nanos < 1_000_000_000,
    ensures
        deadline_answer(budget_secs, grace, fits) && budget_secs + grace.secs <= u64::MAX ==> exists|
            start: std::time::Instant,
            wall: TimeSpan,
        |
            #[trigger] call_ensures(clock_reaches, (start, wall), fits) && call_ensures(
                clock_now,
                (),
                start,
            ) && wall.secs == budget_secs + grace.secs && wall.nanos == grace.nanos,
        deadline_answer(budget_secs, grace, fits) && budget_secs + grace.secs > u64::MAX ==> !fits,
        budget_answer(budget, grace, fits) && (budget_secs - 1) * 1_000_000_000 < budget.secs
            * 1_000_000_000 + budget.nanos <= budget_secs * 1_000_000_000 ==> deadline_answer(
            budget_secs,
            grace,
            fits,
        ),
{
    if deadline_answer(budget_secs, grace, fits) && budget_secs + grace.secs <= u64::MAX {
        let wall = wall_sum(budget_secs, grace)->0;
        let start = choose|start: std::time::Instant|
            call_ensures(clock_now, (), start) && #[trigger] call_ensures(
                clock_reaches,
                (start, wall),
                fits,
            );
        assert(call_ensures(clock_reaches, (start, wall), fits));
    }
}

/// A scheduler without jobs is well formed.
pub proof fn a_fresh_scheduler_is_well_formed(limits: SchedulerLimits, grace: TimeSpan)
    requires
        limits.usable(),
        grace.well_formed(),
    ensures
        fresh(limits, grace).well_formed(),
{
}

/// A job that is taken in gets an identifier that no job had.
pub proof fn new_jobs_get_new_ids(
    s: SchedulerView,
    project_dir: Seq<char>,
    harness_id: Seq<char>,
    budget: TimeSpan,
    fits: bool,
)
    requires
        s.well_formed(),
    ensures
        admission(s, project_dir, harness_id, budget, fits) matches Ok(job) ==> {
            &&& job.job_id == job_id_of(s.next_id)
            &&& job_number(job.job_id) == Some(s.next_id)
            &&& forall|i: int|
                0 <= i < s.seen.len() ==> (#[trigger] s.seen[i]).job_id != job.job_id
            &&& !number_taken(s.seen, s.next_id)
        },
{
    if let Ok(job) = admission(s, project_dir, harness_id, budget, fits) {
        job_ids_name_their_number(s.next_id);
        assert forall|i: int| 0 <= i < s.seen.len() implies (#[trigger] s.seen[i]).job_id
            != job.job_id by {
            assert(job_number(s.seen[i].job_id) is Some);
        }
    }
}

proof fn lemma_push_keeps_well_formed(s: SchedulerView, t: SchedulerView, job: JobView, waits: bool)
    requires
        s.well_formed(),
        job_number(job.job_id) is Some,
        !number_taken(s.seen, job_number(job.job_id)->0),
        reserve(job) <= s.limits.max_job_bytes,
        s.reserved + reserve(job) <= s.limits.max_snapshot_bytes,
        wall_error(job.time_budget_secs, s.grace, true) is None,
        s.seen.len() < s.limits.max_jobs,
        waits ==> job.state == JobState::Queued && s.queue.len() < s.limits.max_queued_jobs,
        t.seen == s.seen.push(job),
        t.queue == if waits {
            s.queue.push(job)
        } else {
            s.queue
        },
        t.next_id <= u64::MAX,
        t.next_id >= s.next_id,
        t.next_id > job_number(job.job_id)->0,
        t.reserved == s.reserved + reserve(job),
        t.limits == s.limits,
        t.grace == s.grace,
        t.fault is Some ==> t.shutdown,
    ensures
        t.well_formed(),
{
    assert(t.seen.drop_last() =~= s.seen);
    assert forall|i: int| 0 <= i < t.seen.len() implies (reserve(#[trigger] t.seen[i])
        <= t.limits.max_job_bytes && wall_error(t.seen[i].time_budget_secs, t.grace, true) is None
        && (job_number(t.seen[i].job_id) matches Some(n) && n < t.next_id)) by {
        if i < s.seen.len() {
            assert(t.seen[i] == s.seen[i]);
            assert(job_number(s.seen[i].job_id) is Some);
        }
    }
    assert forall|i: int, j: int| 0 <= i < j < t.seen.len() implies job_number(
        #[trigger] t.seen[i].job_id,
    ) != job_number(#[trigger] t.seen[j].job_id) by {
        assert(t.seen[i] == s.seen[i]);
        assert(job_number(s.seen[i].job_id) is Some);
        if j < s.seen.len() {
            assert(t.seen[j] == s.seen[j]);
        }
    }
    assert forall|k: int| 0 <= k < t.queue.len() implies t.remembers(#[trigger] t.queue[k]) by {
        if k < s.queue.len() {
            assert(t.queue[k] == s.queue[k]);
            assert(s.remembers(s.queue[k]));
            let i = choose|i: int|
                0 <= i < s.seen.len() && #[trigger] in_state(s.seen[i], JobState::Queued)
                    == s.queue[k];
            assert(in_state(t.seen[i], JobState::Queued) == t.queue[k]);
        } else {
            assert(in_state(t.seen[s.seen.len() as int], JobState::Queued) == t.queue[k]);
        }
    }
    assert forall|k: int, l: int| 0 <= k < l < t.queue.len() implies #[trigger] t.queue[k].job_id
        != #[trigger] t.queue[l].job_id by {
        assert(t.queue[k] == s.queue[k]);
        if l == s.queue.len() {
            assert(s.remembers(s.queue[k]));
            let i = choose|i: int|
                0 <= i < s.seen.len() && #[trigger] in_state(s.seen[i], JobState::Queued)
                    == s.queue[k];
            assert(job_number(s.seen[i].job_id) is Some);
        } else {
            assert(t.queue[l] == s.queue[l]);
        }
    }
}

/// Taking a job in keeps the scheduler well formed, whatever came of writing it down.
pub proof fn submitting_keeps_well_formed(
    s: SchedulerView,
    project_dir: Seq<char>,
    harness_id: Seq<char>,
    budget: TimeSpan,
    fits: bool,
    outcome: Result<(), PersistFailure>,
)
    requires
        s.well_formed(),
        admission(s, project_dir, harness_id, budget, fits) is Ok,
    ensures
        submitted(s, admission(s, project_dir, harness_id, budget, fits)->Ok_0, outcome).well_formed(),
{
    let job = admission(s, project_dir, harness_id, budget, fits)->Ok_0;
    let t = submitted(s, job, outcome);
    new_jobs_get_new_ids(s, project_dir, harness_id, budget, fits);
    match outcome {
        Ok(_) => {
            lemma_push_keeps_well_formed(s, t, job, true);
        },
        Err(failure) => {
            let stopped = latched(
                s,
                PersistencePhase::Admission,
                job.job_id,
                failure.installed,
                failure.error@,
            );
            lemma_same_jobs(s, stopped);
            if failure.installed {
                lemma_push_keeps_well_formed(stopped, t, job, false);
            }
        },
    }
}

/// A scheduler that differs from a well-formed one in its stop and its fault alone.
proof fn lemma_same_jobs(s: SchedulerView, t: SchedulerView)
    requires
        s.well_formed(),
        t.seen == s.seen,
        t.queue == s.queue,
        t.next_id == s.next_id,
        t.reserved == s.reserved,
        t.limits == s.limits,
        t.grace == s.grace,
        t.fault is Some ==> t.shutdown,
    ensures
        t.well_formed(),
{
    assert forall|k: int| 0 <= k < t.queue.len() implies t.remembers(#[trigger] t.queue[k]) by {
        assert(s.remembers(s.queue[k]));
    }
}

/// Stopping admission keeps the scheduler well formed.
pub proof fn stopping_keeps_well_formed(s: SchedulerView)
    requires
        s.well_formed(),
    ensures
        (SchedulerView { shutdown: true, ..s }).well_formed(),
{
    lemma_same_jobs(s, SchedulerView { shutdown: true, ..s });
}

proof fn lemma_total_reserve_ignores_states(jobs: Seq<JobView>, i: int, state: JobState)
    requires
        0 <= i < jobs.len(),
    ensures
        total_reserve(with_state(jobs, i, state)) == total_reserve(jobs),
    decreases jobs.len(),
{
    let t = with_state(jobs, i, state);
    assert(in_state(in_state(jobs[i], state), JobState::Complete) == in_state(
        jobs[i],
        JobState::Complete,
    ));
    if i == jobs.len() - 1 {
        assert(t.drop_last() =~= jobs.drop_last());
    } else {
        assert(t.drop_last() =~= with_state(jobs.drop_last(), i, state));
        lemma_total_reserve_ignores_states(jobs.drop_last(), i, state);
        assert(t.last() == jobs.last());
    }
}

/// A scheduler in which one job has another state, and whose queue is a tail of what it
/// was.
proof fn lemma_state_change(s: SchedulerView, t: SchedulerView, i: int, state: JobState, dropped: int)
    requires
        s.well_formed(),
        0 <= i < s.seen.len(),
        0 <= dropped <= s.queue.len(),
        t.seen == with_state(s.seen, i, state),
        t.queue == s.queue.skip(dropped),
        t.next_id == s.next_id,
        t.reserved == s.reserved,
        t.limits == s.limits,
        t.grace == s.grace,
        t.fault is Some ==> t.shutdown,
    ensures
        t.well_formed(),
{
    lemma_total_reserve_ignores_states(s.seen, i, state);
    assert forall|j: int| 0 <= j < t.seen.len() implies (#[trigger] t.seen[j]).job_id
        == s.seen[j].job_id && reserve(t.seen[j]) == reserve(s.seen[j])
        && t.seen[j].time_budget_secs == s.seen[j].time_budget_secs && in_state(
        t.seen[j],
        JobState::Queued,
    ) == in_state(s.seen[j], JobState::Queued) by {
        assert(in_state(t.seen[j], JobState::Complete) == in_state(s.seen[j], JobState::Complete));
    }
    assert forall|j: int| 0 <= j < t.seen.len() implies (job_number(
        #[trigger] t.seen[j].job_id,
    ) matches Some(n) && n < t.next_id) by {
        assert(job_number(s.seen[j].job_id) is Some);
    }
    assert forall|j: int, k: int| 0 <= j < k < t.seen.len() implies job_number(
        #[trigger] t.seen[j].job_id,
    ) != job_number(#[trigger] t.seen[k].job_id) by {
        assert(t.seen[j].job_id == s.seen[j].job_id);
        assert(t.seen[k].job_id == s.seen[k].job_id);
    }
    assert forall|k: int| 0 <= k < t.queue.len() implies t.remembers(#[trigger] t.queue[k]) by {
        assert(t.queue[k] == s.queue[k + dropped]);
        assert(s.remembers(s.queue[k + dropped]));
        let j = choose|j: int|
            0 <= j < s.seen.len() && #[trigger] in_state(s.seen[j], JobState::Queued)
                == s.queue[k + dropped];
        assert(in_state(t.seen[j], JobState::Queued) == t.queue[k]);
    }
    assert forall|k: int, l: int| 0 <= k < l < t.queue.len() implies #[trigger] t.queue[k].job_id
        != #[trigger] t.queue[l].job_id by {
        assert(t.queue[k] == s.queue[k + dropped]);
        assert(t.queue[l] == s.queue[l + dropped]);
    }
}

/// While admission goes on, a job that waits can be taken: it is never missing from the
/// history.
pub proof fn waiting_jobs_can_be_claimed(s: SchedulerView)
    requires
        s.well_formed(),
        !s.shutdown,
        s.queue.len() > 0,
    ensures
        claimable(s) matches Some(i) && 0 <= i < s.seen.len() && in_state(
            s.seen[i],
            JobState::Queued,
        ) == s.queue[0],
{
    assert(s.remembers(s.queue[0]));
    lemma_first_named(s.seen, s.queue[0].job_id);
    let j = choose|j: int|
        0 <= j < s.seen.len() && #[trigger] in_state(s.seen[j], JobState::Queued) == s.queue[0];
    assert(s.seen[j].job_id == s.queue[0].job_id);
    let i = claimable(s)->0;
    assert(job_number(s.seen[i].job_id) == job_number(s.seen[j].job_id));
}

/// Taking a waiting job keeps the scheduler well formed, whatever came of writing it down.
pub proof fn claiming_keeps_well_formed(s: SchedulerView, outcome: Result<(), PersistFailure>)
    requires
        s.well_formed(),
        claimable(s) is Some,
    ensures
        claimed(s, claimable(s)->0, outcome).well_formed(),
{
    let i = claimable(s)->0;
    lemma_first_named(s.seen, s.queue[0].job_id);
    let t = claimed(s, i, outcome);
    match outcome {
        Ok(_) => {
            assert(s.queue.drop_first() =~= s.queue.skip(1));
            lemma_state_change(s, t, i, JobState::Running, 1);
        },
        Err(_) => {
            assert(s.queue.skip(0) =~= s.queue);
            lemma_state_change(s, t, i, JobState::Queued, 0);
        },
    }
}

/// The end of a job keeps the scheduler well formed, whatever came of writing it down.
pub proof fn finishing_keeps_well_formed(
    s: SchedulerView,
    id: Seq<char>,
    state: JobState,
    outcome: Result<(), PersistFailure>,
)
    requires
        s.well_formed(),
    ensures
        observed(s, id, state).well_formed(),
        finished(observed(s, id, state), id, outcome).well_formed(),
{
    lemma_first_named(s.seen, id);
    let t = observed(s, id, state);
    if let Some(i) = first_named(s.seen, id) {
        assert(s.queue.skip(0) =~= s.queue);
        lemma_state_change(s, t, i, state, 0);
    }
    lemma_same_jobs(t, finished(t, id, outcome));
}

/// Taking a job up again keeps the scheduler well formed.
pub proof fn restoring_keeps_well_formed(
    s: SchedulerView,
    path: Seq<char>,
    line: nat,
    job: JobView,
    fits: bool,
)
    requires
        s.well_formed(),
        s.seen.len() < s.limits.max_jobs,
    ensures
        restored(s, path, line, job, fits) matches Ok(t) ==> t.well_formed(),
{
    if let Ok(t) = restored(s, path, line, job, fits) {
        let back = requeued(job);
        lemma_push_keeps_well_formed(s, t, back, back.state == JobState::Queued);
    }
}

/// The file of jobs of a well-formed scheduler never outgrows its bound.
pub proof fn the_file_of_jobs_keeps_to_its_bound(s: SchedulerView)
    requires
        s.well_formed(),
    ensures
        encode_utf8(snapshot(s.seen)).len() <= s.limits.max_snapshot_bytes,
{
    snapshots_fit_the_reserve(s.seen);
}

/// Nor does the file that is written before a worker takes a job.
pub proof fn the_file_written_for_a_claim_keeps_to_its_bound(s: SchedulerView, i: int)
    requires
        s.well_formed(),
        claimable(s) == Some(i),
    ensures
        encode_utf8(snapshot(with_state(s.seen, i, JobState::Running))).len()
            <= s.limits.max_snapshot_bytes,
{
    lemma_first_named(s.seen, s.queue[0].job_id);
    lemma_total_reserve_ignores_states(s.seen, i, JobState::Running);
    snapshots_fit_the_reserve(with_state(s.seen, i, JobState::Running));
}

/// Nor does the file that is written before a job is taken in.
pub proof fn the_file_written_for_a_submission_keeps_to_its_bound(s: SchedulerView, job: JobView)
    requires
        s.well_formed(),
        admissible(s, job),
    ensures
        encode_utf8(snapshot(s.seen.push(job))).len() <= s.limits.max_snapshot_bytes,
{
    assert(s.seen.push(job).drop_last() =~= s.seen);
    snapshots_fit_the_reserve(s.seen.push(job));
}

/// The first storage fault is never replaced, and it stops admission and dispatch for
/// good.
pub proof fn the_first_fault_is_final(
    s: SchedulerView,
    phase: PersistencePhase,
    job_id: Seq<char>,
    installed: bool,
    error: IoErrorView,
    project_dir: Seq<char>,
    harness_id: Seq<char>,
    budget: TimeSpan,
    fits: bool,
)
    ensures
        ({
            let t = latched(s, phase, job_id, installed, error);
            &&& t.shutdown && t.fault is Some
            &&& s.fault is Some ==> t.fault == s.fault
            &&& admission(t, project_dir, harness_id, budget, fits) == Err::<
                JobView,
                DaemonErrorView,
            >(DaemonErrorView::Shutdown)
            &&& claimable(t) is None && unclaimed(t) == t
        }),
{
}

/// A refused submission leaves everything as it was but for the stop, and one whose file
/// was not replaced takes no number and no bytes.
pub proof fn a_failed_submission_leaves_no_job(s: SchedulerView, job: JobView, failure: PersistFailure)
    requires
        !failure.installed,
    ensures
        ({
            let t = submitted(s, job, Err(failure));
            &&& t.seen == s.seen && t.queue == s.queue && t.next_id == s.next_id && t.reserved
                == s.reserved
            &&& t.shutdown
            &&& submit_reply(job.job_id, Err(failure)) == Err::<Seq<char>, DaemonErrorView>(
                DaemonErrorView::Io(failure.error@),
            )
        }),
{
}

/// A job is handed to a worker only once it was written down that it runs; otherwise it
/// still waits, in its place.
pub proof fn no_job_runs_unrecorded(s: SchedulerView, i: int, outcome: Result<(), PersistFailure>)
    requires
        claimable(s) == Some(i),
    ensures
        outcome is Err ==> claimed(s, i, outcome).queue == s.queue,
        outcome is Ok ==> claimed(s, i, outcome).queue == s.queue.drop_first(),
        outcome is Ok ==> claimed(s, i, outcome).seen[i].state == JobState::Running,
{
    lemma_first_named(s.seen, s.queue[0].job_id);
}

/// Pages one after another make up the list: two that follow each other are one of their
/// joint size, one that is large enough is the whole list, and one behind the end is empty.
pub proof fn pages_make_up_the_list(jobs: Seq<JobView>, offset: nat, size: nat, more: nat)
    ensures
        page(jobs, offset, size).len() <= size,
        page(jobs, offset, size) + page(jobs, offset + size, more) == page(
            jobs,
            offset,
            size + more,
        ),
        size >= jobs.len() ==> page(jobs, 0, size) == jobs,
        offset >= jobs.len() ==> page(jobs, offset, size).len() == 0,
{
}

/// Every job is in one of the four states.
pub proof fn the_counts_add_up(jobs: Seq<JobView>)
    ensures
        count(jobs, JobState::Queued) + count(jobs, JobState::Running) + count(
            jobs,
            JobState::Complete,
        ) + count(jobs, JobState::Failed) == jobs.len(),
    decreases jobs.len(),
{
    if jobs.len() > 0 {
        the_counts_add_up(jobs.drop_last());
    }
}

/// The lines of the file that holds `jobs`, read back.
pub open spec fn written_rows(jobs: Seq<JobView>) -> Seq<RowView> {
    Seq::new(
        jobs.len(),
        |i: int| RowView { length: encode_utf8(job_line(jobs[i])).len(), parsed: Ok(jobs[i]) },
    )
}

proof fn lemma_recovered_is_restored(
    s: SchedulerView,
    path: Seq<char>,
    jobs: Seq<JobView>,
    fits: Seq<bool>,
    n: nat,
)
    requires
        n <= jobs.len(),
        fits.len() == jobs.len(),
        forall|i: int|
            0 <= i < fits.len() ==> #[trigger] fits[i] || jobs[i].time_budget_secs == 0,
    ensures
        recovered(s, path, written_rows(jobs).take(n as int), fits) == restored_all(
            s,
            path,
            jobs,
            n,
        ),
    decreases n,
{
    let rows = written_rows(jobs);
    if n > 0 {
        lemma_recovered_is_restored(s, path, jobs, fits, (n - 1) as nat);
        assert(rows.take(n as int).drop_last() =~= rows.take(n - 1));
        assert(rows.take(n as int).last() == rows[n - 1]);
        assert(fits[n - 1] || jobs[n - 1].time_budget_secs == 0);
    }
}

/// `s` after the first `n` of `jobs` were taken up again from the lines of a file.
spec fn restored_all(
    s: SchedulerView,
    path: Seq<char>,
    jobs: Seq<JobView>,
    n: nat,
) -> Result<SchedulerView, DaemonErrorView>
    decreases n,
{
    if n == 0 {
        Ok(s)
    } else {
        match restored_all(s, path, jobs, (n - 1) as nat) {
            Err(e) => Err(e),
            Ok(t) => match line_error(t, encode_utf8(job_line(jobs[n - 1])).len()) {
                Some(e) => Err(e),
                None => restored(t, path, n, jobs[n - 1], true),
            },
        }
    }
}

/// `jobs` as they are taken up again.
pub open spec fn requeued_all(jobs: Seq<JobView>) -> Seq<JobView> {
    Seq::new(jobs.len(), |i: int| requeued(jobs[i]))
}

/// The jobs of `jobs` that wait, in order.
pub open spec fn waiting(jobs: Seq<JobView>) -> Seq<JobView> {
    jobs.filter(|job: JobView| job.state == JobState::Queued)
}

proof fn lemma_restored_prefix(s: SchedulerView, path: Seq<char>, n: nat)
    requires
        s.well_formed(),
        n <= s.seen.len(),
        count(s.seen, JobState::Queued) + count(s.seen, JobState::Running)
            <= s.limits.max_queued_jobs,
    ensures
        restored_all(fresh(s.limits, s.grace), path, s.seen, n) matches Ok(t) && {
            &&& t.seen == requeued_all(s.seen.take(n as int))
            &&& t.queue == waiting(t.seen)
            &&& t.queue.len() == count(s.seen.take(n as int), JobState::Queued) + count(
                s.seen.take(n as int),
                JobState::Running,
            )
            &&& t.reserved == total_reserve(s.seen.take(n as int))
            &&& t.next_id <= s.next_id
            &&& t.limits == s.limits && t.grace == s.grace
            &&& !t.shutdown && t.fault is None
        },
    decreases n,
{
    reveal(Seq::filter);
    let start = fresh(s.limits, s.grace);
    if n == 0 {
        assert(s.seen.take(0) =~= Seq::empty());
        assert(requeued_all(s.seen.take(0)) =~= Seq::empty());
        assert(waiting(start.seen) =~= Seq::empty());
    } else {
        let m = (n - 1) as nat;
        lemma_restored_prefix(s, path, m);
        let t = restored_all(start, path, s.seen, m)->Ok_0;
        let job = s.seen[m as int];
        let before = s.seen.take(m as int);
        let now = s.seen.take(n as int);
        assert(now.drop_last() =~= before);
        assert(now.last() == job);
        assert(t.seen.len() == m);
        every_state_fits_the_reserve(job, job.state);
        assert(in_state(job, job.state) == job);
        assert(reserve(requeued(job)) == reserve(job)) by {
            assert(in_state(requeued(job), JobState::Complete) == in_state(job, JobState::Complete));
        }
        assert(job_number(s.seen[m as int].job_id) is Some);
        assert(!number_taken(t.seen, job_number(job.job_id)->0)) by {
            if number_taken(t.seen, job_number(job.job_id)->0) {
                let i = choose|i: int|
                    0 <= i < t.seen.len() && job_number(#[trigger] t.seen[i].job_id) == Some(
                        job_number(job.job_id)->0,
                    );
                assert(t.seen[i].job_id == s.seen[i].job_id);
                assert(job_number(s.seen[i].job_id) != job_number(s.seen[m as int].job_id));
            }
        }
        lemma_total_reserve_grows(s.seen, n as int);
        lemma_count_grows(s.seen, n as int, JobState::Queued);
        lemma_count_grows(s.seen, n as int, JobState::Running);
        let u = restored_all(start, path, s.seen, n);
        assert(u is Ok);
        assert(u->Ok_0.seen =~= requeued_all(now));
        assert(u->Ok_0.seen.drop_last() =~= t.seen);
    }
}

proof fn lemma_total_reserve_grows(jobs: Seq<JobView>, n: int)
    requires
        0 <= n <= jobs.len(),
    ensures
        total_reserve(jobs.take(n)) <= total_reserve(jobs),
    decreases jobs.len(),
{
    if n < jobs.len() {
        assert(jobs.drop_last().take(n) =~= jobs.take(n));
        lemma_total_reserve_grows(jobs.drop_last(), n);
    } else {
        assert(jobs.take(n) =~= jobs);
    }
}

proof fn lemma_count_grows(jobs: Seq<JobView>, n: int, state: JobState)
    requires
        0 <= n <= jobs.len(),
    ensures
        count(jobs.take(n), state) <= count(jobs, state),
    decreases jobs.len(),
{
    if n < jobs.len() {
        assert(jobs.drop_last().take(n) =~= jobs.take(n));
        lemma_count_grows(jobs.drop_last(), n, state);
    } else {
        assert(jobs.take(n) =~= jobs);
    }
}

/// The jobs that the lines hold, where each of them holds one.
pub open spec fn row_jobs(rows: Seq<RowView>) -> Seq<JobView> {
    Seq::new(rows.len(), |i: int| rows[i].parsed->Ok_0)
}

/// Whether `jobs` have numbers, no two the same, and `next` is the one behind the largest,
/// or zero where there are no jobs.
pub open spec fn numbered_below(jobs: Seq<JobView>, next: nat) -> bool {
    &&& jobs.len() == 0 ==> next == 0
    &&& jobs.len() > 0 ==> next > 0 && number_taken(jobs, (next - 1) as nat)
    &&& forall|i: int|
        0 <= i < jobs.len() ==> (job_number(#[trigger] jobs[i].job_id) matches Some(n) && n < next)
    &&& forall|i: int, j: int|
        0 <= i < j < jobs.len() ==> job_number(#[trigger] jobs[i].job_id) != job_number(
            #[trigger] jobs[j].job_id,
        )
}

/// Whatever lines a recovery accepts: each holds a job, and there are no more of them than
/// may be kept. The list is these jobs in their order, those that ran waiting again; those
/// that wait are queued in that order. No two have the same number, and the next job gets
/// the number behind the largest, or zero where there are none.
pub proof fn a_recovery_takes_up_the_lines_it_accepts(
    limits: SchedulerLimits,
    grace: TimeSpan,
    path: Seq<char>,
    rows: Seq<RowView>,
    fits: Seq<bool>,
)
    ensures
        recovered(fresh(limits, grace), path, rows, fits) matches Ok(s) ==> {
            &&& forall|i: int|
                0 <= i < rows.len() ==> (#[trigger] rows[i]).parsed is Ok && rows[i].length
                    <= limits.max_job_bytes
            &&& rows.len() <= limits.max_jobs
            &&& s.seen == requeued_all(row_jobs(rows))
            &&& s.queue == waiting(s.seen)
            &&& s.queue.len() <= limits.max_queued_jobs
            &&& numbered_below(row_jobs(rows), s.next_id)
            &&& s.reserved == total_reserve(s.seen)
            &&& !s.shutdown && s.fault is None
            &&& s.limits == limits && s.grace == grace
            &&& limits.usable() && grace.well_formed() ==> s.well_formed()
        },
    decreases rows.len(),
{
    let start = fresh(limits, grace);
    if rows.len() == 0 {
        assert(requeued_all(row_jobs(rows)) =~= Seq::empty());
        assert(waiting(Seq::<JobView>::empty()) =~= Seq::empty());
    } else if let Ok(s) = recovered(start, path, rows, fits) {
        let front = rows.drop_last();
        let t = recovered(start, path, front, fits)->Ok_0;
        let job = rows.last().parsed->Ok_0;
        let back = requeued(job);
        a_recovery_takes_up_the_lines_it_accepts(limits, grace, path, front, fits);
        assert forall|i: int| 0 <= i < rows.len() implies (#[trigger] rows[i]).parsed is Ok
            && rows[i].length <= limits.max_job_bytes by {
            if i < front.len() {
                assert(rows[i] == front[i]);
            } else {
                assert(rows[i] == rows.last());
            }
        }
        assert(row_jobs(rows) =~= row_jobs(front).push(job));
        assert(requeued_all(row_jobs(rows)) =~= requeued_all(row_jobs(front)).push(back));
        lemma_waiting_push(t.seen, back);
        assert(s.seen.drop_last() =~= t.seen);
        lemma_numbered_push(row_jobs(front), job, t.next_id, t.seen);
        if limits.usable() && grace.well_formed() {
            restoring_keeps_well_formed(t, path, rows.len(), job, fits[rows.len() - 1]);
        }
    }
}

proof fn lemma_waiting_push(jobs: Seq<JobView>, job: JobView)
    ensures
        waiting(jobs.push(job)) == if job.state == JobState::Queued {
            waiting(jobs).push(job)
        } else {
            waiting(jobs)
        },
{
    reveal(Seq::filter);
    assert(jobs.push(job).drop_last() =~= jobs);
}

proof fn lemma_numbered_push(jobs: Seq<JobView>, job: JobView, next: nat, seen: Seq<JobView>)
    requires
        numbered_below(jobs, next),
        seen == requeued_all(jobs),
        job_number(job.job_id) is Some,
        !number_taken(seen, job_number(job.job_id)->0),
    ensures
        numbered_below(
            jobs.push(job),
            if job_number(job.job_id)->0 + 1 > next {
                job_number(job.job_id)->0 + 1
            } else {
                next
            },
        ),
{
    let all = jobs.push(job);
    let number = job_number(job.job_id)->0;
    let after: nat = if number + 1 > next {
        number + 1
    } else {
        next
    };
    lemma_number_taken_push(jobs, job, (after - 1) as nat);
    assert forall|i: int| 0 <= i < all.len() implies (job_number(#[trigger] all[i].job_id) matches Some(
        n,
    ) && n < after) by {
        if i < jobs.len() {
            assert(all[i] == jobs[i]);
            assert(job_number(jobs[i].job_id) is Some);
        }
    }
    assert forall|i: int, j: int| 0 <= i < j < all.len() implies job_number(#[trigger] all[i].job_id)
        != job_number(#[trigger] all[j].job_id) by {
        assert(all[i] == jobs[i]);
        if j < jobs.len() {
            assert(all[j] == jobs[j]);
        } else {
            assert(job_number(jobs[i].job_id) is Some);
            assert(seen[i].job_id == jobs[i].job_id);
        }
    }
}

/// A restart under the same limits takes up every job that the file of a well-formed
/// scheduler holds, where the clock can reach the deadlines there are: none is refused, a
/// job that ran waits again, the jobs that wait do so in the order of submission, and the
/// next number is no larger than it was. It supposes that the jobs that waited or ran are
/// no more than may wait.
pub proof fn a_restart_takes_up_every_job(s: SchedulerView, path: Seq<char>, fits: Seq<bool>)
    requires
        s.well_formed(),
        count(s.seen, JobState::Queued) + count(s.seen, JobState::Running)
            <= s.limits.max_queued_jobs,
        fits.len() == s.seen.len(),
        forall|i: int|
            0 <= i < fits.len() ==> #[trigger] fits[i] || s.seen[i].time_budget_secs == 0,
    ensures
        recovered(fresh(s.limits, s.grace), path, written_rows(s.seen), fits) matches Ok(t) && {
            &&& t.seen == requeued_all(s.seen)
            &&& t.queue == waiting(t.seen)
            &&& t.next_id <= s.next_id
            &&& t.reserved == s.reserved
            &&& !t.shutdown && t.fault is None
            &&& t.well_formed()
        },
{
    lemma_restored_prefix(s, path, s.seen.len());
    assert(s.seen.take(s.seen.len() as int) =~= s.seen);
    lemma_restored_all_well_formed(s, path, s.seen.len());
    lemma_recovered_is_restored(fresh(s.limits, s.grace), path, s.seen, fits, s.seen.len());
    assert(written_rows(s.seen).take(s.seen.len() as int) =~= written_rows(s.seen));
}

proof fn lemma_restored_all_well_formed(s: SchedulerView, path: Seq<char>, n: nat)
    requires
        s.well_formed(),
        n <= s.seen.len(),
    ensures
        restored_all(fresh(s.limits, s.grace), path, s.seen, n) matches Ok(t) ==> t.well_formed()
            && t.limits == s.limits,
    decreases n,
{
    if n > 0 {
        lemma_restored_all_well_formed(s, path, (n - 1) as nat);
        if let Ok(t) = restored_all(fresh(s.limits, s.grace), path, s.seen, (n - 1) as nat) {
            if t.seen.len() < t.limits.max_jobs {
                restoring_keeps_well_formed(t, path, n, s.seen[n - 1], true);
            }
        }
    }
}

} // verus!

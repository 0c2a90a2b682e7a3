//! What a worker does about the child of a job, and what is told of jobs and of failures.

use vstd::prelude::*;
use vstd::string::*;

use crate::daemon_error::{error_sentence, DaemonErrorView, IoError, PersistFailure};
use crate::jobs::{FuzzJob, JobState};
use crate::json::json_string;
use crate::text::{contains, decimal, lemma_decimal_parses, parse_decimal, texts};
use crate::text_laws::{
    a_part_is_contained, joining_is_associative, members_stand_in_their_object,
    parts_of_parts_are_contained,
};
use crate::worker::{
    after_job, expired, job_arguments, supervise, webhook_payload, ChildStatus, JobOutcome,
    Supervision, WorkerStep,
};

verus! {

/// The program is run on the job's project and harness, with a bound of its budget in
/// seconds if and only if it has one.
pub proof fn the_program_is_told_the_job(job: &FuzzJob, r: Vec<String>)
    requires
        call_ensures(job_arguments, (job,), r),
    ensures
        r@.len() == if job.time_budget_secs > 0 {
            6int
        } else {
            4
        },
        r@[0]@ == "fuzz"@,
        r@[1]@ == job.project_dir@,
        r@[2]@ == "--harness"@,
        r@[3]@ == job.harness_id@,
        job.time_budget_secs > 0 ==> {
            &&& r@[4]@ == "--time"@
            &&& r@[5]@.last() == 's'
            &&& parse_decimal(r@[5]@.drop_last(), u64::MAX as nat) == Some(
                job.time_budget_secs as nat,
            )
        },
{
    reveal_strlit("s");
    let t = texts(r@);
    assert(t.len() == r@.len());
    assert(t[0] == r@[0]@ && t[1] == r@[1]@ && t[2] == r@[2]@ && t[3] == r@[3]@);
    if job.time_budget_secs > 0 {
        let n = job.time_budget_secs as nat;
        assert(t[4] == r@[4]@ && t[5] == r@[5]@);
        lemma_decimal_parses(n, u64::MAX as nat);
        assert(r@[5]@ == decimal(n) + "s"@);
        assert(r@[5]@.drop_last() =~= decimal(n));
    }
}

/// A job ends when its child does, when the scheduler stops or when waiting fails, and
/// otherwise its child runs on until its deadline. Only a child that exited well completes
/// its job; one that has exited is not waited for again; and a shutdown interrupts whatever
/// the child does.
pub proof fn a_job_ends_with_its_child(shutting_down: bool, child: ChildStatus, r: Supervision)
    requires
        call_ensures(supervise, (shutting_down, child), r),
    ensures
        match r {
            Supervision::Wait => !shutting_down && child == (ChildStatus::Running {
                past_deadline: false,
            }),
            Supervision::Expire => !shutting_down && child == (ChildStatus::Running {
                past_deadline: true,
            }),
            Supervision::End { reap, outcome: JobOutcome::Interrupted } => shutting_down && reap,
            Supervision::End { reap, outcome: JobOutcome::Finished(state) } => {
                &&& !shutting_down
                &&& child !is Running
                &&& state == JobState::Complete || state == JobState::Failed
                &&& state == JobState::Complete <==> child == (ChildStatus::Exited {
                    success: true,
                })
                &&& reap <==> child is WaitFailed
            },
        },
{
}

/// A job that outran its deadline has failed, unless the scheduler is stopping: it is then
/// interrupted.
pub proof fn a_job_that_outran_its_deadline_failed(shutting_down: bool, r: JobOutcome)
    requires
        call_ensures(expired, (shutting_down,), r),
    ensures
        r is Interrupted <==> shutting_down,
        r.left_in() == if shutting_down {
            JobState::Queued
        } else {
            JobState::Failed
        },
{
}

/// A job is left as it ended, and waiting where it was interrupted.
pub proof fn a_job_is_left_as_it_ended(outcome: JobOutcome, r: JobState)
    requires
        call_ensures(JobOutcome::final_state, (outcome,), r),
    ensures
        match outcome {
            JobOutcome::Finished(state) => r == state,
            JobOutcome::Interrupted => r == JobState::Queued,
        },
{
}

/// A worker goes on only where the end of its job was written down, the job was not
/// interrupted and nothing stops; it notifies of the end only then, and only a webhook that
/// there is.
pub proof fn a_worker_goes_on_only_after_a_recorded_end(
    outcome: JobOutcome,
    recorded: bool,
    shutting_down: bool,
    webhook: bool,
    r: WorkerStep,
)
    requires
        call_ensures(after_job, (outcome, recorded, shutting_down, webhook), r),
    ensures
        r != WorkerStep::Stop <==> recorded && outcome is Finished && !shutting_down,
        r == WorkerStep::Notify <==> webhook && r != WorkerStep::Stop,
{
}

/// The webhook is told which job ended, of which harness, and how.
pub proof fn the_webhook_is_told_the_job(job: &FuzzJob, state: JobState, r: String)
    requires
        call_ensures(webhook_payload, (job, state), r),
    ensures
        contains(r@, json_string("job_id"@) + seq![':'] + json_string(job.job_id@)),
        contains(r@, json_string("harness_id"@) + seq![':'] + json_string(job.harness_id@)),
        contains(r@, json_string("state"@) + seq![':'] + json_string(state.word())),
        r@[0] == '{' && r@.last() == '}',
{
    let members = seq![
        ("harness_id"@, json_string(job.harness_id@)),
        ("job_id"@, json_string(job.job_id@)),
        ("state"@, json_string(state.word())),
    ];
    members_stand_in_their_object(members, 0);
    members_stand_in_their_object(members, 1);
    members_stand_in_their_object(members, 2);
}

/// The sentence of an error tells what it is about.
pub proof fn sentences_tell_what_they_are_about(e: DaemonErrorView)
    ensures
        match e {
            DaemonErrorView::DataDirMissing(path) => contains(error_sentence(e), path),
            DaemonErrorView::DataDirInUse(path) => contains(error_sentence(e), path),
            DaemonErrorView::BinMissing(path) => contains(error_sentence(e), path),
            DaemonErrorView::InvalidBudget(reason) => contains(error_sentence(e), reason),
            DaemonErrorView::Capacity(what) => contains(error_sentence(e), what),
            DaemonErrorView::CorruptJobs { path, line, reason } => {
                &&& contains(error_sentence(e), path)
                &&& contains(error_sentence(e), " at line "@ + decimal(line))
                &&& contains(error_sentence(e), reason)
            },
            DaemonErrorView::DurabilityUncertain { job_id, source } => {
                &&& contains(error_sentence(e), job_id)
                &&& contains(error_sentence(e), source.message)
            },
            DaemonErrorView::Io(error) => contains(error_sentence(e), error.message),
            DaemonErrorView::Json(error) => contains(error_sentence(e), error),
            DaemonErrorView::Shutdown | DaemonErrorView::IdExhausted
            | DaemonErrorView::InvalidLimits => error_sentence(e).len() > 0,
        },
{
    let none = Seq::<char>::empty();
    reveal_strlit("scheduler already shut down");
    reveal_strlit("job ID space exhausted");
    reveal_strlit("invalid scheduler limits");
    match e {
        DaemonErrorView::DataDirMissing(path) => {
            a_part_is_contained("data dir does not exist: "@, path, none);
        },
        DaemonErrorView::DataDirInUse(path) => {
            a_part_is_contained(
                "scheduler data directory is already owned by another instance: "@,
                path,
                none,
            );
        },
        DaemonErrorView::BinMissing(path) => {
            a_part_is_contained("bhf binary not found: "@, path, none);
        },
        DaemonErrorView::InvalidBudget(reason) => {
            a_part_is_contained("invalid job time budget: "@, reason, none);
        },
        DaemonErrorView::Capacity(what) => {
            a_part_is_contained("scheduler capacity exceeded: "@, what, none);
        },
        DaemonErrorView::CorruptJobs { path, line, reason } => {
            let a = "invalid jobs snapshot "@ + path;
            let b = " at line "@ + decimal(line);
            a_part_is_contained("invalid jobs snapshot "@, path, none);
            joining_is_associative(a, " at line "@, decimal(line));
            a_part_is_contained(a, b, none);
            parts_of_parts_are_contained(none, a, b, path);
            parts_of_parts_are_contained(none, a + b, ": "@, path);
            parts_of_parts_are_contained(none, a + b, ": "@, b);
            parts_of_parts_are_contained(none, a + b + ": "@, reason, path);
            parts_of_parts_are_contained(none, a + b + ": "@, reason, b);
            a_part_is_contained(a + b + ": "@, reason, none);
        },
        DaemonErrorView::DurabilityUncertain { job_id, source } => {
            let a = "durability of job "@ + job_id;
            let b = a + " is uncertain after replacing jobs snapshot: "@;
            let c = b + source.message;
            let end = "; restart the scheduler before submitting again"@;
            a_part_is_contained("durability of job "@, job_id, none);
            parts_of_parts_are_contained(
                none,
                a,
                " is uncertain after replacing jobs snapshot: "@,
                job_id,
            );
            parts_of_parts_are_contained(none, b, source.message, job_id);
            parts_of_parts_are_contained(none, c, end, job_id);
            a_part_is_contained(b, source.message, end);
        },
        DaemonErrorView::Io(error) => {
            a_part_is_contained("I/O error: "@, error.message, none);
        },
        DaemonErrorView::Json(error) => {
            a_part_is_contained("JSON error: "@, error, none);
        },
        _ => {},
    }
}

/// A failure before the new file was put in place and one after it are told apart.
pub proof fn failures_are_told_apart(error: IoError, before: PersistFailure, after: PersistFailure)
    requires
        call_ensures(PersistFailure::before, (error,), before),
        call_ensures(PersistFailure::after, (error,), after),
    ensures
        !before.installed,
        after.installed,
        before.error == error,
        after.error == error,
{
}

} // verus!

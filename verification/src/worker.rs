//! What a worker does with a job: the program's arguments, when the child is stopped, and
//! what follows its end.

use vstd::prelude::*;
use vstd::string::*;

use crate::jobs::{FuzzJob, JobState, JobView};
use crate::json::{json_object, json_string, member_texts, object_text, quoted};
use crate::scheduler::{wall_span, wall_sum, TimeSpan};
use crate::text::{cat2, decimal, decimal_text, texts};

verus! {

/// How a job ended.
#[derive(Debug, Clone, Copy, PartialEq, Eq, Structural)]
pub enum JobOutcome {
    Finished(JobState),
    Interrupted,
}

impl JobOutcome {
    /// The state in which the job is left: one that was interrupted waits again.
    pub open spec fn left_in(self) -> JobState {
        match self {
            JobOutcome::Finished(state) => state,
            JobOutcome::Interrupted => JobState::Queued,
        }
    }

    pub fn final_state(self) -> (r: JobState)
        ensures
            r == self.left_in(),
    {
        match self {
            JobOutcome::Finished(state) => state,
            JobOutcome::Interrupted => JobState::Queued,
        }
    }
}

/// What a worker does after a job.
#[derive(Debug, Clone, Copy, PartialEq, Eq, Structural)]
pub enum WorkerStep {
    /// It ends.
    Stop,
    /// It notifies the webhook and looks for the next job.
    Notify,
    /// It looks for the next job.
    Continue,
}

/// What a worker does after a job whose end was written down or not: it goes on only
/// where it was, the job was not interrupted and the scheduler is not shutting down.
pub fn after_job(outcome: JobOutcome, recorded: bool, shutting_down: bool, webhook: bool) -> (r:
    WorkerStep)
    ensures
        r == if !recorded || outcome is Interrupted || shutting_down {
            WorkerStep::Stop
        } else if webhook {
            WorkerStep::Notify
        } else {
            WorkerStep::Continue
        },
{
    let interrupted = match outcome {
        JobOutcome::Interrupted => true,
        JobOutcome::Finished(_) => false,
    };
    if !recorded || interrupted || shutting_down {
        WorkerStep::Stop
    } else if webhook {
        WorkerStep::Notify
    } else {
        WorkerStep::Continue
    }
}

/// The arguments with which the fuzzer runs a job: a time only where there is a budget.
pub open spec fn arguments(job: JobView) -> Seq<Seq<char>> {
    let base = seq!["fuzz"@, job.project_dir, "--harness"@, job.harness_id];
    if job.time_budget_secs > 0 {
        base + seq!["--time"@, decimal(job.time_budget_secs as nat) + "s"@]
    } else {
        base
    }
}

pub fn job_arguments(job: &FuzzJob) -> (r: Vec<String>)
    ensures
        texts(r@) == arguments(job@),
{
    let mut out: Vec<String> = Vec::new();
    out.push("fuzz".to_owned());
    out.push(job.project_dir.clone());
    out.push("--harness".to_owned());
    out.push(job.harness_id.clone());
    if job.time_budget_secs > 0 {
        out.push("--time".to_owned());
        let secs = decimal_text(job.time_budget_secs);
        out.push(cat2(secs.as_str(), "s"));
    }
    proof {
        assert(texts(out@) =~= arguments(job@));
    }
    out
}

/// How long a job may take at most: its budget and the allowance, `None` where it has no
/// budget.
#[derive(Debug, Clone, Copy, PartialEq, Eq, Structural)]
pub enum WallLimit {
    Unbounded,
    Within(TimeSpan),
    /// The sum cannot be counted.
    Overflow,
}

pub fn wall_limit(budget_secs: u64, grace: TimeSpan) -> (r: WallLimit)
    ensures
        r == if budget_secs == 0 {
            WallLimit::Unbounded
        } else {
            match wall_sum(budget_secs, grace) {
                None => WallLimit::Overflow,
                Some(wall) => WallLimit::Within(wall),
            }
        },
{
    if budget_secs == 0 {
        return WallLimit::Unbounded;
    }
    match wall_span(budget_secs, grace) {
        None => WallLimit::Overflow,
        Some(wall) => WallLimit::Within(wall),
    }
}

/// What a look at the child showed.
#[derive(Debug, Clone, Copy, PartialEq, Eq, Structural)]
pub enum ChildStatus {
    Exited { success: bool },
    Running { past_deadline: bool },
    WaitFailed,
}

/// What the worker does about the child.
#[derive(Debug, Clone, Copy, PartialEq, Eq, Structural)]
pub enum Supervision {
    /// It waits a little and looks again.
    Wait,
    /// It kills what is left of the child's process tree, reaps the child where `reap`,
    /// and the job has ended.
    End { reap: bool, outcome: JobOutcome },
    /// The deadline is past: it kills the process tree and reaps the child, and how the
    /// job ended depends on whether the scheduler is shutting down by then.
    Expire,
}

/// What the worker does about the child. A shutdown comes before everything else, and a
/// child that has exited leaves only its helpers to be killed.
pub fn supervise(shutting_down: bool, child: ChildStatus) -> (r: Supervision)
    ensures
        r == if shutting_down {
            Supervision::End { reap: true, outcome: JobOutcome::Interrupted }
        } else {
            match child {
                ChildStatus::Exited { success } => Supervision::End {
                    reap: false,
                    outcome: JobOutcome::Finished(
                        if success {
                            JobState::Complete
                        } else {
                            JobState::Failed
                        },
                    ),
                },
                ChildStatus::Running { past_deadline } => if past_deadline {
                    Supervision::Expire
                } else {
                    Supervision::Wait
                },
                ChildStatus::WaitFailed => Supervision::End {
                    reap: true,
                    outcome: JobOutcome::Finished(JobState::Failed),
                },
            }
        },
{
    if shutting_down {
        return Supervision::End { reap: true, outcome: JobOutcome::Interrupted };
    }
    match child {
        ChildStatus::Exited { success } => Supervision::End {
            reap: false,
            outcome: JobOutcome::Finished(
                if success {
                    JobState::Complete
                } else {
                    JobState::Failed
                },
            ),
        },
        ChildStatus::Running { past_deadline } => {
            if past_deadline {
                Supervision::Expire
            } else {
                Supervision::Wait
            }
        },
        ChildStatus::WaitFailed => Supervision::End {
            reap: true,
            outcome: JobOutcome::Finished(JobState::Failed),
        },
    }
}

/// How a job ended whose child was killed at its deadline.
pub fn expired(shutting_down: bool) -> (r: JobOutcome)
    ensures
        r == if shutting_down {
            JobOutcome::Interrupted
        } else {
            JobOutcome::Finished(JobState::Failed)
        },
{
    if shutting_down {
        JobOutcome::Interrupted
    } else {
        JobOutcome::Finished(JobState::Failed)
    }
}

/// What the webhook is sent about a job.
pub open spec fn payload(job_id: Seq<char>, harness_id: Seq<char>, state: JobState) -> Seq<char> {
    json_object(
        seq![
            ("harness_id"@, json_string(harness_id)),
            ("job_id"@, json_string(job_id)),
            ("state"@, json_string(state.word())),
        ],
    )
}

pub fn webhook_payload(job: &FuzzJob, state: JobState) -> (r: String)
    ensures
        r@ == payload(job@.job_id, job@.harness_id, state),
{
    let mut members: Vec<(String, String)> = Vec::new();
    members.push(("harness_id".to_owned(), quoted(job.harness_id.as_str())));
    members.push(("job_id".to_owned(), quoted(job.job_id.as_str())));
    members.push(("state".to_owned(), quoted(state.as_word())));
    proof {
        assert(member_texts(members@) =~= seq![
            ("harness_id"@, json_string(job@.harness_id)),
            ("job_id"@, json_string(job@.job_id)),
            ("state"@, json_string(state.word())),
        ]);
    }
    object_text(members.as_slice())
}

/// A shutdown interrupts a job whatever its child does, and an interrupted job is left
/// waiting, so that a restart takes it up.
pub proof fn a_shutdown_leaves_the_job_waiting(outcome: JobOutcome)
    requires
        outcome is Interrupted,
    ensures
        outcome.left_in() == JobState::Queued,
{
}

} // verus!

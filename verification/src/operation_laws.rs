//! What the operations that change a state do to it.

use vstd::prelude::*;
use vstd::string::*;

use crate::comparison::{Decision, Triage};
use crate::daemon_error::{DaemonError, PersistFailure};
use crate::go_build::{BuildAction, BuildOutcome, GoBuild};
use crate::jobs::{job_views, snapshot, FuzzJob, JobState};
use crate::sched::{Gate, JoinStep, SchedState, Status};
use crate::scheduler::{claimable, claimed, Admission, Claim, Scheduler, TimeSpan};
use crate::scheduler_laws::{
    a_submitted_job_waits_its_turn, the_end_of_a_job_is_its_own,
    workers_take_the_job_that_waited_longest,
};
use crate::text::{contains, texts};
use crate::transport_campaign::{Campaign, CampaignCounts, OutcomeStep, Phase};
use crate::transport_fault::{ExitKind, RunOutcome};
use crate::tsan::Replay;
use crate::webhook::read_more;

verus! {

/// Taking a submission in: the submitter is told the identifier just where it was written
/// down, and the job is then the last of the list and the last to wait.
pub proof fn taking_a_submission_in(
    s: &mut Scheduler,
    plan: Admission,
    outcome: Result<(), PersistFailure>,
    r: Result<String, DaemonError>,
)
    requires
        call_ensures(Scheduler::commit_submit, (s, plan, outcome), r),
    ensures
        r is Ok <==> outcome is Ok,
        r matches Ok(id) ==> {
            &&& id@ == plan.job.job_id@
            &&& final(s)@.seen == old(s)@.seen.push(plan.job@)
            &&& final(s)@.queue == old(s)@.queue.push(plan.job@)
            &&& final(s)@.next_id == old(s)@.next_id + 1
            &&& final(s)@.shutdown == old(s)@.shutdown
        },
        r is Err ==> final(s)@.queue == old(s)@.queue && final(s)@.shutdown && final(s)@.fault is Some,
        r matches Err(e) ==> (outcome matches Err(failure) && (failure.installed <==> (
        e is DurabilityUncertain))),
{
    a_submitted_job_waits_its_turn(old(s)@, plan.job@, outcome);
}

/// A stop is seen at once, and changes nothing else.
pub proof fn asking_for_a_stop(s: &mut Scheduler)
    requires
        call_ensures(Scheduler::request_shutdown, (s,), ()),
    ensures
        final(s)@.shutdown,
        final(s)@.seen == old(s)@.seen,
        final(s)@.queue == old(s)@.queue,
        final(s)@.next_id == old(s)@.next_id,
        final(s)@.fault == old(s)@.fault,
        claimable(final(s)@) is None,
{
}

/// What is written down before a worker takes a job is the list as it is once it did.
pub proof fn what_is_written_for_a_claim_is_what_it_leads_to(s: &mut Scheduler, r: Option<Claim>)
    requires
        call_ensures(Scheduler::plan_claim, (s,), r),
    ensures
        r matches Some(claim) ==> {
            &&& final(s)@ == old(s)@
            &&& claim.index < old(s)@.seen.len()
            &&& old(s)@.seen[claim.index as int].job_id == old(s)@.queue[0].job_id
            &&& claim.snapshot@ == snapshot(
                claimed(old(s)@, claim.index as int, Ok::<(), PersistFailure>(())).seen,
            )
        },
        r is None ==> old(s)@.shutdown || old(s)@.queue.len() == 0 || final(s)@.shutdown,
        old(s)@.shutdown || old(s)@.queue.len() == 0 ==> r is None && final(s)@ == old(s)@,
{
    if let Some(claim) = r {
        workers_take_the_job_that_waited_longest(
            old(s)@,
            claim.index as int,
            Ok::<(), PersistFailure>(()),
        );
    }
}

/// A worker is handed the job that waited longest, and only once it was written down.
pub proof fn handing_a_job_to_a_worker(
    s: &mut Scheduler,
    claim: Claim,
    outcome: Result<(), PersistFailure>,
    r: Option<FuzzJob>,
)
    requires
        claimable(old(s)@) == Some(claim.index as int),
        call_ensures(Scheduler::commit_claim, (s, claim, outcome), r),
    ensures
        r is Some <==> outcome is Ok,
        r matches Some(job) ==> {
            &&& job@ == old(s)@.queue[0]
            &&& job.job_id@ == final(s)@.seen[claim.index as int].job_id
            &&& final(s)@.seen[claim.index as int].state == JobState::Running
            &&& final(s)@.queue == old(s)@.queue.skip(1)
        },
        r is None ==> final(s)@.queue == old(s)@.queue && final(s)@.shutdown,
{
    workers_take_the_job_that_waited_longest(old(s)@, claim.index as int, outcome);
}

/// The end of a job is on the list before it is written, what is written is that list, and
/// nothing is written once storage has failed.
pub proof fn recording_the_end_of_a_job(
    s: &mut Scheduler,
    id: &str,
    state: JobState,
    r: Option<String>,
    k: int,
)
    requires
        call_ensures(Scheduler::plan_finish, (s, id, state), r),
        0 <= k < old(s)@.seen.len(),
    ensures
        r is Some <==> old(s)@.fault is None,
        r matches Some(text) ==> text@ == snapshot(final(s)@.seen),
        final(s)@.seen.len() == old(s)@.seen.len(),
        old(s)@.seen[k].job_id != id@ ==> final(s)@.seen[k] == old(s)@.seen[k],
        old(s)@.seen[k].job_id == id@ && (forall|j: int|
            0 <= j < k ==> (#[trigger] old(s)@.seen[j]).job_id != id@) ==> final(s)@.seen[k].state
            == state,
        final(s)@.queue == old(s)@.queue,
{
    the_end_of_a_job_is_its_own(old(s)@, id@, state, Ok::<(), PersistFailure>(()));
}

/// Whether the end of a job was written down is told, and where it was not the scheduler
/// stops.
pub proof fn writing_the_end_of_a_job(
    s: &mut Scheduler,
    id: &str,
    outcome: Result<(), PersistFailure>,
    r: bool,
)
    requires
        call_ensures(Scheduler::commit_finish, (s, id, outcome), r),
    ensures
        r <==> outcome is Ok,
        r ==> final(s)@ == old(s)@,
        !r ==> final(s)@.shutdown && final(s)@.fault is Some && final(s)@.seen == old(s)@.seen,
{
    the_end_of_a_job_is_its_own(old(s)@, id@, JobState::Failed, outcome);
}

/// The list is every job, and a page of it is as many of them as were asked for and may be
/// listed at once, from where it begins.
pub proof fn listing_jobs(
    s: &Scheduler,
    all: Vec<FuzzJob>,
    offset: usize,
    limit: usize,
    r: Vec<FuzzJob>,
    i: int,
)
    requires
        call_ensures(Scheduler::list_jobs, (s,), all),
        call_ensures(Scheduler::list_jobs_page, (s, offset, limit), r),
    ensures
        job_views(all@) == s@.seen,
        r@.len() <= limit,
        r@.len() <= s@.limits.max_list_page,
        r@.len() < limit && r@.len() < s@.limits.max_list_page ==> offset + r@.len()
            >= all@.len(),
        0 <= i < r@.len() ==> offset + i < all@.len() && r@[i]@ == all@[offset + i]@,
{
    assert(job_views(r@).len() == r@.len());
    assert(job_views(all@).len() == all@.len());
    if 0 <= i < r@.len() {
        assert(job_views(r@)[i] == r@[i]@);
        assert(job_views(all@)[offset + i] == all@[offset + i]@);
    }
}

/// A build that left a harness ends the builds; one that did not is tried in every narrower
/// scope, then once more with a lowered version where the version is what fails it; and
/// what is told at the end is what the last build amounts to.
pub proof fn builds_are_tried_until_one_succeeds(
    b: &mut GoBuild,
    outcome: &BuildOutcome,
    forced: Option<String>,
    r: BuildAction,
)
    requires
        old(b).well_formed(),
        call_ensures(GoBuild::after_build, (b, outcome, forced), r),
    ensures
        ({
            let left = *outcome matches BuildOutcome::Ran { success, binary, .. } && success
                && binary;
            let gated = *outcome matches BuildOutcome::Ran { success, stderr, .. } && !success
                && contains(stderr@, "requires go >="@);
            &&& left <==> (r matches BuildAction::Finish { result } && result is Built)
            &&& !left && old(b).scope < old(b).scopes <==> r is Run
            &&& r matches BuildAction::Run { scope, lowered } ==> scope == old(b).scope + 1
                && lowered == old(b).lowered && final(b).scope == scope && final(b).lowered
                == old(b).lowered
            &&& r is Lower <==> gated && old(b).scope == old(b).scopes && !old(b).lowered
            &&& final(b).scopes == old(b).scopes
        }),
{
}

/// Every scope is tried once more with a lowered version where it could be written.
pub proof fn lowered_builds_start_anew(
    b: &mut GoBuild,
    written: bool,
    outcome: &BuildOutcome,
    forced: Option<String>,
    r: BuildAction,
)
    requires
        old(b).well_formed(),
        !old(b).lowered,
        call_ensures(GoBuild::after_lowering, (b, written, outcome, forced), r),
    ensures
        r is Run <==> written,
        r is Finish <==> !written,
        r matches BuildAction::Run { scope, lowered } ==> scope == 0 && lowered && final(b).scope
            == 0 && final(b).lowered && final(b).scopes == old(b).scopes,
{
}

/// The first build is of the widest scope, with the version as it is.
pub proof fn the_first_build_is_the_widest(scopes: usize, r: GoBuild)
    requires
        call_ensures(GoBuild::new, (scopes,), r),
    ensures
        r.scope == 0,
        r.scopes == scopes,
        !r.lowered,
{
}

/// A run is counted, gives a finding just where it failed in a way that was not met before,
/// and joins the corpus only where it ended well.
pub proof fn taking_the_outcome_of_a_run(
    c: &mut Campaign,
    outcome: &RunOutcome,
    novel: bool,
    r: OutcomeStep,
)
    requires
        old(c)@.well_formed(),
        crate::transport_campaign::can_run(old(c)@),
        call_ensures(Campaign::ran, (c, outcome, novel), r),
    ensures
        final(c)@.executions == old(c)@.executions + 1,
        outcome.exit == ExitKind::Clean <==> final(c)@.crashes == old(c)@.crashes,
        outcome.exit != ExitKind::Clean ==> final(c)@.crashes == old(c)@.crashes + 1,
        outcome.exit == ExitKind::Clean ==> r.finding is None,
        r.finding is Some <==> final(c)@.seen.len() == old(c)@.seen.len() + 1,
        r.finding is None <==> final(c)@.seen == old(c)@.seen,
        r.retain <==> final(c)@.corpus_new == old(c)@.corpus_new + 1,
        r.retain ==> outcome.exit == ExitKind::Clean && novel && old(c)@.phase is Mutating,
{
}

/// What is written as a finding is listed last, and the summary is what the campaign came
/// to.
pub proof fn the_summary_is_what_the_campaign_came_to(
    c: &mut Campaign,
    id: String,
    after: &Campaign,
    r: CampaignCounts,
)
    requires
        call_ensures(Campaign::written, (c, id), ()),
        after@ == final(c)@,
        call_ensures(Campaign::summary, (after,), r),
    ensures
        r.findings@.len() == old(c)@.findings.len() + 1,
        r.findings@.last()@ == id@,
        r.executions == old(c)@.executions,
        r.crashes == old(c)@.crashes,
        r.corpus_new == old(c)@.corpus_new,
        r.seeds == old(c)@.seed_count,
{
    let t = texts(r.findings@);
    assert(t == old(c)@.findings.push(id@));
    assert(t.len() == r.findings@.len());
    assert(t.last() == r.findings@.last()@);
}

/// An input that is taken counts, and has all its repetitions before it.
pub proof fn taking_an_input(p: &mut Replay)
    requires
        old(p)@.well_formed(),
        old(p)@.open(),
        call_ensures(Replay::begin_input, (p,), ()),
    ensures
        final(p)@.replayed == old(p)@.replayed + 1,
        final(p)@.retries == 0,
        final(p)@.sites == old(p)@.sites,
        final(p)@.timeouts == old(p)@.timeouts,
        final(p)@.unmeasured == old(p)@.unmeasured,
        final(p)@.unattributed == old(p)@.unattributed,
{
}

/// A thread goes on just where it has the baton; otherwise it waits, until it waited too long
/// and takes the baton.
pub proof fn going_on_with_the_baton(v: &mut SchedState, me: usize, late: bool, r: Gate)
    requires
        me < 16,
        old(v)@.shaped(),
        call_ensures(SchedState::at_gate, (v, me, late), r),
    ensures
        r == Gate::Pass <==> old(v)@.running == Some(me),
        r == Gate::Force <==> old(v)@.running != Some(me) && late,
        r != Gate::Wait ==> final(v)@.running == Some(me),
        r != Gate::Force ==> final(v)@ == old(v)@,
        r == Gate::Force ==> final(v)@.status[me as int] == Status::Running,
{
}

/// A thread that waits for another hands the baton on while that one has not finished and
/// somebody can take it, and joins by the system's means afterwards, waiting for nobody.
pub proof fn waiting_for_another_thread(
    v: &mut SchedState,
    me: usize,
    target: usize,
    steps: usize,
    granted: bool,
    r: JoinStep,
)
    requires
        me < 16,
        target < 16,
        old(v)@.shaped(),
        call_ensures(SchedState::join_step, (v, me, target, steps, granted), r),
    ensures
        old(v)@.status[target as int] == Status::Finished ==> r == JoinStep::Join,
        old(v)@.status[target as int] != Status::Finished && steps == 0 ==> r == JoinStep::HandOn,
        steps > 0 && !granted ==> r == JoinStep::Join,
        steps > 64 ==> r == JoinStep::Join,
        r == JoinStep::HandOn ==> final(v)@.status[me as int] == Status::Joining && final(v)@.join_target[me as int] == Some(target),
        r == JoinStep::Join ==> final(v)@.join_target[me as int] is None && final(v)@.status == old(v)@.status,
        old(v)@.running == final(v)@.running,
{
}

/// A thread that gives the baton up waits for it; a new one that was made has its name; and
/// the place of one that could not be made is free again.
pub proof fn giving_up_and_making(
    a: &mut SchedState,
    b: &mut SchedState,
    c: &mut SchedState,
    slot: usize,
    tid: u64,
    other: int,
)
    requires
        slot < 16,
        0 <= other < 16,
        other != slot,
        old(a)@.shaped(),
        old(b)@.shaped(),
        old(c)@.shaped(),
        call_ensures(SchedState::yield_baton, (a, slot), ()),
        call_ensures(SchedState::created, (b, slot, tid), ()),
        call_ensures(SchedState::creation_failed, (c, slot), ()),
    ensures
        final(a)@.status[slot as int] == Status::Runnable,
        final(a)@.status[other] == old(a)@.status[other],
        final(b)@.tid[slot as int] == tid,
        final(b)@.tid[other] == old(b)@.tid[other],
        final(b)@.status == old(b)@.status,
        final(c)@.status[slot as int] == Status::Free,
        final(c)@.status[other] == old(c)@.status[other],
{
}

/// A pinned schedule is taken once: the bytes that its text writes, as many as are kept, and
/// none where there is no text.
pub proof fn pinning_a_schedule(v: &mut SchedState, text: Option<&[u8]>, bytes: Seq<u8>)
    requires
        call_ensures(SchedState::load_schedule, (v, text), ()),
    ensures
        old(v)@.schedule is Some ==> final(v)@ == old(v)@,
        old(v)@.schedule is None && text is None ==> final(v)@.schedule == Some(
            Seq::<u8>::empty(),
        ),
        old(v)@.schedule is None && text is Some && text->0@ == crate::sched::written_schedule(
            bytes,
        ) && bytes.len() <= 256 ==> final(v)@.schedule == Some(bytes),
        final(v)@.schedule matches Some(s) ==> old(v)@.schedule is Some || s.len() <= 256,
        final(v)@.status == old(v)@.status,
        final(v)@.decision == old(v)@.decision,
{
    crate::sched::a_written_schedule_is_read_back(bytes);
}

/// A decision draws one byte and is counted.
pub proof fn drawing_a_byte(v: &mut SchedState, byte: u8, r: u8)
    requires
        old(v)@.schedule == Some(Seq::<u8>::empty()),
        call_ensures(SchedState::schedule_byte, (v, Some(byte)), r),
    ensures
        r == byte,
        old(v)@.decision < u64::MAX ==> final(v)@.decision == old(v)@.decision + 1,
        final(v)@.status == old(v)@.status,
        final(v)@.running == old(v)@.running,
{
}

/// A reply is read up to its bound, and what is read is behind what was read before.
pub proof fn reading_a_reply(reply: &mut Vec<u8>, chunk: &[u8], r: Result<(), DaemonError>)
    requires
        call_ensures(read_more, (reply, chunk), r),
    ensures
        r is Ok <==> old(reply)@.len() + chunk@.len() <= 65_536,
        r is Ok ==> final(reply)@ == old(reply)@ + chunk@,
        r matches Err(e) ==> final(reply)@ == old(reply)@ && e@ is Capacity,
{
}

/// A decision is kept unless there is one on its issue, which then stays.
pub proof fn keeping_a_decision(t: &mut Triage, decision: Decision, r: bool)
    requires
        old(t).well_formed(),
        call_ensures(Triage::insert, (t, decision), r),
    ensures
        r <==> forall|i: int|
            0 <= i < old(t)@.len() ==> (#[trigger] old(t)@[i]).issue_key != decision.issue_key@,
        r ==> final(t)@.len() == old(t)@.len() + 1 && final(t)@.contains(decision@),
        !r ==> final(t)@ == old(t)@,
{
    let keys = crate::comparison::decision_keys(old(t)@);
    assert(keys.len() == old(t)@.len());
    if r {
        assert forall|i: int| 0 <= i < old(t)@.len() implies (#[trigger] old(t)@[i]).issue_key
            != decision.issue_key@ by {
            assert(keys[i] == old(t)@[i].issue_key);
            assert(keys.contains(keys[i]));
        }
        let at = choose|at: int|
            0 <= at <= old(t)@.len() && final(t)@ == #[trigger] old(t)@.insert(at, decision@);
        assert(final(t)@[at] == decision@);
    } else {
        let i = choose|i: int| 0 <= i < keys.len() && keys[i] == decision@.issue_key;
        assert(old(t)@[i].issue_key == decision.issue_key@);
    }
}

/// A decision that is kept is found by its issue.
pub proof fn finding_a_decision(t: &Triage, key: &str, r: Option<usize>)
    requires
        t.well_formed(),
        call_ensures(Triage::find, (t, key), r),
    ensures
        r matches Some(i) ==> i < t@.len() && t@[i as int].issue_key == key@,
        r is None <==> forall|i: int|
            0 <= i < t@.len() ==> (#[trigger] t@[i]).issue_key != key@,
{
    let keys = crate::comparison::decision_keys(t@);
    assert(keys.len() == t@.len());
    if r is None {
        assert forall|i: int| 0 <= i < t@.len() implies (#[trigger] t@[i]).issue_key != key@ by {
            assert(keys[i] == t@[i].issue_key);
            assert(keys.contains(keys[i]));
        }
    }
}

/// A campaign begins with its first seed, with nothing run or found, under the bounds given.
pub proof fn beginning_a_campaign(
    seeds: usize,
    iterations: usize,
    time: Option<TimeSpan>,
    findings: Option<usize>,
    r: Campaign,
)
    requires
        call_ensures(Campaign::new, (seeds, iterations, time, findings), r),
    ensures
        r@.phase == (Phase::Seeds { next: 0 }),
        r@.seed_count == seeds,
        r@.iterations == iterations,
        r@.time_budget == time,
        r@.stop_after_findings == findings,
        r@.executions == 0 && r@.crashes == 0 && r@.corpus_new == 0,
        r@.seen.len() == 0 && r@.findings.len() == 0,
{
}

/// A replay begins with nothing counted, and tells what it counted.
pub proof fn beginning_and_ending_a_replay(
    fresh: Replay,
    done: Replay,
    r: (Vec<(String, u64)>, usize, usize),
    i: int,
)
    requires
        call_ensures(Replay::new, (), fresh),
        call_ensures(Replay::finish, (done,), r),
    ensures
        fresh@.sites.len() == 0 && fresh@.replayed == 0 && fresh@.unmeasured == 0
            && fresh@.unattributed == 0 && fresh@.timeouts == 0 && fresh@.mapping_failures == 0,
        r.0@.len() == done@.sites.len(),
        0 <= i < r.0@.len() ==> r.0@[i].0@ == done@.sites[i].0 && r.0@[i].1 == done@.sites[i].1,
        r.1 == done@.unmeasured,
        r.2 == done@.unattributed,
{
    let v = crate::tsan::site_views(r.0@);
    assert(v.len() == r.0@.len());
    if 0 <= i < r.0@.len() {
        assert(v[i] == (r.0@[i].0@, r.0@[i].1 as nat));
    }
}

} // verus!

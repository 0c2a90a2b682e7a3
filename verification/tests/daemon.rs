use bhf::daemon_error::{
    DaemonError, IoError, PersistFailure, PersistencePhase,
};
use bhf::jobs::{
    job_id_text, job_text, number_of_job, reserved_job_bytes, snapshot_text, FuzzJob, JobState,
};
use bhf::scheduler::{
    check_snapshot_size, check_start, judge_recovery, judge_wall_budget, recover,
    rounded_budget_secs, snapshot_lines, validate_wall_budget, wall_span, worker_count,
    DaemonConfig, Recovery, Scheduler, SchedulerLimits, SnapshotRow, TimeSpan, MAX_CONCURRENT_WORKERS,
};
use bhf::worker::{
    after_job, expired, job_arguments, supervise, wall_limit, webhook_payload, ChildStatus,
    JobOutcome, Supervision, WallLimit, WorkerStep,
};

const ZERO: TimeSpan = TimeSpan { secs: 0, nanos: 0 };
const GRACE: TimeSpan = TimeSpan { secs: 30, nanos: 0 };

fn config() -> DaemonConfig {
    DaemonConfig {
        data_dir: "/data".to_owned(),
        max_concurrent_jobs: 2,
        bhf_bin: "/bin/true".to_owned(),
        webhook_url: None,
        poll_interval: TimeSpan { secs: 0, nanos: 50_000_000 },
    }
}

fn job(id: &str, state: JobState) -> FuzzJob {
    FuzzJob {
        job_id: id.to_owned(),
        project_dir: "private-project-do-not-export".to_owned(),
        harness_id: "private-harness-do-not-export".to_owned(),
        time_budget_secs: 1,
        state,
    }
}

fn failed(installed: bool) -> PersistFailure {
    PersistFailure {
        error: IoError::new("PermissionDenied", "private-path-must-not-leak"),
        installed,
    }
}

fn recovered(limits: SchedulerLimits, jobs: Vec<FuzzJob>) -> Scheduler {
    let mut recovery = Recovery::new(limits, GRACE, "jobs.jsonl");
    for (index, job) in jobs.into_iter().enumerate() {
        recovery.restore(index + 1, Ok(job)).unwrap();
    }
    recovery.finish()
}

fn submit(scheduler: &mut Scheduler, harness: &str) -> Result<String, DaemonError> {
    let plan = scheduler.plan_submit("/project", harness, ZERO)?;
    scheduler.commit_submit(plan, Ok(()))
}

fn fresh() -> Scheduler {
    Scheduler::new(SchedulerLimits::default(), GRACE)
}

#[test]
fn start_rejects_missing_data_dir() {
    let mut config = config();
    config.data_dir = "/nonexistent".to_owned();
    assert!(matches!(
        check_start(&config, SchedulerLimits::default(), false, true),
        Err(DaemonError::DataDirMissing(_))
    ));
}

#[test]
fn start_rejects_missing_bin() {
    let mut config = config();
    config.bhf_bin = "/nonexistent/bhf".to_owned();
    assert!(matches!(
        check_start(&config, SchedulerLimits::default(), true, false),
        Err(DaemonError::BinMissing(_))
    ));
    assert_eq!(check_start(&config, SchedulerLimits::default(), true, true), Ok(()));
}

#[test]
fn start_rejects_excessive_worker_count_and_zero_poll_interval() {
    let mut config = config();
    config.max_concurrent_jobs = MAX_CONCURRENT_WORKERS + 1;
    assert!(matches!(
        check_start(&config, SchedulerLimits::default(), true, true),
        Err(DaemonError::Capacity("worker threads"))
    ));
    config.max_concurrent_jobs = 1;
    config.poll_interval = ZERO;
    assert!(matches!(
        check_start(&config, SchedulerLimits::default(), true, true),
        Err(DaemonError::InvalidLimits)
    ));
    let limits = SchedulerLimits { max_jobs: 0, ..SchedulerLimits::default() };
    assert!(matches!(
        check_start(&self::config(), limits, true, true),
        Err(DaemonError::InvalidLimits)
    ));
    assert_eq!(worker_count(0), 1);
    assert_eq!(worker_count(7), 7);
}

#[test]
fn submit_and_list_returns_queued_job() {
    let mut scheduler = fresh();
    let id = submit(&mut scheduler, "H").unwrap();
    assert!(id.starts_with("J-"));
    let jobs = scheduler.list_jobs();
    assert!(jobs.iter().any(|j| j.job_id == id));
    assert_eq!(jobs[0].state, JobState::Queued);
}

#[test]
fn restart_assigns_distinct_id_after_restored_job() {
    let mut scheduler =
        recovered(SchedulerLimits::default(), vec![job("J-000007", JobState::Complete)]);
    assert_eq!(submit(&mut scheduler, "new").unwrap(), "J-000008");
    assert_eq!(scheduler.list_jobs().len(), 2);
}

#[test]
fn startup_accepts_legacy_unpadded_numeric_id() {
    let mut scheduler =
        recovered(SchedulerLimits::default(), vec![job("J-7", JobState::Complete)]);
    assert_eq!(submit(&mut scheduler, "next").unwrap(), "J-000008");
}

/// A line of the file of jobs as the job that it holds.
fn read_job(line: &[u8]) -> Result<FuzzJob, String> {
    let value: serde_json::Value =
        serde_json::from_slice(line).map_err(|error| error.to_string())?;
    let text = |key: &str| value[key].as_str().unwrap().to_owned();
    Ok(FuzzJob {
        job_id: text("job_id"),
        project_dir: text("project_dir"),
        harness_id: text("harness_id"),
        time_budget_secs: value["time_budget_secs"].as_u64().unwrap(),
        state: match value["state"].as_str().unwrap() {
            "queued" => JobState::Queued,
            "running" => JobState::Running,
            "complete" => JobState::Complete,
            "failed" => JobState::Failed,
            other => panic!("{other}"),
        },
    })
}

fn read_rows(file: &str) -> Vec<SnapshotRow> {
    snapshot_lines(file.as_bytes())
        .iter()
        .map(|line| SnapshotRow { length: line.len(), parsed: read_job(line) })
        .collect()
}

#[test]
fn startup_rejects_corrupt_or_duplicate_snapshot_without_changing_it() {
    let old = FuzzJob {
        job_id: "J-000007".to_owned(),
        project_dir: "/tmp/fixture".to_owned(),
        harness_id: "H".to_owned(),
        time_budget_secs: 0,
        state: JobState::Complete,
    };
    let valid = job_text(&old);
    let alias = job_text(&FuzzJob { job_id: "J-7".to_owned(), ..old.clone() });
    let invalid_id = job_text(&FuzzJob { job_id: "J-not-a-number".to_owned(), ..old.clone() });
    let exhausted_id = job_text(&FuzzJob { job_id: format!("J-{}", u64::MAX), ..old.clone() });
    let invalid_budget = job_text(&FuzzJob { time_budget_secs: u64::MAX, ..old.clone() });
    let cases = [
        ("truncated", format!("{valid}\n{{\"job_id\":"), 2, "EOF"),
        ("middle-empty", format!("{valid}\n\n{valid}\n"), 2, "EOF"),
        ("duplicate", format!("{valid}\n{valid}\n"), 2, "duplicate"),
        ("numeric-alias", format!("{valid}\n{alias}\n"), 2, "duplicate"),
        ("invalid-id", format!("{invalid_id}\n"), 1, "invalid job ID"),
        ("id-overflow", format!("{exhausted_id}\n"), 1, "exhausts ID space"),
        ("budget-overflow", format!("{invalid_budget}\n"), 1, "invalid job time budget"),
    ];
    for (name, snapshot, line, reason) in cases {
        let rows = read_rows(&snapshot);
        let error = match recover(SchedulerLimits::default(), GRACE, "jobs.jsonl", rows) {
            Ok(_) => panic!("{name} snapshot unexpectedly accepted"),
            Err(error) => error,
        };
        assert!(matches!(error, DaemonError::CorruptJobs { .. }));
        let message = error.sentence();
        assert!(message.contains(&format!("line {line}")), "{message}");
        assert!(message.contains(reason), "{message}");
    }
}

#[test]
fn an_empty_line_in_the_middle_is_a_row() {
    let valid = job_text(&job("J-000000", JobState::Complete));
    let lines = snapshot_lines(format!("{valid}\n\n{valid}\n").as_bytes());
    assert_eq!(lines, vec![valid.as_bytes().to_vec(), vec![], valid.as_bytes().to_vec()]);
}

#[test]
fn startup_enforces_byte_record_and_job_caps_without_rewriting_input() {
    let line = job_text(&job("J-000000", JobState::Complete));
    let limits = SchedulerLimits { max_snapshot_bytes: line.len(), ..SchedulerLimits::default() };
    assert!(matches!(
        check_snapshot_size(limits, line.len() + 1),
        Err(DaemonError::Capacity("jobs snapshot bytes"))
    ));
    assert_eq!(check_snapshot_size(limits, line.len()), Ok(()));
    let limits = SchedulerLimits { max_job_bytes: line.len() - 1, ..SchedulerLimits::default() };
    assert!(matches!(
        Recovery::new(limits, GRACE, "jobs.jsonl").check_line(line.len()),
        Err(DaemonError::Capacity("job record bytes"))
    ));
    let limits = SchedulerLimits { max_jobs: 1, ..SchedulerLimits::default() };
    let mut recovery = Recovery::new(limits, GRACE, "jobs.jsonl");
    assert_eq!(recovery.check_line(line.len()), Ok(()));
    recovery.restore(1, Ok(job("J-000000", JobState::Complete))).unwrap();
    assert!(matches!(
        recovery.check_line(line.len()),
        Err(DaemonError::Capacity("retained jobs"))
    ));
}

#[test]
fn restart_recovers_queued_jobs_from_disk() {
    let mut scheduler = recovered(
        SchedulerLimits::default(),
        vec![
            job("J-000000", JobState::Running),
            job("J-000001", JobState::Queued),
            job("J-000002", JobState::Failed),
        ],
    );
    assert_eq!(scheduler.list_jobs().len(), 3);
    let claim = scheduler.plan_claim().unwrap();
    let first = scheduler.commit_claim(claim, Ok(())).unwrap();
    assert_eq!(first.job_id, "J-000000", "an interrupted job waits again");
    let claim = scheduler.plan_claim().unwrap();
    let second = scheduler.commit_claim(claim, Ok(())).unwrap();
    assert_eq!(second.job_id, "J-000001");
    assert!(scheduler.plan_claim().is_none());
}

#[test]
fn submit_does_not_acknowledge_job_if_persistence_fails() {
    let mut scheduler = fresh();
    let plan = scheduler.plan_submit("/project", "new", ZERO).unwrap();
    assert!(matches!(
        scheduler.commit_submit(plan, Err(failed(false))),
        Err(DaemonError::Io(_))
    ));
    assert!(scheduler.list_jobs().is_empty());
}

#[test]
fn post_replace_sync_failure_preserves_id_and_stops_submissions() {
    let mut scheduler = fresh();
    let plan = scheduler.plan_submit("/project", "H", ZERO).unwrap();
    let written = plan.snapshot.clone();
    let error = scheduler.commit_submit(plan, Err(failed(true))).unwrap_err();
    assert!(matches!(error, DaemonError::DurabilityUncertain { .. }));
    assert!(error.sentence().contains("J-000000"));
    assert!(matches!(
        scheduler.plan_submit("/project", "next", ZERO),
        Err(DaemonError::Shutdown)
    ));
    let jobs = scheduler.list_jobs();
    assert_eq!(jobs.len(), 1);
    assert_eq!(jobs[0].job_id, "J-000000");
    assert_eq!(jobs[0].state, JobState::Queued);
    assert_eq!(written, snapshot_text(&jobs));
}

#[test]
fn positive_subsecond_budget_rounds_up_and_overflow_is_rejected() {
    assert_eq!(rounded_budget_secs(TimeSpan { secs: 0, nanos: 1_000_000 }).unwrap(), 1);
    assert_eq!(rounded_budget_secs(ZERO).unwrap(), 0);
    assert!(matches!(
        rounded_budget_secs(TimeSpan { secs: u64::MAX, nanos: 1 }),
        Err(DaemonError::InvalidBudget(_))
    ));
    assert!(matches!(
        validate_wall_budget(u64::MAX, GRACE),
        Err(DaemonError::InvalidBudget(_))
    ));
    assert_eq!(validate_wall_budget(60, GRACE), Ok(()));
    assert!(matches!(
        judge_wall_budget(60, GRACE, false),
        Err(DaemonError::InvalidBudget(_))
    ));
    assert_eq!(judge_wall_budget(0, GRACE, false), Ok(()));
}

#[test]
fn retained_capacity_rejects_without_changing_acknowledged_snapshot() {
    let limits = SchedulerLimits {
        max_jobs: 1,
        max_list_page: 1,
        ..SchedulerLimits::default()
    };
    let mut scheduler = Scheduler::new(limits, GRACE);
    assert_eq!(submit(&mut scheduler, "H").unwrap(), "J-000000");
    let before = scheduler.list_jobs();
    assert!(matches!(
        submit(&mut scheduler, "H2"),
        Err(DaemonError::Capacity("retained jobs"))
    ));
    assert_eq!(scheduler.list_jobs(), before);
    assert_eq!(scheduler.list_jobs_page(0, usize::MAX).len(), 1);
    assert!(scheduler.list_jobs_page(1, usize::MAX).is_empty());
}

#[test]
fn queued_capacity_rejects_before_id_or_snapshot_change() {
    let limits = SchedulerLimits {
        max_queued_jobs: 1,
        ..SchedulerLimits::default()
    };
    let mut scheduler = Scheduler::new(limits, GRACE);
    submit(&mut scheduler, "first").unwrap();
    let claim = scheduler.plan_claim().unwrap();
    scheduler.commit_claim(claim, Ok(())).unwrap();
    assert_eq!(submit(&mut scheduler, "waiting").unwrap(), "J-000001");
    let before = scheduler.list_jobs();
    assert!(matches!(
        submit(&mut scheduler, "rejected"),
        Err(DaemonError::Capacity("queued jobs"))
    ));
    assert_eq!(scheduler.list_jobs(), before);
}

#[test]
fn idle_health_and_explicit_shutdown_are_distinct_from_storage_failure() {
    let mut scheduler = fresh();
    let health = scheduler.health();
    assert!(health.accepting_submissions);
    assert!(!health.shutdown_requested);
    assert_eq!(health.retained_jobs, 0);
    assert!(health.storage_fault.is_none());
    scheduler.request_shutdown();
    scheduler.request_shutdown();
    assert!(!scheduler.health().accepting_submissions);
    assert!(scheduler.health().shutdown_requested);
    assert!(scheduler.is_shutting_down());
    assert!(scheduler.health().storage_fault.is_none());
    assert!(matches!(submit(&mut scheduler, "H"), Err(DaemonError::Shutdown)));
}

#[test]
fn health_counts_states_without_exposing_project_or_harness_names() {
    let mut scheduler = recovered(
        SchedulerLimits::default(),
        vec![
            job("J-000000", JobState::Queued),
            job("J-000001", JobState::Queued),
            job("J-000002", JobState::Complete),
            job("J-000003", JobState::Failed),
        ],
    );
    let claim = scheduler.plan_claim().unwrap();
    scheduler.commit_claim(claim, Ok(())).unwrap();
    let health = scheduler.health();
    assert_eq!(
        (
            health.retained_jobs,
            health.queued_jobs,
            health.running_jobs,
            health.complete_jobs,
            health.failed_jobs
        ),
        (4, 1, 1, 1, 1)
    );
    assert!(!format!("{health:?}").contains("private-"));
}

#[test]
fn health_marks_retained_capacity_without_calling_it_a_storage_fault() {
    let limits = SchedulerLimits { max_jobs: 1, ..SchedulerLimits::default() };
    let scheduler = recovered(limits, vec![job("J-000000", JobState::Complete)]);
    assert!(!scheduler.health().accepting_submissions);
    assert!(!scheduler.health().shutdown_requested);
    assert!(scheduler.health().storage_fault.is_none());
}

#[test]
fn rejected_admission_latches_fault_without_consuming_id_or_record() {
    let mut scheduler = fresh();
    let plan = scheduler.plan_submit("/project", "H", ZERO).unwrap();
    let result = scheduler.commit_submit(plan, Err(failed(false)));
    assert!(matches!(result, Err(DaemonError::Io(_))));
    let health = scheduler.health();
    assert_eq!(health.snapshot_bytes_reserved, 0);
    assert_eq!(health.retained_jobs, 0);
    assert_eq!(health.storage_fault.unwrap().phase, PersistencePhase::Admission);
    assert!(!health.accepting_submissions);
    assert!(matches!(submit(&mut scheduler, "next"), Err(DaemonError::Shutdown)));
}

#[test]
fn uncertain_admission_reserves_id_and_bytes_and_exposes_installed_flag() {
    let mut scheduler = fresh();
    let plan = scheduler.plan_submit("/project", "H", ZERO).unwrap();
    let result = scheduler.commit_submit(plan, Err(failed(true)));
    assert!(matches!(result, Err(DaemonError::DurabilityUncertain { .. })));
    let health = scheduler.health();
    assert_eq!(health.retained_jobs, 1);
    assert!(health.snapshot_bytes_reserved > 0);
    assert!(health.storage_fault.unwrap().snapshot_installed);
    assert!(scheduler.plan_claim().is_none());
}

#[test]
fn start_failure_never_dequeues_or_authorizes_dispatch() {
    for installed in [false, true] {
        let mut scheduler =
            recovered(SchedulerLimits::default(), vec![job("J-000000", JobState::Queued)]);
        let claim = scheduler.plan_claim().unwrap();
        assert!(claim.snapshot.contains("\"running\""));
        let claimed = scheduler.commit_claim(claim, Err(failed(installed)));
        assert!(claimed.is_none());
        assert_eq!(scheduler.list_jobs()[0].state, JobState::Queued);
        let fault = scheduler.health().storage_fault.unwrap();
        assert_eq!(fault.phase, PersistencePhase::Start);
        assert_eq!(fault.snapshot_installed, installed);
        assert!(scheduler.is_shutting_down());
        assert!(scheduler.plan_claim().is_none());
    }
}

#[test]
fn successful_claim_persists_running_before_dequeue() {
    let mut scheduler =
        recovered(SchedulerLimits::default(), vec![job("J-000000", JobState::Queued)]);
    let claim = scheduler.plan_claim().unwrap();
    assert_eq!(
        claim.snapshot,
        snapshot_text(&[job("J-000000", JobState::Running)])
    );
    assert_eq!(scheduler.list_jobs()[0].state, JobState::Queued);
    assert!(scheduler.commit_claim(claim, Ok(())).is_some());
    assert_eq!(scheduler.list_jobs()[0].state, JobState::Running);
    assert!(scheduler.health().storage_fault.is_none());
}

fn with_running_job() -> Scheduler {
    let mut scheduler =
        recovered(SchedulerLimits::default(), vec![job("J-000000", JobState::Queued)]);
    let claim = scheduler.plan_claim().unwrap();
    scheduler.commit_claim(claim, Ok(())).unwrap();
    scheduler
}

#[test]
fn completion_failure_blocks_notification_and_further_writes() {
    for installed in [false, true] {
        let mut scheduler = with_running_job();
        let text = scheduler.plan_finish("J-000000", JobState::Complete).unwrap();
        assert!(text.contains("\"complete\""));
        assert!(!scheduler.commit_finish("J-000000", Err(failed(installed))));
        assert!(scheduler.is_shutting_down());
        assert_eq!(scheduler.list_jobs()[0].state, JobState::Complete);
        let fault = scheduler.health().storage_fault.unwrap();
        assert_eq!(fault.phase, PersistencePhase::Completion);
        assert_eq!(fault.snapshot_installed, installed);
        assert!(!format!("{fault:?}").contains("private-path"));
        assert_eq!(scheduler.plan_finish("J-000000", JobState::Queued), None);
    }
}

#[test]
fn successful_completion_is_durable_and_normal_shutdown_can_requeue() {
    let mut scheduler = with_running_job();
    let text = scheduler.plan_finish("J-000000", JobState::Complete).unwrap();
    assert_eq!(text, snapshot_text(&[job("J-000000", JobState::Complete)]));
    assert!(scheduler.commit_finish("J-000000", Ok(())));
    scheduler.request_shutdown();
    let text = scheduler.plan_finish("J-000000", JobState::Queued).unwrap();
    assert_eq!(text, snapshot_text(&[job("J-000000", JobState::Queued)]));
    assert!(scheduler.commit_finish("J-000000", Ok(())));
}

#[test]
fn first_storage_failure_is_not_overwritten_by_later_failures() {
    let mut scheduler = with_running_job();
    scheduler.latch_storage_fault(PersistencePhase::Start, "J-000000", &failed(true));
    let first = scheduler.health().storage_fault;
    scheduler.latch_storage_fault(PersistencePhase::Completion, "J-000001", &failed(false));
    assert_eq!(scheduler.health().storage_fault, first);
}

#[test]
fn a_job_is_one_line_of_json() {
    let mut quoted = job("J-000007", JobState::Failed);
    quoted.project_dir = "/a \"b\"\n\u{1}\u{e9}".to_owned();
    let text = job_text(&quoted);
    assert_eq!(
        text,
        "{\"job_id\":\"J-000007\",\"project_dir\":\"/a \\\"b\\\"\\n\\u0001\u{e9}\",\
         \"harness_id\":\"private-harness-do-not-export\",\"time_budget_secs\":1,\
         \"state\":\"failed\"}"
    );
    let value: serde_json::Value = serde_json::from_str(&text).unwrap();
    assert_eq!(value["project_dir"], "/a \"b\"\n\u{1}\u{e9}");
    assert_eq!(snapshot_text(&[quoted]), format!("{text}\n"));
}

#[test]
fn every_state_of_a_job_fits_its_reserve() {
    for state in [JobState::Queued, JobState::Running, JobState::Complete, JobState::Failed] {
        let one = job("J-000000", state);
        let reserve = reserved_job_bytes(&job("J-000000", JobState::Queued)).unwrap();
        assert!(job_text(&one).len() < reserve, "{}", state.as_word());
        assert!(snapshot_text(&[one]).len() <= reserve);
    }
}

#[test]
fn jobs_are_numbered() {
    assert_eq!(job_id_text(7), "J-000007");
    assert_eq!(job_id_text(12345678), "J-12345678");
    assert_eq!(number_of_job("J-000007"), Some(7));
    assert_eq!(number_of_job("J-7"), Some(7));
    assert_eq!(number_of_job("J-"), None);
    assert_eq!(number_of_job("J-+7"), None);
    assert_eq!(number_of_job("K-7"), None);
    assert_eq!(number_of_job("J-18446744073709551616"), None);
}

#[test]
fn the_last_empty_line_is_no_record() {
    assert_eq!(snapshot_lines(b"a\nb\n"), vec![b"a".to_vec(), b"b".to_vec()]);
    assert_eq!(snapshot_lines(b"a\n\nb"), vec![b"a".to_vec(), vec![], b"b".to_vec()]);
    assert!(snapshot_lines(b"").is_empty());
}

#[test]
fn jobs_are_listed_in_pages() {
    let jobs: Vec<FuzzJob> =
        (0..5).map(|n| job(&job_id_text(n), JobState::Complete)).collect();
    let scheduler = recovered(SchedulerLimits::default(), jobs.clone());
    assert_eq!(scheduler.list_jobs_page(1, 2), jobs[1..3].to_vec());
    assert_eq!(scheduler.list_jobs_page(4, 2), jobs[4..].to_vec());
    assert!(scheduler.list_jobs_page(9, 2).is_empty());
}

#[test]
fn a_worker_goes_on_only_after_a_recorded_end() {
    let done = JobOutcome::Finished(JobState::Complete);
    assert_eq!(after_job(done, true, false, true), WorkerStep::Notify);
    assert_eq!(after_job(done, true, false, false), WorkerStep::Continue);
    assert_eq!(after_job(done, false, false, true), WorkerStep::Stop);
    assert_eq!(after_job(done, true, true, true), WorkerStep::Stop);
    assert_eq!(after_job(JobOutcome::Interrupted, true, false, true), WorkerStep::Stop);
    assert_eq!(JobOutcome::Interrupted.final_state(), JobState::Queued);
    assert_eq!(done.final_state(), JobState::Complete);
}

#[test]
fn the_program_is_told_its_budget() {
    let mut one = job("J-000000", JobState::Running);
    assert_eq!(
        job_arguments(&one),
        vec![
            "fuzz",
            "private-project-do-not-export",
            "--harness",
            "private-harness-do-not-export",
            "--time",
            "1s"
        ]
    );
    one.time_budget_secs = 0;
    assert_eq!(job_arguments(&one).len(), 4);
    assert_eq!(wall_limit(0, GRACE), WallLimit::Unbounded);
    assert_eq!(wall_limit(5, GRACE), WallLimit::Within(TimeSpan { secs: 35, nanos: 0 }));
    assert_eq!(wall_limit(u64::MAX, GRACE), WallLimit::Overflow);
}

#[test]
fn a_child_is_stopped_for_its_time_or_a_shutdown() {
    let success = ChildStatus::Exited { success: true };
    let late = ChildStatus::Running { past_deadline: true };
    let busy = ChildStatus::Running { past_deadline: false };
    assert_eq!(
        supervise(false, success),
        Supervision::End { reap: false, outcome: JobOutcome::Finished(JobState::Complete) }
    );
    assert_eq!(supervise(false, busy), Supervision::Wait);
    assert_eq!(supervise(false, late), Supervision::Expire);
    assert!(matches!(
        supervise(true, busy),
        Supervision::End { outcome: JobOutcome::Interrupted, .. }
    ));
    assert_eq!(expired(false), JobOutcome::Finished(JobState::Failed));
    assert_eq!(expired(true), JobOutcome::Interrupted);
}

#[test]
fn a_notification_names_the_job_and_its_state() {
    let text = webhook_payload(&job("J-000000", JobState::Running), JobState::Complete);
    let value: serde_json::Value = serde_json::from_str(&text).unwrap();
    assert_eq!(value["job_id"], "J-000000");
    assert_eq!(value["state"], "complete");
}

#[test]
fn every_failure_has_a_sentence() {
    assert_eq!(
        DaemonError::DataDirMissing("/d".to_owned()).sentence(),
        "data dir does not exist: /d"
    );
    assert_eq!(
        DaemonError::DataDirInUse("/d".to_owned()).sentence(),
        "scheduler data directory is already owned by another instance: /d"
    );
    assert_eq!(DaemonError::BinMissing("/b".to_owned()).sentence(), "bhf binary not found: /b");
    assert_eq!(DaemonError::Shutdown.sentence(), "scheduler already shut down");
    assert_eq!(DaemonError::IdExhausted.sentence(), "job ID space exhausted");
    assert_eq!(DaemonError::InvalidLimits.sentence(), "invalid scheduler limits");
    assert!(DaemonError::Capacity("queued jobs").sentence().contains("queued jobs"));
    assert_eq!(
        PersistFailure::before(IoError::new("Other", "x")).installed,
        false
    );
    assert_eq!(PersistFailure::after(IoError::new("Other", "x")).installed, true);
}

#[test]
fn what_was_written_down_is_taken_up_again() {
    let mut first = fresh();
    submit(&mut first, "a \"quoted\"\nname").unwrap();
    submit(&mut first, "b").unwrap();
    let claim = first.plan_claim().unwrap();
    let text = claim.snapshot.clone();
    first.commit_claim(claim, Ok(())).unwrap();
    let lines = snapshot_lines(text.as_bytes());
    assert_eq!(lines.len(), 2);
    let rows = first
        .list_jobs()
        .into_iter()
        .zip(&lines)
        .map(|(job, line)| {
            assert_eq!(job_text(&job).as_bytes(), line.as_slice());
            SnapshotRow { length: line.len(), parsed: Ok(job) }
        })
        .collect();
    let again = recover(SchedulerLimits::default(), GRACE, "jobs.jsonl", rows).unwrap_or_else(|e| {
        panic!("{}", e.sentence())
    });
    let states: Vec<JobState> = again.list_jobs().iter().map(|job| job.state).collect();
    assert_eq!(states, vec![JobState::Queued, JobState::Queued]);
    assert_eq!(again.health().snapshot_bytes_reserved, first.health().snapshot_bytes_reserved);
}

#[test]
fn a_deadline_out_of_reach_is_refused() {
    let row = |job: FuzzJob| SnapshotRow { length: 10, parsed: Ok(job) };
    let rows = vec![row(job("J-000000", JobState::Queued)), row(job("J-000001", JobState::Queued))];
    let result =
        judge_recovery(SchedulerLimits::default(), GRACE, "jobs.jsonl", rows, &[true, false]);
    let error = match result {
        Ok(_) => panic!("the second job has no deadline"),
        Err(error) => error,
    };
    assert_eq!(
        error,
        DaemonError::CorruptJobs {
            path: "jobs.jsonl".to_owned(),
            line: 2,
            reason: "invalid job time budget: monotonic deadline overflows".to_owned(),
        }
    );
}

#[test]
fn a_bad_identifier_is_shown_escaped() {
    let mut recovery = Recovery::new(SchedulerLimits::default(), GRACE, "jobs.jsonl");
    let error = recovery.restore(1, Ok(job("J-\"\n", JobState::Complete))).unwrap_err();
    assert_eq!(
        error,
        DaemonError::CorruptJobs {
            path: "jobs.jsonl".to_owned(),
            line: 1,
            reason: "invalid job ID \"J-\\\"\\n\"".to_owned(),
        }
    );
}

#[test]
fn the_clock_is_asked_for_the_budget_and_the_allowance() {
    let grace = TimeSpan { secs: 30, nanos: 7 };
    assert_eq!(wall_span(5, grace), Some(TimeSpan { secs: 35, nanos: 7 }));
    assert_eq!(wall_span(0, grace), Some(grace));
    assert_eq!(wall_span(u64::MAX - 30, grace), Some(TimeSpan { secs: u64::MAX, nanos: 7 }));
    assert_eq!(wall_span(u64::MAX - 29, grace), None);
}

#[test]
fn a_recovery_takes_up_whatever_lines_it_accepts() {
    let row = |job: FuzzJob| SnapshotRow { length: 10, parsed: Ok(job) };
    let rows = vec![
        row(job("J-7", JobState::Running)),
        row(job("J-000041", JobState::Complete)),
        row(job("J-0000003", JobState::Queued)),
    ];
    let mut scheduler = match recover(SchedulerLimits::default(), GRACE, "jobs.jsonl", rows) {
        Ok(scheduler) => scheduler,
        Err(error) => panic!("{}", error.sentence()),
    };
    assert_eq!(
        scheduler.list_jobs(),
        vec![
            job("J-7", JobState::Queued),
            job("J-000041", JobState::Complete),
            job("J-0000003", JobState::Queued),
        ]
    );
    assert_eq!(submit(&mut scheduler, "h"), Ok("J-000042".to_owned()));
    let mut empty = match recover(SchedulerLimits::default(), GRACE, "jobs.jsonl", vec![]) {
        Ok(scheduler) => scheduler,
        Err(error) => panic!("{}", error.sentence()),
    };
    assert_eq!(submit(&mut empty, "h"), Ok("J-000000".to_owned()));
    let twice = vec![row(job("J-7", JobState::Queued)), row(job("J-007", JobState::Complete))];
    assert!(matches!(
        recover(SchedulerLimits::default(), GRACE, "jobs.jsonl", twice),
        Err(DaemonError::CorruptJobs { line: 2, .. })
    ));
}

#[test]
fn pages_one_after_another_make_up_the_list() {
    let jobs: Vec<FuzzJob> =
        (0..5).map(|n| job(&job_id_text(n), JobState::Complete)).collect();
    let scheduler = recovered(SchedulerLimits::default(), jobs.clone());
    let mut all = scheduler.list_jobs_page(0, 2);
    all.extend(scheduler.list_jobs_page(2, 2));
    all.extend(scheduler.list_jobs_page(4, 2));
    all.extend(scheduler.list_jobs_page(6, 2));
    assert_eq!(all, jobs);
    assert_eq!(scheduler.list_jobs(), jobs);
}

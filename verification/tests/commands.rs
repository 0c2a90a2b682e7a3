use bhf::build_stamp::{needs_copy, version_full, what_git_said};
use bhf::pack::{
    archive_line, created_line, keygen_line, signing, summary_code, verify_code, CreateArgs,
    PackSigning, SummaryOutcome,
};
use bhf::report::{
    begin, comparison_line, exit_code, follow, summary_lines, ReportAction, ReportArgs, ReportStep,
    ReportSummary,
};

fn create_args() -> CreateArgs {
    CreateArgs {
        root: ".".to_owned(),
        pack_id: "pack".to_owned(),
        version: None,
        items: vec!["rules:rules.json".to_owned()],
        license: None,
        required_tools: vec![],
        sign_key: Some("label".to_owned()),
        signing_key: None,
        key_id: None,
        out: "out.json".to_owned(),
    }
}

#[test]
fn a_pack_is_signed_with_a_key_and_its_name() {
    let mut args = create_args();
    assert_eq!(signing(&args), PackSigning::Labelled { sign_key: Some("label") });
    args.signing_key = Some("key.der".to_owned());
    assert_eq!(signing(&args), PackSigning::Labelled { sign_key: Some("label") });
    args.key_id = Some("k1".to_owned());
    assert_eq!(
        signing(&args),
        PackSigning::Authenticated { signing_key: "key.der", key_id: "k1" }
    );
    args.signing_key = None;
    args.sign_key = None;
    assert_eq!(signing(&args), PackSigning::Labelled { sign_key: None });
}

#[test]
fn a_verification_succeeds_only_on_what_it_was_told() {
    let shown = |valid, authenticated| SummaryOutcome::Shown { valid, authenticated };
    assert_eq!(verify_code(shown(Some(true), None), false), 0);
    assert_eq!(verify_code(shown(Some(true), None), true), 1);
    assert_eq!(verify_code(shown(Some(true), Some(false)), true), 1);
    assert_eq!(verify_code(shown(Some(true), Some(true)), true), 0);
    assert_eq!(verify_code(shown(Some(false), Some(true)), false), 1);
    assert_eq!(verify_code(shown(None, Some(true)), true), 1);
    assert_eq!(verify_code(SummaryOutcome::Failed, false), 1);
    assert_eq!(verify_code(SummaryOutcome::NotShown, false), 1);
    assert_eq!(summary_code(shown(None, None)), 0);
    assert_eq!(summary_code(shown(Some(true), None)), 0);
    assert_eq!(summary_code(shown(Some(false), None)), 1);
    assert_eq!(summary_code(SummaryOutcome::NotShown), 1);
    assert_eq!(summary_code(SummaryOutcome::Failed), 1);
}

#[test]
fn pack_commands_say_what_they_did() {
    assert_eq!(created_line(Some(12)), "update pack manifest: 12 items");
    assert_eq!(created_line(None), "update pack manifest: 0 items");
    assert_eq!(keygen_line("ab12"), "Ed25519 public key (raw hex): ab12");
    assert_eq!(archive_line("00ff"), "distribution archive sha256: 00ff");
}

fn report_args() -> ReportArgs {
    ReportArgs {
        run: "last".to_owned(),
        findings: "findings".to_owned(),
        out: "reports".to_owned(),
        model: None,
        sarif: false,
        junit: false,
        csv: false,
        collapse_clusters: false,
        baseline: None,
        triage: None,
    }
}

fn steps_of(args: &ReportArgs) -> Vec<ReportStep> {
    let mut steps = vec![];
    let mut action = begin(args);
    while let ReportAction::Take { step } = action {
        steps.push(step);
        action = follow(args, step, None);
    }
    assert_eq!(action, ReportAction::Succeed);
    assert_eq!(exit_code(&action), Some(0));
    steps
}

#[test]
fn the_baseline_is_read_before_the_reports_are_written() {
    let mut args = report_args();
    assert_eq!(steps_of(&args), vec![ReportStep::LoadTriage, ReportStep::WriteReports]);
    args.baseline = Some("old.json".to_owned());
    args.triage = Some("triage.json".to_owned());
    assert_eq!(
        steps_of(&args),
        vec![
            ReportStep::LoadBaseline,
            ReportStep::LoadTriage,
            ReportStep::WriteReports,
            ReportStep::Compare,
        ]
    );
}

#[test]
fn decisions_without_a_baseline_are_refused() {
    let mut args = report_args();
    args.triage = Some("triage.json".to_owned());
    let action = begin(&args);
    assert_eq!(
        action,
        ReportAction::Fail { message: "error: --triage requires --baseline".to_owned() }
    );
    assert_eq!(exit_code(&action), Some(1));
}

#[test]
fn a_step_that_fails_ends_the_command() {
    let mut args = report_args();
    args.baseline = Some("old.json".to_owned());
    assert_eq!(
        follow(&args, ReportStep::LoadBaseline, Some("no such file")),
        ReportAction::Fail { message: "error: no such file".to_owned() }
    );
    assert_eq!(
        follow(&args, ReportStep::Compare, Some("bad report")),
        ReportAction::Fail {
            message: "error: reports generated but comparison failed: bad report".to_owned()
        }
    );
    assert_eq!(exit_code(&begin(&args)), None);
}

#[test]
fn the_report_lists_what_was_written() {
    let summary = ReportSummary {
        run_id: "r1".to_owned(),
        findings_count: 3,
        json_path: "r1.json".to_owned(),
        markdown_path: "r1.md".to_owned(),
        sarif_path: Some("r1.sarif".to_owned()),
        junit_path: None,
        csv_path: Some("r1.csv".to_owned()),
    };
    assert_eq!(
        summary_lines(&summary),
        vec!["REPORT run=r1 findings=3 json=r1.json markdown=r1.md", "SARIF r1.sarif", "CSV r1.csv"]
    );
    assert_eq!(comparison_line("r1.comparison.md"), "COMPARISON r1.comparison.md");
}

#[test]
fn a_build_is_stamped_with_its_version() {
    assert_eq!(version_full(true, Some("v0.2.2-3-gc307502"), Some("0.2.3")), "v0.2.3");
    assert_eq!(version_full(false, Some("v0.2.2-3-gc307502"), Some("0.2.3")), "v0.2.2-3-gc307502");
    assert_eq!(version_full(false, None, Some("0.2.3")), "0.2.3");
    assert_eq!(version_full(false, None, None), "unknown");
    assert_eq!(version_full(true, None, None), "vunknown");
}

#[test]
fn version_control_counts_only_where_it_says_something() {
    assert_eq!(what_git_said(true, b" c307502\n").as_deref(), Some("c307502"));
    assert_eq!(what_git_said(false, b"c307502\n"), None);
    assert_eq!(what_git_said(true, b" \n"), None);
    assert_eq!(what_git_said(true, &[0xff, 0xfe]), None);
}

#[test]
fn a_copy_is_made_where_the_times_differ() {
    assert!(needs_copy(Some(Some(1)), Some(Some(2))));
    assert!(!needs_copy(Some(Some(1)), Some(Some(1))));
    assert!(needs_copy(Some(None), Some(Some(1))));
    assert!(!needs_copy(Some(None), Some(None)));
    assert!(needs_copy(Some(Some(1)), None));
    assert!(!needs_copy(None, Some(Some(1))));
    assert!(!needs_copy(None, None));
}

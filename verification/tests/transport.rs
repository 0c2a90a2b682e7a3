use bhf::scheduler::TimeSpan;
use bhf::transport_campaign::{
    failure_code, is_novel, load_seeds, seed_limit, should_stop, should_use_transport, truncate,
    Campaign, CampaignAction, CampaignFailure, DEFAULT_SEED,
};
use bhf::transport_fault::{
    classify_fault, crash_report, fault_report, outcome_finding, ExitKind, Fault, FaultKind,
    RunOutcome, NULL_PAGE_LIMIT,
};
use bhf::transport_spec::{
    parse_coverage_map, parse_host_port, parse_int, TransportPlan, TransportSpecError,
    DEFAULT_SNAPSHOT_TAG,
};

#[test]
fn transport_path_is_off_by_default_and_opt_in() {
    // Omitting --target-transport leaves the field None, so `bhf fuzz` takes
    // the existing host libFuzzer/AFL path (should_use_transport == false).
    assert!(
        !should_use_transport(None),
        "the default flow must not route through the transport path"
    );
    // Passing it opts in.
    assert!(should_use_transport(Some("agent:tcp:127.0.0.1:9999")));
}

#[test]
fn parses_agent_tcp_spec() {
    let plan = TransportPlan::parse("agent:tcp:127.0.0.1:9999", None).unwrap();
    match plan {
        TransportPlan::AgentTcp { host, port } => {
            assert_eq!(host, "127.0.0.1");
            assert_eq!(port, 9999);
        }
        other => panic!("expected AgentTcp, got {other:?}"),
    }
}

#[test]
fn parses_agent_serial_spec() {
    let plan = TransportPlan::parse("agent:serial:/dev/ttyUSB0", None).unwrap();
    match plan {
        TransportPlan::AgentSerial { path } => {
            assert_eq!(path, "/dev/ttyUSB0");
        }
        other => panic!("expected AgentSerial, got {other:?}"),
    }
}

#[test]
fn parses_gdb_spec_with_coverage_map() {
    let map_spec = "input=0x1000,ring=0x4000,write=0x5000,wrapped=0x5100,cap=65536";
    let plan = TransportPlan::parse("gdb:127.0.0.1:1234", Some(map_spec)).unwrap();
    match plan {
        TransportPlan::Gdb { host, port, map } => {
            assert_eq!(host, "127.0.0.1");
            assert_eq!(port, 1234);
            assert_eq!(map.input_address, 0x1000);
            assert_eq!(map.ring_address, 0x4000);
            assert_eq!(map.ring_write_address, 0x5000);
            assert_eq!(map.ring_wrapped_address, 0x5100);
            assert_eq!(map.ring_capacity, 65536);
        }
        other => panic!("expected Gdb, got {other:?}"),
    }
}

#[test]
fn parses_qemu_system_spec_with_default_and_explicit_snapshot() {
    let map_spec = "input=4096,ring=16384,write=20480,wrapped=20736,cap=32";
    // Default snapshot tag.
    let plan = TransportPlan::parse(
        "qemu-system:qmp=127.0.0.1:4444,gdb=127.0.0.1:1234",
        Some(map_spec),
    )
    .unwrap();
    match plan {
        TransportPlan::QemuSystem {
            qmp_host,
            qmp_port,
            gdb_host,
            gdb_port,
            map,
            snapshot_tag,
        } => {
            assert_eq!(qmp_host, "127.0.0.1");
            assert_eq!(qmp_port, 4444);
            assert_eq!(gdb_host, "127.0.0.1");
            assert_eq!(gdb_port, 1234);
            assert_eq!(map.input_address, 4096);
            assert_eq!(map.ring_capacity, 32);
            assert_eq!(snapshot_tag, DEFAULT_SNAPSHOT_TAG);
        }
        other => panic!("expected QemuSystem, got {other:?}"),
    }
    // Explicit snapshot tag is honored.
    let plan = TransportPlan::parse(
        "qemu-system:qmp=h:1,gdb=h:2,snapshot=my-baseline",
        Some(map_spec),
    )
    .unwrap();
    match plan {
        TransportPlan::QemuSystem { snapshot_tag, .. } => {
            assert_eq!(snapshot_tag, "my-baseline");
        }
        other => panic!("expected QemuSystem, got {other:?}"),
    }
}

#[test]
fn empty_spec_is_a_descriptive_error() {
    let error = TransportPlan::parse("", None).unwrap_err();
    assert!(matches!(error, TransportSpecError::Empty), "{error:?}");
    assert!(error.sentence().contains("empty"));
}

#[test]
fn whitespace_only_spec_is_empty_error() {
    assert!(matches!(
        TransportPlan::parse("   ", None).unwrap_err(),
        TransportSpecError::Empty
    ));
}

#[test]
fn unknown_agent_channel_is_descriptive() {
    let error = TransportPlan::parse("agent:bogus", None).unwrap_err();
    let message = error.sentence();
    assert!(
        message.contains("unknown agent channel") && message.contains("bogus"),
        "message: {message}"
    );
}

#[test]
fn unknown_backend_is_descriptive() {
    let error = TransportPlan::parse("carrierpigeon:host:1", None).unwrap_err();
    match error {
        TransportSpecError::UnknownBackend { backend } => assert_eq!(backend, "carrierpigeon"),
        other => panic!("expected UnknownBackend, got {other:?}"),
    }
}

#[test]
fn agent_tcp_missing_port_is_descriptive() {
    let error = TransportPlan::parse("agent:tcp:localhost", None).unwrap_err();
    let message = error.sentence();
    assert!(message.contains("HOST:PORT"), "message: {message}");
}

#[test]
fn agent_tcp_zero_port_is_rejected() {
    let error = TransportPlan::parse("agent:tcp:localhost:0", None).unwrap_err();
    assert!(error.sentence().contains("port"), "{error:?}");
}

#[test]
fn agent_serial_empty_path_is_descriptive() {
    let error = TransportPlan::parse("agent:serial:", None).unwrap_err();
    assert!(
        error.sentence().contains("device path is empty"),
        "{error:?}"
    );
}

#[test]
fn gdb_without_coverage_map_is_descriptive() {
    let error = TransportPlan::parse("gdb:127.0.0.1:1234", None).unwrap_err();
    match error {
        TransportSpecError::MissingCoverageMap { backend } => assert_eq!(backend, "gdb"),
        other => panic!("expected MissingCoverageMap, got {other:?}"),
    }
}

#[test]
fn agent_with_coverage_map_is_rejected() {
    let error = TransportPlan::parse(
        "agent:tcp:h:1",
        Some("input=0,ring=0,write=0,wrapped=0,cap=1"),
    )
    .unwrap_err();
    assert!(
        matches!(error, TransportSpecError::UnexpectedCoverageMap),
        "{error:?}"
    );
}

#[test]
fn coverage_map_bad_integer_is_descriptive() {
    let error = TransportPlan::parse(
        "gdb:h:1",
        Some("input=notanumber,ring=0,write=0,wrapped=0,cap=1"),
    )
    .unwrap_err();
    match error {
        TransportSpecError::Field { field, value } => {
            assert_eq!(field, "input");
            assert_eq!(value, "notanumber");
        }
        other => panic!("expected Field error, got {other:?}"),
    }
}

#[test]
fn coverage_map_missing_key_is_descriptive() {
    // No `cap`.
    let error =
        TransportPlan::parse("gdb:h:1", Some("input=0,ring=0,write=0,wrapped=0")).unwrap_err();
    match error {
        TransportSpecError::MissingMapKey { key } => assert_eq!(key, "cap"),
        other => panic!("expected MissingMapKey, got {other:?}"),
    }
}

#[test]
fn coverage_map_unknown_key_is_descriptive() {
    let error = TransportPlan::parse(
        "gdb:h:1",
        Some("input=0,ring=0,write=0,wrapped=0,cap=1,bogus=2"),
    )
    .unwrap_err();
    match error {
        TransportSpecError::UnknownMapKey { key } => assert_eq!(key, "bogus"),
        other => panic!("expected UnknownMapKey, got {other:?}"),
    }
}

#[test]
fn qemu_missing_qmp_key_is_descriptive() {
    let error = TransportPlan::parse(
        "qemu-system:gdb=h:2",
        Some("input=0,ring=0,write=0,wrapped=0,cap=1"),
    )
    .unwrap_err();
    assert!(error.sentence().contains("qmp"), "{error:?}");
}

#[test]
fn each_fault_kind_maps_to_the_expected_rule_and_cwe() {
    // (fault, expected rule id, a token expected in `kind`).
    let cases: Vec<(Fault, &str, &str)> = vec![
        (
            Fault::new(FaultKind::CpuException),
            "BHF-210",
            "cpu-exception",
        ),
        // MMU/MPU trap at a real address: unlocalized memory-bounds crash.
        (
            Fault {
                kind: FaultKind::MemoryProtection,
                address: Some(0x2000_4000),
                detail: "MPU region 3".to_owned(),
            },
            "BHF-210",
            "memory-protection",
        ),
        // MMU/MPU trap at the null page: a NULL-pointer dereference.
        (
            Fault {
                kind: FaultKind::MemoryProtection,
                address: Some(0x8),
                detail: String::new(),
            },
            "BHF-206",
            "null-pointer",
        ),
        (
            Fault::new(FaultKind::Watchdog),
            "BHF-210",
            "watchdog",
        ),
        (
            Fault::new(FaultKind::AssertionPanic),
            "BHF-210",
            "assertion",
        ),
        (
            Fault::new(FaultKind::StackOverflow),
            "BHF-207",
            "stack-overflow",
        ),
        (
            Fault::new(FaultKind::Timeout),
            "BHF-210",
            "timeout",
        ),
        (
            Fault::new(FaultKind::Other(4242)),
            "BHF-210",
            "target-fault-4242",
        ),
    ];

    for (fault, expected_rule, kind_token) in cases {
        let class = classify_fault(&fault);
        assert_eq!(class.rule_id, expected_rule, "rule id for {:?}", fault.kind);
        assert!(
            class.kind.contains(kind_token),
            "kind `{}` for {:?} must contain `{kind_token}`",
            class.kind,
            fault.kind
        );

        let report = fault_report(&fault);
        // A replayable finding record: a real catalog rule, no phantom sanitizer
        // frames, and an informative message.
        assert_eq!(report.rule_id, expected_rule, "report rule for {fault:?}");
        assert!(report.stack.is_empty(), "undiagnosed fault has no frames");
        assert!(
            report.message.contains("reachable crash"),
            "message: {}",
            report.message
        );
    }
}

#[test]
fn fault_report_carries_address_and_detail() {
    let fault = Fault {
        kind: FaultKind::CpuException,
        address: Some(0xDEAD_BEEF),
        detail: "undefined instruction @ vector 3".to_owned(),
    };
    let report = fault_report(&fault);
    assert!(report.message.contains("0xdeadbeef"), "{}", report.message);
    assert!(
        report.message.contains("undefined instruction @ vector 3"),
        "{}",
        report.message
    );
}

#[test]
fn outcome_finding_covers_faultless_crash_and_timeout() {
    assert!(outcome_finding(&RunOutcome::clean(vec![1, 2])).is_none());

    let bare_crash = RunOutcome {
        exit: ExitKind::Crash,
        coverage_edges: Vec::new(),
        fault: None,
        stdout: Vec::new(),
    };
    let report = outcome_finding(&bare_crash).expect("faultless crash is still a finding");
    assert_eq!(report.rule_id, "BHF-210");

    let bare_timeout = RunOutcome {
        exit: ExitKind::Timeout,
        coverage_edges: Vec::new(),
        fault: None,
        stdout: Vec::new(),
    };
    let report = outcome_finding(&bare_timeout).expect("faultless timeout is still a finding");
    assert_eq!(report.rule_id, "BHF-210");
}

#[test]
fn mock_agent_faults_classify_through_the_transport() {
    let faults = [
        (FaultKind::CpuException, "BHF-210"),
        (FaultKind::MemoryProtection, "BHF-210"),
        (FaultKind::Watchdog, "BHF-210"),
        (FaultKind::AssertionPanic, "BHF-210"),
        (FaultKind::StackOverflow, "BHF-207"),
        (FaultKind::Timeout, "BHF-210"),
        (FaultKind::Other(7), "BHF-210"),
    ];
    for (kind, expected_rule) in faults {
        let outcome = crashed(Fault {
            kind,
            address: Some(0x2000_0000),
            detail: format!("{kind:?}"),
        });
        let report = outcome_finding(&outcome).expect("a crash outcome is a finding");
        assert_eq!(report.rule_id, expected_rule, "rule for {kind:?}");
    }
}

#[test]
fn the_null_page_ends_at_its_limit() {
    let at = |address: u64| {
        let fault = Fault {
            kind: FaultKind::MemoryProtection,
            address: Some(address),
            detail: String::new(),
        };
        classify_fault(&fault).rule_id
    };
    assert_eq!(at(0), "BHF-206");
    assert_eq!(at(NULL_PAGE_LIMIT), "BHF-206");
    assert_eq!(at(NULL_PAGE_LIMIT + 1), "BHF-210");
    let nowhere = Fault::new(FaultKind::MemoryProtection);
    assert_eq!(classify_fault(&nowhere).rule_id, "BHF-210");
}

#[test]
fn a_report_has_no_frames() {
    let report = crash_report("BHF-210", "kind".to_owned(), "message".to_owned());
    assert!(report.stack.is_empty());
    assert_eq!(report.kind, "kind");
    assert_eq!(report.message, "message");
}

#[test]
fn labels_specify_their_transport() {
    for spec in ["agent:tcp:127.0.0.1:9999", "agent:serial:/dev/ttyUSB0"] {
        let plan = TransportPlan::parse(spec, None).unwrap();
        assert_eq!(plan.label(), spec);
        assert_eq!(TransportPlan::parse(&plan.label(), None).unwrap(), plan);
    }
    let map = "input=0x10,ring=2,write=3,wrapped=4,cap=5";
    let plan = TransportPlan::parse("gdb:h:1", Some(map)).unwrap();
    assert_eq!(TransportPlan::parse(&plan.label(), Some(map)).unwrap(), plan);
    let guest = TransportPlan::parse("qemu-system:qmp=h:1,gdb=h:2", Some(map)).unwrap();
    assert!(guest.label().starts_with("qemu-system:"), "{}", guest.label());
}

#[test]
fn numbers_are_decimal_or_hexadecimal() {
    assert_eq!(parse_int("f", "0x1F"), Ok(31));
    assert_eq!(parse_int("f", "31"), Ok(31));
    assert_eq!(
        parse_int("f", "0x"),
        Err(TransportSpecError::Field { field: "f".to_owned(), value: "0x".to_owned() })
    );
    assert!(parse_int("f", "18446744073709551616").is_err());
    assert_eq!(parse_host_port("gdb", "gdb:h:1", "h:1"), Ok(("h".to_owned(), 1)));
    assert!(parse_host_port("gdb", "gdb:h:65536", "h:65536").is_err());
    assert!(parse_host_port("gdb", "gdb::1", ":1").is_err());
    assert!(parse_coverage_map("input=0,ring=0,write=0,wrapped=0,cap=1").is_ok());
}

#[test]
fn every_error_has_a_sentence() {
    let spec = |spec: &str, map: Option<&str>| TransportPlan::parse(spec, map).unwrap_err().sentence();
    assert!(spec("", None).contains("empty"));
    assert!(spec("pigeon:x", None).contains("pigeon"));
    assert!(spec("gdb:h:1", None).contains("gdb"));
    assert!(spec("gdb:h:1", Some("input=x")).contains("input"));
    assert!(spec("gdb:h:1", Some("bogus=1")).contains("bogus"));
    assert!(spec("gdb:h:1", Some("input=1")).contains("ring"));
    assert!(spec("gdb:h", Some("input=0,ring=0,write=0,wrapped=0,cap=1")).contains("HOST:PORT"));
    let outside = TransportSpecError::Transport { reason: "invalid snapshot tag".to_owned() };
    assert!(outside.sentence().contains("snapshot tag"));
}

fn span(secs: u64) -> TimeSpan {
    TimeSpan { secs, nanos: 0 }
}

fn crashed(fault: Fault) -> RunOutcome {
    RunOutcome {
        exit: ExitKind::Crash,
        coverage_edges: Vec::new(),
        fault: Some(fault),
        stdout: Vec::new(),
    }
}

fn drive(mut campaign: Campaign, script: Vec<(RunOutcome, bool)>) -> Campaign {
    let mut script = script.into_iter();
    loop {
        match campaign.next(span(0)) {
            CampaignAction::Finish => return campaign,
            CampaignAction::Select => campaign.selected(Some(0)),
            CampaignAction::RunSeed { .. } | CampaignAction::RunChild => {
                let (outcome, novel) = script.next().expect("no more inputs than responses");
                let step = campaign.ran(&outcome, novel);
                if let Some(report) = step.finding {
                    campaign.written(format!("F-{}", report.kind));
                }
            }
        }
    }
}

#[test]
fn loop_folds_coverage_retains_new_edge_seed_and_writes_a_fault_finding() {
    let fault = Fault {
        kind: FaultKind::MemoryProtection,
        address: Some(0x2000_4000),
        detail: "MPU region 3".to_owned(),
    };
    let script = vec![
        (RunOutcome::clean(vec![10, 11]), true),
        (RunOutcome::clean(vec![10, 11, 12]), true),
        (crashed(fault), false),
    ];
    let summary = drive(Campaign::new(1, 3, None, None), script).summary();
    assert_eq!(summary.executions, 3, "must stop at the iteration budget");
    assert_eq!(summary.corpus_new, 1, "exactly the new-edge mutation is retained: {summary:?}");
    assert_eq!(summary.crashes, 1, "one crash outcome seen");
    assert_eq!(summary.findings.len(), 1, "one finding emitted: {summary:?}");
    assert_eq!(summary.seeds, 1);
}

#[test]
fn loop_terminates_immediately_on_a_zero_time_budget() {
    let summary = drive(Campaign::new(1, 1_000, Some(span(0)), None), vec![]).summary();
    assert_eq!(summary.executions, 0, "zero-budget run does nothing");
    assert!(summary.findings.is_empty());
}

#[test]
fn loop_stops_after_the_requested_distinct_finding_count() {
    let script = vec![
        (crashed(Fault::new(FaultKind::StackOverflow)), true),
        (crashed(Fault::new(FaultKind::CpuException)), true),
    ];
    let summary = drive(Campaign::new(1, 2, None, Some(1)), script).summary();
    assert_eq!(summary.findings.len(), 1, "{summary:?}");
    assert_eq!(summary.executions, 1, "stops as soon as the target is met");
}

#[test]
fn duplicate_fault_classes_collapse_to_one_finding() {
    let script = vec![
        (crashed(Fault::new(FaultKind::StackOverflow)), true),
        (crashed(Fault::new(FaultKind::StackOverflow)), true),
    ];
    let summary = drive(Campaign::new(1, 2, None, None), script).summary();
    assert_eq!(summary.executions, 2);
    assert_eq!(summary.crashes, 2, "both crash outcomes are counted");
    assert_eq!(summary.findings.len(), 1, "same fault class -> one finding: {summary:?}");
}

#[test]
fn a_campaign_ends_where_no_member_is_left() {
    let mut campaign = Campaign::new(0, 10, None, None);
    assert_eq!(campaign.next(span(0)), CampaignAction::Select);
    campaign.selected(None);
    assert_eq!(campaign.next(span(0)), CampaignAction::Finish);
    assert_eq!(campaign.next(span(0)), CampaignAction::Finish);
}

#[test]
fn budgets_stop_a_campaign() {
    assert!(!should_stop(0, 1, span(0), None, 0, None));
    assert!(should_stop(1, 1, span(0), None, 0, None));
    assert!(should_stop(0, 1, span(5), Some(span(5)), 0, None));
    assert!(!should_stop(0, 1, span(4), Some(span(5)), 0, None));
    assert!(should_stop(0, 1, span(0), None, 2, Some(2)));
    assert!(!should_stop(0, 1, span(0), None, 1, Some(2)));
}

#[test]
fn seeds_are_cut_and_never_missing() {
    assert_eq!(seed_limit(0), 1);
    assert_eq!(truncate(vec![1, 2, 3], 2), vec![1, 2]);
    assert_eq!(load_seeds(&[], vec![], 4096), vec![DEFAULT_SEED.as_bytes().to_vec()]);
    assert_eq!(load_seeds(&[], vec![], 3), vec![b"BHF".to_vec()]);
    assert_eq!(
        load_seeds(&["abc".to_owned()], vec![vec![7, 8]], 2),
        vec![b"ab".to_vec(), vec![7, 8]]
    );
}

#[test]
fn new_bits_or_exceptions_are_new_coverage() {
    assert!(is_novel(1, 0));
    assert!(is_novel(0, 1));
    assert!(!is_novel(0, 0));
    assert_eq!(failure_code(CampaignFailure::Transport), 2);
    assert_eq!(failure_code(CampaignFailure::Seeds), 3);
    assert_eq!(failure_code(CampaignFailure::Run), 1);
    assert_eq!(failure_code(CampaignFailure::Summary), 1);
}

#[test]
fn labels_are_specifications_of_what_was_planned() {
    let map = "input=1,ring=2,write=3,wrapped=4,cap=5";
    for (spec, map, label) in [
        ("  agent:tcp:fe80::1:+80 ", None, "agent:tcp:fe80::1:80"),
        ("agent:tcp::::007", Some(" "), "agent:tcp::::7"),
        ("\tagent:serial: /dev/tty USB0\n", None, "agent:serial: /dev/tty USB0"),
        ("gdb:h:0065535", Some(map), "gdb:h:65535"),
    ] {
        let plan = TransportPlan::parse(spec, map).unwrap();
        assert_eq!(plan.label(), label);
        assert_eq!(TransportPlan::parse(label, map), Ok(plan));
    }
}

#[test]
fn planned_hosts_and_ports_can_be_connected_to() {
    let map = Some("input=1,ring=2,write=3,wrapped=4,cap=5");
    for spec in ["agent:tcp:h:0", "agent:tcp::80", "agent:tcp:h:65536", "agent:tcp:h:"] {
        assert!(matches!(
            TransportPlan::parse(spec, None),
            Err(TransportSpecError::Malformed { .. })
        ));
    }
    for spec in ["gdb:h:0", "gdb::1", "qemu-system:qmp=h:0,gdb=h:1", "qemu-system:qmp=h:1,gdb=:1"] {
        assert!(matches!(
            TransportPlan::parse(spec, map),
            Err(TransportSpecError::Malformed { .. })
        ));
    }
    assert_eq!(TransportPlan::parse(" \t\n", None), Err(TransportSpecError::Empty));
    assert_eq!(TransportPlan::parse("", map), Err(TransportSpecError::Empty));
    assert_ne!(TransportPlan::parse("gdb:h:1", Some(",")), Err(TransportSpecError::Empty));
}

use bhf::tsan::{
    add_replay, classify_race, is_noise_frame, is_tsan_mapping_failure, looks_like_source,
    parse_locator, tsan_cluster, tsan_finding, tsan_finding_id, RaceAttribution, RaceEvidence,
    RaceFrame, RaceTarget, Replay, ReplayStep, RunEvent, TsanFinding, TsanReplay, MAX_INPUTS,
    TSAN_MAPPING_FAILURE_LIMIT, TSAN_RUN_RETRIES, TSAN_TIMEOUT_LIMIT,
};

#[test]
fn classifies_a_target_frame_skipping_scaffolding_and_module_suffix() {
    let hdir = "/w/harnesses/H-C0001";
    // TSan frames carry a trailing `(module+0xoffset)` the parser must skip.
    let report = "\
==================\n\
WARNING: ThreadSanitizer: data race (pid=1)\n\
  Write of size 4 at 0x7b04 by thread T1:\n\
#0 worker /proj/src/race.c:12:7 (main_tsan+0x4a1b2)\n\
#1 bhf_run_one /w/harnesses/H-C0001/main.c:44:13 (main_tsan+0x1000)\n\
  Previous read of size 4 at 0x7b04 by main thread:\n\
#0 main /w/harnesses/H-C0001/main.c:531:5 (main_tsan+0x2000)\n";
    assert_eq!(
        classify_race(report, hdir),
        RaceAttribution::Target("/proj/src/race.c".to_owned(), 12)
    );
}

#[test]
fn drops_report_with_only_system_and_driver_frames() {
    let hdir = "/w/harnesses/H-C0002";
    let report = "\
WARNING: ThreadSanitizer: data race (pid=1)\n\
#0 memcpy /usr/lib/x86_64-linux-gnu/libc.so (libc.so+0x99)\n\
#1 bhf_run_one /w/harnesses/H-C0002/main.c:44:13 (main_tsan+0x1000)\n";
    // Readable and classified: the race is in scaffolding, not the target.
    // This drop is the intended precision/recall trade, NOT the silent one.
    assert_eq!(
        classify_race(report, hdir),
        RaceAttribution::NonTarget
    );
}

#[test]
fn an_unsymbolized_report_is_unresolved_not_non_target() {
    let hdir = "/w/harnesses/H-C0003";
    let report = "\
WARNING: ThreadSanitizer: data race (pid=1)\n\
  Write of size 4 at 0x7b04 by thread T1:\n\
#0 <null> (main_tsan+0x4a1b2)\n\
#1 <null> (main_tsan+0x1000)\n\
  Previous read of size 4 at 0x7b04 by main thread:\n\
#0 <null> (main_tsan+0x2000)\n";
    assert_eq!(
        classify_race(report, hdir),
        RaceAttribution::Unresolved,
        "frames with only module+offset carry no source locator, so nothing \
         can be concluded about where the race is"
    );
}

#[test]
fn locator_rejects_module_offset_and_bare_symbol() {
    assert_eq!(parse_locator("(main_tsan+0x4a1b2)"), None);
    assert_eq!(parse_locator("worker"), None);
    assert_eq!(
        parse_locator("/proj/src/race.c:12:7"),
        Some(("/proj/src/race.c".to_owned(), 12))
    );
    assert_eq!(
        parse_locator("/proj/src/race.c:12"),
        Some(("/proj/src/race.c".to_owned(), 12))
    );
}

#[test]
fn recognizes_only_tsan_runtime_mapping_failures_for_extended_retries() {
    assert!(is_tsan_mapping_failure(
        "FATAL: ThreadSanitizer: unexpected memory mapping 0x123-0x456"
    ));
    assert!(is_tsan_mapping_failure(
        "FATAL: ThreadSanitizer: failed to mmap the shadow memory"
    ));
    assert!(is_tsan_mapping_failure(
        "FATAL: ThreadSanitizer: CHECK failed: sanitizer_allocator_primary64.h"
    ));
    assert!(!is_tsan_mapping_failure(
        "ThreadSanitizer: data race in target.c:12"
    ));
    assert!(!is_tsan_mapping_failure(
        "target process exited with code 2"
    ));
}

const HDIR: &str = "/w/harnesses/H-C0001";

fn printed(success: bool, stderr: &str) -> RunEvent {
    RunEvent::Completed {
        success,
        stderr: stderr.to_owned(),
    }
}

#[test]
fn recovers_after_more_than_legacy_mapping_retry_streak() {
    let mut replay = Replay::new();
    replay.begin_input();
    let failure = "FATAL: ThreadSanitizer: unexpected memory mapping 0x1-0x2\n";
    for _ in 0..20 {
        assert_eq!(replay.after_run(printed(false, failure), HDIR), ReplayStep::Again);
    }
    let race = "WARNING: ThreadSanitizer: data race\n    #0 worker /project/race.c:12:7 (main_tsan+0x1)\n";
    assert_eq!(replay.after_run(printed(false, race), HDIR), ReplayStep::NextInput);
    let (sites, unmeasured, unattributed) = replay.finish();
    assert_eq!(sites, vec![("/project/race.c".to_owned(), 12)]);
    assert_eq!((unmeasured, unattributed), (0, 0));
    assert_eq!(tsan_finding_id(0), "F-TSAN-0000");
}

#[test]
fn a_reported_race_with_no_symbolized_frame_is_counted_not_dropped() {
    let report = "\
==================\n\
WARNING: ThreadSanitizer: data race (pid=1)\n\
  Write of size 4 at 0x7b04 by thread T1:\n\
    #0 <null> (main_tsan+0x4a1b2)\n\
  Previous read of size 4 at 0x7b04 by main thread:\n\
    #0 <null> (main_tsan+0x2000)\n\
==================\n";
    let mut replay = Replay::new();
    replay.begin_input();
    for _ in 0..TSAN_RUN_RETRIES {
        assert_eq!(replay.after_run(printed(false, report), HDIR), ReplayStep::Again);
    }
    assert_eq!(replay.after_run(printed(false, report), HDIR), ReplayStep::NextInput);
    let (sites, unmeasured, unattributed) = replay.finish();
    assert!(sites.is_empty());
    assert_eq!(unattributed, 1);
    assert_eq!(unmeasured, 0);
    let result = TsanReplay { findings: sites.len(), unmeasured, unattributed };
    assert_ne!(result, TsanReplay::default());
}

#[test]
fn an_input_whose_run_never_completes_is_unmeasured_not_clean() {
    let mut replay = Replay::new();
    replay.begin_input();
    let mut attempts = 1;
    while replay.after_run(RunEvent::NeverCompleted, HDIR) == ReplayStep::Again {
        attempts += 1;
    }
    assert_eq!(attempts, TSAN_RUN_RETRIES + 1);
    let (sites, unmeasured, _) = replay.finish();
    assert!(sites.is_empty());
    assert_eq!(unmeasured, 1);
}

#[test]
fn harness_timeout_budget_stops_the_remaining_corpus() {
    let mut replay = Replay::new();
    let mut attempts = 0;
    for _ in 0..(TSAN_TIMEOUT_LIMIT + 10) {
        if !replay.wants_input() {
            break;
        }
        replay.begin_input();
        loop {
            attempts += 1;
            let step = replay.after_run(RunEvent::NeverCompleted, HDIR);
            if step != ReplayStep::Again {
                break;
            }
        }
    }
    assert_eq!(attempts, TSAN_TIMEOUT_LIMIT);
    assert_eq!(replay.finish().1, 4);
}

#[test]
fn a_streak_of_mapping_failures_stops_the_replay() {
    let mut replay = Replay::new();
    replay.begin_input();
    let failure = "ThreadSanitizer: failed to mmap the shadow memory";
    for _ in 1..TSAN_MAPPING_FAILURE_LIMIT {
        assert_eq!(replay.after_run(printed(false, failure), HDIR), ReplayStep::Again);
    }
    assert_eq!(replay.after_run(printed(false, failure), HDIR), ReplayStep::Stop);
}

#[test]
fn a_replay_takes_a_bounded_number_of_inputs() {
    let mut replay = Replay::new();
    let mut taken = 0;
    while replay.wants_input() {
        replay.begin_input();
        assert_eq!(replay.after_run(printed(true, ""), HDIR), ReplayStep::NextInput);
        taken += 1;
    }
    assert_eq!(taken, MAX_INPUTS);
}

#[test]
fn a_site_is_kept_once_and_in_order() {
    let mut replay = Replay::new();
    for site in ["/p/b.c:9", "/p/a.c:3", "/p/b.c:9:2", "/p/a.c:1"] {
        replay.begin_input();
        let report = format!("WARNING: ThreadSanitizer: data race\n    #0 f {site}\n");
        assert_eq!(replay.after_run(printed(false, &report), HDIR), ReplayStep::NextInput);
    }
    assert_eq!(
        replay.finish().0,
        vec![
            ("/p/a.c".to_owned(), 1),
            ("/p/a.c".to_owned(), 3),
            ("/p/b.c".to_owned(), 9),
        ]
    );
}

#[test]
fn an_unexplained_failure_is_repeated_and_left() {
    let mut replay = Replay::new();
    replay.begin_input();
    for _ in 0..TSAN_RUN_RETRIES {
        assert_eq!(replay.after_run(printed(false, "oops"), HDIR), ReplayStep::Again);
    }
    assert_eq!(replay.after_run(printed(false, "oops"), HDIR), ReplayStep::NextInput);
    assert_eq!(replay.finish(), (vec![], 0, 0));
}

#[test]
fn replays_add_up() {
    let a = TsanReplay { findings: 1, unmeasured: 2, unattributed: 3 };
    let b = TsanReplay { findings: 10, unmeasured: 20, unattributed: 30 };
    assert_eq!(add_replay(a, b), TsanReplay { findings: 11, unmeasured: 22, unattributed: 33 });
}

#[test]
fn noise_is_what_lies_outside_the_target() {
    assert!(is_noise_frame("/w/harnesses/H-C0001/main.c", HDIR));
    assert!(is_noise_frame("/usr/include/pthread.h", HDIR));
    assert!(!is_noise_frame("/proj/src/race.c", HDIR));
    assert!(looks_like_source("race.c"));
    assert!(looks_like_source("src/race"));
    assert!(!looks_like_source("worker"));
}

#[test]
fn a_site_has_a_text_and_a_key() {
    let (site, key) = tsan_cluster("race.c", 12);
    assert_eq!(site, "race.c:12");
    assert_eq!(key.len(), 64);
    assert_eq!(
        key,
        "8fd466f208dc2dc6ab96e4fdc3da1a1e56e61b95c7e41ae3030ae570f8fa7a73"
    );
    assert_eq!(tsan_finding_id(12), "F-TSAN-0012");
    assert_eq!(tsan_finding_id(12345), "F-TSAN-12345");
}

#[test]
fn a_race_is_recorded_as_an_unhandled_crash() {
    let finding = tsan_finding("F-TSAN-0012", "H-C0001", "src/race.c", Some("race.c"), 12);
    let (site, key) = tsan_cluster("src/race.c", 12);
    assert_eq!(site, "src/race.c:12");
    assert_eq!(
        finding,
        TsanFinding {
            id: "F-TSAN-0012".to_owned(),
            rule_id: "BHF-556",
            classification: "unhandled",
            severity: "high",
            harness_id: "H-C0001".to_owned(),
            cluster_key_full: key,
            target: RaceTarget {
                name: "race.c".to_owned(),
                source_path: "src/race.c".to_owned(),
                line: 12,
            },
            exception_name: "ThreadSanitizer",
            exception_message: "data race (TSan corpus replay)",
            stack: vec![RaceFrame { function: "", file: "src/race.c".to_owned(), line: 12 }],
            evidence: vec![RaceEvidence { key: "source", value: site }],
            engine: "bhf.dynamic.tsan.replay",
            cwe: vec!["CWE-362"],
            verdict: "likely_reachable",
            confidence: "high",
        }
    );
    assert_eq!(tsan_finding("F", "H", "a/..", None, 1).target.name, "a/..");
}

#[test]
fn a_site_is_located_with_and_without_a_column() {
    for token in ["src/race.c:12", "src/race.c:12:7", "(src/race.c:12)", "((src/race.c:12:7)"] {
        assert_eq!(parse_locator(token), Some(("src/race.c".to_owned(), 12)), "{token}");
    }
    assert_eq!(parse_locator("a:b.c:12"), Some(("a:b.c".to_owned(), 12)));
}

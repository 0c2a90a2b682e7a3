use bhf::fatal_signal::{classify, classify_exit, rule_id, FatalSignal, BHF_WIN_CRASH_EXIT, RULE_ID};

fn by_signal(signal: i32, stderr: &str) -> Option<FatalSignal> {
    classify(None, Some(signal), stderr)
}

#[test]
fn silent_abort_is_a_fatal_signal() {
    let crash = by_signal(6, "").expect("silent SIGABRT");
    assert_eq!(crash.name, "SIGABRT");
    assert_eq!(rule_id(None, Some(6), ""), Some(RULE_ID));
}

#[test]
fn diagnosed_abort_is_an_input_rejection() {
    assert_eq!(by_signal(6, "Assertion failed."), None);
    assert_eq!(by_signal(6, "thread panicked at source"), None);
}

#[test]
fn host_signal_path_still_maps_sigsegv_and_sigabrt_to_bhf210() {
    let segv = by_signal(11, "").expect("SIGSEGV is a crash");
    assert_eq!(segv.name, "SIGSEGV");
    assert_eq!(rule_id(None, Some(11), ""), Some(RULE_ID));

    let abrt = by_signal(6, "").expect("silent SIGABRT is a crash");
    assert_eq!(abrt.name, "SIGABRT");
    assert_eq!(rule_id(None, Some(6), ""), Some(RULE_ID));

    assert_eq!(RULE_ID, "BHF-210");
}

#[test]
fn only_hardware_fault_signals_are_classified() {
    for signal in [4, 7, 8, 11] {
        assert!(by_signal(signal, "").is_some());
    }
    for signal in [1, 2, 13, 14, 15] {
        assert_eq!(by_signal(signal, ""), None);
    }
    assert_eq!(classify(Some(2), None, ""), None);
}

#[test]
fn an_exception_is_known_by_its_exit_code() {
    assert_eq!(
        classify(Some(BHF_WIN_CRASH_EXIT), None, "panic:").unwrap().name,
        "Windows exception (access violation / fault, via wine)"
    );
    assert_eq!(
        classify_exit(Some(0x39)).unwrap().name,
        "Windows exception (access violation / fault)"
    );
    assert_eq!(classify_exit(Some(1)), None);
    assert_eq!(classify_exit(None), None);
    assert_eq!(rule_id(Some(1), None, ""), None);
}

#[test]
fn a_rejection_matters_for_an_abort_alone() {
    for text in ["ASSERT FAILED", "go panic: boom", "Assertion `x' has FAILED"] {
        assert_eq!(by_signal(6, text), None);
        assert!(by_signal(11, text).is_some());
    }
    assert!(by_signal(6, "assertion").is_some());
    assert_eq!(by_signal(4, "").unwrap().name, "SIGILL");
    assert_eq!(by_signal(7, "").unwrap().name, "SIGBUS");
    assert_eq!(by_signal(8, "").unwrap().name, "SIGFPE");
}

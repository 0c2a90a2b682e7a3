use bhf::fidelity::{
    Endianness, Fidelity, FidelityDimension, FidelityFacts, FidelityStatus,
};

fn vxworks_facts() -> FidelityFacts {
    FidelityFacts {
        platform_stub: Some("vxworks".to_owned()),
        host_arch: "x86_64".to_owned(),
        host_endianness: Endianness::Little,
        sanitizers: vec!["asan".to_owned(), "ubsan".to_owned()],
        tsan_ran: false,
    }
}

#[test]
fn platform_stub_marks_target_dimensions_not_exercised_with_reasons() {
    let f = Fidelity::from_facts(&vxworks_facts());

    assert_eq!(f.arch.status, FidelityStatus::NotExercised);
    assert_eq!(f.rtos_runtime.status, FidelityStatus::NotExercised);
    assert_eq!(f.hardware_peripherals.status, FidelityStatus::NotExercised);

    // Each gap carries a reason that names the platform / the missing surface.
    assert!(f.arch.reason.as_deref().unwrap().contains("vxworks"));
    assert!(f
        .rtos_runtime
        .reason
        .as_deref()
        .unwrap()
        .to_lowercase()
        .contains("rtos"));
    assert!(f
        .hardware_peripherals
        .reason
        .as_deref()
        .unwrap()
        .to_lowercase()
        .contains("hardware"));

    // The host stub build DID run under sanitizers.
    assert_eq!(f.sanitizers.status, FidelityStatus::Exercised);

    // And the derived caveat enumerates the target gaps and refuses assurance.
    let caveat = f.caveat().expect("a stubbed target must carry a caveat");
    assert!(caveat.contains("arch"), "{caveat}");
    assert!(caveat.contains("RTOS runtime"), "{caveat}");
    assert!(caveat.contains("hardware peripherals"), "{caveat}");
    assert!(caveat.contains("not target assurance"), "{caveat}");
}

#[test]
fn native_host_target_has_no_spurious_caveat() {
    let mut facts = FidelityFacts::host("x86_64");
    facts.sanitizers = vec!["asan".to_owned(), "ubsan".to_owned()];
    let f = Fidelity::from_facts(&facts);

    // The host IS the target: arch and byte order were genuinely exercised.
    assert_eq!(f.arch.status, FidelityStatus::Exercised);
    assert_eq!(f.endianness.status, FidelityStatus::Exercised);
    // RTOS / hardware simply do not apply — they are NOT gaps.
    assert_eq!(f.rtos_runtime.status, FidelityStatus::NotApplicable);
    assert_eq!(f.hardware_peripherals.status, FidelityStatus::NotApplicable);

    assert!(!f.is_reduced_fidelity());
    assert!(
        f.caveat().is_none(),
        "a fully-native host target must not carry a reduced-fidelity caveat"
    );
}

#[test]
fn concurrency_is_exercised_only_when_tsan_ran() {
    let mut with_tsan = FidelityFacts::host("x86_64");
    with_tsan.tsan_ran = true;
    assert_eq!(
        Fidelity::from_facts(&with_tsan).concurrency.status,
        FidelityStatus::Exercised
    );

    let mut without_tsan = FidelityFacts::host("x86_64");
    without_tsan.tsan_ran = false;
    let f = Fidelity::from_facts(&without_tsan);
    assert_eq!(f.concurrency.status, FidelityStatus::NotExercised);

    // A missing TSan pass must NOT, on its own, turn a native run into a
    // reduced-fidelity caveat (that is a fuzzing-depth gap, not a platform gap).
    assert!(f.caveat().is_none());
}

#[test]
fn rollup_takes_the_worst_case_per_dimension() {
    let native = Fidelity::from_facts(&FidelityFacts::host("x86_64"));
    let stub = Fidelity::from_facts(&vxworks_facts());

    // Native alone is clean.
    assert!(!native.is_reduced_fidelity());

    // Rolled together, the stub's gaps must dominate.
    let rolled = Fidelity::rollup(&[&native, &stub]).expect("non-empty rollup");
    assert_eq!(rolled.arch.status, FidelityStatus::NotExercised);
    assert_eq!(rolled.rtos_runtime.status, FidelityStatus::NotExercised);
    assert_eq!(
        rolled.hardware_peripherals.status,
        FidelityStatus::NotExercised
    );
    assert!(rolled.is_reduced_fidelity());

    // An empty rollup is None (no fuzzed target).
    assert!(Fidelity::rollup(&[]).is_none());
}

#[test]
fn not_executed_record_has_no_gaps() {
    let f = Fidelity::not_executed("static analysis finding; nothing was executed");
    assert_eq!(f.arch.status, FidelityStatus::NotApplicable);
    assert!(!f.is_reduced_fidelity());
    assert!(f.caveat().is_none());
}

#[test]
fn the_record_of_a_stub_reads_exactly() {
    let f = Fidelity::from_facts(&vxworks_facts());
    assert_eq!(
        f.arch.reason.as_deref(),
        Some("portable logic fuzzed on host x86_64; vxworks target ISA not executed")
    );
    assert_eq!(
        f.endianness.reason.as_deref(),
        Some("ran in host little-endian; vxworks target byte order not verified")
    );
    assert_eq!(f.sanitizers.reason.as_deref(), Some("ran under asan+ubsan"));
    assert_eq!(
        f.caveat().as_deref(),
        Some(
            "reduced-fidelity: portable logic fuzzed on host; NOT exercised: target ISA/arch, \
             endianness, RTOS runtime, hardware peripherals, concurrency. Findings are \
             host-stub evidence, not target assurance."
        )
    );
}

#[test]
fn a_caveat_names_every_gap() {
    let mut facts = vxworks_facts();
    facts.sanitizers.clear();
    facts.tsan_ran = true;
    assert_eq!(
        Fidelity::from_facts(&facts).caveat().as_deref(),
        Some(
            "reduced-fidelity: portable logic fuzzed on host; NOT exercised: target ISA/arch, \
             endianness, RTOS runtime, hardware peripherals, sanitizers. Findings are \
             host-stub evidence, not target assurance."
        )
    );
}

#[test]
fn a_gap_outweighs_an_exercise_and_the_first_reason_stays() {
    let gap = Fidelity::not_executed("nothing");
    let mut worse = gap.clone();
    worse.concurrency = FidelityDimension::not_exercised("later");
    worse.arch = FidelityDimension::exercised("ran");
    let merged = gap.worst_with(&worse);
    assert_eq!(merged.concurrency, FidelityDimension::not_exercised("later"));
    assert_eq!(merged.arch, FidelityDimension::exercised("ran"));
    assert_eq!(merged.endianness, FidelityDimension::not_applicable("nothing"));
    assert_eq!(merged.worst_with(&merged), merged);
    assert!(merged.concurrency.is_gap());
    assert!(!merged.arch.is_gap());
}

#[test]
fn statuses_and_byte_orders_have_words() {
    assert_eq!(FidelityStatus::Exercised.as_str(), "exercised");
    assert_eq!(FidelityStatus::NotExercised.as_str(), "not_exercised");
    assert_eq!(FidelityStatus::NotApplicable.as_str(), "not_applicable");
    assert_eq!(Endianness::Little.as_str(), "little-endian");
    assert_eq!(Endianness::Big.as_str(), "big-endian");
}

#[test]
fn the_host_keeps_its_bytes_in_its_own_order() {
    assert_eq!(Endianness::host(), Endianness::of_one(1u16.to_ne_bytes()));
    assert_eq!(Endianness::of_one([1, 0]), Endianness::Little);
    assert_eq!(Endianness::of_one([0, 1]), Endianness::Big);
}

#[test]
fn a_caveat_names_no_dimension_that_is_no_gap() {
    let labels = [
        "target ISA/arch",
        "endianness",
        "RTOS runtime",
        "hardware peripherals",
        "concurrency",
        "sanitizers",
    ];
    for gaps in 0..64u8 {
        let dimension = |bit: u8| {
            if gaps & (1 << bit) != 0 {
                FidelityDimension::not_exercised("gap")
            } else {
                FidelityDimension::exercised("ran")
            }
        };
        let record = Fidelity {
            arch: dimension(0),
            endianness: dimension(1),
            rtos_runtime: dimension(2),
            hardware_peripherals: dimension(3),
            concurrency: dimension(4),
            sanitizers: dimension(5),
        };
        assert_eq!(record.caveat().is_some(), gaps & 15 != 0);
        if let Some(text) = record.caveat() {
            for (bit, label) in labels.iter().enumerate() {
                assert_eq!(text.contains(label), gaps & (1 << bit) != 0, "{label}: {text}");
            }
        }
    }
}

//! What a result speaks to, and what counts as a crash.

use vstd::prelude::*;
use vstd::string::*;

use crate::fatal_signal::{
    classify, classify_exit, crash, fault_name, rejects, rule_id, FatalSignal,
};
use crate::fidelity::{
    record, rolled_up, unexecuted, worst, DimensionView, Endianness, FactsView, FidelityDimension,
    FidelityStatus, FidelityView,
};
use crate::text::{contains, join, lowercase};
use crate::text_laws::{a_part_is_contained, joined_parts_stand, parts_of_parts_are_contained};

verus! {

/// Whether a dimension has this verdict for a reason that mentions `what`.
pub open spec fn judged(d: DimensionView, status: FidelityStatus, what: Seq<char>) -> bool {
    d.status == status && d.reason is Some && contains(d.reason->0, what)
}

/// A stubbed target has run in nothing of its own: its instruction set, its byte order, its
/// runtime and its hardware are gaps, each for a reason that names the platform. A target of
/// the host ran natively, and has no runtime and no hardware to speak of.
pub proof fn a_record_says_what_ran(f: FactsView)
    ensures
        f.platform_stub matches Some(platform) ==> {
            let r = record(f);
            &&& judged(r.arch, FidelityStatus::NotExercised, platform)
            &&& judged(r.arch, FidelityStatus::NotExercised, f.host_arch)
            &&& judged(r.endianness, FidelityStatus::NotExercised, platform)
            &&& judged(r.endianness, FidelityStatus::NotExercised, f.host_endianness.word())
            &&& judged(r.rtos_runtime, FidelityStatus::NotExercised, platform)
            &&& judged(r.hardware_peripherals, FidelityStatus::NotExercised, platform)
        },
        f.platform_stub is None ==> {
            let r = record(f);
            &&& judged(r.arch, FidelityStatus::Exercised, f.host_arch)
            &&& judged(r.endianness, FidelityStatus::Exercised, f.host_endianness.word())
            &&& r.rtos_runtime.status == FidelityStatus::NotApplicable
            &&& r.hardware_peripherals.status == FidelityStatus::NotApplicable
        },
{
    let none = Seq::<char>::empty();
    let word = f.host_endianness.word();
    match f.platform_stub {
        Some(platform) => {
            let a = "portable logic fuzzed on host "@ + f.host_arch;
            let b = a + "; "@;
            let end = " target ISA not executed"@;
            a_part_is_contained("portable logic fuzzed on host "@, f.host_arch, none);
            parts_of_parts_are_contained(none, a, "; "@, f.host_arch);
            parts_of_parts_are_contained(none, b, platform, f.host_arch);
            parts_of_parts_are_contained(none, b + platform, end, f.host_arch);
            a_part_is_contained(b, platform, end);
            let c = "ran in host "@ + word;
            let d = c + "; "@;
            let close = " target byte order not verified"@;
            a_part_is_contained("ran in host "@, word, none);
            parts_of_parts_are_contained(none, c, "; "@, word);
            parts_of_parts_are_contained(none, d, platform, word);
            parts_of_parts_are_contained(none, d + platform, close, word);
            a_part_is_contained(d, platform, close);
            a_part_is_contained(
                none,
                platform,
                " runtime stubbed with inert handles; RTOS scheduling/IPC not modeled"@,
            );
            a_part_is_contained(
                none,
                platform,
                " device/peripheral access faked; no real hardware, MMIO, or DMA"@,
            );
        },
        None => {
            a_part_is_contained("fuzzed natively on the host "@, f.host_arch, " target"@);
            a_part_is_contained("native host target ran in "@, word, none);
        },
    }
}

/// The sanitizers that were armed are each named.
pub proof fn armed_sanitizers_are_named(f: FactsView, i: int)
    requires
        0 <= i < f.sanitizers.len(),
    ensures
        judged(record(f).sanitizers, FidelityStatus::Exercised, f.sanitizers[i]),
{
    joined_parts_stand(f.sanitizers, "+"@, i);
    parts_of_parts_are_contained(
        "ran under "@,
        join(f.sanitizers, "+"@),
        Seq::empty(),
        f.sanitizers[i],
    );
}

/// A record of what was not executed says so of every dimension, for the reason given.
pub proof fn what_was_not_executed_applies_to_nothing(reason: Seq<char>)
    ensures
        ({
            let r = unexecuted(reason);
            let d = DimensionView {
                status: FidelityStatus::NotApplicable,
                reason: Some(reason),
            };
            r.arch == d && r.endianness == d && r.rtos_runtime == d && r.hardware_peripherals == d
                && r.concurrency == d && r.sanitizers == d
        }),
{
}

/// Of two verdicts the worse counts, with its reason: a gap before an exercise, an exercise
/// before what does not apply, and the first of two that are alike.
pub proof fn the_worse_verdict_counts(a: DimensionView, b: DimensionView)
    ensures
        worst(a, b) == a || worst(a, b) == b,
        a.status == b.status ==> worst(a, b) == a,
        a.status != b.status && a.status == FidelityStatus::NotExercised ==> worst(a, b) == a
            && worst(b, a) == a,
        a.status == FidelityStatus::Exercised && b.status == FidelityStatus::NotApplicable
            ==> worst(a, b) == a && worst(b, a) == a,
{
}

/// Every dimension of a rolled-up record is that of one of the records.
pub proof fn a_rollup_is_made_of_its_records(records: Seq<FidelityView>)
    requires
        records.len() > 0,
    ensures
        exists|i: int|
            0 <= i < records.len() && (#[trigger] records[i]).arch == rolled_up(records).arch,
        exists|i: int|
            0 <= i < records.len() && (#[trigger] records[i]).endianness == rolled_up(
                records,
            ).endianness,
        exists|i: int|
            0 <= i < records.len() && (#[trigger] records[i]).rtos_runtime == rolled_up(
                records,
            ).rtos_runtime,
        exists|i: int|
            0 <= i < records.len() && (#[trigger] records[i]).hardware_peripherals == rolled_up(
                records,
            ).hardware_peripherals,
        exists|i: int|
            0 <= i < records.len() && (#[trigger] records[i]).concurrency == rolled_up(
                records,
            ).concurrency,
        exists|i: int|
            0 <= i < records.len() && (#[trigger] records[i]).sanitizers == rolled_up(
                records,
            ).sanitizers,
    decreases records.len(),
{
    if records.len() == 1 {
        assert(records[0].arch == rolled_up(records).arch);
    } else {
        let front = records.drop_last();
        let n = front.len() as int;
        a_rollup_is_made_of_its_records(front);
        let before = rolled_up(front);
        assert(records[n] == records.last());
        assert forall|i: int| 0 <= i < n implies #[trigger] records[i] == front[i] by {}
        let i0 = choose|i: int| 0 <= i < n && (#[trigger] front[i]).arch == before.arch;
        let i1 = choose|i: int|
            0 <= i < n && (#[trigger] front[i]).endianness == before.endianness;
        let i2 = choose|i: int|
            0 <= i < n && (#[trigger] front[i]).rtos_runtime == before.rtos_runtime;
        let i3 = choose|i: int|
            0 <= i < n && (#[trigger] front[i]).hardware_peripherals
                == before.hardware_peripherals;
        let i4 = choose|i: int|
            0 <= i < n && (#[trigger] front[i]).concurrency == before.concurrency;
        let i5 = choose|i: int|
            0 <= i < n && (#[trigger] front[i]).sanitizers == before.sanitizers;
        assert(records[i0] == front[i0] && records[i1] == front[i1] && records[i2] == front[i2]);
        assert(records[i3] == front[i3] && records[i4] == front[i4] && records[i5] == front[i5]);
    }
}

/// Each verdict is made with its own status and the reason given, and only a lack of
/// exercise is a gap.
pub proof fn verdicts_are_made_as_they_are_called(
    reason: &str,
    a: FidelityDimension,
    b: FidelityDimension,
    c: FidelityDimension,
    gap: bool,
)
    requires
        call_ensures(FidelityDimension::exercised, (reason,), a),
        call_ensures(FidelityDimension::not_exercised, (reason,), b),
        call_ensures(FidelityDimension::not_applicable, (reason,), c),
        call_ensures(FidelityDimension::is_gap, (&a,), gap),
    ensures
        a.status == FidelityStatus::Exercised,
        b.status == FidelityStatus::NotExercised,
        c.status == FidelityStatus::NotApplicable,
        a.reason is Some && a.reason->0@ == reason@,
        b.reason is Some && b.reason->0@ == reason@,
        c.reason is Some && c.reason->0@ == reason@,
        !gap,
        b@.gap(),
        !c@.gap(),
{
}

/// A byte order is told by where the low byte stands.
pub proof fn the_low_byte_tells_the_order(bytes: [u8; 2], r: Endianness)
    requires
        call_ensures(Endianness::of_one, (bytes,), r),
        bytes@ == seq![1u8, 0u8] || bytes@ == seq![0u8, 1u8],
    ensures
        r == Endianness::Little <==> bytes@[0] == 1,
        r == Endianness::Big <==> bytes@[1] == 1,
{
}

/// What is told by the words of verdicts and byte orders is what they are.
pub proof fn words_are_told_apart(
    a: FidelityStatus,
    b: FidelityStatus,
    x: Endianness,
    y: Endianness,
)
    ensures
        a.word() == b.word() <==> a == b,
        a == FidelityStatus::Exercised ==> a.word() == "exercised"@,
        a == FidelityStatus::NotExercised ==> a.word() == "not_exercised"@,
        x.word() == y.word() <==> x == y,
        contains(x.word(), "big"@) <==> x == Endianness::Big,
{
    reveal_strlit("exercised");
    reveal_strlit("not_exercised");
    reveal_strlit("not_applicable");
    reveal_strlit("little-endian");
    reveal_strlit("big-endian");
    reveal_strlit("big");
    assert("exercised"@.len() == 9 && "not_exercised"@.len() == 13 && "not_applicable"@.len()
        == 14);
    assert("little-endian"@.len() == 13 && "big-endian"@.len() == 10);
    assert("big-endian"@.subrange(0, 3) =~= "big"@);
    assert(crate::text::occurs_at("big-endian"@, "big"@, 0));
    assert(!contains("little-endian"@, "big"@)) by {
        if contains("little-endian"@, "big"@) {
            let i = choose|i: int| crate::text::occurs_at("little-endian"@, "big"@, i);
            assert("little-endian"@.subrange(i, i + 3)[0] == 'b');
            assert("little-endian"@[i] == 'b');
        }
    }
}

/// A fault of the processor is a crash under its signal's name. An abort is one unless the
/// program said why it stopped, and the exit that stands for an exception is one whatever
/// else is said.
pub proof fn crashes_are_told_by_their_signal(
    code: Option<i32>,
    signal: i32,
    other: i32,
    stderr: Seq<char>,
)
    ensures
        code != Some(57i32) ==> {
            &&& signal == 4 ==> crash(code, Some(signal), stderr) == Some("SIGILL"@)
            &&& signal == 7 ==> crash(code, Some(signal), stderr) == Some("SIGBUS"@)
            &&& signal == 8 ==> crash(code, Some(signal), stderr) == Some("SIGFPE"@)
            &&& signal == 11 ==> crash(code, Some(signal), stderr) == Some("SIGSEGV"@)
            &&& signal == 6 && rejects(stderr) ==> crash(code, Some(signal), stderr) is None
            &&& signal == 6 && !rejects(stderr) ==> crash(code, Some(signal), stderr) == Some(
                "SIGABRT"@,
            )
            &&& crash(code, None, stderr) is None
            &&& signal == 9 || signal == 15 || signal == 2 || signal == 13 ==> crash(
                code,
                Some(signal),
                stderr,
            ) is None
        },
        code == Some(57i32) ==> crash(code, Some(signal), stderr) is Some && crash(
            code,
            None,
            stderr,
        ) is Some,
        fault_name(signal) is Some && fault_name(signal) == fault_name(other) ==> signal == other,
{
    reveal_strlit("SIGILL");
    reveal_strlit("SIGABRT");
    reveal_strlit("SIGBUS");
    reveal_strlit("SIGFPE");
    reveal_strlit("SIGSEGV");
    assert("SIGILL"@[3] == 'I' && "SIGABRT"@[3] == 'A' && "SIGBUS"@[3] == 'B');
    assert("SIGFPE"@[3] == 'F' && "SIGSEGV"@[3] == 'S');
}

/// An abort is explained by an assertion that failed or by a panic, in whatever case it is
/// written, and by nothing else.
pub proof fn aborts_are_explained_by_assertions_and_panics(stderr: Seq<char>)
    ensures
        contains(lowercase(stderr), "assertion"@) && contains(lowercase(stderr), "failed"@)
            ==> rejects(stderr),
        contains(lowercase(stderr), "assert failed"@) ==> rejects(stderr),
        contains(lowercase(stderr), "panicked at"@) ==> rejects(stderr),
        contains(lowercase(stderr), "panic:"@) ==> rejects(stderr),
        rejects(stderr) ==> contains(lowercase(stderr), "assert"@) || contains(
            lowercase(stderr),
            "panic"@,
        ),
        !contains(lowercase(stderr), "failed"@) && !contains(lowercase(stderr), "panic"@)
            ==> !rejects(stderr),
{
    let s = lowercase(stderr);
    reveal_strlit("assertion");
    reveal_strlit("assert failed");
    reveal_strlit("assert");
    reveal_strlit("panicked at");
    reveal_strlit("panic:");
    reveal_strlit("panic");
    reveal_strlit("failed");
    lemma_first_part(s, "assertion"@, 6);
    lemma_first_part(s, "assert failed"@, 6);
    lemma_first_part(s, "panicked at"@, 5);
    lemma_first_part(s, "panic:"@, 5);
    assert("assertion"@.take(6) =~= "assert"@);
    assert("assert failed"@.take(6) =~= "assert"@);
    assert("panicked at"@.take(5) =~= "panic"@);
    assert("panic:"@.take(5) =~= "panic"@);
    if contains(s, "assert failed"@) {
        let i = choose|i: int| crate::text::occurs_at(s, "assert failed"@, i);
        assert(s.subrange(i + 7, i + 13) =~= s.subrange(i, i + 13).skip(7));
        assert("assert failed"@.skip(7) =~= "failed"@);
        assert(crate::text::occurs_at(s, "failed"@, i + 7));
    }
}

proof fn lemma_first_part(s: Seq<char>, p: Seq<char>, n: int)
    requires
        0 <= n <= p.len(),
    ensures
        contains(s, p) ==> contains(s, p.take(n)),
{
    if contains(s, p) {
        let i = choose|i: int| crate::text::occurs_at(s, p, i);
        assert(s.subrange(i, i + n) =~= s.subrange(i, i + p.len()).take(n));
        assert(crate::text::occurs_at(s, p.take(n), i));
    }
}

/// What is classified as a crash has the rule of one and nothing else has; and of an exit
/// code alone only that of an exception is one.
pub proof fn crashes_have_their_rule(
    code: Option<i32>,
    signal: Option<i32>,
    stderr: &str,
    found: Option<FatalSignal>,
    rule: Option<&'static str>,
    by_exit: Option<FatalSignal>,
)
    requires
        call_ensures(classify, (code, signal, stderr), found),
        call_ensures(rule_id, (code, signal, stderr), rule),
        call_ensures(classify_exit, (code,), by_exit),
    ensures
        rule is Some <==> found is Some,
        rule matches Some(id) ==> id@ == "BHF-210"@,
        by_exit is Some <==> code == Some(57i32),
        by_exit is Some ==> found is Some,
        found matches Some(f) ==> f.name@.len() > 0,
{
    reveal_strlit("SIGILL");
    reveal_strlit("SIGABRT");
    reveal_strlit("SIGBUS");
    reveal_strlit("SIGFPE");
    reveal_strlit("SIGSEGV");
    reveal_strlit("Windows exception (access violation / fault, via wine)");
}

} // verus!

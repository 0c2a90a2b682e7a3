//! What a campaign over a transport finds, keeps and counts.

use vstd::prelude::*;
use vstd::string::*;
use vstd::utf8::encode_utf8;

use crate::scheduler::TimeSpan;
use crate::scheduler_laws::nanoseconds;
use crate::text::{
    contains, debugged, decimal, digit, find_char, hex, lemma_decimal_parses, lemma_rfind_char,
    parse_decimal, starts_with, trim,
};
use crate::text_laws::{
    a_part_is_contained, joining_is_associative, numbers_are_told_apart,
    parts_of_parts_are_contained, the_rest_is_told_by_the_whole,
};
use crate::transport_campaign::{
    after_run, can_run, failure_code, fault_key, is_novel, joins_corpus, next_action,
    phase_selected, seeds, should_use_transport, stops, CampaignAction, CampaignFailure,
    CampaignView, Phase, DEFAULT_SEED,
};
use crate::transport_fault::{
    fault_class, finding_of, report_of, ExitKind, FaultKind, ReportView, RunOutcome,
};
use crate::transport_spec::{
    complete_map, endpoint, guest_fields, integer, map_fields, plan, spec_error_sentence, Endpoint,
    PlanView, SpecErrorView,
};

verus! {

/// Two reports are of one fault class if and only if both their rules and their kinds are
/// the same.
pub proof fn a_fault_class_is_a_rule_and_a_kind(a: ReportView, b: ReportView)
    requires
        !a.rule_id.contains('|'),
        !b.rule_id.contains('|'),
    ensures
        fault_key(a) == fault_key(b) <==> a.rule_id == b.rule_id && a.kind == b.kind,
{
    reveal_strlit("|");
    if fault_key(a) == fault_key(b) {
        let s = fault_key(a);
        assert(s[a.rule_id.len() as int] == '|');
        assert(s[b.rule_id.len() as int] == '|');
        if a.rule_id.len() < b.rule_id.len() {
            assert(s[a.rule_id.len() as int] == b.rule_id[a.rule_id.len() as int]);
            assert(b.rule_id.contains('|'));
        }
        if b.rule_id.len() < a.rule_id.len() {
            assert(s[b.rule_id.len() as int] == a.rule_id[b.rule_id.len() as int]);
            assert(a.rule_id.contains('|'));
        }
        assert(s.take(a.rule_id.len() as int) =~= a.rule_id);
        assert(s.take(b.rule_id.len() as int) =~= b.rule_id);
        assert(s.skip(a.rule_id.len() as int + 1) =~= a.kind);
        assert(s.skip(b.rule_id.len() as int + 1) =~= b.kind);
    }
}

/// The rule of every finding is one of three.
pub proof fn findings_have_one_of_three_rules(outcome: RunOutcome)
    ensures
        finding_of(outcome) matches Some(report) ==> {
            &&& report.rule_id == "BHF-206"@ || report.rule_id == "BHF-207"@ || report.rule_id
                == "BHF-210"@
            &&& !report.rule_id.contains('|')
        },
{
    reveal_strlit("BHF-206");
    reveal_strlit("BHF-207");
    reveal_strlit("BHF-210");
    if let Some(report) = finding_of(outcome) {
        if report.rule_id.contains('|') {
            let i = choose|i: int| 0 <= i < report.rule_id.len() && report.rule_id[i] == '|';
            assert(report.rule_id[i] != '|');
        }
    }
}

/// A campaign after runs that ended in these outcomes, each with whether it reached new
/// coverage.
pub open spec fn after_runs(c: CampaignView, runs: Seq<(RunOutcome, bool)>) -> CampaignView
    decreases runs.len(),
{
    if runs.len() == 0 {
        c
    } else {
        let (outcome, novel) = runs.last();
        after_run(after_runs(c, runs.drop_last()), outcome.exit, finding_of(outcome), novel)
    }
}

/// Whether one of the runs gave a report of the same rule and kind.
pub open spec fn met(runs: Seq<(RunOutcome, bool)>, report: ReportView) -> bool {
    exists|i: int|
        0 <= i < runs.len() && (finding_of((#[trigger] runs[i]).0) matches Some(earlier)
            && earlier.rule_id == report.rule_id && earlier.kind == report.kind)
}

/// Of all the runs of a campaign, the first of each distinct rule and kind is a finding and
/// no other: a report is taken for known just where an earlier run gave one of its rule and
/// kind.
pub proof fn the_first_of_each_fault_class_is_found(
    c: CampaignView,
    runs: Seq<(RunOutcome, bool)>,
    report: ReportView,
)
    requires
        c.seen.len() == 0,
        !report.rule_id.contains('|'),
    ensures
        after_runs(c, runs).seen.contains(fault_key(report)) <==> met(runs, report),
        after_runs(c, runs).executions == c.executions + runs.len(),
        after_runs(c, runs).crashes == c.crashes + runs.filter(
            |run: (RunOutcome, bool)| run.0.exit != ExitKind::Clean,
        ).len(),
    decreases runs.len(),
{
    reveal(Seq::filter);
    if runs.len() > 0 {
        let front = runs.drop_last();
        let (outcome, novel) = runs.last();
        let before = after_runs(c, front);
        let after = after_runs(c, runs);
        the_first_of_each_fault_class_is_found(c, front, report);
        findings_have_one_of_three_rules(outcome);
        let key = fault_key(report);
        if met(front, report) {
            let i = choose|i: int|
                0 <= i < front.len() && (finding_of((#[trigger] front[i]).0) matches Some(earlier)
                    && earlier.rule_id == report.rule_id && earlier.kind == report.kind);
            assert(runs[i] == front[i]);
            let k = choose|k: int| 0 <= k < before.seen.len() && before.seen[k] == key;
            assert(after.seen[k] == key);
        }
        if let Some(now) = finding_of(outcome) {
            a_fault_class_is_a_rule_and_a_kind(now, report);
            if fault_key(now) == key {
                assert(runs[runs.len() - 1].0 == outcome);
                assert(met(runs, report));
                if !before.seen.contains(key) {
                    assert(after.seen[before.seen.len() as int] == key);
                }
            }
        }
        if after.seen.contains(key) && !before.seen.contains(key) {
            let k = choose|k: int| 0 <= k < after.seen.len() && after.seen[k] == key;
            if k < before.seen.len() {
                assert(before.seen[k] == key);
            }
        }
        if met(runs, report) && !met(front, report) {
            let i = choose|i: int|
                0 <= i < runs.len() && (finding_of((#[trigger] runs[i]).0) matches Some(earlier)
                    && earlier.rule_id == report.rule_id && earlier.kind == report.kind);
            if i < front.len() {
                assert(front[i] == runs[i]);
            }
        }
    }
}

/// The character that tells the kinds of fault apart.
proof fn lemma_kind_letters(kind: FaultKind, address: Option<u64>)
    ensures
        ({
            let k = fault_class(kind, address).kind;
            &&& k.len() > 8
            &&& k[7] == match kind {
                FaultKind::CpuException => 'c',
                FaultKind::MemoryProtection => if address is Some && address->0 <= 0x1000 {
                    'n'
                } else {
                    'm'
                },
                FaultKind::Watchdog => 'w',
                FaultKind::AssertionPanic => 'r',
                FaultKind::StackOverflow => 's',
                FaultKind::Timeout => 't',
                FaultKind::Other(_) => 'f',
            }
            &&& k[8] != 'r'
        }),
{
    reveal_strlit("target-cpu-exception");
    reveal_strlit("target-null-pointer-dereference");
    reveal_strlit("target-memory-protection");
    reveal_strlit("target-watchdog-reset");
    reveal_strlit("target-reachable-assertion");
    reveal_strlit("target-stack-overflow");
    reveal_strlit("target-timeout");
    reveal_strlit("target-fault-");
}

/// Every kind of fault is a class of its own. A trap of the memory protection at the null
/// page, up to its end, is one class and any other such trap another; and codes without a
/// kind of their own are told apart by their number.
pub proof fn every_kind_of_fault_is_a_class_of_its_own(
    a: FaultKind,
    at: Option<u64>,
    b: FaultKind,
    bt: Option<u64>,
)
    ensures
        fault_class(a, at).kind == fault_class(b, bt).kind <==> a == b && (a
            == FaultKind::MemoryProtection ==> ((at is Some && at->0 <= 0x1000) <==> (bt is Some
            && bt->0 <= 0x1000))),
{
    lemma_kind_letters(a, at);
    lemma_kind_letters(b, bt);
    if let FaultKind::Other(m) = a {
        if let FaultKind::Other(n) = b {
            if fault_class(a, at).kind == fault_class(b, bt).kind {
                the_rest_is_told_by_the_whole(
                    "target-fault-"@,
                    decimal(m as nat),
                    decimal(n as nat),
                );
                numbers_are_told_apart(m as nat, n as nat);
            }
        }
    }
}

/// A null dereference and a stack overflow have rules of their own, and every other fault
/// has that of a crash.
pub proof fn only_two_kinds_of_fault_have_rules_of_their_own(kind: FaultKind, address: Option<u64>)
    ensures
        ({
            let rule = fault_class(kind, address).rule_id;
            &&& rule == "BHF-206"@ <==> kind == FaultKind::MemoryProtection && address is Some
                && address->0 <= 0x1000
            &&& rule == "BHF-207"@ <==> kind == FaultKind::StackOverflow
            &&& rule == "BHF-206"@ || rule == "BHF-207"@ || rule == "BHF-210"@
        }),
{
    reveal_strlit("BHF-206");
    reveal_strlit("BHF-207");
    reveal_strlit("BHF-210");
    assert("BHF-206"@[6] == '6' && "BHF-207"@[6] == '7' && "BHF-210"@[6] == '0');
}

/// The report of a fault has the rule and the kind of its class, and tells its name, its
/// address where it has one, and its detail where it has any.
pub proof fn a_report_tells_the_fault(kind: FaultKind, address: Option<u64>, detail: Seq<char>)
    ensures
        ({
            let r = report_of(kind, address, detail);
            let class = fault_class(kind, address);
            &&& r.rule_id == class.rule_id
            &&& r.kind == class.kind
            &&& contains(r.message, class.name)
            &&& address matches Some(a) ==> contains(r.message, "0x"@ + hex(a as nat) + ")"@)
            &&& contains(r.message, detail)
        }),
{
    let class = fault_class(kind, address);
    let none = Seq::<char>::empty();
    let open = "target transport reported a "@;
    let close = " with no sanitizer report — a reachable crash"@;
    let head = open + class.name + close;
    a_part_is_contained(open, class.name, close);
    let full = match address {
        Some(a) => head + (" (fault address 0x"@ + hex(a as nat) + ")"@),
        None => head,
    };
    if let Some(a) = address {
        reveal_strlit(" (fault address 0x");
        reveal_strlit(" (fault address ");
        reveal_strlit("0x");
        let place = "0x"@ + hex(a as nat) + ")"@;
        assert(" (fault address 0x"@ + hex(a as nat) + ")"@ =~= " (fault address "@ + place);
        a_part_is_contained(" (fault address "@, place, none);
        parts_of_parts_are_contained(head, " (fault address "@ + place, none, place);
        parts_of_parts_are_contained(none, head, " (fault address "@ + place, class.name);
        if detail.len() > 0 {
            joining_is_associative(full, ": "@, detail);
            parts_of_parts_are_contained(none, full, ": "@ + detail, place);
        }
    }
    if detail.len() > 0 {
        joining_is_associative(full, ": "@, detail);
        parts_of_parts_are_contained(none, full, ": "@ + detail, class.name);
        a_part_is_contained(full + ": "@, detail, none);
    } else {
        assert(detail =~= none);
        a_part_is_contained(full, none, none);
        assert(full + none =~= full);
    }
}

/// A run that ended well gives no finding; any other gives one of its fault, of a timeout
/// where it timed out without one, or of a plain crash, which is a class of its own.
pub proof fn a_failed_run_gives_the_finding_of_its_fault(outcome: RunOutcome)
    ensures
        match finding_of(outcome) {
            None => outcome.exit == ExitKind::Clean,
            Some(report) => {
                &&& outcome.exit != ExitKind::Clean
                &&& outcome.fault matches Some(fault) ==> report.kind == fault_class(
                    fault.kind,
                    fault.address,
                ).kind && report.rule_id == fault_class(fault.kind, fault.address).rule_id
                    && contains(report.message, fault.detail@)
                &&& outcome.fault is None && outcome.exit == ExitKind::Timeout ==> report.kind
                    == fault_class(FaultKind::Timeout, None).kind && report.rule_id == fault_class(
                    FaultKind::Timeout,
                    None,
                ).rule_id
                &&& outcome.fault is None && outcome.exit == ExitKind::Crash ==> report.rule_id
                    == "BHF-210"@ && forall|kind: FaultKind, address: Option<u64>|
                    report.kind != #[trigger] fault_class(kind, address).kind
            },
        },
{
    if let Some(fault) = outcome.fault {
        a_report_tells_the_fault(fault.kind, fault.address, fault.detail@);
    } else {
        reveal_strlit("target-crash");
        assert forall|kind: FaultKind, address: Option<u64>| "target-crash"@
            != #[trigger] fault_class(kind, address).kind by {
            lemma_kind_letters(kind, address);
            assert("target-crash"@[7] == 'c' && "target-crash"@[8] == 'r');
        }
    }
}

/// A campaign stops when its executions, its time or its findings are used up, and not
/// before; and once it stops for its time it does so at every later time.
pub proof fn a_campaign_stops_when_something_is_used_up(
    executions: nat,
    iterations: nat,
    elapsed: TimeSpan,
    later: TimeSpan,
    budget: TimeSpan,
    findings: nat,
    target: usize,
)
    requires
        elapsed.well_formed(),
        later.well_formed(),
        budget.well_formed(),
    ensures
        stops(executions, iterations, elapsed, None, findings, None) <==> executions >= iterations,
        executions < iterations ==> (stops(
            executions,
            iterations,
            elapsed,
            Some(budget),
            findings,
            None,
        ) <==> nanoseconds(elapsed) >= nanoseconds(budget)),
        executions < iterations ==> (stops(
            executions,
            iterations,
            elapsed,
            None,
            findings,
            Some(target),
        ) <==> findings >= target),
        stops(executions, iterations, elapsed, Some(budget), findings, Some(target))
            && nanoseconds(later) >= nanoseconds(elapsed) ==> stops(
            executions,
            iterations,
            later,
            Some(budget),
            findings,
            Some(target),
        ),
        stops(executions, iterations, elapsed, Some(budget), findings, Some(target)) <==> (stops(
            executions,
            iterations,
            elapsed,
            Some(budget),
            findings,
            None,
        ) || stops(executions, iterations, elapsed, None, findings, Some(target))),
{
}

/// Seeds are the given texts and then the files. A given text is cut at the length bound,
/// of which there is always at least one byte, and a file is taken as it is; where nothing
/// is given there is one seed all the same.
pub proof fn seeds_are_what_was_given(
    inputs: Seq<Seq<char>>,
    files: Seq<Seq<u8>>,
    max_len: usize,
    i: int,
)
    ensures
        ({
            let all = seeds(inputs, files, max_len);
            let cap = if max_len == 0 {
                1int
            } else {
                max_len as int
            };
            &&& all.len() >= 1
            &&& inputs.len() + files.len() > 0 ==> all.len() == inputs.len() + files.len()
            &&& 0 <= i < inputs.len() ==> {
                let whole = encode_utf8(inputs[i]);
                &&& all[i].len() <= cap
                &&& whole.len() <= cap ==> all[i] == whole
                &&& whole.len() > cap ==> all[i].len() == cap && all[i] == whole.take(cap)
            }
            &&& 0 <= i < files.len() ==> all[inputs.len() + i] == files[i]
            &&& inputs.len() + files.len() == 0 ==> all.len() == 1 && all[0].len() <= cap
                && all[0].is_prefix_of(encode_utf8(DEFAULT_SEED@))
        }),
{
}

/// What is run next: nothing once the campaign is over; otherwise each seed in its order,
/// then as many children of a selected member as it was given, then another selection.
pub proof fn what_runs_next(c: CampaignView, elapsed: TimeSpan)
    ensures
        ({
            let (action, phase) = next_action(c, elapsed);
            &&& c.over(elapsed) ==> action == CampaignAction::Finish && phase == Phase::Done
            &&& action == CampaignAction::Finish ==> c.over(elapsed) || c.phase == Phase::Done
            &&& !c.over(elapsed) ==> match c.phase {
                Phase::Seeds { next } => {
                    &&& next < c.seed_count <==> action == (CampaignAction::RunSeed { index: next })
                    &&& next >= c.seed_count <==> action == CampaignAction::Select
                },
                Phase::Mutating { children } => {
                    &&& children > 0 <==> action == CampaignAction::RunChild
                    &&& children == 0 <==> action == CampaignAction::Select
                },
                Phase::Selecting => action == CampaignAction::Select,
                Phase::Done => action == CampaignAction::Finish,
            }
            &&& action is RunSeed || action is RunChild ==> phase == c.phase
            &&& action == CampaignAction::Select ==> phase == Phase::Selecting
        }),
{
}

/// Every run counts. Each seed runs once, each child is one fewer to come, and only a child
/// that ended well and reached new coverage joins the corpus.
pub proof fn every_run_counts(
    c: CampaignView,
    exit: ExitKind,
    finding: Option<ReportView>,
    novel: bool,
)
    requires
        can_run(c),
        c.seed_count <= usize::MAX,
    ensures
        ({
            let n = after_run(c, exit, finding, novel);
            &&& n.executions == c.executions + 1
            &&& n.crashes == c.crashes + (if finding is Some {
                1int
            } else {
                0
            })
            &&& n.corpus_new == c.corpus_new + (if c.phase is Mutating && exit == ExitKind::Clean
                && novel {
                1int
            } else {
                0
            })
            &&& joins_corpus(c, exit, novel) <==> n.corpus_new == c.corpus_new + 1
            &&& c.phase matches Phase::Seeds { next } ==> n.phase == (Phase::Seeds {
                next: (next + 1) as usize,
            }) && next < usize::MAX
            &&& c.phase matches Phase::Mutating { children } ==> (
            n.phase matches Phase::Mutating { children: left } && left == children - 1)
            &&& n.findings == c.findings && n.iterations == c.iterations && n.time_budget
                == c.time_budget && n.stop_after_findings == c.stop_after_findings && n.seed_count
                == c.seed_count
            &&& finding is None ==> n.seen == c.seen
        }),
{
}

/// Coverage is new where either of its counts is.
pub proof fn coverage_is_new_where_either_count_is(bits: usize, exceptions: usize, r: bool)
    requires
        call_ensures(is_novel, (bits, exceptions), r),
    ensures
        r <==> bits + exceptions > 0,
{
}

/// Every failure of a campaign has a code that is not that of success; a transport that
/// cannot be made is a fault of use, and seeds that cannot be read have a code of their own.
pub proof fn failures_have_codes(a: CampaignFailure, m: i32)
    requires
        call_ensures(failure_code, (a,), m),
    ensures
        m > 0,
        a == CampaignFailure::Transport ==> m == 2,
        a == CampaignFailure::Seeds ==> m == 3,
        a == CampaignFailure::Run || a == CampaignFailure::Summary ==> m == 1,
{
}

/// A campaign goes over a transport just where one is specified.
pub proof fn a_transport_is_used_where_one_is_given(spec: Option<&str>, r: bool)
    requires
        call_ensures(should_use_transport, (spec,), r),
    ensures
        r <==> spec is Some,
{
}

/// What a field of a coverage map is called.
pub open spec fn map_key(part: Seq<char>) -> Option<Seq<char>> {
    let t = trim(part);
    match find_char(t, '=') {
        None => None,
        Some(i) => Some(trim(t.take(i))),
    }
}

/// What a field of a coverage map is set to.
pub open spec fn map_value(part: Seq<char>) -> Option<nat> {
    let t = trim(part);
    match find_char(t, '=') {
        None => None,
        Some(i) => integer(t.skip(i + 1)),
    }
}

/// Whether `value` is what the last of `parts` that sets `key` sets it to.
pub open spec fn last_set(parts: Seq<Seq<char>>, key: Seq<char>, value: Option<u64>) -> bool {
    match value {
        Some(n) => exists|i: int| #[trigger] sets_last(parts, key, i, n),
        None => forall|i: int| 0 <= i < parts.len() ==> map_key(#[trigger] parts[i]) != Some(key),
    }
}

/// Whether the part `i` sets `key` to `n` and none after it sets it.
pub open spec fn sets_last(parts: Seq<Seq<char>>, key: Seq<char>, i: int, n: u64) -> bool {
    &&& 0 <= i < parts.len()
    &&& map_key(parts[i]) == Some(key)
    &&& map_value(parts[i]) == Some(n as nat)
    &&& forall|k: int| i < k < parts.len() ==> map_key(#[trigger] parts[k]) != Some(key)
}

/// Each field of a coverage map is what the last part that sets it says, each is there, and
/// no part sets anything else.
pub proof fn a_coverage_map_is_what_its_parts_say(parts: Seq<Seq<char>>)
    ensures
        map_fields(parts) matches Ok(f) ==> {
            &&& last_set(parts, "input"@, f.input)
            &&& last_set(parts, "ring"@, f.ring)
            &&& last_set(parts, "write"@, f.write)
            &&& last_set(parts, "wrapped"@, f.wrapped)
            &&& last_set(parts, "cap"@, f.cap)
            &&& complete_map(f) matches Ok(m) ==> {
                &&& f.input == Some(m.input_address)
                &&& f.ring == Some(m.ring_address)
                &&& f.write == Some(m.ring_write_address)
                &&& f.wrapped == Some(m.ring_wrapped_address)
                &&& f.cap is Some && f.cap->0 == m.ring_capacity
            }
        },
    decreases parts.len(),
{
    if parts.len() > 0 {
        if let Ok(f) = map_fields(parts) {
            let front = parts.drop_last();
            a_coverage_map_is_what_its_parts_say(front);
            let before = map_fields(front)->Ok_0;
            reveal_strlit("input");
            reveal_strlit("ring");
            reveal_strlit("write");
            reveal_strlit("wrapped");
            reveal_strlit("cap");
            assert("input"@.len() == 5 && "ring"@.len() == 4 && "write"@.len() == 5
                && "wrapped"@.len() == 7 && "cap"@.len() == 3);
            assert("input"@[0] == 'i' && "write"@[0] == 'w');
            let t = trim(parts.last());
            if t.len() == 0 {
                assert(map_key(parts.last()) is None);
            }
            if let Some(i) = find_char(t, '=') {
                if t.len() > 0 {
                    lemma_integers_fit(t.skip(i + 1));
                }
            }
            lemma_last_set(parts, "input"@, before.input, f.input);
            lemma_last_set(parts, "ring"@, before.ring, f.ring);
            lemma_last_set(parts, "write"@, before.write, f.write);
            lemma_last_set(parts, "wrapped"@, before.wrapped, f.wrapped);
            lemma_last_set(parts, "cap"@, before.cap, f.cap);
        }
    }
}

proof fn lemma_integers_fit(value: Seq<char>)
    ensures
        integer(value) matches Some(n) ==> n <= u64::MAX,
{
}

proof fn lemma_last_set(
    parts: Seq<Seq<char>>,
    key: Seq<char>,
    before: Option<u64>,
    after: Option<u64>,
)
    requires
        parts.len() > 0,
        last_set(parts.drop_last(), key, before),
        map_key(parts.last()) == Some(key) ==> after is Some && map_value(parts.last()) == Some(
            after->0 as nat,
        ),
        map_key(parts.last()) != Some(key) ==> after == before,
    ensures
        last_set(parts, key, after),
{
    let front = parts.drop_last();
    let n = front.len() as int;
    assert(parts[n] == parts.last());
    if map_key(parts.last()) == Some(key) {
        assert(sets_last(parts, key, n, after->0));
    } else {
        match before {
            Some(v) => {
                let i = choose|i: int| #[trigger] sets_last(front, key, i, v);
                assert(parts[i] == front[i]);
                assert forall|k: int| i < k < parts.len() implies map_key(#[trigger] parts[k])
                    != Some(key) by {
                    if k < n {
                        assert(parts[k] == front[k]);
                    }
                }
                assert(sets_last(parts, key, i, v));
            },
            None => {
                assert forall|k: int| 0 <= k < parts.len() implies map_key(#[trigger] parts[k])
                    != Some(key) by {
                    if k < n {
                        assert(parts[k] == front[k]);
                    }
                }
            },
        }
    }
}

/// A member that is selected has at least one child, and as many as its energy otherwise;
/// where none is selected the campaign is over.
pub proof fn selected_members_have_children(energy: Option<usize>)
    ensures
        match phase_selected(energy) {
            Phase::Mutating { children } => energy is Some && children >= 1 && children >= energy->0
                && (energy->0 >= 1 ==> children == energy->0),
            Phase::Done => energy is None,
            _ => false,
        },
{
}

/// What a part of a full-system specification is set to, as it is written.
pub open spec fn guest_value(part: Seq<char>) -> Seq<char> {
    let t = trim(part);
    match find_char(t, '=') {
        None => Seq::empty(),
        Some(i) => trim(t.skip(i + 1)),
    }
}

/// Whether the part `i` is the last that sets `key`.
pub open spec fn last_with(parts: Seq<Seq<char>>, key: Seq<char>, i: int) -> bool {
    &&& 0 <= i < parts.len()
    &&& map_key(parts[i]) == Some(key)
    &&& forall|k: int| i < k < parts.len() ==> map_key(#[trigger] parts[k]) != Some(key)
}

/// Whether no part sets `key`.
pub open spec fn never_set(parts: Seq<Seq<char>>, key: Seq<char>) -> bool {
    forall|k: int| 0 <= k < parts.len() ==> map_key(#[trigger] parts[k]) != Some(key)
}

/// Whether an endpoint is what the last part that sets `key` says.
pub open spec fn endpoint_set(
    parts: Seq<Seq<char>>,
    spec: Seq<char>,
    key: Seq<char>,
    at: Option<Endpoint>,
) -> bool {
    match at {
        Some(at) => exists|i: int| #[trigger]
            last_with(parts, key, i) && endpoint("qemu-system"@, spec, guest_value(parts[i])) == Ok::<
                Endpoint,
                SpecErrorView,
            >(at),
        None => never_set(parts, key),
    }
}

proof fn lemma_kept_last(parts: Seq<Seq<char>>, key: Seq<char>, i: int)
    requires
        parts.len() > 0,
        map_key(parts.last()) != Some(key),
    ensures
        last_with(parts.drop_last(), key, i) ==> last_with(parts, key, i),
        never_set(parts.drop_last(), key) ==> never_set(parts, key),
{
    let front = parts.drop_last();
    let n = front.len() as int;
    assert(parts[n] == parts.last());
    assert forall|k: int| 0 <= k < n implies #[trigger] parts[k] == front[k] by {}
    if last_with(front, key, i) {
        assert forall|k: int| i < k < parts.len() implies map_key(#[trigger] parts[k])
            != Some(key) by {
            if k < n {
                assert(parts[k] == front[k]);
            }
        }
    }
    if never_set(front, key) {
        assert forall|k: int| 0 <= k < parts.len() implies map_key(#[trigger] parts[k])
            != Some(key) by {
            if k < n {
                assert(parts[k] == front[k]);
            }
        }
    }
}

proof fn lemma_endpoint_step(
    parts: Seq<Seq<char>>,
    spec: Seq<char>,
    key: Seq<char>,
    before: Option<Endpoint>,
    after: Option<Endpoint>,
)
    requires
        parts.len() > 0,
        endpoint_set(parts.drop_last(), spec, key, before),
        map_key(parts.last()) != Some(key) ==> after == before,
        map_key(parts.last()) == Some(key) ==> after is Some && endpoint(
            "qemu-system"@,
            spec,
            guest_value(parts.last()),
        ) == Ok::<Endpoint, SpecErrorView>(after->0),
    ensures
        endpoint_set(parts, spec, key, after),
{
    let front = parts.drop_last();
    let n = front.len() as int;
    assert(parts[n] == parts.last());
    if map_key(parts.last()) == Some(key) {
        assert(last_with(parts, key, n));
    } else if let Some(at) = before {
        let i = choose|i: int| #[trigger]
            last_with(front, key, i) && endpoint("qemu-system"@, spec, guest_value(front[i])) == Ok::<
                Endpoint,
                SpecErrorView,
            >(at);
        lemma_kept_last(parts, key, i);
        assert(parts[i] == front[i]);
        assert(last_with(parts, key, i));
    } else {
        lemma_kept_last(parts, key, 0);
    }
}

/// A full-system guest is reached where the last parts that say so say, and is reset to the
/// snapshot that the last one names, or to the usual one where none does.
pub proof fn a_guest_is_what_its_parts_say(spec: Seq<char>, parts: Seq<Seq<char>>)
    ensures
        guest_fields(spec, parts) matches Ok(f) ==> {
            &&& endpoint_set(parts, spec, "qmp"@, f.qmp)
            &&& endpoint_set(parts, spec, "gdb"@, f.gdb)
            &&& never_set(parts, "snapshot"@) ==> f.snapshot == "bhf-baseline"@
            &&& forall|i: int| #[trigger]
                last_with(parts, "snapshot"@, i) ==> f.snapshot == guest_value(parts[i])
        },
    decreases parts.len(),
{
    if parts.len() > 0 {
        if let Ok(f) = guest_fields(spec, parts) {
            let front = parts.drop_last();
            let n = front.len() as int;
            a_guest_is_what_its_parts_say(spec, front);
            let before = guest_fields(spec, front)->Ok_0;
            reveal_strlit("qmp");
            reveal_strlit("gdb");
            reveal_strlit("snapshot");
            assert("qmp"@[0] == 'q' && "gdb"@[0] == 'g' && "snapshot"@[0] == 's');
            let t = trim(parts.last());
            if t.len() == 0 {
                assert(map_key(parts.last()) is None);
            }
            lemma_endpoint_step(parts, spec, "qmp"@, before.qmp, f.qmp);
            lemma_endpoint_step(parts, spec, "gdb"@, before.gdb, f.gdb);
            assert(parts[n] == parts.last());
            assert forall|k: int| 0 <= k < n implies #[trigger] parts[k] == front[k] by {}
            if never_set(parts, "snapshot"@) {
                assert forall|k: int| 0 <= k < n implies map_key(#[trigger] front[k])
                    != Some("snapshot"@) by {
                    assert(parts[k] == front[k]);
                }
                assert(map_key(parts[n]) != Some("snapshot"@));
            }
            assert forall|i: int| #[trigger]
                last_with(parts, "snapshot"@, i) implies f.snapshot == guest_value(parts[i]) by {
                if i < n {
                    assert(map_key(parts[n]) != Some("snapshot"@));
                    assert forall|k: int| i < k < n implies map_key(#[trigger] front[k])
                        != Some("snapshot"@) by {
                        assert(parts[k] == front[k]);
                    }
                    assert(last_with(front, "snapshot"@, i));
                }
            }
        }
    }
}

/// A plan is of the backend that its specification names, and says where that is: an agent
/// over TCP or a stub at the host and the port behind the last colon, a serial agent at the
/// whole path.
pub proof fn a_plan_is_what_its_specification_names(spec: Seq<char>, map: Option<Seq<char>>)
    ensures
        match plan(spec, map) {
            Ok(PlanView::AgentTcp { host, port }) => exists|digits: Seq<char>|
                #[trigger] names_port(trim(spec), "agent:tcp:"@, host, digits, port),
            Ok(PlanView::Gdb { host, port, .. }) => exists|digits: Seq<char>|
                #[trigger] names_port(trim(spec), "gdb:"@, host, digits, port),
            Ok(PlanView::AgentSerial { path }) => trim(spec) == "agent:serial:"@ + path,
            Ok(PlanView::QemuSystem { .. }) => starts_with(trim(spec), "qemu-system:"@),
            Err(_) => true,
        },
{
    let t = trim(spec);
    reveal_strlit("agent:tcp:");
    reveal_strlit("agent:serial:");
    reveal_strlit("gdb:");
    match plan(spec, map) {
        Ok(PlanView::AgentTcp { host, port }) => {
            lemma_names_port(t, "agent:tcp:"@, "agent:tcp"@, host, port);
        },
        Ok(PlanView::Gdb { host, port, .. }) => {
            lemma_names_port(t, "gdb:"@, "gdb"@, host, port);
        },
        Ok(PlanView::AgentSerial { path }) => {
            assert(t.subrange(0, 13) == "agent:serial:"@);
            assert(t =~= "agent:serial:"@ + path);
        },
        _ => {},
    }
}

/// Whether `t` is the prefix, the host, a colon and digits that write the port.
pub open spec fn names_port(
    t: Seq<char>,
    prefix: Seq<char>,
    host: Seq<char>,
    digits: Seq<char>,
    port: nat,
) -> bool {
    &&& t == prefix + host + ":"@ + digits
    &&& !digits.contains(':')
    &&& parse_decimal(digits, 0xffff) == Some(port)
}

proof fn lemma_names_port(
    t: Seq<char>,
    prefix: Seq<char>,
    backend: Seq<char>,
    host: Seq<char>,
    port: nat,
)
    requires
        starts_with(t, prefix),
        endpoint(backend, t, t.skip(prefix.len() as int)) == Ok::<Endpoint, SpecErrorView>(
            Endpoint { host, port },
        ),
    ensures
        exists|digits: Seq<char>| #[trigger] names_port(t, prefix, host, digits, port),
{
    reveal_strlit(":");
    let text = t.skip(prefix.len() as int);
    lemma_rfind_char(text, ':');
    let colon = crate::text::rfind_char(text, ':')->0;
    let digits = text.skip(colon + 1);
    if digits.contains(':') {
        let i = choose|i: int| 0 <= i < digits.len() && digits[i] == ':';
        assert(text[colon + 1 + i] == ':');
    }
    assert(t.subrange(0, prefix.len() as int) == prefix);
    assert(t =~= prefix + host + ":"@ + digits);
    assert(names_port(t, prefix, host, digits, port));
}

/// A number of a coverage map is written in base ten, or behind `0x` in base sixteen, with
/// or without white space around it.
pub proof fn numbers_are_read_in_both_bases(n: nat)
    requires
        n <= u64::MAX,
    ensures
        integer(decimal(n)) == Some(n),
        integer("0x"@ + hex(n)) == Some(n),
{
    reveal_strlit("0x");
    reveal_strlit("0X");
    let d = decimal(n);
    lemma_decimal_parses(n, u64::MAX as nat);
    assert(digit(d[0]) && digit(d[d.len() - 1]));
    assert(trim(d) == d);
    if starts_with(d, "0x"@) {
        assert(d.subrange(0, 2)[1] == d[1]);
        assert(digit(d[1]));
    }
    if starts_with(d, "0X"@) {
        assert(d.subrange(0, 2)[1] == d[1]);
        assert(digit(d[1]));
    }
    let h = hex(n);
    lemma_hex(n);
    let all = "0x"@ + h;
    assert(all[0] == '0' && all.last() == h.last());
    assert(crate::text::hex_digit_value(h[h.len() - 1]) is Some);
    assert(crate::text::hex_digit_value(h[0]) is Some);
    assert(trim(all) == all);
    assert(all.subrange(0, 2) =~= "0x"@);
    assert(all.skip(2) =~= h);
}

proof fn lemma_hex(n: nat)
    ensures
        hex(n).len() > 0,
        crate::text::all_hex(hex(n)),
        crate::text::hex_value(hex(n)) == n,
    decreases n,
{
    reveal_with_fuel(crate::text::hex_value, 2);
    if n < 16 {
        assert(hex(n).drop_last() =~= Seq::empty());
        assert(crate::text::hex_digit_value(crate::text::hex_char(n)) == Some(n));
    } else {
        lemma_hex(n / 16);
        assert(hex(n).drop_last() =~= hex(n / 16));
        assert(crate::text::hex_digit_value(crate::text::hex_char(n % 16)) == Some(n % 16));
    }
}

/// The sentence for what is wrong with a specification tells what it is about.
pub proof fn sentences_name_what_is_wrong(e: SpecErrorView)
    ensures
        match e {
            SpecErrorView::UnknownBackend { backend } => contains(
                spec_error_sentence(e),
                debugged(backend),
            ),
            SpecErrorView::Malformed { backend, spec, reason } => {
                &&& contains(spec_error_sentence(e), backend)
                &&& contains(spec_error_sentence(e), debugged(spec))
                &&& contains(spec_error_sentence(e), reason)
            },
            SpecErrorView::MissingCoverageMap { backend } => contains(
                spec_error_sentence(e),
                backend,
            ),
            SpecErrorView::Field { field, value } => contains(spec_error_sentence(e), field)
                && contains(spec_error_sentence(e), debugged(value)),
            SpecErrorView::MissingMapKey { key } => contains(
                spec_error_sentence(e),
                debugged(key),
            ),
            SpecErrorView::UnknownMapKey { key } => contains(
                spec_error_sentence(e),
                debugged(key),
            ),
            SpecErrorView::CapTooLarge { cap } => contains(spec_error_sentence(e), decimal(cap)),
            SpecErrorView::Transport { reason } => spec_error_sentence(e) == reason,
            _ => true,
        },
{
    let none = Seq::<char>::empty();
    match e {
        SpecErrorView::UnknownBackend { backend } => {
            a_part_is_contained(
                "unknown --target-transport backend "@,
                debugged(backend),
                "; supported: agent:tcp, agent:serial, gdb, qemu-system"@,
            );
        },
        SpecErrorView::Malformed { backend, spec, reason } => {
            let a = "malformed "@ + backend;
            let b = a + " spec "@;
            let c = b + debugged(spec);
            let d = c + ": "@;
            a_part_is_contained("malformed "@, backend, none);
            parts_of_parts_are_contained(none, a, " spec "@, backend);
            parts_of_parts_are_contained(none, b, debugged(spec), backend);
            a_part_is_contained(b, debugged(spec), none);
            parts_of_parts_are_contained(none, c, ": "@, backend);
            parts_of_parts_are_contained(none, c, ": "@, debugged(spec));
            parts_of_parts_are_contained(none, d, reason, backend);
            parts_of_parts_are_contained(none, d, reason, debugged(spec));
            a_part_is_contained(d, reason, none);
        },
        SpecErrorView::MissingCoverageMap { backend } => {
            a_part_is_contained(
                "the "@,
                backend,
                " backend requires --transport-coverage-map (input=<addr>,ring=<addr>,write=<addr>,wrapped=<addr>,cap=<n>)"@,
            );
        },
        SpecErrorView::Field { field, value } => {
            let a = "malformed --transport-coverage-map field "@ + field;
            let b = a + "="@;
            let end = ": expected a decimal or 0x-hex integer"@;
            a_part_is_contained("malformed --transport-coverage-map field "@, field, none);
            parts_of_parts_are_contained(none, a, "="@, field);
            parts_of_parts_are_contained(none, b, debugged(value), field);
            parts_of_parts_are_contained(none, b + debugged(value), end, field);
            a_part_is_contained(b, debugged(value), end);
        },
        SpecErrorView::MissingMapKey { key } => {
            a_part_is_contained(
                "--transport-coverage-map is missing required key "@,
                debugged(key),
                " (need input,ring,write,wrapped,cap)"@,
            );
        },
        SpecErrorView::UnknownMapKey { key } => {
            a_part_is_contained(
                "--transport-coverage-map has unknown key "@,
                debugged(key),
                " (allowed: input,ring,write,wrapped,cap)"@,
            );
        },
        SpecErrorView::CapTooLarge { cap } => {
            a_part_is_contained(
                "coverage ring capacity "@,
                decimal(cap),
                " is not representable as a host-sized length"@,
            );
        },
        _ => {},
    }
}

/// Every class of fault is called by a name of its own.
pub proof fn every_class_of_fault_has_its_own_name(
    a: FaultKind,
    at: Option<u64>,
    b: FaultKind,
    bt: Option<u64>,
)
    ensures
        fault_class(a, at).name == fault_class(b, bt).name ==> fault_class(a, at).kind
            == fault_class(b, bt).kind,
        starts_with(fault_class(a, at).name, "target "@),
        starts_with(fault_class(a, at).kind, "target-"@),
{
    lemma_name_letters(a, at);
    lemma_name_letters(b, bt);
    if let FaultKind::Other(m) = a {
        if let FaultKind::Other(n) = b {
            let open = "target fault (unmapped backend code "@;
            reveal_strlit(")");
            if fault_class(a, at).name == fault_class(b, bt).name {
                joining_is_associative(open, decimal(m as nat), ")"@);
                joining_is_associative(open, decimal(n as nat), ")"@);
                the_rest_is_told_by_the_whole(
                    open,
                    decimal(m as nat) + ")"@,
                    decimal(n as nat) + ")"@,
                );
                let x = decimal(m as nat) + ")"@;
                let y = decimal(n as nat) + ")"@;
                assert(x.drop_last() =~= decimal(m as nat));
                assert(y.drop_last() =~= decimal(n as nat));
                numbers_are_told_apart(m as nat, n as nat);
            }
        }
    }
}

proof fn lemma_name_letters(kind: FaultKind, address: Option<u64>)
    ensures
        ({
            let name = fault_class(kind, address).name;
            &&& name.len() > 8
            &&& starts_with(name, "target "@)
            &&& starts_with(fault_class(kind, address).kind, "target-"@)
            &&& name[7] == match kind {
                FaultKind::CpuException => 'C',
                FaultKind::MemoryProtection => if address is Some && address->0 <= 0x1000 {
                    'N'
                } else {
                    'm'
                },
                FaultKind::Watchdog => 'w',
                FaultKind::AssertionPanic => 'r',
                FaultKind::StackOverflow => 's',
                FaultKind::Timeout => 'd',
                FaultKind::Other(_) => 'f',
            }
        }),
{
    reveal_strlit("target CPU exception");
    reveal_strlit("target NULL-pointer dereference (MMU/MPU trap at the null page)");
    reveal_strlit("target memory-protection (MMU/MPU) trap");
    reveal_strlit("target watchdog / reset-controller trip");
    reveal_strlit("target reachable assertion / panic / abort");
    reveal_strlit("target stack-overflow / guard-region violation");
    reveal_strlit("target deadline / watchdog timeout");
    reveal_strlit("target fault (unmapped backend code ");
    reveal_strlit("target-cpu-exception");
    reveal_strlit("target-null-pointer-dereference");
    reveal_strlit("target-memory-protection");
    reveal_strlit("target-watchdog-reset");
    reveal_strlit("target-reachable-assertion");
    reveal_strlit("target-stack-overflow");
    reveal_strlit("target-timeout");
    reveal_strlit("target-fault-");
    reveal_strlit("target ");
    reveal_strlit("target-");
    let name = fault_class(kind, address).name;
    let k = fault_class(kind, address).kind;
    assert(name.subrange(0, 7) =~= "target "@);
    assert(k.subrange(0, 7) =~= "target-"@);
}

} // verus!

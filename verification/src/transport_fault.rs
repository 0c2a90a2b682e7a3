//! Faults that a target transport reports, as findings.

use vstd::prelude::*;
use vstd::string::*;

use crate::text::{cat2, cat3, decimal, decimal_text, hex, hex_text};

verus! {

/// What kind of fault a target reported.
#[derive(Debug, Clone, Copy, PartialEq, Eq, Structural)]
pub enum FaultKind {
    CpuException,
    MemoryProtection,
    Watchdog,
    AssertionPanic,
    StackOverflow,
    Timeout,
    /// A code of the backend that has no kind of its own.
    Other(u32),
}

/// A fault that a target reported.
#[derive(Debug, Clone, PartialEq, Eq)]
pub struct Fault {
    pub kind: FaultKind,
    pub address: Option<u64>,
    pub detail: String,
}

impl Fault {
    /// A fault without address and detail.
    pub fn new(kind: FaultKind) -> (r: Fault)
        ensures
            r.kind == kind,
            r.address is None,
            r.detail@ == Seq::<char>::empty(),
    {
        Fault { kind, address: None, detail: String::new() }
    }
}

/// How one execution ended.
#[derive(Debug, Clone, Copy, PartialEq, Eq, Structural)]
pub enum ExitKind {
    Clean,
    Crash,
    Timeout,
}

/// What one execution showed.
#[derive(Debug, Clone, PartialEq, Eq)]
pub struct RunOutcome {
    pub exit: ExitKind,
    pub coverage_edges: Vec<u32>,
    pub fault: Option<Fault>,
    pub stdout: Vec<u8>,
}

impl RunOutcome {
    /// An execution that ended well.
    pub fn clean(coverage_edges: Vec<u32>) -> (r: RunOutcome)
        ensures
            r.exit == ExitKind::Clean,
            r.coverage_edges == coverage_edges,
            r.fault is None,
            r.stdout@.len() == 0,
    {
        RunOutcome { exit: ExitKind::Clean, coverage_edges, fault: None, stdout: Vec::new() }
    }
}

/// A protection trap at or below this address is the dereference of a null pointer.
pub const NULL_PAGE_LIMIT: u64 = 0x1000;

/// The rule, the class and the name of a fault.
#[derive(Debug, Clone, PartialEq, Eq)]
pub struct FaultClass {
    pub rule_id: &'static str,
    pub kind: String,
    pub name: String,
}

/// The same, as texts.
pub struct FaultClassView {
    pub rule_id: Seq<char>,
    pub kind: Seq<char>,
    pub name: Seq<char>,
}

impl View for FaultClass {
    type V = FaultClassView;

    open spec fn view(&self) -> FaultClassView {
        FaultClassView { rule_id: self.rule_id@, kind: self.kind@, name: self.name@ }
    }
}

/// Whether a fault is a protection trap at the null page.
pub open spec fn null_trap(kind: FaultKind, address: Option<u64>) -> bool {
    kind == FaultKind::MemoryProtection && (address matches Some(a) && a <= NULL_PAGE_LIMIT)
}

/// The class of a fault.
pub open spec fn fault_class(kind: FaultKind, address: Option<u64>) -> FaultClassView {
    match kind {
        FaultKind::CpuException => FaultClassView {
            rule_id: "BHF-210"@,
            kind: "target-cpu-exception"@,
            name: "target CPU exception"@,
        },
        FaultKind::MemoryProtection => if null_trap(kind, address) {
            FaultClassView {
                rule_id: "BHF-206"@,
                kind: "target-null-pointer-dereference"@,
                name: "target NULL-pointer dereference (MMU/MPU trap at the null page)"@,
            }
        } else {
            FaultClassView {
                rule_id: "BHF-210"@,
                kind: "target-memory-protection"@,
                name: "target memory-protection (MMU/MPU) trap"@,
            }
        },
        FaultKind::Watchdog => FaultClassView {
            rule_id: "BHF-210"@,
            kind: "target-watchdog-reset"@,
            name: "target watchdog / reset-controller trip"@,
        },
        FaultKind::AssertionPanic => FaultClassView {
            rule_id: "BHF-210"@,
            kind: "target-reachable-assertion"@,
            name: "target reachable assertion / panic / abort"@,
        },
        FaultKind::StackOverflow => FaultClassView {
            rule_id: "BHF-207"@,
            kind: "target-stack-overflow"@,
            name: "target stack-overflow / guard-region violation"@,
        },
        FaultKind::Timeout => FaultClassView {
            rule_id: "BHF-210"@,
            kind: "target-timeout"@,
            name: "target deadline / watchdog timeout"@,
        },
        FaultKind::Other(code) => FaultClassView {
            rule_id: "BHF-210"@,
            kind: "target-fault-"@ + decimal(code as nat),
            name: "target fault (unmapped backend code "@ + decimal(code as nat) + ")"@,
        },
    }
}

/// The class of a fault.
pub fn classify_fault(fault: &Fault) -> (r: FaultClass)
    ensures
        r@ == fault_class(fault.kind, fault.address),
{
    match fault.kind {
        FaultKind::CpuException => FaultClass {
            rule_id: "BHF-210",
            kind: "target-cpu-exception".to_owned(),
            name: "target CPU exception".to_owned(),
        },
        FaultKind::MemoryProtection => {
            let null = match fault.address {
                Some(address) => address <= NULL_PAGE_LIMIT,
                None => false,
            };
            if null {
                FaultClass {
                    rule_id: "BHF-206",
                    kind: "target-null-pointer-dereference".to_owned(),
                    name: "target NULL-pointer dereference (MMU/MPU trap at the null page)".to_owned(),
                }
            } else {
                FaultClass {
                    rule_id: "BHF-210",
                    kind: "target-memory-protection".to_owned(),
                    name: "target memory-protection (MMU/MPU) trap".to_owned(),
                }
            }
        },
        FaultKind::Watchdog => FaultClass {
            rule_id: "BHF-210",
            kind: "target-watchdog-reset".to_owned(),
            name: "target watchdog / reset-controller trip".to_owned(),
        },
        FaultKind::AssertionPanic => FaultClass {
            rule_id: "BHF-210",
            kind: "target-reachable-assertion".to_owned(),
            name: "target reachable assertion / panic / abort".to_owned(),
        },
        FaultKind::StackOverflow => FaultClass {
            rule_id: "BHF-207",
            kind: "target-stack-overflow".to_owned(),
            name: "target stack-overflow / guard-region violation".to_owned(),
        },
        FaultKind::Timeout => FaultClass {
            rule_id: "BHF-210",
            kind: "target-timeout".to_owned(),
            name: "target deadline / watchdog timeout".to_owned(),
        },
        FaultKind::Other(code) => {
            let code = decimal_text(code as u64);
            FaultClass {
                rule_id: "BHF-210",
                kind: cat2("target-fault-", code.as_str()),
                name: cat3("target fault (unmapped backend code ", code.as_str(), ")"),
            }
        },
    }
}

/// The sanitizer that a report is attributed to.
#[derive(Debug, Clone, Copy, PartialEq, Eq, Structural)]
pub enum Sanitizer {
    AddressSanitizer,
}

/// A crash as the findings pipeline takes it.
#[derive(Debug, Clone, PartialEq, Eq)]
pub struct SanitizerReport {
    pub sanitizer: Sanitizer,
    pub kind: String,
    pub rule_id: &'static str,
    pub stack: Vec<String>,
    pub message: String,
}

/// The same, as texts; a fault has no stack.
pub struct ReportView {
    pub rule_id: Seq<char>,
    pub kind: Seq<char>,
    pub message: Seq<char>,
}

/// Whether `report` is the report of an undiagnosed crash with these texts.
pub open spec fn report_is(report: SanitizerReport, want: ReportView) -> bool {
    &&& report.sanitizer == Sanitizer::AddressSanitizer
    &&& report.rule_id@ == want.rule_id
    &&& report.kind@ == want.kind
    &&& report.message@ == want.message
    &&& report.stack@.len() == 0
}

/// The report of an undiagnosed crash.
pub fn crash_report(rule_id: &'static str, kind: String, message: String) -> (r: SanitizerReport)
    ensures
        report_is(r, ReportView { rule_id: rule_id@, kind: kind@, message: message@ }),
{
    SanitizerReport {
        sanitizer: Sanitizer::AddressSanitizer,
        kind,
        rule_id,
        stack: Vec::new(),
        message,
    }
}

/// The report of a fault: its class, and its address and detail where it has them.
pub open spec fn report_of(kind: FaultKind, address: Option<u64>, detail: Seq<char>) -> ReportView {
    let class = fault_class(kind, address);
    let head = "target transport reported a "@ + class.name
        + " with no sanitizer report — a reachable crash"@;
    let with_address = match address {
        Some(a) => head + (" (fault address 0x"@ + hex(a as nat) + ")"@),
        None => head,
    };
    ReportView {
        rule_id: class.rule_id,
        kind: class.kind,
        message: if detail.len() > 0 {
            with_address + ": "@ + detail
        } else {
            with_address
        },
    }
}

/// The report of a fault.
pub fn fault_report(fault: &Fault) -> (r: SanitizerReport)
    ensures
        report_is(r, report_of(fault.kind, fault.address, fault.detail@)),
{
    let class = classify_fault(fault);
    let mut message = cat3(
        "target transport reported a ",
        class.name.as_str(),
        " with no sanitizer report — a reachable crash",
    );
    if let Some(address) = fault.address {
        let text = hex_text(address);
        message.append(cat3(" (fault address 0x", text.as_str(), ")").as_str());
    }
    if !fault.detail.as_str().is_empty() {
        message.append(": ");
        message.append(fault.detail.as_str());
    }
    crash_report(class.rule_id, class.kind, message)
}

/// The finding that an execution gives: none where it ended well, and one in every other
/// case, with or without a fault.
pub open spec fn finding_of(outcome: RunOutcome) -> Option<ReportView> {
    match (outcome.exit, outcome.fault) {
        (ExitKind::Clean, _) => None,
        (_, Some(fault)) => Some(report_of(fault.kind, fault.address, fault.detail@)),
        (ExitKind::Crash, None) => Some(
            ReportView {
                rule_id: "BHF-210"@,
                kind: "target-crash"@,
                message: "target transport reported a crash with no fault detail — a reachable crash"@,
            },
        ),
        (ExitKind::Timeout, None) => Some(report_of(FaultKind::Timeout, None, Seq::empty())),
    }
}

/// The finding that an execution gives.
pub fn outcome_finding(outcome: &RunOutcome) -> (r: Option<SanitizerReport>)
    ensures
        match (r, finding_of(*outcome)) {
            (Some(report), Some(want)) => report_is(report, want),
            (None, None) => true,
            _ => false,
        },
{
    match outcome.exit {
        ExitKind::Clean => None,
        ExitKind::Crash => match &outcome.fault {
            Some(fault) => Some(fault_report(fault)),
            None => Some(
                crash_report(
                    "BHF-210",
                    "target-crash".to_owned(),
                    "target transport reported a crash with no fault detail — a reachable crash".to_owned(),
                ),
            ),
        },
        ExitKind::Timeout => match &outcome.fault {
            Some(fault) => Some(fault_report(fault)),
            None => Some(fault_report(&Fault::new(FaultKind::Timeout))),
        },
    }
}

/// Every fault has one of three rules: a null dereference, a stack overflow, or a crash.
pub proof fn every_fault_has_a_rule(kind: FaultKind, address: Option<u64>)
    ensures
        ({
            let rule = fault_class(kind, address).rule_id;
            &&& null_trap(kind, address) ==> rule == "BHF-206"@
            &&& kind == FaultKind::StackOverflow ==> rule == "BHF-207"@
            &&& !null_trap(kind, address) && kind != FaultKind::StackOverflow ==> rule == "BHF-210"@
        }),
{
}

/// An execution gives a finding if and only if it did not end well.
pub proof fn no_failed_execution_is_lost(outcome: RunOutcome)
    ensures
        finding_of(outcome) is None <==> outcome.exit == ExitKind::Clean,
{
}

} // verus!

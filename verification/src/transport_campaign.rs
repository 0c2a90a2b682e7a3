//! A fuzz campaign over a target transport: when it stops, which inputs it runs, and
//! which outcomes become findings.

use vstd::prelude::*;
use vstd::string::*;
use vstd::utf8::encode_utf8;

use crate::scheduler::TimeSpan;
use crate::text::{byte_rows, bytes_of, cat3, same, texts};
use crate::transport_fault::{
    finding_of, outcome_finding, report_is, ExitKind, ReportView, RunOutcome, SanitizerReport,
};

verus! {

/// The seed that is used where none is given.
pub const DEFAULT_SEED: &'static str = "BHF-transport-seed";

/// Whether the transport path is taken: exactly where a transport is asked for.
pub fn should_use_transport(target_transport: Option<&str>) -> (r: bool)
    ensures
        r == (target_transport is Some),
{
    target_transport.is_some()
}

/// Whether `a` is no shorter than `b`.
pub open spec fn no_shorter(a: TimeSpan, b: TimeSpan) -> bool {
    a.secs > b.secs || (a.secs == b.secs && a.nanos >= b.nanos)
}

/// Whether a campaign stops: the executions, the time or the findings that it was given
/// are used up.
pub open spec fn stops(
    executions: nat,
    iterations: nat,
    elapsed: TimeSpan,
    time_budget: Option<TimeSpan>,
    findings: nat,
    stop_after_findings: Option<usize>,
) -> bool {
    ||| executions >= iterations
    ||| (time_budget matches Some(budget) && no_shorter(elapsed, budget))
    ||| (stop_after_findings matches Some(target) && findings >= target)
}

/// Whether a campaign stops.
pub fn should_stop(
    executions: usize,
    iterations: usize,
    elapsed: TimeSpan,
    time_budget: Option<TimeSpan>,
    distinct_findings: usize,
    stop_after_findings: Option<usize>,
) -> (r: bool)
    ensures
        r == stops(
            executions as nat,
            iterations as nat,
            elapsed,
            time_budget,
            distinct_findings as nat,
            stop_after_findings,
        ),
{
    if executions >= iterations {
        return true;
    }
    if let Some(budget) = time_budget {
        if elapsed.secs > budget.secs || (elapsed.secs == budget.secs && elapsed.nanos
            >= budget.nanos) {
            return true;
        }
    }
    if let Some(target) = stop_after_findings {
        if distinct_findings >= target {
            return true;
        }
    }
    false
}

/// The first `cap` bytes of `bytes`.
pub open spec fn first_bytes(bytes: Seq<u8>, cap: nat) -> Seq<u8> {
    if bytes.len() <= cap {
        bytes
    } else {
        bytes.take(cap as int)
    }
}

pub fn truncate(mut bytes: Vec<u8>, cap: usize) -> (r: Vec<u8>)
    ensures
        r@ == first_bytes(bytes@, cap as nat),
{
    bytes.truncate(cap);
    bytes
}

/// The most bytes of a seed.
pub open spec fn seed_cap(max_len: usize) -> nat {
    if max_len == 0 {
        1
    } else {
        max_len as nat
    }
}

/// How many bytes of a seed are read at most.
pub fn seed_limit(max_len: usize) -> (r: usize)
    ensures
        r == seed_cap(max_len),
{
    if max_len == 0 {
        1
    } else {
        max_len
    }
}

/// The seeds that were written on the command line, each cut to the cap, then those that
/// were read from files; the default seed where there is none.
pub open spec fn seeds(inputs: Seq<Seq<char>>, files: Seq<Seq<u8>>, max_len: usize) -> Seq<
    Seq<u8>,
> {
    let given = Seq::new(
        inputs.len(),
        |i: int| first_bytes(encode_utf8(inputs[i]), seed_cap(max_len)),
    );
    if inputs.len() == 0 && files.len() == 0 {
        seq![first_bytes(encode_utf8(DEFAULT_SEED@), seed_cap(max_len))]
    } else {
        given + files
    }
}

/// The seeds of a campaign, `files` being what was read from the seed files.
pub fn load_seeds(inputs: &[String], files: Vec<Vec<u8>>, max_len: usize) -> (r: Vec<Vec<u8>>)
    ensures
        byte_rows(r@) == seeds(
            texts(inputs@),
            byte_rows(files@),
            max_len,
        ),
        r@.len() > 0,
{
    let cap: usize = seed_limit(max_len);
    let mut out: Vec<Vec<u8>> = Vec::new();
    let ghost want = seeds(texts(inputs@), byte_rows(files@), max_len);
    if inputs.len() == 0 && files.len() == 0 {
        out.push(truncate(bytes_of(DEFAULT_SEED), cap));
        proof {
            assert(byte_rows(out@) =~= want);
        }
        return out;
    }
    let mut i: usize = 0;
    while i < inputs.len()
        invariant
            i <= inputs@.len(),
            cap == seed_cap(max_len),
            out@.len() == i,
            forall|k: int|
                0 <= k < i ==> (#[trigger] out@[k])@ == first_bytes(
                    encode_utf8(inputs@[k]@),
                    seed_cap(max_len),
                ),
        decreases inputs@.len() - i,
    {
        out.push(truncate(bytes_of(inputs[i].as_str()), cap));
        i = i + 1;
    }
    let ghost head = out@;
    let ghost tail = files@;
    let mut files = files;
    out.append(&mut files);
    proof {
        assert(out@ =~= head + tail);
        assert(byte_rows(out@) =~= want);
    }
    out
}

/// Where a campaign stands between two executions.
#[derive(Debug, Clone, Copy, PartialEq, Eq, Structural)]
pub enum Phase {
    /// The seeds from this one on have not run.
    Seeds { next: usize },
    /// A corpus member is to be selected.
    Selecting,
    /// The selected member has this many children left.
    Mutating { children: usize },
    Done,
}

/// What the driver of a campaign does next.
#[derive(Debug, Clone, Copy, PartialEq, Eq, Structural)]
pub enum CampaignAction {
    /// Runs this seed.
    RunSeed { index: usize },
    /// Asks the power schedule for a corpus member.
    Select,
    /// Mutates the selected member and runs the child.
    RunChild,
    /// Is done.
    Finish,
}

/// What the driver does with an input that ran.
#[derive(Debug, Clone, PartialEq, Eq)]
pub struct OutcomeStep {
    /// Adds the input to the corpus.
    pub retain: bool,
    /// Writes this finding, and reports its identifier.
    pub finding: Option<SanitizerReport>,
}

/// A campaign.
pub struct Campaign {
    seed_count: usize,
    iterations: usize,
    time_budget: Option<TimeSpan>,
    stop_after_findings: Option<usize>,
    phase: Phase,
    executions: usize,
    corpus_new: usize,
    crashes: usize,
    finding_ids: Vec<String>,
    seen: Vec<String>,
}

/// A campaign as lists and numbers.
#[verifier::ext_equal]
pub struct CampaignView {
    pub seed_count: nat,
    pub iterations: nat,
    pub time_budget: Option<TimeSpan>,
    pub stop_after_findings: Option<usize>,
    pub phase: Phase,
    pub executions: nat,
    /// Children kept for the coverage they reached.
    pub corpus_new: nat,
    /// Executions that did not end well.
    pub crashes: nat,
    /// The identifiers of the findings written.
    pub findings: Seq<Seq<char>>,
    /// The fault classes that were met.
    pub seen: Seq<Seq<char>>,
}

impl View for Campaign {
    type V = CampaignView;

    closed spec fn view(&self) -> CampaignView {
        CampaignView {
            seed_count: self.seed_count as nat,
            iterations: self.iterations as nat,
            time_budget: self.time_budget,
            stop_after_findings: self.stop_after_findings,
            phase: self.phase,
            executions: self.executions as nat,
            corpus_new: self.corpus_new as nat,
            crashes: self.crashes as nat,
            findings: texts(self.finding_ids@),
            seen: texts(self.seen@),
        }
    }
}

impl CampaignView {
    /// Whether the campaign stops at this time.
    pub open spec fn over(self, elapsed: TimeSpan) -> bool {
        stops(
            self.executions,
            self.iterations,
            elapsed,
            self.time_budget,
            self.findings.len(),
            self.stop_after_findings,
        )
    }

    /// No more executions than were given, and no more of anything than executions; no
    /// fault class twice, and no finding without a class.
    pub open spec fn well_formed(self) -> bool {
        &&& self.executions <= self.iterations
        &&& self.crashes <= self.executions
        &&& self.corpus_new <= self.executions
        &&& self.findings.len() <= self.seen.len() <= self.crashes
        &&& forall|i: int, j: int|
            0 <= i < j < self.seen.len() ==> #[trigger] self.seen[i] != #[trigger] self.seen[j]
        &&& self.phase matches Phase::Seeds { next } ==> next <= self.seed_count
    }
}

/// A campaign that has not begun.
pub open spec fn unbegun(
    seed_count: nat,
    iterations: nat,
    time_budget: Option<TimeSpan>,
    stop_after_findings: Option<usize>,
) -> CampaignView {
    CampaignView {
        seed_count,
        iterations,
        time_budget,
        stop_after_findings,
        phase: Phase::Seeds { next: 0 },
        executions: 0,
        corpus_new: 0,
        crashes: 0,
        findings: Seq::empty(),
        seen: Seq::empty(),
    }
}

/// What the driver does next, and where the campaign stands then: every seed runs once,
/// then members are selected and their children run, until the campaign stops.
pub open spec fn next_action(c: CampaignView, elapsed: TimeSpan) -> (CampaignAction, Phase) {
    if c.over(elapsed) {
        (CampaignAction::Finish, Phase::Done)
    } else {
        match c.phase {
            Phase::Seeds { next } => if next < c.seed_count {
                (CampaignAction::RunSeed { index: next }, c.phase)
            } else {
                (CampaignAction::Select, Phase::Selecting)
            },
            Phase::Selecting => (CampaignAction::Select, Phase::Selecting),
            Phase::Mutating { children } => if children > 0 {
                (CampaignAction::RunChild, c.phase)
            } else {
                (CampaignAction::Select, Phase::Selecting)
            },
            Phase::Done => (CampaignAction::Finish, Phase::Done),
        }
    }
}

/// The phase after an input ran.
pub open spec fn phase_after_run(phase: Phase) -> Phase {
    match phase {
        Phase::Seeds { next } => Phase::Seeds { next: (next + 1) as usize },
        Phase::Mutating { children } => Phase::Mutating { children: (children - 1) as usize },
        _ => phase,
    }
}

/// The phase after a selection that gave this energy: as many children, at least one, and
/// none where nothing was selected.
pub open spec fn phase_selected(energy: Option<usize>) -> Phase {
    match energy {
        None => Phase::Done,
        Some(n) => Phase::Mutating {
            children: if n == 0 {
                1
            } else {
                n
            },
        },
    }
}

/// Whether an input is running.
pub open spec fn can_run(c: CampaignView) -> bool {
    &&& c.executions < c.iterations
    &&& match c.phase {
        Phase::Seeds { next } => next < c.seed_count,
        Phase::Mutating { children } => children > 0,
        _ => false,
    }
}

/// The fault class of a report.
pub open spec fn fault_key(report: ReportView) -> Seq<char> {
    report.rule_id + "|"@ + report.kind
}

/// Whether an input joins the corpus: a child that ended well and reached new coverage.
pub open spec fn joins_corpus(c: CampaignView, exit: ExitKind, novel: bool) -> bool {
    c.phase is Mutating && exit == ExitKind::Clean && novel
}

/// The campaign after an input ran.
pub open spec fn after_run(
    c: CampaignView,
    exit: ExitKind,
    finding: Option<ReportView>,
    novel: bool,
) -> CampaignView {
    CampaignView {
        phase: phase_after_run(c.phase),
        executions: c.executions + 1,
        corpus_new: if joins_corpus(c, exit, novel) {
            c.corpus_new + 1
        } else {
            c.corpus_new
        },
        crashes: if finding is Some {
            c.crashes + 1
        } else {
            c.crashes
        },
        seen: if finding matches Some(report) && !c.seen.contains(fault_key(report)) {
            c.seen.push(fault_key(finding->0))
        } else {
            c.seen
        },
        ..c
    }
}

/// Whether an input reached new coverage, by how many new bits of the coverage map and
/// how many new exceptions it showed.
pub fn is_novel(new_bits: usize, new_exceptions: usize) -> (r: bool)
    ensures
        r == (new_bits > 0 || new_exceptions > 0),
{
    new_bits > 0 || new_exceptions > 0
}

/// Where a campaign failed.
#[derive(Debug, Clone, Copy, PartialEq, Eq, Structural)]
pub enum CampaignFailure {
    /// The transport was not specified so that it can be made.
    Transport,
    /// A seed could not be read.
    Seeds,
    /// An input could not be run or a finding not written.
    Run,
    /// The summary could not be shown.
    Summary,
}

/// The exit code of a campaign that failed.
pub fn failure_code(failure: CampaignFailure) -> (r: i32)
    ensures
        r == match failure {
            CampaignFailure::Transport => 2i32,
            CampaignFailure::Seeds => 3i32,
            CampaignFailure::Run => 1i32,
            CampaignFailure::Summary => 1i32,
        },
{
    match failure {
        CampaignFailure::Transport => 2,
        CampaignFailure::Seeds => 3,
        CampaignFailure::Run => 1,
        CampaignFailure::Summary => 1,
    }
}

impl Campaign {
    /// A campaign that has not begun.
    pub fn new(
        seed_count: usize,
        iterations: usize,
        time_budget: Option<TimeSpan>,
        stop_after_findings: Option<usize>,
    ) -> (r: Campaign)
        ensures
            r@ == unbegun(seed_count as nat, iterations as nat, time_budget, stop_after_findings),
            r@.well_formed(),
    {
        let r = Campaign {
            seed_count,
            iterations,
            time_budget,
            stop_after_findings,
            phase: Phase::Seeds { next: 0 },
            executions: 0,
            corpus_new: 0,
            crashes: 0,
            finding_ids: Vec::new(),
            seen: Vec::new(),
        };
        proof {
            assert(r@ =~= unbegun(
                seed_count as nat,
                iterations as nat,
                time_budget,
                stop_after_findings,
            ));
        }
        r
    }

    /// What the driver does next, `elapsed` having passed since the campaign began.
    pub fn next(&mut self, elapsed: TimeSpan) -> (r: CampaignAction)
        ensures
            r == next_action(old(self)@, elapsed).0,
            final(self)@ == (CampaignView {
                phase: next_action(old(self)@, elapsed).1,
                ..old(self)@
            }),
            (r is RunSeed || r is RunChild) ==> !old(self)@.over(elapsed) && can_run(final(self)@),
    {
        proof {
            assert(self@.findings.len() == self.finding_ids@.len());
        }
        if should_stop(
            self.executions,
            self.iterations,
            elapsed,
            self.time_budget,
            self.finding_ids.len(),
            self.stop_after_findings,
        ) {
            self.phase = Phase::Done;
            return CampaignAction::Finish;
        }
        match self.phase {
            Phase::Seeds { next } => {
                if next < self.seed_count {
                    return CampaignAction::RunSeed { index: next };
                }
                self.phase = Phase::Selecting;
                CampaignAction::Select
            },
            Phase::Selecting => CampaignAction::Select,
            Phase::Mutating { children } => {
                if children > 0 {
                    return CampaignAction::RunChild;
                }
                self.phase = Phase::Selecting;
                CampaignAction::Select
            },
            Phase::Done => CampaignAction::Finish,
        }
    }

    /// Takes what the power schedule answered: a member earns at least one child, and the
    /// campaign ends where there is no member.
    pub fn selected(&mut self, energy: Option<usize>)
        ensures
            final(self)@ == (CampaignView { phase: phase_selected(energy), ..old(self)@ }),
    {
        self.phase = match energy {
            None => Phase::Done,
            Some(n) => Phase::Mutating {
                children: if n == 0 {
                    1
                } else {
                    n
                },
            },
        };
    }

    /// Takes the outcome of the input that ran, `novel` saying whether it reached new
    /// coverage. Every outcome that is not clean counts; only the first of its fault class
    /// becomes a finding.
    pub fn ran(&mut self, outcome: &RunOutcome, novel: bool) -> (r: OutcomeStep)
        requires
            old(self)@.well_formed(),
            can_run(old(self)@),
        ensures
            final(self)@ == after_run(old(self)@, outcome.exit, finding_of(*outcome), novel),
            final(self)@.well_formed(),
            r.retain == joins_corpus(old(self)@, outcome.exit, novel),
            match (r.finding, finding_of(*outcome)) {
                (Some(report), Some(want)) => report_is(report, want) && !old(
                    self,
                )@.seen.contains(fault_key(want)),
                (None, Some(want)) => old(self)@.seen.contains(fault_key(want)),
                (None, None) => true,
                (Some(_), None) => false,
            },
    {
        let ghost c = self@;
        let mutated = match self.phase {
            Phase::Mutating { .. } => true,
            _ => false,
        };
        self.phase = match self.phase {
            Phase::Seeds { next } => Phase::Seeds { next: next + 1 },
            Phase::Mutating { children } => Phase::Mutating { children: children - 1 },
            other => other,
        };
        self.executions = self.executions + 1;
        let clean = match outcome.exit {
            ExitKind::Clean => true,
            _ => false,
        };
        let retain = mutated && clean && novel;
        if retain {
            self.corpus_new = self.corpus_new + 1;
        }
        let finding = match outcome_finding(outcome) {
            None => None,
            Some(report) => {
                self.crashes = self.crashes + 1;
                let key = cat3(report.rule_id, "|", report.kind.as_str());
                if self.is_known(key.as_str()) {
                    None
                } else {
                    proof {
                        assert(texts(self.seen@.push(key)) =~= c.seen.push(key@));
                    }
                    self.seen.push(key);
                    Some(report)
                }
            },
        };
        proof {
            assert(self@ =~= after_run(c, outcome.exit, finding_of(*outcome), novel));
            assert forall|i: int, j: int|
                0 <= i < j < self@.seen.len() implies #[trigger] self@.seen[i]
                != #[trigger] self@.seen[j] by {
                if j < c.seen.len() {
                    assert(self@.seen[i] == c.seen[i] && self@.seen[j] == c.seen[j]);
                } else {
                    assert(self@.seen[i] == c.seen[i]);
                    assert(c.seen.contains(c.seen[i]));
                }
            }
        }
        OutcomeStep { retain, finding }
    }

    fn is_known(&self, key: &str) -> (r: bool)
        ensures
            r == self@.seen.contains(key@),
    {
        let mut i: usize = 0;
        while i < self.seen.len()
            invariant
                i <= self.seen@.len(),
                forall|k: int| 0 <= k < i ==> #[trigger] self@.seen[k] != key@,
            decreases self.seen@.len() - i,
        {
            proof {
                assert(self@.seen[i as int] == self.seen@[i as int]@);
            }
            if same(self.seen[i].as_str(), key) {
                return true;
            }
            i = i + 1;
        }
        proof {
            assert(self@.seen.len() == self.seen@.len());
        }
        false
    }

    /// Notes the identifier under which a finding was written.
    pub fn written(&mut self, id: String)
        ensures
            final(self)@ == (CampaignView {
                findings: old(self)@.findings.push(id@),
                ..old(self)@
            }),
            old(self)@.well_formed() && old(self)@.findings.len() < old(self)@.seen.len()
                ==> final(self)@.well_formed(),
    {
        proof {
            assert(texts(self.finding_ids@.push(id)) =~= self@.findings.push(id@));
        }
        self.finding_ids.push(id);
    }

    /// What the campaign has come to.
    pub fn summary(&self) -> (r: CampaignCounts)
        ensures
            r.seeds == self@.seed_count,
            r.executions == self@.executions,
            r.corpus_new == self@.corpus_new,
            r.crashes == self@.crashes,
            texts(r.findings@) == self@.findings,
    {
        let mut findings: Vec<String> = Vec::new();
        let mut i: usize = 0;
        while i < self.finding_ids.len()
            invariant
                i <= self.finding_ids@.len(),
                texts(findings@) == self@.findings.take(i as int),
            decreases self.finding_ids@.len() - i,
        {
            let id = self.finding_ids[i].clone();
            proof {
                assert(texts(findings@.push(id)) =~= texts(findings@).push(id@));
                assert(self@.findings.take(i + 1) =~= self@.findings.take(i as int).push(
                    self@.findings[i as int],
                ));
            }
            findings.push(id);
            i = i + 1;
        }
        proof {
            assert(self@.findings.take(i as int) =~= self@.findings);
        }
        CampaignCounts {
            seeds: self.seed_count,
            executions: self.executions,
            corpus_new: self.corpus_new,
            crashes: self.crashes,
            findings,
        }
    }
}

/// What a campaign has come to.
#[derive(Debug, Clone, PartialEq, Eq)]
pub struct CampaignCounts {
    pub seeds: usize,
    pub executions: usize,
    pub corpus_new: usize,
    pub crashes: usize,
    pub findings: Vec<String>,
}

/// No input runs once the campaign stops: none beyond the executions it was given, none
/// past its time, none after the findings it was to stop at.
pub proof fn nothing_runs_past_the_budget(c: CampaignView, elapsed: TimeSpan)
    ensures
        c.over(elapsed) ==> next_action(c, elapsed).0 == CampaignAction::Finish,
        c.executions >= c.iterations ==> next_action(c, elapsed).0 == CampaignAction::Finish,
{
}

/// A campaign that has finished stays finished.
pub proof fn a_finished_campaign_stays_finished(c: CampaignView, elapsed: TimeSpan)
    requires
        c.phase == Phase::Done,
    ensures
        next_action(c, elapsed) == (CampaignAction::Finish, Phase::Done),
{
}

/// A fault class that was met gives no second finding, but each of its executions counts.
pub proof fn a_fault_class_is_found_once(
    c: CampaignView,
    exit: ExitKind,
    report: ReportView,
    novel: bool,
)
    ensures
        ({
            let once = after_run(c, exit, Some(report), novel);
            let twice = after_run(once, exit, Some(report), novel);
            &&& once.seen.contains(fault_key(report))
            &&& twice.seen == once.seen
            &&& twice.crashes == c.crashes + 2
        }),
{
    let key = fault_key(report);
    let once = after_run(c, exit, Some(report), novel);
    if !c.seen.contains(key) {
        assert(once.seen[c.seen.len() as int] == key);
    }
}

} // verus!

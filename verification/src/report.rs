//! The report command: in which order its steps are taken, and what it says.

use vstd::prelude::*;
use vstd::string::*;

use crate::text::{cat2, decimal, decimal_text, texts};

verus! {

#[derive(Debug, Clone, PartialEq, Eq)]
pub struct ReportArgs {
    pub run: String,
    pub findings: String,
    pub out: String,
    pub model: Option<String>,
    pub sarif: bool,
    pub junit: bool,
    pub csv: bool,
    pub collapse_clusters: bool,
    /// A saved report to compare with.
    pub baseline: Option<String>,
    /// The decisions to carry into the comparison.
    pub triage: Option<String>,
}

/// A step of the command.
#[derive(Debug, Clone, Copy, PartialEq, Eq, Structural)]
pub enum ReportStep {
    /// The baseline is read.
    LoadBaseline,
    /// The decisions are read.
    LoadTriage,
    /// The reports are written.
    WriteReports,
    /// The report that was written is compared with the baseline.
    Compare,
}

/// What the command does next.
#[derive(Debug, PartialEq, Eq)]
pub enum ReportAction {
    Take { step: ReportStep },
    /// It fails, and says why.
    Fail { message: String },
    /// It says what was written, and succeeds.
    Succeed,
}

pub enum ActionView {
    Take { step: ReportStep },
    Fail { message: Seq<char> },
    Succeed,
}

impl View for ReportAction {
    type V = ActionView;

    open spec fn view(&self) -> ActionView {
        match self {
            ReportAction::Take { step } => ActionView::Take { step: *step },
            ReportAction::Fail { message } => ActionView::Fail { message: message@ },
            ReportAction::Succeed => ActionView::Succeed,
        }
    }
}

/// What the command does first. The baseline is read before anything is written: it may
/// be the very file that the new report replaces.
pub open spec fn begun(baseline: bool, triage: bool) -> ActionView {
    if baseline {
        ActionView::Take { step: ReportStep::LoadBaseline }
    } else if triage {
        ActionView::Fail { message: "error: --triage requires --baseline"@ }
    } else {
        ActionView::Take { step: ReportStep::LoadTriage }
    }
}

/// What the command does after a step that succeeded or failed with a reason.
pub open spec fn followed(step: ReportStep, failure: Option<Seq<char>>, baseline: bool) -> ActionView {
    match failure {
        Some(reason) => ActionView::Fail {
            message: if step == ReportStep::Compare {
                "error: reports generated but comparison failed: "@ + reason
            } else {
                "error: "@ + reason
            },
        },
        None => match step {
            ReportStep::LoadBaseline => ActionView::Take { step: ReportStep::LoadTriage },
            ReportStep::LoadTriage => ActionView::Take { step: ReportStep::WriteReports },
            ReportStep::WriteReports => if baseline {
                ActionView::Take { step: ReportStep::Compare }
            } else {
                ActionView::Succeed
            },
            ReportStep::Compare => ActionView::Succeed,
        },
    }
}

pub fn begin(args: &ReportArgs) -> (r: ReportAction)
    ensures
        r@ == begun(args.baseline is Some, args.triage is Some),
{
    if args.baseline.is_some() {
        ReportAction::Take { step: ReportStep::LoadBaseline }
    } else if args.triage.is_some() {
        ReportAction::Fail { message: "error: --triage requires --baseline".to_owned() }
    } else {
        ReportAction::Take { step: ReportStep::LoadTriage }
    }
}

pub fn follow(args: &ReportArgs, step: ReportStep, failure: Option<&str>) -> (r: ReportAction)
    ensures
        r@ == followed(
            step,
            match failure {
                Some(reason) => Some(reason@),
                None => None,
            },
            args.baseline is Some,
        ),
{
    match failure {
        Some(reason) => ReportAction::Fail {
            message: if step == ReportStep::Compare {
                cat2("error: reports generated but comparison failed: ", reason)
            } else {
                cat2("error: ", reason)
            },
        },
        None => match step {
            ReportStep::LoadBaseline => ReportAction::Take { step: ReportStep::LoadTriage },
            ReportStep::LoadTriage => ReportAction::Take { step: ReportStep::WriteReports },
            ReportStep::WriteReports => if args.baseline.is_some() {
                ReportAction::Take { step: ReportStep::Compare }
            } else {
                ReportAction::Succeed
            },
            ReportStep::Compare => ReportAction::Succeed,
        },
    }
}

/// The exit code of an action that ends the command.
pub fn exit_code(action: &ReportAction) -> (r: Option<i32>)
    ensures
        r == match action@ {
            ActionView::Take { .. } => None::<i32>,
            ActionView::Fail { .. } => Some(1i32),
            ActionView::Succeed => Some(0i32),
        },
{
    match action {
        ReportAction::Take { .. } => None,
        ReportAction::Fail { .. } => Some(1),
        ReportAction::Succeed => Some(0),
    }
}

/// What was written.
#[derive(Debug, Clone, PartialEq, Eq)]
pub struct ReportSummary {
    pub run_id: String,
    pub findings_count: u64,
    pub json_path: String,
    pub markdown_path: String,
    pub sarif_path: Option<String>,
    pub junit_path: Option<String>,
    pub csv_path: Option<String>,
}

pub open spec fn optional_line(word: Seq<char>, path: Option<String>) -> Seq<Seq<char>> {
    match path {
        Some(p) => seq![word + p@],
        None => seq![],
    }
}

/// What the command says of the reports: first the report itself, then each further form
/// that was written.
pub open spec fn summary_text(s: &ReportSummary) -> Seq<Seq<char>> {
    seq![
        "REPORT run="@ + s.run_id@ + " findings="@ + decimal(s.findings_count as nat) + " json="@
            + s.json_path@ + " markdown="@ + s.markdown_path@,
    ] + optional_line("SARIF "@, s.sarif_path) + optional_line("JUNIT "@, s.junit_path)
        + optional_line("CSV "@, s.csv_path)
}

fn push_optional(out: &mut Vec<String>, word: &str, path: &Option<String>)
    ensures
        texts(final(out)@) == texts(old(out)@) + optional_line(word@, *path),
{
    if let Some(p) = path {
        out.push(cat2(word, p.as_str()));
    }
    proof {
        assert(texts(out@) =~= texts(old(out)@) + optional_line(word@, *path));
    }
}

pub fn summary_lines(s: &ReportSummary) -> (r: Vec<String>)
    ensures
        texts(r@) == summary_text(s),
{
    let count = decimal_text(s.findings_count);
    let mut line = "REPORT run=".to_owned();
    line.append(s.run_id.as_str());
    line.append(" findings=");
    line.append(count.as_str());
    line.append(" json=");
    line.append(s.json_path.as_str());
    line.append(" markdown=");
    line.append(s.markdown_path.as_str());
    let mut out: Vec<String> = Vec::new();
    let ghost first = line@;
    out.push(line);
    proof {
        assert(texts(out@) =~= seq![first]);
    }
    push_optional(&mut out, "SARIF ", &s.sarif_path);
    push_optional(&mut out, "JUNIT ", &s.junit_path);
    push_optional(&mut out, "CSV ", &s.csv_path);
    out
}

/// What the command says of a file of the comparison.
pub fn comparison_line(path: &str) -> (r: String)
    ensures
        r@ == "COMPARISON "@ + path@,
{
    cat2("COMPARISON ", path)
}

/// Where a step stands in the order of the steps.
pub open spec fn place(step: ReportStep) -> nat {
    match step {
        ReportStep::LoadBaseline => 0,
        ReportStep::LoadTriage => 1,
        ReportStep::WriteReports => 2,
        ReportStep::Compare => 3,
    }
}

/// The steps are taken in their order and none twice, so the baseline is read before the
/// reports are written. With a baseline all four are taken; decisions without a baseline
/// are refused before anything is written.
pub proof fn the_baseline_is_read_before_reports_are_written(
    step: ReportStep,
    failure: Option<Seq<char>>,
    baseline: bool,
    triage: bool,
)
    ensures
        followed(step, failure, baseline) matches ActionView::Take { step: next } ==> place(next)
            == place(step) + 1,
        begun(baseline, triage) matches ActionView::Take { step: first } ==> place(first) < 2 && (
        baseline <==> first == ReportStep::LoadBaseline),
        triage && !baseline ==> begun(baseline, triage) is Fail,
        followed(step, failure, baseline) is Succeed <==> failure is None && step == if baseline {
            ReportStep::Compare
        } else {
            ReportStep::WriteReports
        } || failure is None && step == ReportStep::Compare,
        failure is Some ==> followed(step, failure, baseline) is Fail,
{
}

} // verus!

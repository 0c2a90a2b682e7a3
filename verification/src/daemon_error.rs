//! What the scheduler refuses and why, and the storage faults it records.

use vstd::prelude::*;
use vstd::string::*;

use crate::text::{cat2, cat3, decimal, decimal_text};

verus! {

/// An error of the operating system, as the scheduler records it.
#[derive(Debug, Clone, PartialEq, Eq)]
pub struct IoError {
    /// The kind's name.
    pub kind: String,
    pub raw_os_error: Option<i32>,
    pub message: String,
}

/// An error of the operating system, as texts.
pub struct IoErrorView {
    pub kind: Seq<char>,
    pub raw_os_error: Option<i32>,
    pub message: Seq<char>,
}

impl View for IoError {
    type V = IoErrorView;

    open spec fn view(&self) -> IoErrorView {
        IoErrorView {
            kind: self.kind@,
            raw_os_error: self.raw_os_error,
            message: self.message@,
        }
    }
}

impl IoError {
    /// An error without a number of the operating system.
    pub fn new(kind: &str, message: &str) -> (r: IoError)
        ensures
            r@ == (IoErrorView { kind: kind@, raw_os_error: None, message: message@ }),
    {
        IoError { kind: kind.to_owned(), raw_os_error: None, message: message.to_owned() }
    }
}

/// Why the scheduler refuses to start, to take a job or to notify.
#[derive(Debug, Clone, PartialEq, Eq)]
pub enum DaemonError {
    DataDirMissing(String),
    DataDirInUse(String),
    BinMissing(String),
    Shutdown,
    IdExhausted,
    InvalidBudget(String),
    InvalidLimits,
    Capacity(&'static str),
    CorruptJobs { path: String, line: usize, reason: String },
    DurabilityUncertain { job_id: String, source: IoError },
    Io(IoError),
    Json(String),
}

/// The same, as texts.
pub enum DaemonErrorView {
    DataDirMissing(Seq<char>),
    DataDirInUse(Seq<char>),
    BinMissing(Seq<char>),
    Shutdown,
    IdExhausted,
    InvalidBudget(Seq<char>),
    InvalidLimits,
    Capacity(Seq<char>),
    CorruptJobs { path: Seq<char>, line: nat, reason: Seq<char> },
    DurabilityUncertain { job_id: Seq<char>, source: IoErrorView },
    Io(IoErrorView),
    Json(Seq<char>),
}

impl View for DaemonError {
    type V = DaemonErrorView;

    open spec fn view(&self) -> DaemonErrorView {
        match self {
            DaemonError::DataDirMissing(path) => DaemonErrorView::DataDirMissing(path@),
            DaemonError::DataDirInUse(path) => DaemonErrorView::DataDirInUse(path@),
            DaemonError::BinMissing(path) => DaemonErrorView::BinMissing(path@),
            DaemonError::Shutdown => DaemonErrorView::Shutdown,
            DaemonError::IdExhausted => DaemonErrorView::IdExhausted,
            DaemonError::InvalidBudget(reason) => DaemonErrorView::InvalidBudget(reason@),
            DaemonError::InvalidLimits => DaemonErrorView::InvalidLimits,
            DaemonError::Capacity(what) => DaemonErrorView::Capacity(what@),
            DaemonError::CorruptJobs { path, line, reason } => DaemonErrorView::CorruptJobs {
                path: path@,
                line: *line as nat,
                reason: reason@,
            },
            DaemonError::DurabilityUncertain { job_id, source } => {
                DaemonErrorView::DurabilityUncertain { job_id: job_id@, source: source@ }
            },
            DaemonError::Io(error) => DaemonErrorView::Io(error@),
            DaemonError::Json(error) => DaemonErrorView::Json(error@),
        }
    }
}

/// The sentence for an error.
pub open spec fn error_sentence(e: DaemonErrorView) -> Seq<char> {
    match e {
        DaemonErrorView::DataDirMissing(path) => "data dir does not exist: "@ + path,
        DaemonErrorView::DataDirInUse(path) => {
            "scheduler data directory is already owned by another instance: "@ + path
        },
        DaemonErrorView::BinMissing(path) => "bhf binary not found: "@ + path,
        DaemonErrorView::Shutdown => "scheduler already shut down"@,
        DaemonErrorView::IdExhausted => "job ID space exhausted"@,
        DaemonErrorView::InvalidBudget(reason) => "invalid job time budget: "@ + reason,
        DaemonErrorView::InvalidLimits => "invalid scheduler limits"@,
        DaemonErrorView::Capacity(what) => "scheduler capacity exceeded: "@ + what,
        DaemonErrorView::CorruptJobs { path, line, reason } => {
            "invalid jobs snapshot "@ + path + " at line "@ + decimal(line) + ": "@ + reason
        },
        DaemonErrorView::DurabilityUncertain { job_id, source } => {
            "durability of job "@ + job_id + " is uncertain after replacing jobs snapshot: "@
                + source.message + "; restart the scheduler before submitting again"@
        },
        DaemonErrorView::Io(error) => "I/O error: "@ + error.message,
        DaemonErrorView::Json(error) => "JSON error: "@ + error,
    }
}

impl DaemonError {
    /// The sentence for the error.
    pub fn sentence(&self) -> (r: String)
        ensures
            r@ == error_sentence(self@),
    {
        match self {
            DaemonError::DataDirMissing(path) => cat2("data dir does not exist: ", path.as_str()),
            DaemonError::DataDirInUse(path) => cat2(
                "scheduler data directory is already owned by another instance: ",
                path.as_str(),
            ),
            DaemonError::BinMissing(path) => cat2("bhf binary not found: ", path.as_str()),
            DaemonError::Shutdown => "scheduler already shut down".to_owned(),
            DaemonError::IdExhausted => "job ID space exhausted".to_owned(),
            DaemonError::InvalidBudget(reason) => cat2(
                "invalid job time budget: ",
                reason.as_str(),
            ),
            DaemonError::InvalidLimits => "invalid scheduler limits".to_owned(),
            DaemonError::Capacity(what) => cat2("scheduler capacity exceeded: ", what),
            DaemonError::CorruptJobs { path, line, reason } => {
                let mut out = cat3("invalid jobs snapshot ", path.as_str(), " at line ");
                out.append(decimal_text(*line as u64).as_str());
                out.append(": ");
                out.append(reason.as_str());
                out
            },
            DaemonError::DurabilityUncertain { job_id, source } => {
                let mut out = cat3(
                    "durability of job ",
                    job_id.as_str(),
                    " is uncertain after replacing jobs snapshot: ",
                );
                out.append(source.message.as_str());
                out.append("; restart the scheduler before submitting again");
                out
            },
            DaemonError::Io(error) => cat2("I/O error: ", error.message.as_str()),
            DaemonError::Json(error) => cat2("JSON error: ", error.as_str()),
        }
    }
}

/// A write of the jobs that failed.
#[derive(Debug, Clone, PartialEq, Eq)]
pub struct PersistFailure {
    pub error: IoError,
    /// Whether the new file has replaced the old one, so that only its durability is open.
    pub installed: bool,
}

impl PersistFailure {
    /// A failure that left the old file in place.
    pub fn before(error: IoError) -> (r: PersistFailure)
        ensures
            r == (PersistFailure { error, installed: false }),
    {
        PersistFailure { error, installed: false }
    }

    /// A failure behind the replacement of the old file.
    pub fn after(error: IoError) -> (r: PersistFailure)
        ensures
            r == (PersistFailure { error, installed: true }),
    {
        PersistFailure { error, installed: true }
    }
}

/// What was being written down when storage failed.
#[derive(Debug, Clone, Copy, PartialEq, Eq, Structural)]
pub enum PersistencePhase {
    Admission,
    Start,
    Completion,
}

/// The first storage error since the start. It names no project, harness or path.
#[derive(Debug, PartialEq, Eq)]
pub struct StorageFault {
    pub phase: PersistencePhase,
    pub job_id: String,
    pub snapshot_installed: bool,
    pub io_error_kind: String,
    pub raw_os_error: Option<i32>,
}

/// A storage fault, as texts.
pub struct StorageFaultView {
    pub phase: PersistencePhase,
    pub job_id: Seq<char>,
    pub snapshot_installed: bool,
    pub io_error_kind: Seq<char>,
    pub raw_os_error: Option<i32>,
}

impl View for StorageFault {
    type V = StorageFaultView;

    open spec fn view(&self) -> StorageFaultView {
        StorageFaultView {
            phase: self.phase,
            job_id: self.job_id@,
            snapshot_installed: self.snapshot_installed,
            io_error_kind: self.io_error_kind@,
            raw_os_error: self.raw_os_error,
        }
    }
}

impl Clone for StorageFault {
    fn clone(&self) -> (r: StorageFault)
        ensures
            r@ == self@,
    {
        StorageFault {
            phase: self.phase,
            job_id: self.job_id.clone(),
            snapshot_installed: self.snapshot_installed,
            io_error_kind: self.io_error_kind.clone(),
            raw_os_error: self.raw_os_error,
        }
    }
}

/// The fault of an optional one, as texts.
pub open spec fn fault_view(fault: Option<StorageFault>) -> Option<StorageFaultView> {
    match fault {
        Some(fault) => Some(fault@),
        None => None,
    }
}

} // verus!

//! Ends of a program that are crashes though no sanitizer says so.

use vstd::prelude::*;
use vstd::string::*;

use crate::text::{chars_of, contains, holds, lowercase, lowered};

verus! {

/// The rule of a crash that nothing more specific is known of.
pub const RULE_ID: &'static str = "BHF-210";

/// The exit code of a harness for Windows that met an exception.
pub const BHF_WIN_CRASH_EXIT: i32 = 0x39;

/// A crash, by name.
#[derive(Debug, Clone, PartialEq, Eq)]
pub struct FatalSignal {
    pub name: String,
}

/// Whether the output says that the program rejected its input: an assertion failed, or it
/// panicked. Small and capital letters are the same.
pub open spec fn rejects(stderr: Seq<char>) -> bool {
    let lower = lowercase(stderr);
    ||| contains(lower, "assertion"@) && contains(lower, "failed"@)
    ||| contains(lower, "assert failed"@)
    ||| contains(lower, "panicked at"@)
    ||| contains(lower, "panic:"@)
}

fn mentions(text: &[char], words: &str) -> (r: bool)
    ensures
        r == contains(text@, words@),
{
    let w = chars_of(words);
    holds(text, w.as_slice())
}

pub fn has_abort_rejection_diagnostic(stderr: &str) -> (r: bool)
    ensures
        r == rejects(stderr@),
{
    let chars = chars_of(stderr);
    let lower = lowered(chars.as_slice());
    (mentions(lower.as_slice(), "assertion") && mentions(lower.as_slice(), "failed")) || mentions(
        lower.as_slice(),
        "assert failed",
    ) || mentions(lower.as_slice(), "panicked at") || mentions(lower.as_slice(), "panic:")
}

/// The name of a signal that is a fault of the program.
pub open spec fn fault_name(signal: i32) -> Option<Seq<char>> {
    match signal {
        4 => Some("SIGILL"@),
        6 => Some("SIGABRT"@),
        7 => Some("SIGBUS"@),
        8 => Some("SIGFPE"@),
        11 => Some("SIGSEGV"@),
        _ => None,
    }
}

/// The crash that an end is: by the exit code of an exception, or by a signal that is a
/// fault, but for an abort that rejects the input.
pub open spec fn crash(code: Option<i32>, signal: Option<i32>, stderr: Seq<char>) -> Option<
    Seq<char>,
> {
    if code == Some(BHF_WIN_CRASH_EXIT) {
        Some("Windows exception (access violation / fault, via wine)"@)
    } else {
        match signal {
            None => None,
            Some(s) => if s == 6 && rejects(stderr) {
                None
            } else {
                fault_name(s)
            },
        }
    }
}

pub open spec fn named(r: Option<FatalSignal>) -> Option<Seq<char>> {
    match r {
        Some(f) => Some(f.name@),
        None => None,
    }
}

/// What a program's end, by its exit code and its signal, is as a crash.
pub fn classify(code: Option<i32>, signal: Option<i32>, stderr: &str) -> (r: Option<FatalSignal>)
    ensures
        named(r) == crash(code, signal, stderr@),
{
    if let Some(c) = code {
        if c == BHF_WIN_CRASH_EXIT {
            return Some(
                FatalSignal {
                    name: "Windows exception (access violation / fault, via wine)".to_owned(),
                },
            );
        }
    }
    let signal: i32 = match signal {
        None => {
            return None;
        },
        Some(s) => s,
    };
    if signal == 6 && has_abort_rejection_diagnostic(stderr) {
        return None;
    }
    let name = match signal {
        4 => "SIGILL".to_owned(),
        6 => "SIGABRT".to_owned(),
        7 => "SIGBUS".to_owned(),
        8 => "SIGFPE".to_owned(),
        11 => "SIGSEGV".to_owned(),
        _ => {
            return None;
        },
    };
    Some(FatalSignal { name })
}

/// The same where programs do not end by signals.
pub fn classify_exit(code: Option<i32>) -> (r: Option<FatalSignal>)
    ensures
        named(r) == if code == Some(BHF_WIN_CRASH_EXIT) {
            Some("Windows exception (access violation / fault)"@)
        } else {
            None
        },
{
    if let Some(c) = code {
        if c == BHF_WIN_CRASH_EXIT {
            return Some(
                FatalSignal { name: "Windows exception (access violation / fault)".to_owned() },
            );
        }
    }
    None
}

/// The rule of a program's end: every crash has the same.
pub fn rule_id(code: Option<i32>, signal: Option<i32>, stderr: &str) -> (r: Option<&'static str>)
    ensures
        match r {
            Some(id) => crash(code, signal, stderr@) is Some && id@ == RULE_ID@,
            None => crash(code, signal, stderr@) is None,
        },
{
    match classify(code, signal, stderr) {
        Some(_) => Some(RULE_ID),
        None => None,
    }
}

/// A plain exit, whatever its code but that of an exception, is no crash, and neither is
/// a signal that is no fault. What the program wrote matters for an abort alone.
pub proof fn only_faults_are_crashes(code: Option<i32>, signal: Option<i32>, stderr: Seq<char>)
    requires
        code != Some(BHF_WIN_CRASH_EXIT),
    ensures
        signal is None ==> crash(code, signal, stderr) is None,
        signal is Some && !(signal->0 == 4 || signal->0 == 6 || signal->0 == 7 || signal->0 == 8
            || signal->0 == 11) ==> crash(code, signal, stderr) is None,
        signal is Some && (signal->0 == 4 || signal->0 == 7 || signal->0 == 8 || signal->0 == 11)
            ==> crash(code, signal, stderr) is Some,
        signal == Some(6i32) ==> (crash(code, signal, stderr) is Some <==> !rejects(stderr)),
{
}

} // verus!

//! The version that a build is stamped with.

use vstd::prelude::*;
use vstd::string::*;
use vstd::utf8::*;

use crate::text::{cat2, chars_of, string_of, trim, trimmed, utf8_text};

verus! {

/// What a run of the version control says: its output without white space around it,
/// where it succeeded and said something.
pub open spec fn said(success: bool, output: Seq<u8>) -> Option<Seq<char>> {
    if success && valid_utf8(output) && trim(decode_utf8(output)).len() > 0 {
        Some(trim(decode_utf8(output)))
    } else {
        None
    }
}

pub fn what_git_said(success: bool, output: &[u8]) -> (r: Option<String>)
    ensures
        match r {
            Some(s) => said(success, output@) == Some(s@),
            None => said(success, output@) is None,
        },
{
    if !success {
        return None;
    }
    match utf8_text(output) {
        None => None,
        Some(text) => {
            let chars = chars_of(text.as_str());
            let inner = trimmed(chars.as_slice());
            if inner.len() == 0 {
                None
            } else {
                Some(string_of(inner))
            }
        },
    }
}

/// The version: that of the package for a release, else what describes the commit, else
/// that of the package.
pub open spec fn version(
    release: bool,
    described: Option<Seq<char>>,
    package: Option<Seq<char>>,
) -> Seq<char> {
    let own = match package {
        Some(p) => p,
        None => "unknown"@,
    };
    if release {
        "v"@ + own
    } else {
        match described {
            Some(d) => d,
            None => own,
        }
    }
}

pub open spec fn text_of(s: Option<&str>) -> Option<Seq<char>> {
    match s {
        Some(s) => Some(s@),
        None => None,
    }
}

pub fn version_full(release: bool, described: Option<&str>, package: Option<&str>) -> (r: String)
    ensures
        r@ == version(release, text_of(described), text_of(package)),
{
    let own = match package {
        Some(p) => p,
        None => "unknown",
    };
    if release {
        cat2("v", own)
    } else {
        match described {
            Some(d) => d.to_owned(),
            None => own.to_owned(),
        }
    }
}

/// What is known of a file's last change: nothing where there is no such file; the file
/// may have no time.
pub type Change = Option<Option<u64>>;

/// Whether a file is copied over another: the other is missing, or changed at another
/// time.
pub fn needs_copy(source: Change, copy: Change) -> (r: bool)
    ensures
        r == match (source, copy) {
            (Some(s), Some(c)) => s != c,
            (Some(_), None) => true,
            (None, _) => false,
        },
{
    match (source, copy) {
        (Some(s), Some(c)) => match (s, c) {
            (Some(a), Some(b)) => a != b,
            (None, None) => false,
            _ => true,
        },
        (Some(_), None) => true,
        (None, _) => false,
    }
}

} // verus!

//! Update packs on the command line: what is asked for, and the exit code.

use vstd::prelude::*;
use vstd::string::*;

use crate::text::{cat2, cat3, decimal, decimal_text};

verus! {

#[derive(Debug, Clone, PartialEq, Eq)]
pub struct PackArgs {
    pub command: PackCommand,
}

#[derive(Debug, Clone, PartialEq, Eq)]
pub enum PackCommand {
    /// Create a manifest.
    Create(CreateArgs),
    /// Inspect a manifest without installing it.
    Inspect(InspectArgs),
    /// Install a verified pack into a local directory.
    Install(InstallArgs),
    /// Verify a manifest.
    Verify(VerifyArgs),
    /// Generate a pair of keys.
    Keygen(KeygenArgs),
    /// Sign a distribution archive.
    SignArchive(SignArchiveArgs),
}

#[derive(Debug, Clone, PartialEq, Eq)]
pub struct SignArchiveArgs {
    pub archive: String,
    pub signing_key: String,
    pub out: String,
}

#[derive(Debug, Clone, PartialEq, Eq)]
pub struct KeygenArgs {
    pub private_key: String,
    pub public_key: String,
}

#[derive(Debug, Clone, PartialEq, Eq)]
pub struct CreateArgs {
    pub root: String,
    pub pack_id: String,
    pub version: Option<String>,
    /// Each is a kind, a colon and a path.
    pub items: Vec<String>,
    pub license: Option<String>,
    /// Tools that every item needs.
    pub required_tools: Vec<String>,
    /// A label of the digest, which does not sign.
    pub sign_key: Option<String>,
    /// The file of the private key.
    pub signing_key: Option<String>,
    /// The publisher's name for that key.
    pub key_id: Option<String>,
    pub out: String,
}

#[derive(Debug, Clone, PartialEq, Eq)]
pub struct InspectArgs {
    pub manifest: String,
    pub out: Option<String>,
}

#[derive(Debug, Clone, PartialEq, Eq)]
pub struct InstallArgs {
    pub manifest: String,
    pub root: String,
    pub install_dir: String,
    pub policy: Option<String>,
    /// Whether a pack that nobody trusted has signed is rejected.
    pub require_authenticated: bool,
    /// The directory that the record of the installation names.
    pub reported_install_dir: Option<String>,
    pub out: Option<String>,
}

#[derive(Debug, Clone, PartialEq, Eq)]
pub struct VerifyArgs {
    pub manifest: String,
    /// The directory in which the items' paths are looked up.
    pub root: String,
    pub out: Option<String>,
    pub policy: Option<String>,
    /// Whether a pack that nobody trusted has signed is rejected.
    pub require_authenticated: bool,
}

/// How a pack is created.
#[derive(Debug, PartialEq, Eq)]
pub enum PackSigning<'a> {
    /// Signed with a key, under its name.
    Authenticated { signing_key: &'a str, key_id: &'a str },
    /// With a digest, under a label or none.
    Labelled { sign_key: Option<&'a str> },
}

pub open spec fn text_of(s: Option<String>) -> Option<Seq<char>> {
    match s {
        Some(s) => Some(s@),
        None => None,
    }
}

/// How a pack is created: it is signed where both the key and its name are given.
pub fn signing(args: &CreateArgs) -> (r: PackSigning<'_>)
    ensures
        match r {
            PackSigning::Authenticated { signing_key, key_id } => {
                &&& text_of(args.signing_key) == Some(signing_key@)
                &&& text_of(args.key_id) == Some(key_id@)
            },
            PackSigning::Labelled { sign_key } => {
                &&& args.signing_key is None || args.key_id is None
                &&& text_of(args.sign_key) == match sign_key {
                    Some(s) => Some(s@),
                    None => None,
                }
            },
        },
{
    if let (Some(signing_key), Some(key_id)) = (&args.signing_key, &args.key_id) {
        return PackSigning::Authenticated {
            signing_key: signing_key.as_str(),
            key_id: key_id.as_str(),
        };
    }
    let sign_key = match &args.sign_key {
        Some(s) => Some(s.as_str()),
        None => None,
    };
    PackSigning::Labelled { sign_key }
}

/// What came of a command that gives a summary.
#[derive(Debug, Clone, Copy, PartialEq, Eq, Structural)]
pub enum SummaryOutcome {
    /// There is no summary.
    Failed,
    /// The summary could not be shown or written.
    NotShown,
    /// The summary, by what it says of the pack's validity and of its signature.
    Shown { valid: Option<bool>, authenticated: Option<bool> },
}

/// Whether a verification succeeds: a summary says that the pack is valid, and that its
/// signature is trusted where that is asked for.
pub open spec fn verified(outcome: SummaryOutcome, require_authenticated: bool) -> bool {
    match outcome {
        SummaryOutcome::Shown { valid, authenticated } => valid == Some(true) && (
        require_authenticated ==> authenticated == Some(true)),
        _ => false,
    }
}

/// The exit code of a verification.
pub fn verify_code(outcome: SummaryOutcome, require_authenticated: bool) -> (r: i32)
    ensures
        r == if verified(outcome, require_authenticated) {
            0i32
        } else {
            1i32
        },
{
    match outcome {
        SummaryOutcome::Shown { valid, authenticated } => {
            let is_valid = match valid {
                Some(v) => v,
                None => false,
            };
            let is_authenticated = match authenticated {
                Some(a) => a,
                None => false,
            };
            if is_valid && (!require_authenticated || is_authenticated) {
                0
            } else {
                1
            }
        },
        _ => 1,
    }
}

/// The exit code of an inspection or an installation: a summary that does not speak of
/// validity is success.
pub fn summary_code(outcome: SummaryOutcome) -> (r: i32)
    ensures
        r == match outcome {
            SummaryOutcome::Shown { valid, .. } => if valid == Some(false) {
                1i32
            } else {
                0i32
            },
            _ => 1i32,
        },
{
    match outcome {
        SummaryOutcome::Shown { valid, .. } => match valid {
            Some(v) => if v {
                0
            } else {
                1
            },
            None => 0,
        },
        _ => 1,
    }
}

/// What is said of a manifest that was created, whose items may not be a list.
pub fn created_line(items: Option<u64>) -> (r: String)
    ensures
        r@ == "update pack manifest: "@ + decimal(
            match items {
                Some(n) => n as nat,
                None => 0,
            },
        ) + " items"@,
{
    let n: u64 = match items {
        Some(n) => n,
        None => 0,
    };
    cat3("update pack manifest: ", decimal_text(n).as_str(), " items")
}

/// What is said of keys that were generated.
pub fn keygen_line(public_hex: &str) -> (r: String)
    ensures
        r@ == "Ed25519 public key (raw hex): "@ + public_hex@,
{
    cat2("Ed25519 public key (raw hex): ", public_hex)
}

/// What is said of an archive that was signed.
pub fn archive_line(digest: &str) -> (r: String)
    ensures
        r@ == "distribution archive sha256: "@ + digest@,
{
    cat2("distribution archive sha256: ", digest)
}

} // verus!

//! The `--target-transport` specification: which backend a run talks to and where.

use vstd::prelude::*;
use vstd::slice::slice_subrange;
use vstd::string::*;

use crate::text::{
    after_prefix, cat2, cat3, cat4, cat5, chars_of, debug_text, debugged, decimal, decimal_of,
    decimal_text, digit, find_char, hex_of, index_of, last_index_of, lemma_decimal_parses,
    lemma_rfind_char, parse_decimal, parse_hex, reads, rfind_char, rows, split, split_on,
    starts_with, string_of, trim, trim_end, trim_start, trimmed, white_space,
};

verus! {

/// The snapshot to which a full-system guest is reset where the specification names none.
pub const DEFAULT_SNAPSHOT_TAG: &'static str = "bhf-baseline";

/// Where a target keeps its input and its coverage ring in memory.
#[derive(Debug, Clone, Copy, PartialEq, Eq, Structural)]
pub struct GdbMemoryMap {
    pub input_address: u64,
    pub ring_address: u64,
    pub ring_write_address: u64,
    pub ring_wrapped_address: u64,
    pub ring_capacity: usize,
}

/// A specification that was taken apart.
#[derive(Debug, Clone, PartialEq, Eq)]
pub enum TransportPlan {
    /// An agent on the target, over TCP.
    AgentTcp { host: String, port: u16 },
    /// An agent on the target, over a serial device.
    AgentSerial { path: String },
    /// A gdb stub over TCP.
    Gdb { host: String, port: u16, map: GdbMemoryMap },
    /// A full-system guest, over QMP and a gdb stub.
    QemuSystem {
        qmp_host: String,
        qmp_port: u16,
        gdb_host: String,
        gdb_port: u16,
        map: GdbMemoryMap,
        snapshot_tag: String,
    },
}

/// The same, as texts.
pub enum PlanView {
    AgentTcp { host: Seq<char>, port: nat },
    AgentSerial { path: Seq<char> },
    Gdb { host: Seq<char>, port: nat, map: GdbMemoryMap },
    QemuSystem {
        qmp_host: Seq<char>,
        qmp_port: nat,
        gdb_host: Seq<char>,
        gdb_port: nat,
        map: GdbMemoryMap,
        snapshot_tag: Seq<char>,
    },
}

impl View for TransportPlan {
    type V = PlanView;

    open spec fn view(&self) -> PlanView {
        match self {
            TransportPlan::AgentTcp { host, port } => PlanView::AgentTcp {
                host: host@,
                port: *port as nat,
            },
            TransportPlan::AgentSerial { path } => PlanView::AgentSerial { path: path@ },
            TransportPlan::Gdb { host, port, map } => PlanView::Gdb {
                host: host@,
                port: *port as nat,
                map: *map,
            },
            TransportPlan::QemuSystem {
                qmp_host,
                qmp_port,
                gdb_host,
                gdb_port,
                map,
                snapshot_tag,
            } => PlanView::QemuSystem {
                qmp_host: qmp_host@,
                qmp_port: *qmp_port as nat,
                gdb_host: gdb_host@,
                gdb_port: *gdb_port as nat,
                map: *map,
                snapshot_tag: snapshot_tag@,
            },
        }
    }
}

/// What is wrong with a specification.
#[derive(Debug, Clone, PartialEq, Eq)]
pub enum TransportSpecError {
    Empty,
    UnknownBackend { backend: String },
    Malformed { backend: &'static str, spec: String, reason: String },
    MissingCoverageMap { backend: &'static str },
    UnexpectedCoverageMap,
    Field { field: String, value: String },
    MissingMapKey { key: &'static str },
    UnknownMapKey { key: String },
    CapTooLarge { cap: u64 },
    /// A backend refused what it was given, for this reason.
    Transport { reason: String },
}

/// The same, as texts.
pub enum SpecErrorView {
    Empty,
    UnknownBackend { backend: Seq<char> },
    Malformed { backend: Seq<char>, spec: Seq<char>, reason: Seq<char> },
    MissingCoverageMap { backend: Seq<char> },
    UnexpectedCoverageMap,
    Field { field: Seq<char>, value: Seq<char> },
    MissingMapKey { key: Seq<char> },
    UnknownMapKey { key: Seq<char> },
    CapTooLarge { cap: nat },
    Transport { reason: Seq<char> },
}

impl View for TransportSpecError {
    type V = SpecErrorView;

    open spec fn view(&self) -> SpecErrorView {
        match self {
            TransportSpecError::Empty => SpecErrorView::Empty,
            TransportSpecError::UnknownBackend { backend } => SpecErrorView::UnknownBackend {
                backend: backend@,
            },
            TransportSpecError::Malformed { backend, spec, reason } => SpecErrorView::Malformed {
                backend: backend@,
                spec: spec@,
                reason: reason@,
            },
            TransportSpecError::MissingCoverageMap { backend } => {
                SpecErrorView::MissingCoverageMap { backend: backend@ }
            },
            TransportSpecError::UnexpectedCoverageMap => SpecErrorView::UnexpectedCoverageMap,
            TransportSpecError::Field { field, value } => SpecErrorView::Field {
                field: field@,
                value: value@,
            },
            TransportSpecError::MissingMapKey { key } => SpecErrorView::MissingMapKey { key: key@ },
            TransportSpecError::UnknownMapKey { key } => SpecErrorView::UnknownMapKey { key: key@ },
            TransportSpecError::CapTooLarge { cap } => SpecErrorView::CapTooLarge {
                cap: *cap as nat,
            },
            TransportSpecError::Transport { reason } => SpecErrorView::Transport {
                reason: reason@,
            },
        }
    }
}

/// The sentence for an error.
pub open spec fn spec_error_sentence(e: SpecErrorView) -> Seq<char> {
    match e {
        SpecErrorView::Empty => {
            "empty --target-transport spec; expected one of agent:tcp:HOST:PORT, agent:serial:PATH, gdb:HOST:PORT, qemu-system:qmp=HOST:PORT,gdb=HOST:PORT"@
        },
        SpecErrorView::UnknownBackend { backend } => {
            "unknown --target-transport backend "@ + debugged(backend)
                + "; supported: agent:tcp, agent:serial, gdb, qemu-system"@
        },
        SpecErrorView::Malformed { backend, spec, reason } => {
            "malformed "@ + backend + " spec "@ + debugged(spec) + ": "@ + reason
        },
        SpecErrorView::MissingCoverageMap { backend } => {
            "the "@ + backend
                + " backend requires --transport-coverage-map (input=<addr>,ring=<addr>,write=<addr>,wrapped=<addr>,cap=<n>)"@
        },
        SpecErrorView::UnexpectedCoverageMap => {
            "--transport-coverage-map is not used by the agent backend (coverage arrives over the agent protocol); remove it"@
        },
        SpecErrorView::Field { field, value } => {
            "malformed --transport-coverage-map field "@ + field + "="@ + debugged(value)
                + ": expected a decimal or 0x-hex integer"@
        },
        SpecErrorView::MissingMapKey { key } => {
            "--transport-coverage-map is missing required key "@ + debugged(key)
                + " (need input,ring,write,wrapped,cap)"@
        },
        SpecErrorView::UnknownMapKey { key } => {
            "--transport-coverage-map has unknown key "@ + debugged(key)
                + " (allowed: input,ring,write,wrapped,cap)"@
        },
        SpecErrorView::CapTooLarge { cap } => {
            "coverage ring capacity "@ + decimal(cap)
                + " is not representable as a host-sized length"@
        },
        SpecErrorView::Transport { reason } => reason,
    }
}

impl TransportSpecError {
    /// The sentence for the error.
    pub fn sentence(&self) -> (r: String)
        ensures
            r@ == spec_error_sentence(self@),
    {
        match self {
            TransportSpecError::Empty => {
                "empty --target-transport spec; expected one of agent:tcp:HOST:PORT, agent:serial:PATH, gdb:HOST:PORT, qemu-system:qmp=HOST:PORT,gdb=HOST:PORT".to_owned()
            },
            TransportSpecError::UnknownBackend { backend } => cat3(
                "unknown --target-transport backend ",
                debug_text(backend.as_str()).as_str(),
                "; supported: agent:tcp, agent:serial, gdb, qemu-system",
            ),
            TransportSpecError::Malformed { backend, spec, reason } => {
                let mut out = cat3("malformed ", backend, " spec ");
                out.append(debug_text(spec.as_str()).as_str());
                out.append(": ");
                out.append(reason.as_str());
                out
            },
            TransportSpecError::MissingCoverageMap { backend } => cat3(
                "the ",
                backend,
                " backend requires --transport-coverage-map (input=<addr>,ring=<addr>,write=<addr>,wrapped=<addr>,cap=<n>)",
            ),
            TransportSpecError::UnexpectedCoverageMap => {
                "--transport-coverage-map is not used by the agent backend (coverage arrives over the agent protocol); remove it".to_owned()
            },
            TransportSpecError::Field { field, value } => cat5(
                "malformed --transport-coverage-map field ",
                field.as_str(),
                "=",
                debug_text(value.as_str()).as_str(),
                ": expected a decimal or 0x-hex integer",
            ),
            TransportSpecError::MissingMapKey { key } => cat3(
                "--transport-coverage-map is missing required key ",
                debug_text(key).as_str(),
                " (need input,ring,write,wrapped,cap)",
            ),
            TransportSpecError::UnknownMapKey { key } => cat3(
                "--transport-coverage-map has unknown key ",
                debug_text(key.as_str()).as_str(),
                " (allowed: input,ring,write,wrapped,cap)",
            ),
            TransportSpecError::CapTooLarge { cap } => cat3(
                "coverage ring capacity ",
                decimal_text(*cap).as_str(),
                " is not representable as a host-sized length",
            ),
            TransportSpecError::Transport { reason } => reason.clone(),
        }
    }
}

/// A host and a port.
pub struct Endpoint {
    pub host: Seq<char>,
    pub port: nat,
}

/// The host and the port of `HOST:PORT`, or what is wrong with it.
pub open spec fn endpoint(backend: Seq<char>, spec: Seq<char>, text: Seq<char>) -> Result<
    Endpoint,
    SpecErrorView,
> {
    let malformed = |reason: Seq<char>| SpecErrorView::Malformed { backend, spec, reason };
    match rfind_char(text, ':') {
        None => Err(malformed("expected HOST:PORT, got "@ + debugged(text))),
        Some(colon) => {
            let port = text.skip(colon + 1);
            if colon == 0 {
                Err(malformed("host is empty in "@ + debugged(text)))
            } else {
                match parse_decimal(port, 0xffff) {
                    None => Err(
                        malformed(
                            "port "@ + debugged(port) + " is not a valid 1..=65535 value"@,
                        ),
                    ),
                    Some(n) => if n == 0 {
                        Err(malformed("port 0 is not a valid port"@))
                    } else {
                        Ok(Endpoint { host: text.take(colon), port: n })
                    },
                }
            }
        },
    }
}

/// The host and the port of `HOST:PORT`.
pub fn parse_host_port(backend: &'static str, spec: &str, text: &str) -> (r: Result<
    (String, u16),
    TransportSpecError,
>)
    ensures
        match (r, endpoint(backend@, spec@, text@)) {
            (Ok(got), Ok(want)) => got.0@ == want.host && got.1 == want.port,
            (Err(got), Err(want)) => got@ == want,
            _ => false,
        },
{
    let chars = chars_of(text);
    let all = chars.as_slice();
    let length: usize = all.len();
    let colon: usize = match last_index_of(all, ':') {
        None => {
            return Err(
                TransportSpecError::Malformed {
                    backend,
                    spec: spec.to_owned(),
                    reason: cat2("expected HOST:PORT, got ", debug_text(text).as_str()),
                },
            );
        },
        Some(colon) => colon,
    };
    if colon == 0 {
        return Err(
            TransportSpecError::Malformed {
                backend,
                spec: spec.to_owned(),
                reason: cat2("host is empty in ", debug_text(text).as_str()),
            },
        );
    }
    let port_text = slice_subrange(all, colon + 1, length);
    proof {
        assert(port_text@ =~= text@.skip(colon + 1));
    }
    let port: u64 = match decimal_of(port_text, 0xffff) {
        None => {
            let shown = string_of(port_text);
            return Err(
                TransportSpecError::Malformed {
                    backend,
                    spec: spec.to_owned(),
                    reason: cat3(
                        "port ",
                        debug_text(shown.as_str()).as_str(),
                        " is not a valid 1..=65535 value",
                    ),
                },
            );
        },
        Some(port) => port,
    };
    if port == 0 {
        return Err(
            TransportSpecError::Malformed {
                backend,
                spec: spec.to_owned(),
                reason: "port 0 is not a valid port".to_owned(),
            },
        );
    }
    let host = slice_subrange(all, 0, colon);
    proof {
        assert(host@ =~= text@.take(colon as int));
    }
    Ok((string_of(host), port as u16))
}

/// The number that `value` writes in base ten, or behind `0x` in base sixteen.
pub open spec fn integer(value: Seq<char>) -> Option<nat> {
    let t = trim(value);
    if starts_with(t, "0x"@) || starts_with(t, "0X"@) {
        parse_hex(t.skip(2), u64::MAX as nat)
    } else {
        parse_decimal(t, u64::MAX as nat)
    }
}

/// The number that the field `field` of a coverage map holds.
pub fn parse_int(field: &str, value: &str) -> (r: Result<u64, TransportSpecError>)
    ensures
        match r {
            Ok(n) => integer(value@) == Some(n as nat),
            Err(e) => integer(value@) is None && e@ == (SpecErrorView::Field {
                field: field@,
                value: value@,
            }),
        },
{
    let chars = chars_of(value);
    let t = trimmed(chars.as_slice());
    proof {
        reveal_strlit("0x");
        reveal_strlit("0X");
    }
    let parsed: Option<u64> = match after_prefix(t, chars_of("0x").as_slice()) {
        Some(digits) => hex_of(digits),
        None => match after_prefix(t, chars_of("0X").as_slice()) {
            Some(digits) => hex_of(digits),
            None => decimal_of(t, u64::MAX),
        },
    };
    match parsed {
        Some(n) => Ok(n),
        None => Err(
            TransportSpecError::Field { field: field.to_owned(), value: value.to_owned() },
        ),
    }
}

/// The fields of a coverage map as far as they were given.
#[derive(Debug, Clone, Copy, PartialEq, Eq, Structural)]
pub struct MapFields {
    pub input: Option<u64>,
    pub ring: Option<u64>,
    pub write: Option<u64>,
    pub wrapped: Option<u64>,
    pub cap: Option<u64>,
}

/// `fields` with the field `key` set to the integer that `value` writes.
pub open spec fn set_field(
    fields: MapFields,
    key: Seq<char>,
    value: Seq<char>,
) -> Result<MapFields, SpecErrorView> {
    let n = match integer(value) {
        Some(n) => Some(n as u64),
        None => None,
    };
    if key != "input"@ && key != "ring"@ && key != "write"@ && key != "wrapped"@ && key != "cap"@ {
        Err(SpecErrorView::UnknownMapKey { key })
    } else if n is None {
        Err(SpecErrorView::Field { field: key, value })
    } else if key == "input"@ {
        Ok(MapFields { input: n, ..fields })
    } else if key == "ring"@ {
        Ok(MapFields { ring: n, ..fields })
    } else if key == "write"@ {
        Ok(MapFields { write: n, ..fields })
    } else if key == "wrapped"@ {
        Ok(MapFields { wrapped: n, ..fields })
    } else {
        Ok(MapFields { cap: n, ..fields })
    }
}

/// `fields` with what the part `part` of a coverage map sets; a blank part sets nothing,
/// and of two that set the same field the later one counts.
pub open spec fn add_map_part(fields: MapFields, part: Seq<char>) -> Result<
    MapFields,
    SpecErrorView,
> {
    let t = trim(part);
    if t.len() == 0 {
        Ok(fields)
    } else {
        match find_char(t, '=') {
            None => Err(SpecErrorView::Field { field: t, value: Seq::empty() }),
            Some(i) => set_field(fields, trim(t.take(i)), t.skip(i + 1)),
        }
    }
}

/// The fields that the parts set, or what is wrong with the first wrong one.
pub open spec fn map_fields(parts: Seq<Seq<char>>) -> Result<MapFields, SpecErrorView>
    decreases parts.len(),
{
    if parts.len() == 0 {
        Ok(MapFields { input: None, ring: None, write: None, wrapped: None, cap: None })
    } else {
        match map_fields(parts.drop_last()) {
            Err(e) => Err(e),
            Ok(fields) => add_map_part(fields, parts.last()),
        }
    }
}

/// The map with these fields: each must be there, and the capacity must be a length of
/// this machine.
pub open spec fn complete_map(fields: MapFields) -> Result<GdbMemoryMap, SpecErrorView> {
    match fields.cap {
        None => Err(SpecErrorView::MissingMapKey { key: "cap"@ }),
        Some(cap) => if cap > usize::MAX {
            Err(SpecErrorView::CapTooLarge { cap: cap as nat })
        } else if fields.input is None {
            Err(SpecErrorView::MissingMapKey { key: "input"@ })
        } else if fields.ring is None {
            Err(SpecErrorView::MissingMapKey { key: "ring"@ })
        } else if fields.write is None {
            Err(SpecErrorView::MissingMapKey { key: "write"@ })
        } else if fields.wrapped is None {
            Err(SpecErrorView::MissingMapKey { key: "wrapped"@ })
        } else {
            Ok(
                GdbMemoryMap {
                    input_address: fields.input->0,
                    ring_address: fields.ring->0,
                    ring_write_address: fields.write->0,
                    ring_wrapped_address: fields.wrapped->0,
                    ring_capacity: cap as usize,
                },
            )
        },
    }
}

/// The coverage map that `spec` describes.
pub open spec fn coverage_map(spec: Seq<char>) -> Result<GdbMemoryMap, SpecErrorView> {
    match map_fields(split_on(spec, ',')) {
        Err(e) => Err(e),
        Ok(fields) => complete_map(fields),
    }
}

proof fn lemma_map_error_stays(parts: Seq<Seq<char>>, n: int)
    requires
        0 <= n <= parts.len(),
        map_fields(parts.take(n)) is Err,
    ensures
        map_fields(parts) == map_fields(parts.take(n)),
    decreases parts.len(),
{
    if n < parts.len() {
        assert(parts.drop_last().take(n) =~= parts.take(n));
        lemma_map_error_stays(parts.drop_last(), n);
    } else {
        assert(parts.take(n) =~= parts);
    }
}

fn read_map_part(fields: &mut MapFields, part: &[char]) -> (r: Result<(), TransportSpecError>)
    ensures
        match (r, add_map_part(*old(fields), part@)) {
            (Ok(_), Ok(want)) => *final(fields) == want,
            (Err(got), Err(want)) => got@ == want,
            _ => false,
        },
{
    let t = trimmed(part);
    if t.len() == 0 {
        return Ok(());
    }
    let length: usize = t.len();
    let at: usize = match index_of(t, '=') {
        None => {
            return Err(
                TransportSpecError::Field { field: string_of(t), value: String::new() },
            );
        },
        Some(at) => at,
    };
    let key = trimmed(slice_subrange(t, 0, at));
    let value = slice_subrange(t, at + 1, length);
    proof {
        assert(t@.subrange(0, at as int) =~= t@.take(at as int));
        assert(value@ =~= t@.skip(at + 1));
    }
    if !(reads(key, "input") || reads(key, "ring") || reads(key, "write") || reads(key, "wrapped")
        || reads(key, "cap")) {
        return Err(TransportSpecError::UnknownMapKey { key: string_of(key) });
    }
    let n: u64 = match parse_int(string_of(key).as_str(), string_of(value).as_str()) {
        Err(e) => {
            return Err(e);
        },
        Ok(n) => n,
    };
    if reads(key, "input") {
        fields.input = Some(n);
    } else if reads(key, "ring") {
        fields.ring = Some(n);
    } else if reads(key, "write") {
        fields.write = Some(n);
    } else if reads(key, "wrapped") {
        fields.wrapped = Some(n);
    } else {
        fields.cap = Some(n);
    }
    Ok(())
}

/// The coverage map that `spec` describes.
pub fn parse_coverage_map(spec: &str) -> (r: Result<GdbMemoryMap, TransportSpecError>)
    ensures
        match (r, coverage_map(spec@)) {
            (Ok(got), Ok(want)) => got == want,
            (Err(got), Err(want)) => got@ == want,
            _ => false,
        },
{
    let parts = split(chars_of(spec).as_slice(), ',');
    let ghost all = rows(parts@);
    let mut fields = MapFields { input: None, ring: None, write: None, wrapped: None, cap: None };
    let mut i: usize = 0;
    proof {
        assert(all.take(0) =~= Seq::empty());
    }
    while i < parts.len()
        invariant
            i <= parts@.len(),
            all == rows(parts@),
            all == split_on(spec@, ','),
            map_fields(all.take(i as int)) == Ok::<MapFields, SpecErrorView>(fields),
        decreases parts@.len() - i,
    {
        proof {
            assert(all.take(i + 1).drop_last() =~= all.take(i as int));
            assert(all.take(i + 1).last() == parts@[i as int]@);
        }
        match read_map_part(&mut fields, parts[i].as_slice()) {
            Ok(_) => {},
            Err(e) => {
                proof {
                    lemma_map_error_stays(all, i + 1);
                }
                return Err(e);
            },
        }
        i = i + 1;
    }
    proof {
        assert(all.take(i as int) =~= all);
    }
    let cap: u64 = match fields.cap {
        None => {
            return Err(TransportSpecError::MissingMapKey { key: "cap" });
        },
        Some(cap) => cap,
    };
    if cap > usize::MAX as u64 {
        return Err(TransportSpecError::CapTooLarge { cap });
    }
    let input_address: u64 = match fields.input {
        None => {
            return Err(TransportSpecError::MissingMapKey { key: "input" });
        },
        Some(n) => n,
    };
    let ring_address: u64 = match fields.ring {
        None => {
            return Err(TransportSpecError::MissingMapKey { key: "ring" });
        },
        Some(n) => n,
    };
    let ring_write_address: u64 = match fields.write {
        None => {
            return Err(TransportSpecError::MissingMapKey { key: "write" });
        },
        Some(n) => n,
    };
    let ring_wrapped_address: u64 = match fields.wrapped {
        None => {
            return Err(TransportSpecError::MissingMapKey { key: "wrapped" });
        },
        Some(n) => n,
    };
    Ok(
        GdbMemoryMap {
            input_address,
            ring_address,
            ring_write_address,
            ring_wrapped_address,
            ring_capacity: cap as usize,
        },
    )
}

/// Whether a coverage map was given that is not blank.
pub open spec fn map_given(map: Option<Seq<char>>) -> bool {
    map matches Some(text) && trim(text).len() > 0
}

/// The text of an option.
pub open spec fn option_text(map: Option<&str>) -> Option<Seq<char>> {
    match map {
        Some(text) => Some(text@),
        None => None,
    }
}

fn is_map_given(map: Option<&str>) -> (r: bool)
    ensures
        r == map_given(option_text(map)),
{
    match map {
        None => false,
        Some(text) => trimmed(chars_of(text).as_slice()).len() > 0,
    }
}

/// Refuses a coverage map.
pub fn reject_coverage_map(map: Option<&str>) -> (r: Result<(), TransportSpecError>)
    ensures
        match r {
            Ok(_) => !map_given(option_text(map)),
            Err(e) => map_given(option_text(map)) && e@ == SpecErrorView::UnexpectedCoverageMap,
        },
{
    if is_map_given(map) {
        return Err(TransportSpecError::UnexpectedCoverageMap);
    }
    Ok(())
}

/// The coverage map that a backend must have.
pub open spec fn required_map(backend: Seq<char>, map: Option<Seq<char>>) -> Result<
    GdbMemoryMap,
    SpecErrorView,
> {
    if map_given(map) {
        coverage_map(map->0)
    } else {
        Err(SpecErrorView::MissingCoverageMap { backend })
    }
}

pub fn require_coverage_map(backend: &'static str, map: Option<&str>) -> (r: Result<
    GdbMemoryMap,
    TransportSpecError,
>)
    ensures
        match (r, required_map(backend@, option_text(map))) {
            (Ok(got), Ok(want)) => got == want,
            (Err(got), Err(want)) => got@ == want,
            _ => false,
        },
{
    match map {
        None => Err(TransportSpecError::MissingCoverageMap { backend }),
        Some(text) => {
            if !is_map_given(map) {
                return Err(TransportSpecError::MissingCoverageMap { backend });
            }
            parse_coverage_map(text)
        },
    }
}

/// The parts of a full-system specification as far as they were given.
pub struct GuestFields {
    pub qmp: Option<Endpoint>,
    pub gdb: Option<Endpoint>,
    pub snapshot: Seq<char>,
}

/// A full-system specification that is malformed for this reason.
pub open spec fn guest_error(spec: Seq<char>, reason: Seq<char>) -> SpecErrorView {
    SpecErrorView::Malformed { backend: "qemu-system"@, spec, reason }
}

/// `fields` with what the part `part` sets; a blank part sets nothing, and of two that
/// set the same field the later one counts.
pub open spec fn add_guest_part(fields: GuestFields, spec: Seq<char>, part: Seq<char>) -> Result<
    GuestFields,
    SpecErrorView,
> {
    let t = trim(part);
    if t.len() == 0 {
        Ok(fields)
    } else {
        match find_char(t, '=') {
            None => Err(guest_error(spec, "expected key=value in "@ + debugged(t))),
            Some(i) => {
                let key = trim(t.take(i));
                let value = trim(t.skip(i + 1));
                if key == "qmp"@ {
                    match endpoint("qemu-system"@, spec, value) {
                        Err(e) => Err(e),
                        Ok(at) => Ok(GuestFields { qmp: Some(at), ..fields }),
                    }
                } else if key == "gdb"@ {
                    match endpoint("qemu-system"@, spec, value) {
                        Err(e) => Err(e),
                        Ok(at) => Ok(GuestFields { gdb: Some(at), ..fields }),
                    }
                } else if key == "snapshot"@ {
                    Ok(GuestFields { snapshot: value, ..fields })
                } else {
                    Err(
                        guest_error(
                            spec,
                            "unknown key "@ + debugged(key) + "; allowed: qmp, gdb, snapshot"@,
                        ),
                    )
                }
            },
        }
    }
}

/// The fields that the parts set, or what is wrong with the first wrong one.
pub open spec fn guest_fields(spec: Seq<char>, parts: Seq<Seq<char>>) -> Result<
    GuestFields,
    SpecErrorView,
>
    decreases parts.len(),
{
    if parts.len() == 0 {
        Ok(GuestFields { qmp: None, gdb: None, snapshot: DEFAULT_SNAPSHOT_TAG@ })
    } else {
        match guest_fields(spec, parts.drop_last()) {
            Err(e) => Err(e),
            Ok(fields) => add_guest_part(fields, spec, parts.last()),
        }
    }
}

/// The plan that a full-system specification describes.
pub open spec fn guest_plan(spec: Seq<char>, rest: Seq<char>, map: GdbMemoryMap) -> Result<
    PlanView,
    SpecErrorView,
> {
    match guest_fields(spec, split_on(rest, ',')) {
        Err(e) => Err(e),
        Ok(fields) => match (fields.qmp, fields.gdb) {
            (None, _) => Err(guest_error(spec, "missing required key qmp=HOST:PORT"@)),
            (Some(_), None) => Err(guest_error(spec, "missing required key gdb=HOST:PORT"@)),
            (Some(qmp), Some(gdb)) => Ok(
                PlanView::QemuSystem {
                    qmp_host: qmp.host,
                    qmp_port: qmp.port,
                    gdb_host: gdb.host,
                    gdb_port: gdb.port,
                    map,
                    snapshot_tag: fields.snapshot,
                },
            ),
        },
    }
}

proof fn lemma_guest_error_stays(spec: Seq<char>, parts: Seq<Seq<char>>, n: int)
    requires
        0 <= n <= parts.len(),
        guest_fields(spec, parts.take(n)) is Err,
    ensures
        guest_fields(spec, parts) == guest_fields(spec, parts.take(n)),
    decreases parts.len(),
{
    if n < parts.len() {
        assert(parts.drop_last().take(n) =~= parts.take(n));
        lemma_guest_error_stays(spec, parts.drop_last(), n);
    } else {
        assert(parts.take(n) =~= parts);
    }
}

/// An endpoint as it was read.
pub open spec fn endpoint_view(at: Option<(String, u16)>) -> Option<Endpoint> {
    match at {
        Some(at) => Some(Endpoint { host: at.0@, port: at.1 as nat }),
        None => None,
    }
}

/// The parts of a full-system specification that were read.
struct GuestParts {
    qmp: Option<(String, u16)>,
    gdb: Option<(String, u16)>,
    snapshot: String,
}

impl View for GuestParts {
    type V = GuestFields;

    closed spec fn view(&self) -> GuestFields {
        GuestFields {
            qmp: endpoint_view(self.qmp),
            gdb: endpoint_view(self.gdb),
            snapshot: self.snapshot@,
        }
    }
}

fn read_guest_part(fields: &mut GuestParts, spec: &str, part: &[char]) -> (r: Result<
    (),
    TransportSpecError,
>)
    ensures
        match (r, add_guest_part(old(fields)@, spec@, part@)) {
            (Ok(_), Ok(want)) => final(fields)@ == want,
            (Err(got), Err(want)) => got@ == want,
            _ => false,
        },
{
    let t = trimmed(part);
    if t.len() == 0 {
        return Ok(());
    }
    let length: usize = t.len();
    let at: usize = match index_of(t, '=') {
        None => {
            return Err(
                TransportSpecError::Malformed {
                    backend: "qemu-system",
                    spec: spec.to_owned(),
                    reason: cat2(
                        "expected key=value in ",
                        debug_text(string_of(t).as_str()).as_str(),
                    ),
                },
            );
        },
        Some(at) => at,
    };
    let key = trimmed(slice_subrange(t, 0, at));
    let value = trimmed(slice_subrange(t, at + 1, length));
    proof {
        assert(t@.subrange(0, at as int) =~= t@.take(at as int));
        assert(t@.subrange(at + 1, t@.len() as int) =~= t@.skip(at + 1));
    }
    let text = string_of(value);
    if reads(key, "qmp") {
        match parse_host_port("qemu-system", spec, text.as_str()) {
            Err(e) => {
                return Err(e);
            },
            Ok(at) => {
                fields.qmp = Some(at);
            },
        }
    } else if reads(key, "gdb") {
        match parse_host_port("qemu-system", spec, text.as_str()) {
            Err(e) => {
                return Err(e);
            },
            Ok(at) => {
                fields.gdb = Some(at);
            },
        }
    } else if reads(key, "snapshot") {
        fields.snapshot = text;
    } else {
        return Err(
            TransportSpecError::Malformed {
                backend: "qemu-system",
                spec: spec.to_owned(),
                reason: cat3(
                    "unknown key ",
                    debug_text(string_of(key).as_str()).as_str(),
                    "; allowed: qmp, gdb, snapshot",
                ),
            },
        );
    }
    Ok(())
}

/// The plan that a full-system specification describes.
pub fn parse_qemu_system(spec: &str, rest: &str, map: GdbMemoryMap) -> (r: Result<
    TransportPlan,
    TransportSpecError,
>)
    ensures
        match (r, guest_plan(spec@, rest@, map)) {
            (Ok(got), Ok(want)) => got@ == want,
            (Err(got), Err(want)) => got@ == want,
            _ => false,
        },
{
    let parts = split(chars_of(rest).as_slice(), ',');
    let ghost all = rows(parts@);
    let mut fields = GuestParts {
        qmp: None,
        gdb: None,
        snapshot: DEFAULT_SNAPSHOT_TAG.to_owned(),
    };
    let mut i: usize = 0;
    proof {
        assert(all.take(0) =~= Seq::empty());
    }
    while i < parts.len()
        invariant
            i <= parts@.len(),
            all == rows(parts@),
            all == split_on(rest@, ','),
            guest_fields(spec@, all.take(i as int)) == Ok::<GuestFields, SpecErrorView>(fields@),
        decreases parts@.len() - i,
    {
        proof {
            assert(all.take(i + 1).drop_last() =~= all.take(i as int));
            assert(all.take(i + 1).last() == parts@[i as int]@);
        }
        match read_guest_part(&mut fields, spec, parts[i].as_slice()) {
            Ok(_) => {},
            Err(e) => {
                proof {
                    lemma_guest_error_stays(spec@, all, i + 1);
                }
                return Err(e);
            },
        }
        i = i + 1;
    }
    proof {
        assert(all.take(i as int) =~= all);
    }
    let (qmp_host, qmp_port) = match fields.qmp {
        None => {
            return Err(
                TransportSpecError::Malformed {
                    backend: "qemu-system",
                    spec: spec.to_owned(),
                    reason: "missing required key qmp=HOST:PORT".to_owned(),
                },
            );
        },
        Some(at) => at,
    };
    let (gdb_host, gdb_port) = match fields.gdb {
        None => {
            return Err(
                TransportSpecError::Malformed {
                    backend: "qemu-system",
                    spec: spec.to_owned(),
                    reason: "missing required key gdb=HOST:PORT".to_owned(),
                },
            );
        },
        Some(at) => at,
    };
    Ok(
        TransportPlan::QemuSystem {
            qmp_host,
            qmp_port,
            gdb_host,
            gdb_port,
            map,
            snapshot_tag: fields.snapshot,
        },
    )
}

/// The plan that a specification and a coverage map describe, or what is wrong with them.
pub open spec fn plan(spec: Seq<char>, map: Option<Seq<char>>) -> Result<PlanView, SpecErrorView> {
    let t = trim(spec);
    if t.len() == 0 {
        Err(SpecErrorView::Empty)
    } else if starts_with(t, "agent:tcp:"@) {
        if map_given(map) {
            Err(SpecErrorView::UnexpectedCoverageMap)
        } else {
            match endpoint("agent:tcp"@, t, t.skip(10)) {
                Err(e) => Err(e),
                Ok(at) => Ok(PlanView::AgentTcp { host: at.host, port: at.port }),
            }
        }
    } else if starts_with(t, "agent:serial:"@) {
        if map_given(map) {
            Err(SpecErrorView::UnexpectedCoverageMap)
        } else if trim(t.skip(13)).len() == 0 {
            Err(
                SpecErrorView::Malformed {
                    backend: "agent:serial"@,
                    spec: t,
                    reason: "device path is empty"@,
                },
            )
        } else {
            Ok(PlanView::AgentSerial { path: t.skip(13) })
        }
    } else if starts_with(t, "agent:"@) {
        Err(
            SpecErrorView::Malformed {
                backend: "agent"@,
                spec: t,
                reason: "unknown agent channel "@ + debugged(split_on(t.skip(6), ':')[0])
                    + "; expected agent:tcp:HOST:PORT or agent:serial:PATH"@,
            },
        )
    } else if starts_with(t, "gdb:"@) {
        match required_map("gdb"@, map) {
            Err(e) => Err(e),
            Ok(map) => match endpoint("gdb"@, t, t.skip(4)) {
                Err(e) => Err(e),
                Ok(at) => Ok(PlanView::Gdb { host: at.host, port: at.port, map }),
            },
        }
    } else if starts_with(t, "qemu-system:"@) {
        match required_map("qemu-system"@, map) {
            Err(e) => Err(e),
            Ok(map) => guest_plan(t, t.skip(12), map),
        }
    } else {
        Err(SpecErrorView::UnknownBackend { backend: split_on(t, ':')[0] })
    }
}

impl TransportPlan {
    /// The plan that a specification and a coverage map describe. The memory-read
    /// backends need the map; an agent refuses it.
    pub fn parse(spec: &str, coverage_map: Option<&str>) -> (r: Result<
        TransportPlan,
        TransportSpecError,
    >)
        ensures
            match (r, plan(spec@, option_text(coverage_map))) {
                (Ok(got), Ok(want)) => got@ == want,
                (Err(got), Err(want)) => got@ == want,
                _ => false,
            },
    {
        proof {
            reveal_strlit("agent:tcp:");
            reveal_strlit("agent:serial:");
            reveal_strlit("agent:");
            reveal_strlit("gdb:");
            reveal_strlit("qemu-system:");
        }
        let chars = chars_of(spec);
        let t = trimmed(chars.as_slice());
        if t.len() == 0 {
            return Err(TransportSpecError::Empty);
        }
        let text = string_of(t);
        if let Some(rest) = after_prefix(t, chars_of("agent:tcp:").as_slice()) {
            if let Err(e) = reject_coverage_map(coverage_map) {
                return Err(e);
            }
            return match parse_host_port("agent:tcp", text.as_str(), string_of(rest).as_str()) {
                Err(e) => Err(e),
                Ok((host, port)) => Ok(TransportPlan::AgentTcp { host, port }),
            };
        }
        if let Some(rest) = after_prefix(t, chars_of("agent:serial:").as_slice()) {
            if let Err(e) = reject_coverage_map(coverage_map) {
                return Err(e);
            }
            if trimmed(rest).len() == 0 {
                return Err(
                    TransportSpecError::Malformed {
                        backend: "agent:serial",
                        spec: text,
                        reason: "device path is empty".to_owned(),
                    },
                );
            }
            return Ok(TransportPlan::AgentSerial { path: string_of(rest) });
        }
        if let Some(rest) = after_prefix(t, chars_of("agent:").as_slice()) {
            let channels = split(rest, ':');
            proof {
                assert(rows(channels@)[0] == channels@[0]@);
            }
            let shown = string_of(channels[0].as_slice());
            return Err(
                TransportSpecError::Malformed {
                    backend: "agent",
                    spec: text,
                    reason: cat3(
                        "unknown agent channel ",
                        debug_text(shown.as_str()).as_str(),
                        "; expected agent:tcp:HOST:PORT or agent:serial:PATH",
                    ),
                },
            );
        }
        if let Some(rest) = after_prefix(t, chars_of("gdb:").as_slice()) {
            let map = match require_coverage_map("gdb", coverage_map) {
                Err(e) => {
                    return Err(e);
                },
                Ok(map) => map,
            };
            return match parse_host_port("gdb", text.as_str(), string_of(rest).as_str()) {
                Err(e) => Err(e),
                Ok((host, port)) => Ok(TransportPlan::Gdb { host, port, map }),
            };
        }
        if let Some(rest) = after_prefix(t, chars_of("qemu-system:").as_slice()) {
            let map = match require_coverage_map("qemu-system", coverage_map) {
                Err(e) => {
                    return Err(e);
                },
                Ok(map) => map,
            };
            return parse_qemu_system(text.as_str(), string_of(rest).as_str(), map);
        }
        let names = split(t, ':');
        proof {
            assert(rows(names@)[0] == names@[0]@);
        }
        Err(TransportSpecError::UnknownBackend { backend: string_of(names[0].as_slice()) })
    }

    /// A short name of the transport.
    pub fn label(&self) -> (r: String)
        ensures
            r@ == plan_label(self@),
    {
        match self {
            TransportPlan::AgentTcp { host, port } => {
                let port = decimal_text(*port as u64);
                cat4("agent:tcp:", host.as_str(), ":", port.as_str())
            },
            TransportPlan::AgentSerial { path } => cat2("agent:serial:", path.as_str()),
            TransportPlan::Gdb { host, port, .. } => {
                let port = decimal_text(*port as u64);
                cat4("gdb:", host.as_str(), ":", port.as_str())
            },
            TransportPlan::QemuSystem { qmp_host, qmp_port, gdb_host, gdb_port, .. } => {
                let qmp = decimal_text(*qmp_port as u64);
                let gdb = decimal_text(*gdb_port as u64);
                let mut out = cat4("qemu-system:qmp=", qmp_host.as_str(), ":", qmp.as_str());
                out.append(",gdb=");
                out.append(gdb_host.as_str());
                out.append(":");
                out.append(gdb.as_str());
                out
            },
        }
    }
}

/// A short name of a transport.
pub open spec fn plan_label(p: PlanView) -> Seq<char> {
    match p {
        PlanView::AgentTcp { host, port } => "agent:tcp:"@ + host + ":"@ + decimal(port),
        PlanView::AgentSerial { path } => "agent:serial:"@ + path,
        PlanView::Gdb { host, port, .. } => "gdb:"@ + host + ":"@ + decimal(port),
        PlanView::QemuSystem { qmp_host, qmp_port, gdb_host, gdb_port, .. } => {
            "qemu-system:qmp="@ + qmp_host + ":"@ + decimal(qmp_port) + ",gdb="@ + gdb_host + ":"@
                + decimal(gdb_port)
        },
    }
}

proof fn lemma_trim_keeps(s: Seq<char>)
    requires
        s.len() > 0,
        !white_space(s[0]),
        !white_space(s.last()),
    ensures
        trim(s) == s,
{
}

proof fn lemma_endpoint(backend: Seq<char>, spec: Seq<char>, host: Seq<char>, port: nat)
    requires
        host.len() > 0,
        0 < port <= 0xffff,
    ensures
        endpoint(backend, spec, host + ":"@ + decimal(port)) == Ok::<Endpoint, SpecErrorView>(
            Endpoint { host, port },
        ),
{
    reveal_strlit(":");
    let text = host + ":"@ + decimal(port);
    lemma_decimal_parses(port, 0xffff);
    lemma_rfind_char(text, ':');
    let colon = host.len() as int;
    assert(text[colon] == ':');
    assert forall|j: int| colon < j < text.len() implies text[j] != ':' by {
        assert(text[j] == decimal(port)[j - colon - 1]);
        assert(digit(decimal(port)[j - colon - 1]));
    }
    assert(text.skip(colon + 1) =~= decimal(port));
    assert(text.take(colon) =~= host);
}

/// The label of an agent over TCP is a specification of the same agent.
pub proof fn an_agent_label_specifies_the_agent(
    host: Seq<char>,
    port: nat,
    map: Option<Seq<char>>,
)
    requires
        host.len() > 0,
        0 < port <= 0xffff,
        !map_given(map),
    ensures
        plan(plan_label(PlanView::AgentTcp { host, port }), map) == Ok::<PlanView, SpecErrorView>(
            PlanView::AgentTcp { host, port },
        ),
{
    reveal_strlit("agent:tcp:");
    reveal_strlit(":");
    let label = plan_label(PlanView::AgentTcp { host, port });
    lemma_decimal_parses(port, 0xffff);
    let digits = decimal(port);
    assert(label.last() == digits.last());
    assert(digit(digits[digits.len() - 1]));
    lemma_trim_keeps(label);
    assert(label.subrange(0, 10) =~= "agent:tcp:"@);
    assert(label.skip(10) =~= host + ":"@ + digits);
    lemma_endpoint("agent:tcp"@, label, host, port);
}

/// The label of a gdb stub, with the map that it needs, is a specification of the same
/// stub.
pub proof fn a_gdb_label_specifies_the_stub(host: Seq<char>, port: nat, map: Seq<char>)
    requires
        host.len() > 0,
        0 < port <= 0xffff,
        map_given(Some(map)),
        coverage_map(map) is Ok,
    ensures
        ({
            let stub = PlanView::Gdb { host, port, map: coverage_map(map)->Ok_0 };
            plan(plan_label(stub), Some(map)) == Ok::<PlanView, SpecErrorView>(stub)
        }),
{
    reveal_strlit("agent:tcp:");
    reveal_strlit("agent:serial:");
    reveal_strlit("agent:");
    reveal_strlit("gdb:");
    reveal_strlit(":");
    let label = "gdb:"@ + host + ":"@ + decimal(port);
    lemma_decimal_parses(port, 0xffff);
    let digits = decimal(port);
    assert(label.last() == digits.last());
    assert(digit(digits[digits.len() - 1]));
    lemma_trim_keeps(label);
    assert(label.subrange(0, 4) =~= "gdb:"@);
    assert(label[0] == 'g');
    assert(!starts_with(label, "agent:tcp:"@)) by {
        if starts_with(label, "agent:tcp:"@) {
            assert(label.subrange(0, 10)[0] == label[0]);
        }
    }
    assert(!starts_with(label, "agent:serial:"@)) by {
        if starts_with(label, "agent:serial:"@) {
            assert(label.subrange(0, 13)[0] == label[0]);
        }
    }
    assert(!starts_with(label, "agent:"@)) by {
        if starts_with(label, "agent:"@) {
            assert(label.subrange(0, 6)[0] == label[0]);
        }
    }
    assert(label.skip(4) =~= host + ":"@ + digits);
    lemma_endpoint("gdb"@, label, host, port);
}

/// The label of any agent or stub that was planned is a specification of the same agent or
/// stub, given the same coverage map.
pub proof fn labels_specify_their_plan(spec: Seq<char>, map: Option<Seq<char>>)
    ensures
        match plan(spec, map) {
            Ok(PlanView::QemuSystem { .. }) => true,
            Ok(p) => plan(plan_label(p), map) == Ok::<PlanView, SpecErrorView>(p),
            Err(_) => true,
        },
{
    reveal_strlit("agent:tcp:");
    reveal_strlit("agent:serial:");
    let t = trim(spec);
    planned_endpoints_can_be_reached(spec, map);
    match plan(spec, map) {
        Ok(PlanView::AgentTcp { host, port }) => {
            an_agent_label_specifies_the_agent(host, port, map);
        },
        Ok(PlanView::AgentSerial { path }) => {
            lemma_trim_twice(spec);
            assert(t.subrange(0, 13) == "agent:serial:"@);
            assert(plan_label(PlanView::AgentSerial { path }) =~= t);
        },
        Ok(PlanView::Gdb { host, port, .. }) => {
            a_gdb_label_specifies_the_stub(host, port, map->0);
        },
        _ => {},
    }
}

/// Every host of a plan is named, and every port of it is one that can be connected to.
pub proof fn planned_endpoints_can_be_reached(spec: Seq<char>, map: Option<Seq<char>>)
    ensures
        match plan(spec, map) {
            Ok(PlanView::AgentTcp { host, port }) => host.len() > 0 && 0 < port <= 0xffff,
            Ok(PlanView::AgentSerial { path }) => trim(path).len() > 0,
            Ok(PlanView::Gdb { host, port, .. }) => host.len() > 0 && 0 < port <= 0xffff,
            Ok(PlanView::QemuSystem { qmp_host, qmp_port, gdb_host, gdb_port, .. }) => {
                &&& qmp_host.len() > 0
                &&& 0 < qmp_port <= 0xffff
                &&& gdb_host.len() > 0
                &&& 0 < gdb_port <= 0xffff
            },
            Err(_) => true,
        },
{
    let t = trim(spec);
    lemma_endpoint_can_be_reached("agent:tcp"@, t, t.skip(10));
    lemma_endpoint_can_be_reached("gdb"@, t, t.skip(4));
    lemma_guest_endpoints(t, split_on(t.skip(12), ','));
}

/// A specification is called empty just where it is blank.
pub proof fn only_blank_specifications_are_empty(spec: Seq<char>, map: Option<Seq<char>>)
    ensures
        plan(spec, map) == Err::<PlanView, SpecErrorView>(SpecErrorView::Empty) <==> trim(spec).len()
            == 0,
{
    let t = trim(spec);
    lemma_guest_endpoints(t, split_on(t.skip(12), ','));
    if let Some(text) = map {
        lemma_map_error_is_not_empty(split_on(text, ','));
    }
}

/// Whether an endpoint has a host and a port.
spec fn reachable(at: Option<Endpoint>) -> bool {
    at matches Some(at) ==> at.host.len() > 0 && 0 < at.port <= 0xffff
}

proof fn lemma_endpoint_can_be_reached(backend: Seq<char>, spec: Seq<char>, text: Seq<char>)
    ensures
        endpoint(backend, spec, text) matches Ok(at) ==> reachable(Some(at)),
{
    lemma_rfind_char(text, ':');
}

proof fn lemma_guest_endpoints(spec: Seq<char>, parts: Seq<Seq<char>>)
    ensures
        match guest_fields(spec, parts) {
            Ok(fields) => reachable(fields.qmp) && reachable(fields.gdb),
            Err(e) => e != SpecErrorView::Empty,
        },
    decreases parts.len(),
{
    if parts.len() > 0 {
        lemma_guest_endpoints(spec, parts.drop_last());
        let t = trim(parts.last());
        if let Some(i) = find_char(t, '=') {
            lemma_endpoint_can_be_reached("qemu-system"@, spec, trim(t.skip(i + 1)));
        }
    }
}

proof fn lemma_map_error_is_not_empty(parts: Seq<Seq<char>>)
    ensures
        map_fields(parts) matches Err(e) ==> e != SpecErrorView::Empty,
    decreases parts.len(),
{
    if parts.len() > 0 {
        lemma_map_error_is_not_empty(parts.drop_last());
    }
}

proof fn lemma_trim_twice(s: Seq<char>)
    ensures
        trim(trim(s)) == trim(s),
{
    lemma_trim_start_ends(s);
    lemma_trim_end_ends(trim_start(s));
    if trim(s).len() > 0 {
        lemma_trim_keeps(trim(s));
    }
}

proof fn lemma_trim_start_ends(s: Seq<char>)
    ensures
        trim_start(s).len() > 0 ==> !white_space(trim_start(s)[0]),
    decreases s.len(),
{
    if s.len() > 0 && white_space(s[0]) {
        lemma_trim_start_ends(s.skip(1));
    }
}

proof fn lemma_trim_end_ends(s: Seq<char>)
    ensures
        trim_end(s).len() > 0 ==> !white_space(trim_end(s).last()) && trim_end(s)[0] == s[0],
        trim_end(s).len() <= s.len(),
    decreases s.len(),
{
    if s.len() > 0 && white_space(s.last()) {
        lemma_trim_end_ends(s.drop_last());
    }
}

/// A memory-read backend is never planned without a coverage map, and an agent never with
/// one.
pub proof fn maps_go_with_memory_read_backends(spec: Seq<char>, map: Option<Seq<char>>)
    ensures
        match plan(spec, map) {
            Ok(PlanView::AgentTcp { .. }) => !map_given(map),
            Ok(PlanView::AgentSerial { .. }) => !map_given(map),
            Ok(PlanView::Gdb { map: m, .. }) => map_given(map) && coverage_map(map->0) == Ok::<
                GdbMemoryMap,
                SpecErrorView,
            >(m),
            Ok(PlanView::QemuSystem { map: m, .. }) => map_given(map) && coverage_map(map->0)
                == Ok::<GdbMemoryMap, SpecErrorView>(m),
            Err(_) => true,
        },
{
}

} // verus!

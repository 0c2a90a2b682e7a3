//! What a fuzzing result speaks to: for each dimension of the target, whether it was
//! exercised, was not, or does not apply.

use vstd::prelude::*;
use vstd::string::*;

use crate::text::{cat2, cat3, cat5, contains, join, joined, occurs_at, texts};

verus! {

/// The verdict on one dimension.
#[derive(Debug, Clone, Copy, PartialEq, Eq, Structural)]
pub enum FidelityStatus {
    /// The real thing was exercised.
    Exercised,
    /// It exists for the target but was faked or never explored: a gap.
    NotExercised,
    /// It does not apply to the target: no gap.
    NotApplicable,
}

impl FidelityStatus {
    pub open spec fn word(self) -> Seq<char> {
        match self {
            FidelityStatus::Exercised => "exercised"@,
            FidelityStatus::NotExercised => "not_exercised"@,
            FidelityStatus::NotApplicable => "not_applicable"@,
        }
    }

    /// A gap weighs more than an exercise, which weighs more than what does not apply.
    pub open spec fn weight(self) -> int {
        match self {
            FidelityStatus::NotExercised => 2,
            FidelityStatus::Exercised => 1,
            FidelityStatus::NotApplicable => 0,
        }
    }

    pub fn as_str(self) -> (r: &'static str)
        ensures
            r@ == self.word(),
    {
        match self {
            FidelityStatus::Exercised => "exercised",
            FidelityStatus::NotExercised => "not_exercised",
            FidelityStatus::NotApplicable => "not_applicable",
        }
    }

    fn severity(self) -> (r: u8)
        ensures
            r == self.weight(),
    {
        match self {
            FidelityStatus::NotExercised => 2,
            FidelityStatus::Exercised => 1,
            FidelityStatus::NotApplicable => 0,
        }
    }
}

/// One dimension: the verdict and why.
#[derive(Debug, PartialEq, Eq)]
pub struct FidelityDimension {
    pub status: FidelityStatus,
    pub reason: Option<String>,
}

pub struct DimensionView {
    pub status: FidelityStatus,
    pub reason: Option<Seq<char>>,
}

impl View for FidelityDimension {
    type V = DimensionView;

    open spec fn view(&self) -> DimensionView {
        DimensionView {
            status: self.status,
            reason: match self.reason {
                Some(s) => Some(s@),
                None => None,
            },
        }
    }
}

impl Clone for FidelityDimension {
    fn clone(&self) -> (r: Self)
        ensures
            r@ == self@,
    {
        let reason = match &self.reason {
            Some(s) => Some(s.clone()),
            None => None,
        };
        FidelityDimension { status: self.status, reason }
    }
}

pub open spec fn dimension(status: FidelityStatus, reason: Seq<char>) -> DimensionView {
    DimensionView { status, reason: Some(reason) }
}

impl DimensionView {
    pub open spec fn gap(self) -> bool {
        self.status == FidelityStatus::NotExercised
    }
}

impl FidelityDimension {
    pub fn exercised(reason: &str) -> (r: Self)
        ensures
            r@ == dimension(FidelityStatus::Exercised, reason@),
    {
        FidelityDimension { status: FidelityStatus::Exercised, reason: Some(reason.to_owned()) }
    }

    pub fn not_exercised(reason: &str) -> (r: Self)
        ensures
            r@ == dimension(FidelityStatus::NotExercised, reason@),
    {
        FidelityDimension { status: FidelityStatus::NotExercised, reason: Some(reason.to_owned()) }
    }

    pub fn not_applicable(reason: &str) -> (r: Self)
        ensures
            r@ == dimension(FidelityStatus::NotApplicable, reason@),
    {
        FidelityDimension { status: FidelityStatus::NotApplicable, reason: Some(reason.to_owned()) }
    }

    /// Whether the dimension is a gap. One that does not apply is none.
    pub fn is_gap(&self) -> (r: bool)
        ensures
            r == self@.gap(),
    {
        self.status == FidelityStatus::NotExercised
    }
}

/// The order of the bytes in which the fuzzed logic ran.
#[derive(Debug, Clone, Copy, PartialEq, Eq, Structural)]
pub enum Endianness {
    Little,
    Big,
}

/// `u16::to_ne_bytes`: the two bytes of `n` in the machine's own order, which is one of
/// the two orders there are. Which one depends on the machine.
#[verifier::external_body]
fn native_bytes(n: u16) -> (r: [u8; 2])
    ensures
        r@ == seq![(n % 256) as u8, (n / 256) as u8] || r@ == seq![
            (n / 256) as u8,
            (n % 256) as u8,
        ],
{
    n.to_ne_bytes()
}

impl Endianness {
    /// The order in which a machine keeps the bytes of the number one.
    pub fn of_one(bytes: [u8; 2]) -> (r: Self)
        ensures
            r == if bytes@[0] == 1 {
                Endianness::Little
            } else {
                Endianness::Big
            },
    {
        if bytes[0] == 1 {
            Endianness::Little
        } else {
            Endianness::Big
        }
    }

    /// Whether this is the order in which the machine gave the bytes of the number one.
    pub closed spec fn is_native(self) -> bool {
        exists|bytes: [u8; 2]|
            #[trigger] call_ensures(native_bytes, (1u16,), bytes) && self == if bytes@[0] == 1 {
                Endianness::Little
            } else {
                Endianness::Big
            }
    }

    /// The order of the machine's own bytes. Which it is depends on the machine alone.
    pub fn host() -> (r: Self)
        ensures
            r.is_native(),
    {
        let bytes = native_bytes(1);
        proof {
            assert(call_ensures(native_bytes, (1u16,), bytes));
        }
        Endianness::of_one(bytes)
    }

    pub open spec fn word(self) -> Seq<char> {
        match self {
            Endianness::Little => "little-endian"@,
            Endianness::Big => "big-endian"@,
        }
    }

    pub fn as_str(self) -> (r: &'static str)
        ensures
            r@ == self.word(),
    {
        match self {
            Endianness::Little => "little-endian",
            Endianness::Big => "big-endian",
        }
    }
}

/// What is known of how a target was built and fuzzed.
#[derive(Debug, Clone, PartialEq, Eq)]
pub struct FidelityFacts {
    /// The platform that was stubbed, if one was: its instruction set, runtime and
    /// hardware were then faked.
    pub platform_stub: Option<String>,
    pub host_arch: String,
    pub host_endianness: Endianness,
    /// The sanitizers that were armed.
    pub sanitizers: Vec<String>,
    pub tsan_ran: bool,
}

pub struct FactsView {
    pub platform_stub: Option<Seq<char>>,
    pub host_arch: Seq<char>,
    pub host_endianness: Endianness,
    pub sanitizers: Seq<Seq<char>>,
    pub tsan_ran: bool,
}

impl View for FidelityFacts {
    type V = FactsView;

    open spec fn view(&self) -> FactsView {
        FactsView {
            platform_stub: match self.platform_stub {
                Some(s) => Some(s@),
                None => None,
            },
            host_arch: self.host_arch@,
            host_endianness: self.host_endianness,
            sanitizers: texts(self.sanitizers@),
            tsan_ran: self.tsan_ran,
        }
    }
}

impl FidelityFacts {
    /// A target of the host itself: no stub, no sanitizers, no pass for races. The byte
    /// order is the machine's.
    pub fn host(host_arch: &str) -> (r: Self)
        ensures
            r@ == (FactsView {
                platform_stub: None,
                host_arch: host_arch@,
                host_endianness: r.host_endianness,
                sanitizers: seq![],
                tsan_ran: false,
            }),
            r.host_endianness.is_native(),
    {
        let r = FidelityFacts {
            platform_stub: None,
            host_arch: host_arch.to_owned(),
            host_endianness: Endianness::host(),
            sanitizers: Vec::new(),
            tsan_ran: false,
        };
        proof {
            assert(texts(r.sanitizers@) =~= seq![]);
        }
        r
    }
}

/// What a result speaks to, dimension by dimension.
#[derive(Debug, PartialEq, Eq)]
pub struct Fidelity {
    pub arch: FidelityDimension,
    pub endianness: FidelityDimension,
    pub rtos_runtime: FidelityDimension,
    pub hardware_peripherals: FidelityDimension,
    pub concurrency: FidelityDimension,
    pub sanitizers: FidelityDimension,
}

pub struct FidelityView {
    pub arch: DimensionView,
    pub endianness: DimensionView,
    pub rtos_runtime: DimensionView,
    pub hardware_peripherals: DimensionView,
    pub concurrency: DimensionView,
    pub sanitizers: DimensionView,
}

impl View for Fidelity {
    type V = FidelityView;

    open spec fn view(&self) -> FidelityView {
        FidelityView {
            arch: self.arch@,
            endianness: self.endianness@,
            rtos_runtime: self.rtos_runtime@,
            hardware_peripherals: self.hardware_peripherals@,
            concurrency: self.concurrency@,
            sanitizers: self.sanitizers@,
        }
    }
}

impl Clone for Fidelity {
    fn clone(&self) -> (r: Self)
        ensures
            r@ == self@,
    {
        Fidelity {
            arch: self.arch.clone(),
            endianness: self.endianness.clone(),
            rtos_runtime: self.rtos_runtime.clone(),
            hardware_peripherals: self.hardware_peripherals.clone(),
            concurrency: self.concurrency.clone(),
            sanitizers: self.sanitizers.clone(),
        }
    }
}

/// The verdict on concurrency: it was exercised if and only if a pass for races ran.
pub open spec fn concurrency_of(f: FactsView) -> DimensionView {
    if f.tsan_ran {
        dimension(
            FidelityStatus::Exercised,
            "ThreadSanitizer pass replayed the corpus for concurrent-access faults"@,
        )
    } else {
        dimension(
            FidelityStatus::NotExercised,
            "no ThreadSanitizer pass ran; concurrent interleavings not explored"@,
        )
    }
}

/// The verdict on sanitizers: exercised if and only if one was armed.
pub open spec fn sanitizers_of(f: FactsView) -> DimensionView {
    if f.sanitizers.len() == 0 {
        dimension(FidelityStatus::NotExercised, "no sanitizer instrumentation was active"@)
    } else {
        dimension(FidelityStatus::Exercised, "ran under "@ + join(f.sanitizers, "+"@))
    }
}

/// The record of what is known: under a stub the target's own dimensions are gaps;
/// without one the host is the target.
pub open spec fn record(f: FactsView) -> FidelityView {
    match f.platform_stub {
        Some(platform) => FidelityView {
            arch: dimension(
                FidelityStatus::NotExercised,
                "portable logic fuzzed on host "@ + f.host_arch + "; "@ + platform
                    + " target ISA not executed"@,
            ),
            endianness: dimension(
                FidelityStatus::NotExercised,
                "ran in host "@ + f.host_endianness.word() + "; "@ + platform
                    + " target byte order not verified"@,
            ),
            rtos_runtime: dimension(
                FidelityStatus::NotExercised,
                platform
                    + " runtime stubbed with inert handles; RTOS scheduling/IPC not modeled"@,
            ),
            hardware_peripherals: dimension(
                FidelityStatus::NotExercised,
                platform + " device/peripheral access faked; no real hardware, MMIO, or DMA"@,
            ),
            concurrency: concurrency_of(f),
            sanitizers: sanitizers_of(f),
        },
        None => FidelityView {
            arch: dimension(
                FidelityStatus::Exercised,
                "fuzzed natively on the host "@ + f.host_arch + " target"@,
            ),
            endianness: dimension(
                FidelityStatus::Exercised,
                "native host target ran in "@ + f.host_endianness.word(),
            ),
            rtos_runtime: dimension(
                FidelityStatus::NotApplicable,
                "host process target has no RTOS runtime"@,
            ),
            hardware_peripherals: dimension(
                FidelityStatus::NotApplicable,
                "host process target has no hardware peripherals"@,
            ),
            concurrency: concurrency_of(f),
            sanitizers: sanitizers_of(f),
        },
    }
}

/// The record of a finding for which nothing was run.
pub open spec fn unexecuted(reason: Seq<char>) -> FidelityView {
    let d = dimension(FidelityStatus::NotApplicable, reason);
    FidelityView {
        arch: d,
        endianness: d,
        rtos_runtime: d,
        hardware_peripherals: d,
        concurrency: d,
        sanitizers: d,
    }
}

/// The graver of two verdicts; the first of two that weigh the same.
pub open spec fn worst(a: DimensionView, b: DimensionView) -> DimensionView {
    if b.status.weight() > a.status.weight() {
        b
    } else {
        a
    }
}

impl FidelityView {
    /// Whether a dimension of the target itself is a gap. Concurrency and sanitizers say
    /// how deep the fuzzing went, and do not count here.
    pub open spec fn reduced(self) -> bool {
        self.arch.gap() || self.endianness.gap() || self.rtos_runtime.gap()
            || self.hardware_peripherals.gap()
    }

    /// The graver verdict in each dimension.
    pub open spec fn worst_with(self, other: FidelityView) -> FidelityView {
        FidelityView {
            arch: worst(self.arch, other.arch),
            endianness: worst(self.endianness, other.endianness),
            rtos_runtime: worst(self.rtos_runtime, other.rtos_runtime),
            hardware_peripherals: worst(self.hardware_peripherals, other.hardware_peripherals),
            concurrency: worst(self.concurrency, other.concurrency),
            sanitizers: worst(self.sanitizers, other.sanitizers),
        }
    }

    /// The names of the gaps, in order.
    pub open spec fn gaps(self) -> Seq<Seq<char>> {
        named("target ISA/arch"@, self.arch) + named("endianness"@, self.endianness) + named(
            "RTOS runtime"@,
            self.rtos_runtime,
        ) + named("hardware peripherals"@, self.hardware_peripherals) + named(
            "concurrency"@,
            self.concurrency,
        ) + named("sanitizers"@, self.sanitizers)
    }

    /// The caveat: there is one if and only if a dimension of the target is a gap.
    pub open spec fn caveat(self) -> Option<Seq<char>> {
        if self.reduced() {
            Some(caveat_text(self.gaps()))
        } else {
            None
        }
    }
}

/// What a caveat says of the gaps with these names.
pub open spec fn caveat_text(gaps: Seq<Seq<char>>) -> Seq<char> {
    "reduced-fidelity: portable logic fuzzed on host; NOT exercised: "@ + join(gaps, ", "@)
        + ". Findings are host-stub evidence, not target assurance."@
}

pub open spec fn named(label: Seq<char>, d: DimensionView) -> Seq<Seq<char>> {
    if d.gap() {
        seq![label]
    } else {
        seq![]
    }
}

fn push_gap(gaps: &mut Vec<String>, label: &str, d: &FidelityDimension)
    ensures
        texts(final(gaps)@) == texts(old(gaps)@) + named(label@, d@),
{
    if d.is_gap() {
        gaps.push(label.to_owned());
    }
    proof {
        assert(texts(gaps@) =~= texts(old(gaps)@) + named(label@, d@));
    }
}

fn worst_of(a: &FidelityDimension, b: &FidelityDimension) -> (r: FidelityDimension)
    ensures
        r@ == worst(a@, b@),
{
    if b.status.severity() > a.status.severity() {
        b.clone()
    } else {
        a.clone()
    }
}

/// The graver verdict in each dimension over the records, taken in order.
pub open spec fn rolled_up(records: Seq<FidelityView>) -> FidelityView
    recommends
        records.len() > 0,
    decreases records.len(),
{
    if records.len() <= 1 {
        records[0]
    } else {
        rolled_up(records.drop_last()).worst_with(records.last())
    }
}

pub open spec fn views(items: Seq<&Fidelity>) -> Seq<FidelityView> {
    Seq::new(items.len(), |i: int| items[i]@)
}

impl Fidelity {
    pub fn from_facts(facts: &FidelityFacts) -> (r: Self)
        ensures
            r@ == record(facts@),
    {
        let concurrency = if facts.tsan_ran {
            FidelityDimension::exercised(
                "ThreadSanitizer pass replayed the corpus for concurrent-access faults",
            )
        } else {
            FidelityDimension::not_exercised(
                "no ThreadSanitizer pass ran; concurrent interleavings not explored",
            )
        };
        let sanitizers = if facts.sanitizers.len() == 0 {
            FidelityDimension::not_exercised("no sanitizer instrumentation was active")
        } else {
            let list = joined(facts.sanitizers.as_slice(), "+");
            FidelityDimension::exercised(cat2("ran under ", list.as_str()).as_str())
        };
        match &facts.platform_stub {
            Some(platform) => Fidelity {
                arch: FidelityDimension::not_exercised(
                    cat5(
                        "portable logic fuzzed on host ",
                        facts.host_arch.as_str(),
                        "; ",
                        platform.as_str(),
                        " target ISA not executed",
                    ).as_str(),
                ),
                endianness: FidelityDimension::not_exercised(
                    cat5(
                        "ran in host ",
                        facts.host_endianness.as_str(),
                        "; ",
                        platform.as_str(),
                        " target byte order not verified",
                    ).as_str(),
                ),
                rtos_runtime: FidelityDimension::not_exercised(
                    cat2(
                        platform.as_str(),
                        " runtime stubbed with inert handles; RTOS scheduling/IPC not modeled",
                    ).as_str(),
                ),
                hardware_peripherals: FidelityDimension::not_exercised(
                    cat2(
                        platform.as_str(),
                        " device/peripheral access faked; no real hardware, MMIO, or DMA",
                    ).as_str(),
                ),
                concurrency,
                sanitizers,
            },
            None => Fidelity {
                arch: FidelityDimension::exercised(
                    cat3("fuzzed natively on the host ", facts.host_arch.as_str(), " target").as_str(),
                ),
                endianness: FidelityDimension::exercised(
                    cat2("native host target ran in ", facts.host_endianness.as_str()).as_str(),
                ),
                rtos_runtime: FidelityDimension::not_applicable(
                    "host process target has no RTOS runtime",
                ),
                hardware_peripherals: FidelityDimension::not_applicable(
                    "host process target has no hardware peripherals",
                ),
                concurrency,
                sanitizers,
            },
        }
    }

    pub fn not_executed(reason: &str) -> (r: Self)
        ensures
            r@ == unexecuted(reason@),
    {
        Fidelity {
            arch: FidelityDimension::not_applicable(reason),
            endianness: FidelityDimension::not_applicable(reason),
            rtos_runtime: FidelityDimension::not_applicable(reason),
            hardware_peripherals: FidelityDimension::not_applicable(reason),
            concurrency: FidelityDimension::not_applicable(reason),
            sanitizers: FidelityDimension::not_applicable(reason),
        }
    }

    pub fn is_reduced_fidelity(&self) -> (r: bool)
        ensures
            r == self@.reduced(),
    {
        self.arch.is_gap() || self.endianness.is_gap() || self.rtos_runtime.is_gap()
            || self.hardware_peripherals.is_gap()
    }

    pub fn caveat(&self) -> (r: Option<String>)
        ensures
            match r {
                Some(s) => self@.caveat() == Some(s@),
                None => self@.caveat() is None,
            },
    {
        if !self.is_reduced_fidelity() {
            return None;
        }
        let mut gaps: Vec<String> = Vec::new();
        push_gap(&mut gaps, "target ISA/arch", &self.arch);
        push_gap(&mut gaps, "endianness", &self.endianness);
        push_gap(&mut gaps, "RTOS runtime", &self.rtos_runtime);
        push_gap(&mut gaps, "hardware peripherals", &self.hardware_peripherals);
        push_gap(&mut gaps, "concurrency", &self.concurrency);
        push_gap(&mut gaps, "sanitizers", &self.sanitizers);
        proof {
            assert(texts(gaps@) =~= self@.gaps());
        }
        let list = joined(gaps.as_slice(), ", ");
        Some(
            cat3(
                "reduced-fidelity: portable logic fuzzed on host; NOT exercised: ",
                list.as_str(),
                ". Findings are host-stub evidence, not target assurance.",
            ),
        )
    }

    pub fn worst_with(&self, other: &Fidelity) -> (r: Fidelity)
        ensures
            r@ == self@.worst_with(other@),
    {
        Fidelity {
            arch: worst_of(&self.arch, &other.arch),
            endianness: worst_of(&self.endianness, &other.endianness),
            rtos_runtime: worst_of(&self.rtos_runtime, &other.rtos_runtime),
            hardware_peripherals: worst_of(
                &self.hardware_peripherals,
                &other.hardware_peripherals,
            ),
            concurrency: worst_of(&self.concurrency, &other.concurrency),
            sanitizers: worst_of(&self.sanitizers, &other.sanitizers),
        }
    }

    /// One record for many, `None` for none.
    pub fn rollup(items: &[&Fidelity]) -> (r: Option<Fidelity>)
        ensures
            match r {
                Some(f) => items@.len() > 0 && f@ == rolled_up(views(items@)),
                None => items@.len() == 0,
            },
    {
        if items.len() == 0 {
            return None;
        }
        let mut all = items[0].clone();
        let mut i: usize = 1;
        proof {
            assert(views(items@).take(1)[0] == views(items@)[0]);
        }
        while i < items.len()
            invariant
                1 <= i <= items@.len(),
                all@ == rolled_up(views(items@).take(i as int)),
            decreases items@.len() - i,
        {
            all = all.worst_with(items[i]);
            proof {
                assert(views(items@).take(i + 1).drop_last() =~= views(items@).take(i as int));
            }
            i += 1;
        }
        proof {
            assert(views(items@).take(i as int) =~= views(items@));
        }
        Some(all)
    }
}

/// The byte order is that in which the machine itself keeps a number: the low byte of one
/// stands first just where it is little-endian.
proof fn the_byte_order_is_the_machine_s(e: Endianness)
    requires
        e.is_native(),
    ensures
        exists|bytes: [u8; 2]| #[trigger]
            call_ensures(native_bytes, (1u16,), bytes) && (e == Endianness::Little <==> bytes@[0]
                == 1) && (e == Endianness::Big <==> bytes@[1] == 1),
{
    let bytes = choose|bytes: [u8; 2]| #[trigger]
        call_ensures(native_bytes, (1u16,), bytes) && e == if bytes@[0] == 1 {
            Endianness::Little
        } else {
            Endianness::Big
        };
    assert(call_ensures(native_bytes, (1u16,), bytes));
    assert(bytes@[0] == 1 && bytes@[1] == 0 || bytes@[0] == 0 && bytes@[1] == 1);
}

/// A stubbed target is never reported without a caveat, and a target of the host never
/// with one, whatever sanitizers and passes ran.
pub proof fn stubs_and_only_stubs_carry_a_caveat(f: FactsView)
    ensures
        record(f).reduced() <==> f.platform_stub is Some,
        record(f).caveat() is Some <==> f.platform_stub is Some,
{
}

/// Concurrency was exercised if and only if a pass for races ran, and sanitizers if and
/// only if one was armed.
pub proof fn only_what_ran_was_exercised(f: FactsView)
    ensures
        record(f).concurrency.status == FidelityStatus::Exercised <==> f.tsan_ran,
        record(f).concurrency.gap() <==> !f.tsan_ran,
        record(f).sanitizers.status == FidelityStatus::Exercised <==> f.sanitizers.len() > 0,
        record(f).sanitizers.gap() <==> f.sanitizers.len() == 0,
{
}

proof fn lemma_gaps(r: FidelityView)
    ensures
        forall|x: Seq<char>| #[trigger]
            r.gaps().contains(x) <==> {
                ||| r.arch.gap() && x == "target ISA/arch"@
                ||| r.endianness.gap() && x == "endianness"@
                ||| r.rtos_runtime.gap() && x == "RTOS runtime"@
                ||| r.hardware_peripherals.gap() && x == "hardware peripherals"@
                ||| r.concurrency.gap() && x == "concurrency"@
                ||| r.sanitizers.gap() && x == "sanitizers"@
            },
{
    let g = r.gaps();
    assert forall|x: Seq<char>| #[trigger] g.contains(x) <==> {
        ||| r.arch.gap() && x == "target ISA/arch"@
        ||| r.endianness.gap() && x == "endianness"@
        ||| r.rtos_runtime.gap() && x == "RTOS runtime"@
        ||| r.hardware_peripherals.gap() && x == "hardware peripherals"@
        ||| r.concurrency.gap() && x == "concurrency"@
        ||| r.sanitizers.gap() && x == "sanitizers"@
    } by {
        let a = named("target ISA/arch"@, r.arch);
        let b = a + named("endianness"@, r.endianness);
        let c = b + named("RTOS runtime"@, r.rtos_runtime);
        let d = c + named("hardware peripherals"@, r.hardware_peripherals);
        let e = d + named("concurrency"@, r.concurrency);
        lemma_named(Seq::empty(), "target ISA/arch"@, r.arch, x);
        assert(Seq::<Seq<char>>::empty() + a =~= a);
        lemma_named(a, "endianness"@, r.endianness, x);
        lemma_named(b, "RTOS runtime"@, r.rtos_runtime, x);
        lemma_named(c, "hardware peripherals"@, r.hardware_peripherals, x);
        lemma_named(d, "concurrency"@, r.concurrency, x);
        lemma_named(e, "sanitizers"@, r.sanitizers, x);
    }
}

proof fn lemma_named(before: Seq<Seq<char>>, label: Seq<char>, d: DimensionView, x: Seq<char>)
    ensures
        (before + named(label, d)).contains(x) <==> before.contains(x) || d.gap() && x == label,
{
    let all = before + named(label, d);
    if before.contains(x) {
        let i = choose|i: int| 0 <= i < before.len() && before[i] == x;
        assert(all[i] == x);
    }
    if d.gap() && x == label {
        assert(all[before.len() as int] == x);
    }
}

/// A record of a finding for which nothing was run has no gap and no caveat.
pub proof fn what_was_not_executed_has_no_gap(reason: Seq<char>)
    ensures
        unexecuted(reason).caveat() is None,
        unexecuted(reason).gaps().len() == 0,
        !unexecuted(reason).sanitizers.gap(),
{
}

/// One gap is enough: a rolled-up record has a gap in a dimension if and only if one of
/// the records has, and it is of reduced fidelity if and only if one of them is.
pub proof fn a_rollup_has_every_gap(records: Seq<FidelityView>)
    requires
        records.len() > 0,
    ensures
        rolled_up(records).arch.gap() <==> exists|i: int|
            0 <= i < records.len() && (#[trigger] records[i]).arch.gap(),
        rolled_up(records).endianness.gap() <==> exists|i: int|
            0 <= i < records.len() && (#[trigger] records[i]).endianness.gap(),
        rolled_up(records).rtos_runtime.gap() <==> exists|i: int|
            0 <= i < records.len() && (#[trigger] records[i]).rtos_runtime.gap(),
        rolled_up(records).hardware_peripherals.gap() <==> exists|i: int|
            0 <= i < records.len() && (#[trigger] records[i]).hardware_peripherals.gap(),
        rolled_up(records).concurrency.gap() <==> exists|i: int|
            0 <= i < records.len() && (#[trigger] records[i]).concurrency.gap(),
        rolled_up(records).sanitizers.gap() <==> exists|i: int|
            0 <= i < records.len() && (#[trigger] records[i]).sanitizers.gap(),
        rolled_up(records).reduced() <==> exists|i: int|
            0 <= i < records.len() && (#[trigger] records[i]).reduced(),
    decreases records.len(),
{
    if records.len() > 1 {
        let fore = records.drop_last();
        a_rollup_has_every_gap(fore);
        assert(forall|i: int| 0 <= i < fore.len() ==> #[trigger] fore[i] == records[i]);
        assert(forall|i: int| 0 <= i < fore.len() ==> #[trigger] records[i] == fore[i]);
        assert(records[records.len() - 1] == records.last());
    } else {
        assert(rolled_up(records) == records[0]);
    }
}

/// Merging a record with itself changes nothing, and the verdicts of a merge do not depend
/// on its order.
pub proof fn merging_is_idempotent_and_its_verdicts_commute(a: FidelityView, b: FidelityView)
    ensures
        a.worst_with(a) == a,
        a.worst_with(b).arch.status == b.worst_with(a).arch.status,
        a.worst_with(b).endianness.status == b.worst_with(a).endianness.status,
        a.worst_with(b).rtos_runtime.status == b.worst_with(a).rtos_runtime.status,
        a.worst_with(b).hardware_peripherals.status == b.worst_with(a).hardware_peripherals.status,
        a.worst_with(b).concurrency.status == b.worst_with(a).concurrency.status,
        a.worst_with(b).sanitizers.status == b.worst_with(a).sanitizers.status,
{
}

/// Which label two neighbouring characters give away: each label holds a pair of them that
/// stands nowhere else in a caveat. 0 is none.
spec fn mark(a: char, b: char) -> int {
    if a == '/' && b == 'a' {
        1
    } else if a == 'n' && b == 'n' {
        2
    } else if a == 'R' && b == 'T' {
        3
    } else if a == 'w' && b == 'a' {
        4
    } else if a == 'r' && b == 'r' {
        5
    } else if a == 'i' && b == 'z' {
        6
    } else {
        0
    }
}

spec fn no_mark(s: Seq<char>, k: int) -> bool {
    forall|i: int| 0 <= i < s.len() - 1 ==> mark(#[trigger] s[i], s[i + 1]) != k
}

/// Whether the first `n` pairs of neighbours give away no label but `own`.
spec fn marks_upto(s: Seq<char>, n: nat, own: int) -> bool
    decreases n,
{
    n == 0 || {
        &&& marks_upto(s, (n - 1) as nat, own)
        &&& mark(s[n - 1], s[n as int]) == 0 || mark(s[n - 1], s[n as int]) == own
    }
}

proof fn lemma_marks_upto(s: Seq<char>, n: nat, own: int, k: int)
    requires
        marks_upto(s, n, own),
        n < s.len(),
        k != 0,
        k != own,
    ensures
        forall|i: int| 0 <= i < n ==> mark(#[trigger] s[i], s[i + 1]) != k,
    decreases n,
{
    if n > 0 {
        lemma_marks_upto(s, (n - 1) as nat, own, k);
    }
}

proof fn lemma_no_mark_concat(a: Seq<char>, b: Seq<char>, k: int)
    requires
        no_mark(a, k),
        no_mark(b, k),
        a.len() > 0 && b.len() > 0 ==> mark(a.last(), b[0]) != k,
    ensures
        no_mark(a + b, k),
{
    let all = a + b;
    assert forall|i: int| 0 <= i < all.len() - 1 implies mark(#[trigger] all[i], all[i + 1]) != k by {
        if i + 1 < a.len() {
            assert(all[i] == a[i] && all[i + 1] == a[i + 1]);
        } else if i >= a.len() {
            let j = i - a.len();
            assert(all[i] == b[j] && all[i + 1] == b[j + 1]);
        }
    }
}

proof fn lemma_no_mark_join(parts: Seq<Seq<char>>, k: int)
    requires
        k != 0,
        forall|i: int| 0 <= i < parts.len() ==> no_mark(#[trigger] parts[i], k),
    ensures
        no_mark(join(parts, ", "@), k),
    decreases parts.len(),
{
    reveal_strlit(", ");
    if parts.len() > 1 {
        let fore = parts.drop_last();
        assert forall|i: int| 0 <= i < fore.len() implies no_mark(#[trigger] fore[i], k) by {
            assert(fore[i] == parts[i]);
        }
        lemma_no_mark_join(fore, k);
        let head = join(fore, ", "@);
        lemma_no_mark_concat(head, ", "@, k);
        assert((head + ", "@).last() == ' ');
        assert(parts.last() == parts[parts.len() - 1]);
        lemma_no_mark_concat(head + ", "@, parts.last(), k);
    }
}

/// What each part of a caveat gives away: its beginning and its end nothing, and each label
/// itself alone.
proof fn labels_give_themselves_away(k: int)
    requires
        1 <= k <= 6,
    ensures
        no_mark("reduced-fidelity: portable logic fuzzed on host; NOT exercised: "@, k),
        no_mark(". Findings are host-stub evidence, not target assurance."@, k),
        k != 1 ==> no_mark("target ISA/arch"@, k),
        k != 2 ==> no_mark("endianness"@, k),
        k != 3 ==> no_mark("RTOS runtime"@, k),
        k != 4 ==> no_mark("hardware peripherals"@, k),
        k != 5 ==> no_mark("concurrency"@, k),
        k != 6 ==> no_mark("sanitizers"@, k),
{
    reveal_strlit("reduced-fidelity: portable logic fuzzed on host; NOT exercised: ");
    reveal_strlit(". Findings are host-stub evidence, not target assurance.");
    reveal_strlit("target ISA/arch");
    reveal_strlit("endianness");
    reveal_strlit("RTOS runtime");
    reveal_strlit("hardware peripherals");
    reveal_strlit("concurrency");
    reveal_strlit("sanitizers");
    reveal_with_fuel(marks_upto, 20);
    let beginning = "reduced-fidelity: portable logic fuzzed on host; NOT exercised: "@;
    assert(marks_upto(beginning, 16, 0));
    assert(marks_upto(beginning, 32, 0));
    assert(marks_upto(beginning, 48, 0));
    assert(marks_upto(beginning, 63, 0));
    lemma_marks_upto(beginning, 63, 0, k);
    let end = ". Findings are host-stub evidence, not target assurance."@;
    assert(marks_upto(end, 16, 0));
    assert(marks_upto(end, 32, 0));
    assert(marks_upto(end, 48, 0));
    lemma_marks_upto(end, 55, 0, k);
    if k != 1 {
        lemma_marks_upto("target ISA/arch"@, 14, 1, k);
    }
    if k != 2 {
        lemma_marks_upto("endianness"@, 9, 2, k);
    }
    if k != 3 {
        lemma_marks_upto("RTOS runtime"@, 11, 3, k);
    }
    if k != 4 {
        lemma_marks_upto("hardware peripherals"@, 19, 4, k);
    }
    if k != 5 {
        lemma_marks_upto("concurrency"@, 10, 5, k);
    }
    if k != 6 {
        lemma_marks_upto("sanitizers"@, 9, 6, k);
    }
}

/// A text with a marked pair at `at` is not free of its mark, nor is one that holds it.
proof fn lemma_marked(s: Seq<char>, label: Seq<char>, at: int, k: int)
    requires
        contains(s, label),
        0 <= at < label.len() - 1,
        mark(label[at], label[at + 1]) == k,
    ensures
        !no_mark(s, k),
{
    let i = choose|i: int| occurs_at(s, label, i);
    let part = s.subrange(i, i + label.len());
    assert(part[at] == s[i + at]);
    assert(part[at + 1] == s[i + at + 1]);
    assert(mark(s[i + at], s[(i + at) + 1]) == k);
}

proof fn lemma_within(a: Seq<char>, b: Seq<char>, c: Seq<char>, p: Seq<char>)
    requires
        contains(b, p),
    ensures
        contains(a + b + c, p),
{
    let i = choose|i: int| occurs_at(b, p, i);
    let all = a + b + c;
    let at = a.len() + i;
    assert(all.subrange(at, at + p.len()) =~= b.subrange(i, i + p.len()));
    assert(occurs_at(all, p, at));
}

proof fn lemma_joined_part(parts: Seq<Seq<char>>, sep: Seq<char>, p: Seq<char>)
    requires
        parts.contains(p),
    ensures
        contains(join(parts, sep), p),
    decreases parts.len(),
{
    let k = choose|k: int| 0 <= k < parts.len() && parts[k] == p;
    if parts.len() == 1 {
        assert(p.subrange(0, p.len() as int) =~= p);
        assert(occurs_at(p, p, 0));
    } else {
        let fore = parts.drop_last();
        let head = join(fore, sep) + sep;
        if k < fore.len() {
            assert(fore[k] == p);
            lemma_joined_part(fore, sep, p);
            lemma_within(Seq::empty(), join(fore, sep), sep + parts.last(), p);
            assert(Seq::empty() + join(fore, sep) + (sep + parts.last()) =~= head
                + parts.last());
        } else {
            assert(p.subrange(0, p.len() as int) =~= p);
            assert(occurs_at(p, p, 0));
            lemma_within(head, p, Seq::empty(), p);
            assert(head + p + Seq::empty() =~= head + p);
        }
    }
}

/// One label of a caveat: it stands in the text if and only if it is among the gaps.
proof fn lemma_label(r: FidelityView, label: Seq<char>, at: int, k: int)
    requires
        1 <= k <= 6,
        0 <= at < label.len() - 1,
        mark(label[at], label[at + 1]) == k,
        forall|x: Seq<char>| #[trigger]
            r.gaps().contains(x) ==> x == label || no_mark(x, k),
    ensures
        contains(caveat_text(r.gaps()), label) <==> r.gaps().contains(label),
{
    let gaps = r.gaps();
    let beginning = "reduced-fidelity: portable logic fuzzed on host; NOT exercised: "@;
    let end = ". Findings are host-stub evidence, not target assurance."@;
    let list = join(gaps, ", "@);
    if gaps.contains(label) {
        lemma_joined_part(gaps, ", "@, label);
        lemma_within(beginning, list, end, label);
    } else {
        assert forall|i: int| 0 <= i < gaps.len() implies no_mark(#[trigger] gaps[i], k) by {
            assert(gaps.contains(gaps[i]));
        }
        lemma_no_mark_join(gaps, k);
        labels_give_themselves_away(k);
        reveal_strlit("reduced-fidelity: portable logic fuzzed on host; NOT exercised: ");
        reveal_strlit(". Findings are host-stub evidence, not target assurance.");
        assert(beginning.last() == ' ');
        lemma_no_mark_concat(beginning, list, k);
        assert(end[0] == '.');
        lemma_no_mark_concat(beginning + list, end, k);
        if contains(caveat_text(gaps), label) {
            lemma_marked(caveat_text(gaps), label, at, k);
        }
    }
}

/// A caveat tells exactly what was not exercised. There is one if and only if a dimension
/// of the target is a gap, whatever is said of concurrency and sanitizers, and the name of
/// each dimension stands in it if and only if that dimension is a gap.
pub proof fn the_caveat_names_the_gaps(r: FidelityView)
    ensures
        r.caveat() is Some <==> r.reduced(),
        forall|c: DimensionView, s: DimensionView|
            (#[trigger] FidelityView { concurrency: c, sanitizers: s, ..r }.caveat()) is Some
                <==> r.caveat() is Some,
        r.caveat() matches Some(text) ==> {
            &&& contains(text, "target ISA/arch"@) <==> r.arch.gap()
            &&& contains(text, "endianness"@) <==> r.endianness.gap()
            &&& contains(text, "RTOS runtime"@) <==> r.rtos_runtime.gap()
            &&& contains(text, "hardware peripherals"@) <==> r.hardware_peripherals.gap()
            &&& contains(text, "concurrency"@) <==> r.concurrency.gap()
            &&& contains(text, "sanitizers"@) <==> r.sanitizers.gap()
        },
{
    lemma_gaps(r);
    reveal_strlit("target ISA/arch");
    reveal_strlit("endianness");
    reveal_strlit("RTOS runtime");
    reveal_strlit("hardware peripherals");
    reveal_strlit("concurrency");
    reveal_strlit("sanitizers");
    assert("target ISA/arch"@.len() == 15 && "endianness"@.len() == 10 && "RTOS runtime"@.len()
        == 12 && "hardware peripherals"@.len() == 20 && "concurrency"@.len() == 11
        && "sanitizers"@.len() == 10);
    assert("sanitizers"@[0] != "endianness"@[0]);
    labels_give_themselves_away(1);
    labels_give_themselves_away(2);
    labels_give_themselves_away(3);
    labels_give_themselves_away(4);
    labels_give_themselves_away(5);
    labels_give_themselves_away(6);
    lemma_label(r, "target ISA/arch"@, 10, 1);
    lemma_label(r, "endianness"@, 5, 2);
    lemma_label(r, "RTOS runtime"@, 0, 3);
    lemma_label(r, "hardware peripherals"@, 4, 4);
    lemma_label(r, "concurrency"@, 5, 5);
    lemma_label(r, "sanitizers"@, 5, 6);
}

} // verus!

//! A cooperative scheduler of threads: one baton, handed on by the schedule's bytes.
//!
//! One managed thread runs at a time. At each scheduling point the next one is chosen
//! among those that can run by a byte of a pinned schedule or of the input.

use vstd::prelude::*;

verus! {

/// How many threads are managed at most.
pub const MAX_THREADS: usize = 16;

/// How many bytes of a pinned schedule are kept.
pub const SEQ_CAP: usize = 256;

/// How many seconds a thread waits for the baton before it goes on without.
pub const GATE_TIMEOUT_SECS: u64 = 5;

/// Where the schedule's window of the input begins.
pub const SCHED_INPUT_KEY: u64 = 0x5343_4845_4400_0000;

/// What a hexadecimal digit stands for.
pub open spec fn nibble(b: u8) -> Option<u8> {
    if 0x30 <= b <= 0x39 {
        Some((b - 0x30) as u8)
    } else if 0x61 <= b <= 0x66 {
        Some((b - 0x61 + 10) as u8)
    } else if 0x41 <= b <= 0x46 {
        Some((b - 0x41 + 10) as u8)
    } else {
        None
    }
}

pub fn hex_nibble(b: u8) -> (r: Option<u8>)
    ensures
        r == nibble(b),
{
    if 0x30 <= b && b <= 0x39 {
        Some(b - 0x30)
    } else if 0x61 <= b && b <= 0x66 {
        Some(b - 0x61 + 10)
    } else if 0x41 <= b && b <= 0x46 {
        Some(b - 0x41 + 10)
    } else {
        None
    }
}

/// The hexadecimal digits of a text, in order; everything else is passed over.
pub open spec fn nibbles(hex: Seq<u8>) -> Seq<u8>
    decreases hex.len(),
{
    if hex.len() == 0 {
        seq![]
    } else {
        match nibble(hex.last()) {
            Some(n) => nibbles(hex.drop_last()).push(n),
            None => nibbles(hex.drop_last()),
        }
    }
}

/// The bytes that a schedule writes: each is two digits, and a digit left over is dropped.
pub open spec fn schedule_bytes(hex: Seq<u8>) -> Seq<u8> {
    let n = nibbles(hex);
    Seq::new(n.len() / 2, |i: int| (16 * n[2 * i] + n[2 * i + 1]) as u8)
}

proof fn lemma_nibbles_small(hex: Seq<u8>)
    ensures
        forall|i: int| 0 <= i < nibbles(hex).len() ==> nibbles(hex)[i] < 16,
        nibbles(hex).len() <= hex.len(),
    decreases hex.len(),
{
    if hex.len() > 0 {
        lemma_nibbles_small(hex.drop_last());
    }
}

proof fn lemma_nibbles_grow(hex: Seq<u8>, i: int)
    requires
        0 <= i <= hex.len(),
    ensures
        nibbles(hex.take(i)).is_prefix_of(nibbles(hex)),
    decreases hex.len(),
{
    if i == hex.len() {
        assert(hex.take(i) =~= hex);
    } else {
        lemma_nibbles_grow(hex.drop_last(), i);
        assert(hex.drop_last().take(i) =~= hex.take(i));
    }
}

/// Writes the bytes of a schedule to the front of `out`, as many as fit, and returns how
/// many there are; what stands behind them is kept.
pub fn parse_hex_seq(hex: &[u8], out: &mut [u8; SEQ_CAP]) -> (r: usize)
    ensures
        r == if schedule_bytes(hex@).len() <= SEQ_CAP {
            schedule_bytes(hex@).len() as int
        } else {
            SEQ_CAP as int
        },
        final(out)@ == schedule_bytes(hex@).take(r as int) + old(out)@.skip(r as int),
{
    let mut n: usize = 0;
    let mut high: Option<u8> = None;
    let mut i: usize = 0;
    proof {
        assert(hex@.take(0) =~= Seq::<u8>::empty());
        assert(out@ =~= schedule_bytes(hex@.take(0)) + old(out)@.skip(0));
    }
    while i < hex.len()
        invariant
            i <= hex@.len(),
            n <= SEQ_CAP,
            out@.len() == SEQ_CAP,
            old(out)@.len() == SEQ_CAP,
            n == schedule_bytes(hex@.take(i as int)).len(),
            out@ == schedule_bytes(hex@.take(i as int)) + old(out)@.skip(n as int),
            high is None <==> nibbles(hex@.take(i as int)).len() == 2 * n,
            high is Some ==> nibbles(hex@.take(i as int)).len() == 2 * n + 1 && nibbles(
                hex@.take(i as int),
            )[2 * n] == high->0 && high->0 < 16,
        decreases hex@.len() - i,
    {
        let b = hex[i];
        let ghost before = nibbles(hex@.take(i as int));
        let ghost after = nibbles(hex@.take(i + 1));
        proof {
            assert(hex@.take(i + 1).drop_last() =~= hex@.take(i as int));
            lemma_nibbles_small(hex@.take(i + 1));
        }
        match hex_nibble(b) {
            None => {},
            Some(low) => match high {
                None => {
                    high = Some(low);
                    proof {
                        assert(schedule_bytes(hex@.take(i + 1)) =~= schedule_bytes(
                            hex@.take(i as int),
                        ));
                    }
                },
                Some(h) => {
                    if n >= SEQ_CAP {
                        proof {
                            lemma_nibbles_grow(hex@, i as int);
                            assert(schedule_bytes(hex@.take(i as int)) =~= schedule_bytes(
                                hex@,
                            ).take(SEQ_CAP as int));
                            lemma_nibbles_grow(hex@, i + 1);
                            assert(nibbles(hex@).len() >= 2 * SEQ_CAP + 2);
                        }
                        return n;
                    }
                    let ghost was = out@;
                    out[n] = h * 16 + low;
                    high = None;
                    proof {
                        let old_bytes = schedule_bytes(hex@.take(i as int));
                        let new_bytes = schedule_bytes(hex@.take(i + 1));
                        assert(new_bytes =~= old_bytes.push((16 * h + low) as u8));
                        assert(out@ =~= new_bytes + old(out)@.skip(n + 1));
                    }
                    n += 1;
                },
            },
        }
        i += 1;
    }
    proof {
        assert(hex@.take(i as int) =~= hex@);
        assert(schedule_bytes(hex@).take(n as int) =~= schedule_bytes(hex@));
    }
    n
}

/// Which of the threads that can run is chosen: every one of them by some byte.
pub fn pick_ordinal(byte: u8, runnable_count: usize) -> (r: usize)
    requires
        runnable_count > 0,
    ensures
        r == byte as int % runnable_count as int,
        r < runnable_count,
{
    (byte as usize) % runnable_count
}

/// What is known of a place for a thread.
#[derive(Debug, Clone, Copy, PartialEq, Eq, Structural)]
pub enum Status {
    /// Nobody's.
    Free,
    /// Its thread waits for the baton.
    Runnable,
    /// Its thread holds the baton.
    Running,
    /// Its thread waits for another to end, and is not scheduled.
    Joining,
    /// Its thread has ended.
    Finished,
}

/// What a thread is to run, as addresses; a start of 0 is none.
#[derive(Debug, Clone, Copy, PartialEq, Eq, Structural)]
pub struct Pending {
    pub start: usize,
    pub arg: usize,
}

/// The scheduler's places, baton and schedule.
pub struct SchedState {
    status: [Status; MAX_THREADS],
    tid: [u64; MAX_THREADS],
    join_target: [Option<usize>; MAX_THREADS],
    pending: [Pending; MAX_THREADS],
    running: Option<usize>,
    decision: u64,
    last_granted: Option<usize>,
    seq: [u8; SEQ_CAP],
    seq_len: usize,
    seq_loaded: bool,
}

/// The scheduler as a value: what each place holds, who has the baton, how many decisions
/// were taken, who had the baton last, and the pinned schedule once it was looked for.
#[verifier::ext_equal]
pub struct SchedView {
    pub status: Seq<Status>,
    pub tid: Seq<u64>,
    pub join_target: Seq<Option<usize>>,
    pub pending: Seq<Pending>,
    pub running: Option<usize>,
    pub decision: u64,
    pub last_granted: Option<usize>,
    pub schedule: Option<Seq<u8>>,
}

impl SchedView {
    /// Each place has its entry in every table.
    pub open spec fn shaped(self) -> bool {
        &&& self.status.len() == MAX_THREADS
        &&& self.tid.len() == MAX_THREADS
        &&& self.join_target.len() == MAX_THREADS
        &&& self.pending.len() == MAX_THREADS
    }

    pub open spec fn with_status(self, slot: int, status: Status) -> SchedView {
        SchedView { status: self.status.update(slot, status), ..self }
    }

    /// One baton: who has it is marked as running, and nobody else is.
    pub open spec fn one_baton(self) -> bool {
        &&& self.shaped()
        &&& forall|i: int|
            0 <= i < MAX_THREADS ==> (#[trigger] self.status[i] == Status::Running <==> self.running
                == Some(i as usize))
        &&& self.running is Some ==> self.running->0 < MAX_THREADS
    }
}

impl SchedState {
    pub closed spec fn schedule(&self) -> Option<Seq<u8>> {
        if self.seq_loaded {
            Some(self.seq@.take(self.seq_len as int))
        } else {
            None
        }
    }

    #[verifier::type_invariant]
    spec fn bounded(&self) -> bool {
        self.seq_len <= SEQ_CAP
    }
}

impl View for SchedState {
    type V = SchedView;

    closed spec fn view(&self) -> SchedView {
        SchedView {
            status: self.status@,
            tid: self.tid@,
            join_target: self.join_target@,
            pending: self.pending@,
            running: self.running,
            decision: self.decision,
            last_granted: self.last_granted,
            schedule: self.schedule(),
        }
    }
}

/// A scheduler with no thread, which has not looked for a pinned schedule.
pub open spec fn fresh() -> SchedView {
    cleared(None)
}

/// A scheduler with no thread that keeps the schedule it had.
pub open spec fn cleared(schedule: Option<Seq<u8>>) -> SchedView {
    SchedView {
        status: Seq::new(MAX_THREADS as nat, |i: int| Status::Free),
        tid: Seq::new(MAX_THREADS as nat, |i: int| 0u64),
        join_target: Seq::new(MAX_THREADS as nat, |i: int| None::<usize>),
        pending: Seq::new(MAX_THREADS as nat, |i: int| Pending { start: 0, arg: 0 }),
        running: None,
        decision: 0,
        last_granted: None,
        schedule,
    }
}

impl SchedState {
    pub fn new() -> (r: Self)
        ensures
            r@ == fresh(),
    {
        let r = SchedState {
            status: [Status::Free; MAX_THREADS],
            tid: [0; MAX_THREADS],
            join_target: [None; MAX_THREADS],
            pending: [Pending { start: 0, arg: 0 }; MAX_THREADS],
            running: None,
            decision: 0,
            last_granted: None,
            seq: [0; SEQ_CAP],
            seq_len: 0,
            seq_loaded: false,
        };
        proof {
            assert(r@ =~= fresh());
        }
        r
    }
}

/// The places among the first `n` whose threads wait for the baton, in order.
pub open spec fn runnable_among(status: Seq<Status>, n: nat) -> Seq<usize>
    decreases n,
{
    if n == 0 {
        seq![]
    } else if status[n - 1] == Status::Runnable {
        runnable_among(status, (n - 1) as nat).push((n - 1) as usize)
    } else {
        runnable_among(status, (n - 1) as nat)
    }
}

/// The places whose threads wait for the baton, in order.
pub open spec fn runnable(v: SchedView) -> Seq<usize> {
    runnable_among(v.status, MAX_THREADS as nat)
}

proof fn lemma_runnable_among(status: Seq<Status>, n: nat)
    requires
        n <= MAX_THREADS,
        status.len() == MAX_THREADS,
    ensures
        runnable_among(status, n).len() <= n,
        forall|k: int|
            0 <= k < runnable_among(status, n).len() ==> {
                &&& #[trigger] runnable_among(status, n)[k] < n
                &&& status[runnable_among(status, n)[k] as int] == Status::Runnable
            },
        forall|i: int|
            0 <= i < n && status[i] == Status::Runnable ==> #[trigger] runnable_among(
                status,
                n,
            ).contains(i as usize),
    decreases n,
{
    if n > 0 {
        let before = runnable_among(status, (n - 1) as nat);
        lemma_runnable_among(status, (n - 1) as nat);
        let now = runnable_among(status, n);
        assert forall|i: int| 0 <= i < n && status[i] == Status::Runnable implies #[trigger] now.contains(
            i as usize,
        ) by {
            if i == n - 1 {
                assert(now.last() == i as usize);
            } else {
                assert(before.contains(i as usize));
                let k = choose|k: int| 0 <= k < before.len() && before[k] == i as usize;
                assert(now[k] == i as usize);
            }
        }
    }
}

pub open spec fn next_decision(d: u64) -> u64 {
    if d == u64::MAX {
        0
    } else {
        (d + 1) as u64
    }
}

/// The byte that decides: the pinned schedule's, which starts anew at its end; without
/// one the input's; without that the number of the decision.
pub open spec fn drawn(v: SchedView, input: Option<u8>) -> u8 {
    match v.schedule {
        Some(s) if s.len() > 0 => s[v.decision as int % s.len() as int],
        _ => match input {
            Some(b) => b,
            None => (v.decision % 256) as u8,
        },
    }
}

/// Who is chosen, where somebody can run.
pub open spec fn chosen(v: SchedView, input: Option<u8>) -> usize {
    runnable(v)[drawn(v, input) as int % runnable(v).len() as int]
}

/// The baton goes to the one that is chosen; to nobody where nobody can run.
pub open spec fn granted(v: SchedView, input: Option<u8>) -> SchedView {
    if runnable(v).len() == 0 {
        SchedView { running: None, ..v }
    } else {
        let c = chosen(v, input);
        SchedView {
            status: v.status.update(c as int, Status::Running),
            running: Some(c),
            last_granted: Some(c),
            decision: next_decision(v.decision),
            ..v
        }
    }
}

/// What a grant has to have before it can be made.
#[derive(Debug, Clone, Copy, PartialEq, Eq, Structural)]
pub enum Need {
    Nothing,
    /// The pinned schedule, which has not been looked for.
    Schedule,
    /// The byte of the input under this key.
    Input { key: u64 },
}

pub open spec fn needed(v: SchedView) -> Need {
    if runnable(v).len() == 0 {
        Need::Nothing
    } else {
        match v.schedule {
            None => Need::Schedule,
            Some(s) => if s.len() > 0 {
                Need::Nothing
            } else {
                Need::Input {
                    key: ((SCHED_INPUT_KEY + v.decision) % 0x1_0000_0000_0000_0000) as u64,
                }
            },
        }
    }
}

/// A change of the thread that holds the baton, to be recorded.
#[derive(Debug, Clone, Copy, PartialEq, Eq, Structural)]
pub struct Switch {
    pub slot: usize,
    pub decision: u64,
}

pub open spec fn switched(v: SchedView, input: Option<u8>) -> Option<Switch> {
    if runnable(v).len() == 0 || v.last_granted == Some(chosen(v, input)) {
        None
    } else {
        Some(Switch { slot: chosen(v, input), decision: next_decision(v.decision) })
    }
}

impl SchedState {
    /// The first place with the status, if there is one.
    fn first_with(&self, status: Status) -> (r: Option<usize>)
        ensures
            match r {
                Some(i) => {
                    &&& i < MAX_THREADS
                    &&& self@.status[i as int] == status
                    &&& forall|j: int| 0 <= j < i ==> #[trigger] self@.status[j] != status
                },
                None => forall|j: int|
                    0 <= j < MAX_THREADS ==> #[trigger] self@.status[j] != status,
            },
    {
        let mut i: usize = 0;
        while i < MAX_THREADS
            invariant
                i <= MAX_THREADS,
                forall|j: int| 0 <= j < i ==> #[trigger] self@.status[j] != status,
            decreases MAX_THREADS - i,
        {
            if self.status[i] == status {
                return Some(i);
            }
            i += 1;
        }
        None
    }

    fn candidates(&self) -> (r: Vec<usize>)
        ensures
            r@ == runnable(self@),
            r@.len() <= MAX_THREADS,
            forall|k: int|
                0 <= k < r@.len() ==> (#[trigger] r@[k]) < MAX_THREADS && self@.status[r@[k] as int]
                    == Status::Runnable,
    {
        let mut out: Vec<usize> = Vec::new();
        let mut i: usize = 0;
        while i < MAX_THREADS
            invariant
                i <= MAX_THREADS,
                out@ == runnable_among(self@.status, i as nat),
            decreases MAX_THREADS - i,
        {
            if self.status[i] == Status::Runnable {
                out.push(i);
            }
            i += 1;
        }
        proof {
            lemma_runnable_among(self@.status, MAX_THREADS as nat);
        }
        out
    }

    /// What `grant_next` waits for: nothing where nobody can run or the schedule is
    /// pinned, else the pinned schedule or a byte of the input.
    pub fn need(&self) -> (r: Need)
        ensures
            r == needed(self@),
    {
        proof {
            use_type_invariant(self);
        }
        let candidates = self.candidates();
        if candidates.len() == 0 {
            Need::Nothing
        } else if !self.seq_loaded {
            Need::Schedule
        } else if self.seq_len > 0 {
            Need::Nothing
        } else {
            Need::Input { key: SCHED_INPUT_KEY.wrapping_add(self.decision) }
        }
    }

    /// Takes the pinned schedule, if there is one, the first time it is handed over.
    pub fn load_schedule(&mut self, text: Option<&[u8]>)
        ensures
            final(self)@ == (SchedView {
                schedule: match old(self)@.schedule {
                    Some(s) => Some(s),
                    None => match text {
                        Some(t) => Some(
                            if schedule_bytes(t@).len() <= SEQ_CAP {
                                schedule_bytes(t@)
                            } else {
                                schedule_bytes(t@).take(SEQ_CAP as int)
                            },
                        ),
                        None => Some(seq![]),
                    },
                },
                ..old(self)@
            }),
    {
        proof {
            use_type_invariant(&*self);
        }
        if self.seq_loaded {
            return;
        }
        let mut seq: [u8; SEQ_CAP] = [0; SEQ_CAP];
        let mut len: usize = 0;
        if let Some(t) = text {
            len = parse_hex_seq(t, &mut seq);
            proof {
                assert(seq@.take(len as int) =~= schedule_bytes(t@).take(len as int));
                if schedule_bytes(t@).len() <= SEQ_CAP {
                    assert(schedule_bytes(t@).take(len as int) =~= schedule_bytes(t@));
                }
            }
        } else {
            proof {
                assert(seq@.take(0) =~= seq![]);
            }
        }
        *self = SchedState {
            status: self.status,
            tid: self.tid,
            join_target: self.join_target,
            pending: self.pending,
            running: self.running,
            decision: self.decision,
            last_granted: self.last_granted,
            seq,
            seq_len: len,
            seq_loaded: true,
        };
    }

    /// The next byte of the schedule; the decision is counted.
    pub fn schedule_byte(&mut self, input: Option<u8>) -> (r: u8)
        requires
            old(self)@.schedule is Some,
        ensures
            r == drawn(old(self)@, input),
            final(self)@ == (SchedView {
                decision: next_decision(old(self)@.decision),
                ..old(self)@
            }),
    {
        proof {
            use_type_invariant(&*self);
        }
        let i: u64 = self.decision;
        self.decision = self.decision.wrapping_add(1);
        if self.seq_len > 0 {
            let at: usize = (i % (self.seq_len as u64)) as usize;
            return self.seq[at];
        }
        match input {
            Some(b) => b,
            None => (i % 256) as u8,
        }
    }

    /// Hands the baton to the next thread, chosen by the schedule, and reports a change
    /// of thread.
    pub fn grant_next(&mut self, input: Option<u8>) -> (r: Option<Switch>)
        requires
            needed(old(self)@) != Need::Schedule,
        ensures
            final(self)@ == granted(old(self)@, input),
            r == switched(old(self)@, input),
    {
        proof {
            use_type_invariant(&*self);
        }
        let candidates = self.candidates();
        if candidates.len() == 0 {
            self.running = None;
            return None;
        }
        let byte: u8 = self.schedule_byte(input);
        let chosen_slot: usize = candidates[pick_ordinal(byte, candidates.len())];
        proof {
            use_type_invariant(&*self);
        }
        self.status[chosen_slot] = Status::Running;
        self.running = Some(chosen_slot);
        let changed = match self.last_granted {
            Some(last) => last != chosen_slot,
            None => true,
        };
        if changed {
            self.last_granted = Some(chosen_slot);
            Some(Switch { slot: chosen_slot, decision: self.decision })
        } else {
            None
        }
    }
}

/// The first place from `from` on with the status.
pub open spec fn first_from(status: Seq<Status>, wanted: Status, from: int) -> Option<usize>
    decreases status.len() - from,
{
    if from >= status.len() {
        None
    } else if status[from] == wanted {
        Some(from as usize)
    } else {
        first_from(status, wanted, from + 1)
    }
}

/// The first place with the status.
pub open spec fn first(status: Seq<Status>, wanted: Status) -> Option<usize> {
    first_from(status, wanted, 0)
}

/// Whether `place` is the first with the status, or none where no place has it.
pub open spec fn is_first(status: Seq<Status>, wanted: Status, place: Option<usize>) -> bool {
    match place {
        Some(i) => {
            &&& i < status.len()
            &&& status[i as int] == wanted
            &&& forall|j: int| 0 <= j < i ==> #[trigger] status[j] != wanted
        },
        None => forall|j: int| 0 <= j < status.len() ==> #[trigger] status[j] != wanted,
    }
}

proof fn lemma_first_from(status: Seq<Status>, wanted: Status, from: int, place: Option<usize>)
    requires
        status.len() == MAX_THREADS,
        0 <= from <= MAX_THREADS,
        is_first(status, wanted, place),
        forall|j: int| 0 <= j < from ==> #[trigger] status[j] != wanted,
    ensures
        first_from(status, wanted, from) == place,
    decreases MAX_THREADS - from,
{
    if from < MAX_THREADS && status[from] != wanted {
        lemma_first_from(status, wanted, from + 1, place);
    } else if from < MAX_THREADS {
        assert(place is Some);
        assert(place->0 == from as usize);
    } else if place is Some {
        assert(status[place->0 as int] != wanted);
    }
}

/// The place of a thread with the identity, the first where there are several.
pub open spec fn place_of(v: SchedView, tid: u64, n: nat) -> Option<usize>
    decreases n,
{
    if n == 0 {
        None
    } else {
        match place_of(v, tid, (n - 1) as nat) {
            Some(i) => Some(i),
            None => if v.status[n - 1] != Status::Free && v.tid[n - 1] == tid {
                Some((n - 1) as usize)
            } else {
                None
            },
        }
    }
}

/// A thread that reaches a scheduling point: it has a place already, or it takes the
/// first free one and the baton with it, where nobody holds the baton.
pub open spec fn registered(v: SchedView, slot: Option<usize>, tid: u64) -> (
    SchedView,
    Option<usize>,
) {
    if slot is Some {
        (v, slot)
    } else if v.running is Some {
        (v, None)
    } else {
        match first(v.status, Status::Free) {
            None => (v, None),
            Some(i) => (
                SchedView {
                    status: v.status.update(i as int, Status::Running),
                    tid: v.tid.update(i as int, tid),
                    running: Some(i),
                    ..v
                },
                Some(i),
            ),
        }
    }
}

/// A place is kept for a thread that is about to be made.
pub open spec fn reserved(v: SchedView, pending: Pending) -> (SchedView, Option<usize>) {
    match first(v.status, Status::Free) {
        None => (v, None),
        Some(i) => (
            SchedView {
                status: v.status.update(i as int, Status::Runnable),
                pending: v.pending.update(i as int, pending),
                join_target: v.join_target.update(i as int, None),
                ..v
            },
            Some(i),
        ),
    }
}

/// The thread of a place has ended: those that waited for it can run.
pub open spec fn ended(v: SchedView, slot: usize) -> SchedView {
    SchedView {
        status: Seq::new(
            v.status.len(),
            |t: int|
                if t == slot {
                    Status::Finished
                } else if v.status[t] == Status::Joining && v.join_target[t] == Some(slot) {
                    Status::Runnable
                } else {
                    v.status[t]
                },
        ),
        ..v
    }
}

/// A thread waits for another to end.
pub open spec fn joining(v: SchedView, me: usize, target: usize) -> SchedView {
    SchedView {
        status: v.status.update(me as int, Status::Joining),
        join_target: v.join_target.update(me as int, Some(target)),
        ..v
    }
}

/// A thread takes the baton, whoever holds it.
pub open spec fn forced(v: SchedView, me: usize) -> SchedView {
    SchedView { status: v.status.update(me as int, Status::Running), running: Some(me), ..v }
}

/// What a thread at a gate does.
#[derive(Debug, Clone, Copy, PartialEq, Eq, Structural)]
pub enum Gate {
    /// It has the baton.
    Pass,
    /// It waits.
    Wait,
    /// It waited too long and goes on; the timeout is recorded.
    Force,
}

/// What a thread that joins another does.
#[derive(Debug, Clone, Copy, PartialEq, Eq, Structural)]
pub enum JoinStep {
    /// It hands the baton on and waits for it.
    HandOn,
    /// It joins by the system's own means.
    Join,
}

/// Whether a join is left to the system: the other has ended, the wait was cut short, or
/// the thread has waited too often.
pub open spec fn join_is_over(v: SchedView, target: usize, steps: nat, granted: bool) -> bool {
    ||| v.status[target as int] == Status::Finished
    ||| steps > 0 && (!granted || steps > MAX_THREADS * 4)
}

impl SchedState {
    /// The first free place, if there is one.
    pub fn find_free(&self) -> (r: Option<usize>)
        ensures
            r == first(self@.status, Status::Free),
            is_first(self@.status, Status::Free, r),
            r is Some ==> r->0 < MAX_THREADS,
    {
        let r = self.first_with(Status::Free);
        proof {
            lemma_first_from(self@.status, Status::Free, 0, r);
        }
        r
    }

    /// Gives the calling thread a place if it has none and nobody holds the baton; the
    /// place it then has is returned. A thread that the scheduler did not start is not
    /// managed while another holds the baton.
    pub fn ensure_registered(&mut self, slot: Option<usize>, tid: u64) -> (r: Option<usize>)
        ensures
            final(self)@ == registered(old(self)@, slot, tid).0,
            r == registered(old(self)@, slot, tid).1,
            slot is None && old(self)@.running is None ==> is_first(
                old(self)@.status,
                Status::Free,
                r,
            ),
    {
        if slot.is_some() {
            return slot;
        }
        if self.running.is_some() {
            return None;
        }
        proof {
            use_type_invariant(&*self);
        }
        match self.find_free() {
            None => None,
            Some(i) => {
                self.status[i] = Status::Running;
                self.running = Some(i);
                self.tid[i] = tid;
                Some(i)
            },
        }
    }

    /// Keeps a place for a thread that is about to be made; `None` where all are taken,
    /// and the thread is then not managed.
    pub fn reserve(&mut self, start: usize, arg: usize) -> (r: Option<usize>)
        ensures
            final(self)@ == reserved(old(self)@, Pending { start, arg }).0,
            r == reserved(old(self)@, Pending { start, arg }).1,
            is_first(old(self)@.status, Status::Free, r),
            r is Some ==> r->0 < MAX_THREADS,
    {
        proof {
            use_type_invariant(&*self);
        }
        match self.find_free() {
            None => None,
            Some(i) => {
                self.status[i] = Status::Runnable;
                self.pending[i] = Pending { start, arg };
                self.join_target[i] = None;
                Some(i)
            },
        }
    }

    /// The thread of a kept place was made.
    pub fn created(&mut self, slot: usize, tid: u64)
        requires
            slot < MAX_THREADS,
        ensures
            final(self)@ == (SchedView {
                tid: old(self)@.tid.update(slot as int, tid),
                ..old(self)@
            }),
    {
        proof {
            use_type_invariant(&*self);
        }
        self.tid[slot] = tid;
    }

    /// The thread of a kept place could not be made: the place is free again.
    pub fn creation_failed(&mut self, slot: usize)
        requires
            slot < MAX_THREADS,
        ensures
            final(self)@ == (SchedView {
                status: old(self)@.status.update(slot as int, Status::Free),
                pending: old(self)@.pending.update(slot as int, Pending { start: 0, arg: 0 }),
                ..old(self)@
            }),
    {
        proof {
            use_type_invariant(&*self);
        }
        self.status[slot] = Status::Free;
        self.pending[slot] = Pending { start: 0, arg: 0 };
    }

    /// What the thread of a place is to run.
    pub fn pending(&self, slot: usize) -> (r: Pending)
        requires
            slot < MAX_THREADS,
        ensures
            r == self@.pending[slot as int],
    {
        self.pending[slot]
    }

    /// Who holds the baton.
    pub fn running(&self) -> (r: Option<usize>)
        ensures
            r == self@.running,
    {
        self.running
    }

    /// The status of a place.
    pub fn status(&self, slot: usize) -> (r: Status)
        requires
            slot < MAX_THREADS,
        ensures
            r == self@.status[slot as int],
    {
        self.status[slot]
    }

    /// The place of the thread with the identity, if it is managed.
    pub fn place_of_thread(&self, tid: u64) -> (r: Option<usize>)
        ensures
            r == place_of(self@, tid, MAX_THREADS as nat),
            r is Some ==> r->0 < MAX_THREADS,
    {
        let mut i: usize = 0;
        let mut found: Option<usize> = None;
        while i < MAX_THREADS
            invariant
                i <= MAX_THREADS,
                found == place_of(self@, tid, i as nat),
                found is Some ==> found->0 < MAX_THREADS,
            decreases MAX_THREADS - i,
        {
            if found.is_none() && self.status[i] != Status::Free && self.tid[i] == tid {
                found = Some(i);
            }
            i += 1;
        }
        found
    }

    /// A scheduling point: the thread can run but gives the baton away. `grant_next`
    /// follows.
    pub fn yield_baton(&mut self, me: usize)
        requires
            me < MAX_THREADS,
        ensures
            final(self)@ == old(self)@.with_status(me as int, Status::Runnable),
    {
        proof {
            use_type_invariant(&*self);
        }
        self.status[me] = Status::Runnable;
    }

    /// A thread at a gate: it passes with the baton, and takes it where it has waited too
    /// long.
    pub fn at_gate(&mut self, me: usize, waited_too_long: bool) -> (r: Gate)
        requires
            me < MAX_THREADS,
        ensures
            r == if old(self)@.running == Some(me) {
                Gate::Pass
            } else if waited_too_long {
                Gate::Force
            } else {
                Gate::Wait
            },
            final(self)@ == if r == Gate::Force {
                forced(old(self)@, me)
            } else {
                old(self)@
            },
    {
        if let Some(holder) = self.running {
            if holder == me {
                return Gate::Pass;
            }
        }
        if waited_too_long {
            proof {
                use_type_invariant(&*self);
            }
            self.status[me] = Status::Running;
            self.running = Some(me);
            Gate::Force
        } else {
            Gate::Wait
        }
    }

    /// The thread of a place has ended: those that waited for it can run. `grant_next`
    /// follows.
    pub fn exit(&mut self, slot: usize)
        requires
            slot < MAX_THREADS,
        ensures
            final(self)@ == ended(old(self)@, slot),
    {
        proof {
            use_type_invariant(&*self);
        }
        self.status[slot] = Status::Finished;
        let ghost start = old(self)@.status.update(slot as int, Status::Finished);
        let ghost before = *old(self);
        let mut t: usize = 0;
        while t < MAX_THREADS
            invariant
                t <= MAX_THREADS,
                slot < MAX_THREADS,
                before.bounded(),
                self.bounded(),
                start == before@.status.update(slot as int, Status::Finished),
                start.len() == MAX_THREADS,
                before@.status.len() == MAX_THREADS,
                self@ == (SchedView {
                    status: Seq::new(
                        MAX_THREADS as nat,
                        |k: int|
                            if k < t {
                                ended(before@, slot).status[k]
                            } else {
                                start[k]
                            },
                    ),
                    ..before@
                }),
            decreases MAX_THREADS - t,
        {
            let waits = match self.join_target[t] {
                Some(target) => target == slot,
                None => false,
            };
            if self.status[t] == Status::Joining && waits {
                self.status[t] = Status::Runnable;
            }
            proof {
                assert(self@.status =~= Seq::new(
                    MAX_THREADS as nat,
                    |k: int|
                        if k < t + 1 {
                            ended(before@, slot).status[k]
                        } else {
                            start[k]
                        },
                ));
            }
            t += 1;
        }
        proof {
            assert(self@.status =~= ended(old(self)@, slot).status);
        }
    }

    /// A step of a join, the first with no step taken: the thread hands the baton on as
    /// one that waits, or leaves the join to the system.
    pub fn join_step(&mut self, me: usize, target: usize, steps: usize, granted: bool) -> (r:
        JoinStep)
        requires
            me < MAX_THREADS,
            target < MAX_THREADS,
        ensures
            r == if join_is_over(old(self)@, target, steps as nat, granted) {
                JoinStep::Join
            } else {
                JoinStep::HandOn
            },
            final(self)@ == if r == JoinStep::Join {
                SchedView {
                    join_target: old(self)@.join_target.update(me as int, None),
                    ..old(self)@
                }
            } else {
                joining(old(self)@, me, target)
            },
    {
        proof {
            use_type_invariant(&*self);
        }
        if self.status[target] == Status::Finished || steps > 0 && (!granted || steps > MAX_THREADS
            * 4) {
            self.join_target[me] = None;
            JoinStep::Join
        } else {
            self.status[me] = Status::Joining;
            self.join_target[me] = Some(target);
            JoinStep::HandOn
        }
    }

    /// Forgets every thread at the start of a new input; the pinned schedule stays.
    pub fn reset_for_input(&mut self)
        ensures
            final(self)@ == cleared(old(self)@.schedule),
    {
        proof {
            use_type_invariant(&*self);
        }
        *self = SchedState {
            status: [Status::Free; MAX_THREADS],
            tid: [0; MAX_THREADS],
            join_target: [None; MAX_THREADS],
            pending: [Pending { start: 0, arg: 0 }; MAX_THREADS],
            running: None,
            decision: 0,
            last_granted: None,
            seq: self.seq,
            seq_len: self.seq_len,
            seq_loaded: self.seq_loaded,
        };
        proof {
            assert(self@ =~= cleared(old(self)@.schedule));
        }
    }
}

proof fn lemma_first(status: Seq<Status>, wanted: Status, from: int)
    requires
        status.len() == MAX_THREADS,
        0 <= from <= MAX_THREADS,
    ensures
        first_from(status, wanted, from) matches Some(i) ==> i < MAX_THREADS && status[i as int]
            == wanted,
    decreases MAX_THREADS - from,
{
    if from < MAX_THREADS {
        lemma_first(status, wanted, from + 1);
    }
}

proof fn lemma_chosen(v: SchedView, input: Option<u8>)
    requires
        v.shaped(),
        runnable(v).len() > 0,
    ensures
        chosen(v, input) < MAX_THREADS,
        v.status[chosen(v, input) as int] == Status::Runnable,
{
    lemma_runnable_among(v.status, MAX_THREADS as nat);
    let k = drawn(v, input) as int % runnable(v).len() as int;
    assert(0 <= k < runnable(v).len());
    assert(runnable(v)[k] == chosen(v, input));
}

/// The baton goes to a thread that waits for it; where some thread does, somebody has the
/// baton afterwards.
pub proof fn the_baton_goes_to_a_waiting_thread(v: SchedView, input: Option<u8>)
    requires
        v.shaped(),
    ensures
        granted(v, input).shaped(),
        match granted(v, input).running {
            Some(c) => c < MAX_THREADS && v.status[c as int] == Status::Runnable,
            None => forall|i: int|
                0 <= i < MAX_THREADS ==> #[trigger] v.status[i] != Status::Runnable,
        },
{
    lemma_runnable_among(v.status, MAX_THREADS as nat);
    if runnable(v).len() > 0 {
        lemma_chosen(v, input);
    } else {
        assert forall|i: int| 0 <= i < MAX_THREADS implies #[trigger] v.status[i]
            != Status::Runnable by {
            if v.status[i] == Status::Runnable {
                assert(runnable(v).contains(i as usize));
            }
        }
    }
}

/// A scheduler starts, and starts anew, with one baton, which nobody holds.
pub proof fn a_cleared_scheduler_has_one_baton(schedule: Option<Seq<u8>>)
    ensures
        cleared(schedule).one_baton(),
        cleared(schedule).running is None,
{
}

/// There is one baton after a thread was given a place, after a place was kept for a new
/// one, and after such a thread was made or could not be made.
pub proof fn registering_keeps_one_baton(
    v: SchedView,
    slot: Option<usize>,
    tid: u64,
    pending: Pending,
)
    requires
        v.one_baton(),
    ensures
        registered(v, slot, tid).0.one_baton(),
        reserved(v, pending).0.one_baton(),
        reserved(v, pending).1 is Some ==> {
            let kept = reserved(v, pending).0;
            let at = reserved(v, pending).1->0 as int;
            &&& v.status[at] == Status::Free
            &&& kept.status[at] == Status::Runnable
            &&& kept.with_status(at, Status::Free).one_baton()
        },
{
    lemma_first(v.status, Status::Free, 0);
}

/// There is one baton after its holder gave it away: at a scheduling point, where somebody
/// then holds it; to wait for another thread; or at its end.
pub proof fn handing_on_keeps_one_baton(
    v: SchedView,
    me: usize,
    target: usize,
    input: Option<u8>,
)
    requires
        v.one_baton(),
        v.running == Some(me),
    ensures
        granted(v.with_status(me as int, Status::Runnable), input).one_baton(),
        granted(v.with_status(me as int, Status::Runnable), input).running is Some,
        granted(joining(v, me, target), input).one_baton(),
        granted(ended(v, me), input).one_baton(),
{
    let yielded = v.with_status(me as int, Status::Runnable);
    let waiting = joining(v, me, target);
    let left = ended(v, me);
    the_baton_goes_to_a_waiting_thread(yielded, input);
    the_baton_goes_to_a_waiting_thread(waiting, input);
    the_baton_goes_to_a_waiting_thread(left, input);
    assert(yielded.status[me as int] == Status::Runnable);
}

/// A thread that waits for another to end does so whatever baton is handed on; it can run
/// again when a thread ends, and then only if that is the one it waits for.
pub proof fn a_joiner_waits_for_its_joinee(
    v: SchedView,
    joiner: usize,
    ending: usize,
    input: Option<u8>,
)
    requires
        v.shaped(),
        joiner < MAX_THREADS,
        ending != joiner,
        v.status[joiner as int] == Status::Joining,
    ensures
        granted(v, input).status[joiner as int] == Status::Joining,
        ended(v, ending).status[joiner as int] == if v.join_target[joiner as int] == Some(ending) {
            Status::Runnable
        } else {
            Status::Joining
        },
{
    the_baton_goes_to_a_waiting_thread(v, input);
    if runnable(v).len() > 0 {
        lemma_chosen(v, input);
    }
}

/// Every thread that waits for the baton can be given it by some byte of the input, where
/// no schedule is pinned.
pub proof fn every_waiting_thread_can_be_chosen(v: SchedView, slot: usize)
    requires
        v.shaped(),
        slot < MAX_THREADS,
        v.status[slot as int] == Status::Runnable,
        v.schedule == Some(Seq::<u8>::empty()),
    ensures
        exists|byte: u8| #[trigger] granted(v, Some(byte)).running == Some(slot),
{
    lemma_runnable_among(v.status, MAX_THREADS as nat);
    let at = slot as int;
    assert(runnable(v).contains(at as usize));
    let k = choose|k: int| 0 <= k < runnable(v).len() && runnable(v)[k] == slot;
    let byte = k as u8;
    assert(drawn(v, Some(byte)) == byte);
    assert(byte as int % runnable(v).len() as int == k) by (nonlinear_arith)
        requires
            byte as int == k,
            0 <= k < runnable(v).len(),
    ;
    assert(granted(v, Some(byte)).running == Some(slot));
}

/// A hexadecimal digit as it is written.
pub open spec fn digit_byte(n: int) -> u8 {
    if n < 10 {
        (0x30 + n) as u8
    } else {
        (0x61 + n - 10) as u8
    }
}

/// A schedule as two hexadecimal digits for each byte.
pub open spec fn written_schedule(bytes: Seq<u8>) -> Seq<u8>
    decreases bytes.len(),
{
    if bytes.len() == 0 {
        Seq::empty()
    } else {
        written_schedule(bytes.drop_last()) + seq![
            digit_byte(bytes.last() as int / 16),
            digit_byte(bytes.last() as int % 16),
        ]
    }
}

proof fn lemma_nibbles_join(a: Seq<u8>, b: Seq<u8>)
    ensures
        nibbles(a + b) == nibbles(a) + nibbles(b),
    decreases b.len(),
{
    if b.len() == 0 {
        assert(a + b =~= a);
        assert(nibbles(a) + Seq::<u8>::empty() =~= nibbles(a));
    } else {
        assert((a + b).drop_last() =~= a + b.drop_last());
        lemma_nibbles_join(a, b.drop_last());
        if let Some(n) = nibble(b.last()) {
            assert((nibbles(a) + nibbles(b.drop_last())).push(n) =~= nibbles(a) + nibbles(
                b.drop_last(),
            ).push(n));
        }
    }
}

/// A schedule that is written down is read back.
pub proof fn a_written_schedule_is_read_back(bytes: Seq<u8>)
    ensures
        nibbles(written_schedule(bytes)).len() == 2 * bytes.len(),
        schedule_bytes(written_schedule(bytes)) == bytes,
    decreases bytes.len(),
{
    if bytes.len() > 0 {
        let front = bytes.drop_last();
        let last = bytes.last() as int;
        let pair = seq![digit_byte(last / 16), digit_byte(last % 16)];
        a_written_schedule_is_read_back(front);
        lemma_nibbles_join(written_schedule(front), pair);
        reveal_with_fuel(nibbles, 3);
        assert(pair.drop_last().drop_last() =~= Seq::empty());
        assert(nibbles(pair) =~= seq![(last / 16) as u8, (last % 16) as u8]);
        let n = nibbles(written_schedule(bytes));
        let m = nibbles(written_schedule(front));
        assert forall|i: int| 0 <= i < bytes.len() implies (16 * n[2 * i] + n[2 * i + 1]) as u8
            == bytes[i] by {
            if i < front.len() {
                assert(n[2 * i] == m[2 * i] && n[2 * i + 1] == m[2 * i + 1]);
                assert(schedule_bytes(written_schedule(front))[i] == front[i]);
            } else {
                assert(n[2 * i] == last / 16 && n[2 * i + 1] == last % 16);
            }
        }
        assert(schedule_bytes(written_schedule(bytes)) =~= bytes);
    } else {
        assert(schedule_bytes(written_schedule(bytes)) =~= bytes);
    }
}

/// What is no hexadecimal digit can stand anywhere in a schedule and changes nothing.
pub proof fn separators_do_not_matter(a: Seq<u8>, between: Seq<u8>, b: Seq<u8>)
    requires
        forall|i: int| 0 <= i < between.len() ==> nibble(#[trigger] between[i]) is None,
    ensures
        schedule_bytes(a + between + b) == schedule_bytes(a + b),
    decreases between.len(),
{
    if between.len() == 0 {
        assert(a + between =~= a);
    } else {
        let front = between.drop_last();
        assert forall|i: int| 0 <= i < front.len() implies nibble(#[trigger] front[i]) is None by {
            assert(front[i] == between[i]);
        }
        separators_do_not_matter(a, front, b);
        assert(between.last() == between[between.len() - 1]);
        assert((a + between).drop_last() =~= a + front);
        lemma_nibbles_join(a + between, b);
        lemma_nibbles_join(a + front, b);
    }
}

/// Under a pinned schedule the choice does not depend on the input.
pub proof fn a_pinned_schedule_is_followed(v: SchedView, one: Option<u8>, other: Option<u8>)
    requires
        v.schedule is Some,
        v.schedule->0.len() > 0,
    ensures
        granted(v, one) == granted(v, other),
        drawn(v, one) == v.schedule->0[v.decision as int % v.schedule->0.len() as int],
{
}

/// How a call of the system's thread functions is answered.
#[derive(Debug, Clone, Copy, PartialEq, Eq, Structural)]
pub enum Route {
    /// It fails: there is no other function to call.
    Fail,
    /// It is passed on as it is.
    PassOn,
    /// The scheduler takes part in it.
    Manage,
}

/// How a call is answered: `resolved` where there is a function behind this one, and
/// `reentered` where the calling thread is in the scheduler already.
pub fn route(active: bool, resolved: bool, reentered: bool) -> (r: Route)
    ensures
        r == if !resolved {
            Route::Fail
        } else if !active || reentered {
            Route::PassOn
        } else {
            Route::Manage
        },
{
    if !resolved {
        Route::Fail
    } else if !active || reentered {
        Route::PassOn
    } else {
        Route::Manage
    }
}

/// Whether the variable that turns the scheduler on does so: it reads `1`.
pub fn turned_on(value: Option<&[u8]>) -> (r: bool)
    ensures
        r == match value {
            Some(v) => v@ == seq![0x31u8],
            None => false,
        },
{
    match value {
        None => false,
        Some(v) => {
            let r = v.len() == 1 && v[0] == 0x31;
            proof {
                if r {
                    assert(v@ =~= seq![0x31u8]);
                }
            }
            r
        },
    }
}

/// The scheduler, as an entry of a listing.
pub struct Sched;

impl Sched {
    pub fn name(&self) -> (r: &'static str)
        ensures
            r@ == "sched"@,
    {
        "sched"
    }

    /// The functions whose calls are answered.
    pub fn intercepts(&self) -> (r: Vec<&'static str>)
        ensures
            r@ == seq!["pthread_create", "pthread_join", "bhf_sched_yield"],
    {
        vec!["pthread_create", "pthread_join", "bhf_sched_yield"]
    }

    /// Whether the variable that turns the scheduler on does so.
    pub fn is_enabled(&self, value: Option<&[u8]>) -> (r: bool)
        ensures
            r == match value {
                Some(v) => v@ == seq![0x31u8],
                None => false,
            },
    {
        turned_on(value)
    }

    pub fn describe(&self) -> (r: &'static str)
        ensures
            r@
                == "cooperative schedule-perturbation: drive thread interleavings from the fuzz input (or a pinned BHF_SCHED_SEQUENCE) via pthread_create/join gates and bhf_sched_yield, so a race reachable only under one ordering is searchable and replayable"@,
    {
        "cooperative schedule-perturbation: drive thread interleavings from the fuzz input (or a pinned BHF_SCHED_SEQUENCE) via pthread_create/join gates and bhf_sched_yield, so a race reachable only under one ordering is searchable and replayable"
    }
}

} // verus!

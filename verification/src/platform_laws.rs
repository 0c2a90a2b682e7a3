//! How threads are scheduled, how a faked kernel answers, and what a protocol's graph is.

use vstd::prelude::*;
use vstd::string::*;

use crate::adapter::{
    edges_of, leaving, text_rows, EdgeView, ProtocolStateGraph, StateId, StateMachine,
    TransitionView,
};
use crate::rtos::{
    bus_can_deliver, bus_receive, counts_attempts, delivery, message_queue_create,
    message_queue_receive, message_queue_send, mmio_mapped, page_size_of, pipe_create,
    queue_receive, queue_send, release, semaphore_create, semaphore_take, with_queue, Errno,
    HandleReply, MmioStep, Mode, Reply,
};
use crate::sched::{
    cleared, drawn, ended, forced, granted, join_is_over, joining, needed, next_decision, place_of,
    registered, reserved, route, runnable, runnable_among, switched, turned_on, Need, Pending,
    Route, SchedView, Status, MAX_THREADS, SCHED_INPUT_KEY,
};
use crate::text::{contains, texts};

verus! {

/// The threads that can be chosen are those that wait for the baton, each once and in the
/// order of their places.
pub proof fn all_waiting_threads_can_be_chosen(status: Seq<Status>, n: nat)
    requires
        n <= status.len(),
        n <= usize::MAX,
    ensures
        ({
            let r = runnable_among(status, n);
            &&& r.len() <= n
            &&& forall|k: int|
                0 <= k < r.len() ==> (#[trigger] r[k]) < n && status[r[k] as int]
                    == Status::Runnable
            &&& forall|i: int, j: int|
                0 <= i < j < r.len() ==> #[trigger] r[i] < #[trigger] r[j]
            &&& forall|s: usize|
                s < n && #[trigger] status[s as int] == Status::Runnable ==> r.contains(s)
        }),
    decreases n,
{
    if n > 0 {
        let m = (n - 1) as nat;
        all_waiting_threads_can_be_chosen(status, m);
        let before = runnable_among(status, m);
        let r = runnable_among(status, n);
        assert forall|s: usize| s < n && #[trigger] status[s as int] == Status::Runnable implies r.contains(
            s,
        ) by {
            if s < m {
                let k = choose|k: int| 0 <= k < before.len() && before[k] == s;
                assert(r[k] == s);
            } else {
                assert(r[before.len() as int] == s);
            }
        }
    }
}

/// What decides is the pinned schedule, byte after byte and from its start again at its end;
/// without one the input; and without either the number of the decision, so that the threads
/// take turns.
pub proof fn decisions_come_from_schedule_input_or_turn(
    v: SchedView,
    byte: u8,
    input: Option<u8>,
)
    ensures
        v.schedule is None || v.schedule->0.len() == 0 ==> drawn(v, Some(byte)) == byte,
        v.schedule is None || v.schedule->0.len() == 0 ==> drawn(v, None) == v.decision % 256,
        v.schedule matches Some(s) ==> (s.len() > 0 && v.decision < s.len() ==> drawn(v, input)
            == s[v.decision as int]),
        v.schedule matches Some(s) ==> (s.len() > 0 && s.len() <= v.decision ==> drawn(v, input)
            == drawn(
            SchedView { decision: (v.decision - s.len()) as u64, ..v },
            input,
        )),
        v.decision < u64::MAX ==> next_decision(v.decision) == v.decision + 1,
{
    if let Some(s) = v.schedule {
        if s.len() > 0 {
            let d = v.decision as int;
            let n = s.len() as int;
            if d < n {
                vstd::arithmetic::div_mod::lemma_small_mod(v.decision as nat, s.len());
            } else {
                vstd::arithmetic::div_mod::lemma_mod_sub_multiples_vanish(d, n);
                assert(((d - n) as u64) as int == d - n);
            }
        }
    }
}

/// Handing the baton on changes nothing but who has it: the chosen thread runs, it is the
/// last that was chosen, the decision is counted, and every other thread stays as it was.
pub proof fn only_the_chosen_thread_changes(v: SchedView, input: Option<u8>, other: int)
    requires
        v.shaped(),
    ensures
        ({
            let n = granted(v, input);
            &&& n.tid == v.tid && n.join_target == v.join_target && n.pending == v.pending
                && n.schedule == v.schedule
            &&& match n.running {
                Some(c) => {
                    &&& c < 16
                    &&& n.status[c as int] == Status::Running
                    &&& n.last_granted == Some(c)
                    &&& v.decision < u64::MAX ==> n.decision == v.decision + 1
                    &&& 0 <= other < 16 && other != c ==> n.status[other] == v.status[other]
                    &&& switched(v, input) is Some <==> v.last_granted != Some(c)
                    &&& switched(v, input) matches Some(s) ==> s.slot == c && s.decision
                        == n.decision
                },
                None => n.status == v.status && n.decision == v.decision && n.last_granted
                    == v.last_granted && switched(v, input) is None,
            }
        }),
{
    all_waiting_threads_can_be_chosen(v.status, MAX_THREADS as nat);
    let r = runnable(v);
    if r.len() > 0 {
        let k = drawn(v, input) as int % r.len() as int;
        assert(0 <= k < r.len());
        assert(r[k] < MAX_THREADS);
    }
}

/// A byte is asked for only where somebody can run and no schedule is pinned, and each
/// decision asks for a byte of its own.
pub proof fn each_decision_asks_for_its_own_byte(v: SchedView, w: SchedView)
    requires
        v.schedule == Some(Seq::<u8>::empty()),
        w.schedule == Some(Seq::<u8>::empty()),
        runnable(v).len() > 0,
        runnable(w).len() > 0,
    ensures
        needed(v) is Input,
        needed(v) == needed(w) <==> v.decision == w.decision,
        needed(SchedView { schedule: None, ..v }) == Need::Schedule,
        forall|s: Seq<u8>| s.len() > 0 ==> #[trigger] needed(
            SchedView { schedule: Some(s), ..v },
        ) == Need::Nothing,
{
    let a = (SCHED_INPUT_KEY + v.decision) % 0x1_0000_0000_0000_0000;
    let b = (SCHED_INPUT_KEY + w.decision) % 0x1_0000_0000_0000_0000;
    if a == b {
        assert(v.decision == w.decision) by {
            let m = 0x1_0000_0000_0000_0000int;
            let x = SCHED_INPUT_KEY + v.decision;
            let y = SCHED_INPUT_KEY + w.decision;
            vstd::arithmetic::div_mod::lemma_fundamental_div_mod(x, m);
            vstd::arithmetic::div_mod::lemma_fundamental_div_mod(y, m);
            assert(x - y == m * (x / m) - m * (y / m));
            assert(0 <= x / m <= 1 && 0 <= y / m <= 1);
        }
    }
    assert forall|s: Seq<u8>| s.len() > 0 implies #[trigger] needed(
        SchedView { schedule: Some(s), ..v },
    ) == Need::Nothing by {
        assert(runnable(SchedView { schedule: Some(s), ..v }) == runnable(v));
    }
    assert(runnable(SchedView { schedule: None, ..v }) == runnable(v));
}

/// The first thread to be seen takes the baton and a free place under its own name; one that
/// has a place keeps it, and none is given a place while another has the baton.
pub proof fn threads_are_given_places(v: SchedView, slot: Option<usize>, tid: u64)
    requires
        v.shaped(),
    ensures
        ({
            let (n, at) = registered(v, slot, tid);
            &&& slot is Some ==> n == v && at == slot
            &&& slot is None && v.running is Some ==> n == v && at is None
            &&& slot is None && v.running is None ==> match at {
                Some(i) => {
                    &&& i < 16
                    &&& v.status[i as int] == Status::Free
                    &&& n.status[i as int] == Status::Running
                    &&& n.tid[i as int] == tid
                    &&& n.running == Some(i)
                    &&& forall|k: int|
                        0 <= k < 16 && k != i ==> #[trigger] n.status[k] == v.status[k]
                },
                None => n == v && forall|k: int|
                    0 <= k < 16 ==> #[trigger] v.status[k] != Status::Free,
            }
        }),
{
    lemma_first(v.status, Status::Free, 0);
}

proof fn lemma_first(status: Seq<Status>, wanted: Status, from: int)
    requires
        0 <= from <= status.len(),
        status.len() <= usize::MAX,
    ensures
        match crate::sched::first_from(status, wanted, from) {
            Some(i) => from <= i < status.len() && status[i as int] == wanted && forall|j: int|
                from <= j < i ==> #[trigger] status[j] != wanted,
            None => forall|j: int| from <= j < status.len() ==> #[trigger] status[j] != wanted,
        },
    decreases status.len() - from,
{
    if from < status.len() && status[from] != wanted {
        lemma_first(status, wanted, from + 1);
    }
}

/// A new thread waits for the baton in a free place, with what it is to run.
pub proof fn new_threads_wait_in_a_free_place(v: SchedView, pending: Pending)
    requires
        v.shaped(),
    ensures
        match reserved(v, pending) {
            (n, Some(i)) => {
                &&& i < 16
                &&& v.status[i as int] == Status::Free
                &&& n.status[i as int] == Status::Runnable
                &&& n.pending[i as int] == pending
                &&& n.join_target[i as int] is None
                &&& n.running == v.running
                &&& forall|k: int| 0 <= k < 16 && k != i ==> #[trigger] n.status[k] == v.status[k]
            },
            (n, None) => n == v && forall|k: int|
                0 <= k < 16 ==> #[trigger] v.status[k] != Status::Free,
        },
{
    lemma_first(v.status, Status::Free, 0);
}

/// A thread that ends is finished, those that wait for it can run, and nobody else changes.
pub proof fn an_end_frees_those_that_wait_for_it(v: SchedView, slot: usize, other: int)
    requires
        v.shaped(),
        slot < 16,
        0 <= other < 16,
        other != slot,
    ensures
        ended(v, slot).status[slot as int] == Status::Finished,
        ended(v, slot).status[other] == if v.status[other] == Status::Joining
            && v.join_target[other] == Some(slot) {
            Status::Runnable
        } else {
            v.status[other]
        },
        ended(v, slot).running == v.running,
        ended(v, slot).tid == v.tid,
{
}

/// A thread that waits for another is marked as waiting for that one; one that waited too
/// long takes the baton.
pub proof fn waiting_and_giving_up(v: SchedView, me: usize, target: usize, other: int)
    requires
        v.shaped(),
        me < 16,
        0 <= other < 16,
        other != me,
    ensures
        joining(v, me, target).status[me as int] == Status::Joining,
        joining(v, me, target).join_target[me as int] == Some(target),
        joining(v, me, target).status[other] == v.status[other],
        joining(v, me, target).join_target[other] == v.join_target[other],
        forced(v, me).running == Some(me),
        forced(v, me).status[me as int] == Status::Running,
        forced(v, me).status[other] == v.status[other],
{
}

/// Waiting for a thread is over once it has finished, or once nobody could be given the
/// baton or it was handed on too often; a thread that has not finished is waited for at
/// least once.
pub proof fn a_join_waits_at_least_once(
    v: SchedView,
    target: usize,
    steps: nat,
    granted_to_some: bool,
)
    requires
        v.shaped(),
        target < 16,
    ensures
        v.status[target as int] == Status::Finished ==> join_is_over(
            v,
            target,
            steps,
            granted_to_some,
        ),
        v.status[target as int] != Status::Finished && steps == 0 ==> !join_is_over(
            v,
            target,
            steps,
            granted_to_some,
        ),
        v.status[target as int] != Status::Finished && steps > 0 && !granted_to_some
            ==> join_is_over(v, target, steps, granted_to_some),
        v.status[target as int] != Status::Finished && 0 < steps <= 64 && granted_to_some
            ==> !join_is_over(v, target, steps, granted_to_some),
        steps > 64 ==> join_is_over(v, target, steps, granted_to_some),
{
}

/// A thread is found at the first place that is in use under its name.
pub proof fn threads_are_found_by_their_name(v: SchedView, tid: u64, n: nat)
    requires
        v.shaped(),
        n <= 16,
    ensures
        match place_of(v, tid, n) {
            Some(i) => {
                &&& i < n
                &&& v.status[i as int] != Status::Free && v.tid[i as int] == tid
                &&& forall|k: int|
                    0 <= k < i ==> v.status[k] == Status::Free || #[trigger] v.tid[k] != tid
            },
            None => forall|k: int|
                0 <= k < n ==> v.status[k] == Status::Free || #[trigger] v.tid[k] != tid,
        },
    decreases n,
{
    if n > 0 {
        threads_are_found_by_their_name(v, tid, (n - 1) as nat);
    }
}

/// A call is managed only where there is a function to call, the scheduler is on and it is
/// not its own; without the function it fails.
pub proof fn calls_are_managed_where_they_can_be(
    active: bool,
    resolved: bool,
    reentered: bool,
    r: Route,
)
    requires
        call_ensures(route, (active, resolved, reentered), r),
    ensures
        r == Route::Fail <==> !resolved,
        r == Route::Manage <==> resolved && active && !reentered,
{
}

/// The scheduler is on where it is told `1`, and only there.
pub proof fn the_scheduler_is_turned_on_by_one(value: Option<&[u8]>, r: bool)
    requires
        call_ensures(turned_on, (value,), r),
    ensures
        value is None ==> !r,
        value matches Some(v) ==> (r <==> v@.len() == 1 && v@[0] == 0x31),
{
    if let Some(v) = value {
        if v@.len() == 1 && v@[0] == 0x31 {
            assert(v@ =~= seq![0x31u8]);
        }
    }
}

/// A scheduler that starts anew knows no thread and keeps its pinned schedule.
pub proof fn a_new_input_starts_anew(schedule: Option<Seq<u8>>, i: int)
    requires
        0 <= i < 16,
    ensures
        ({
            let v = cleared(schedule);
            &&& v.schedule == schedule
            &&& v.status[i] == Status::Free
            &&& v.join_target[i] is None
            &&& v.running is None && v.last_granted is None
            &&& v.decision == 0
            &&& runnable(v).len() == 0
        }),
{
    all_waiting_threads_can_be_chosen(cleared(schedule).status, MAX_THREADS as nat);
    let v = cleared(schedule);
    if runnable(v).len() > 0 {
        assert(v.status[runnable(v)[0] as int] == Status::Runnable);
    }
}

/// A message is delivered where the world is there and fewer than the cap were tried before
/// it, into the whole buffer up to the bound of a message.
pub proof fn messages_fill_the_buffer(mode: Mode, earlier: usize, buffer: bool, max_len: usize)
    ensures
        delivery(mode, earlier, buffer, max_len) is Some <==> mode != Mode::Empty && earlier < 256,
        delivery(mode, earlier, buffer, max_len) matches Some(n) ==> {
            &&& n <= max_len || !buffer
            &&& !buffer ==> n == 0
            &&& buffer ==> n == max_len || (n < max_len && n == 65536)
        },
{
}

/// Whether a reply gives this code.
pub open spec fn gives_code(r: Reply, code: i32) -> bool {
    r matches Reply::Give { code: c, .. } && c == code
}

/// In every mode but that of an audit the kernel is faked: no call reaches a real one. In an
/// audit it does wherever there is one.
pub proof fn a_faked_kernel_is_never_asked(
    mode: Mode,
    resolved: bool,
    delivered: Option<usize>,
    create: HandleReply,
    receive: Reply,
    send: Reply,
    give: Reply,
    take: Reply,
    make: HandleReply,
)
    requires
        delivered is Some ==> delivered->0 <= crate::rtos::MSG_FILL_CAP,
        call_ensures(message_queue_create, (mode, resolved), create),
        call_ensures(message_queue_receive, (mode, delivered, resolved), receive),
        call_ensures(message_queue_send, (mode, resolved), send),
        call_ensures(release, (mode, resolved), give),
        call_ensures(semaphore_take, (mode, resolved), take),
        call_ensures(semaphore_create, (mode,), make),
    ensures
        mode != Mode::Audit ==> create !is Real && receive !is Real && send !is Real
            && give !is Real && take !is Real && make !is Real,
        mode == Mode::Audit && resolved ==> create is Real && receive is Real && send is Real
            && give is Real && take is Real,
        mode != Mode::Audit ==> (delivered matches Some(n) ==> gives_code(receive, n as i32)),
        mode != Mode::Audit && delivered is None ==> (receive matches Reply::Give { code, errno, .. }
            && code < 0 && errno == Errno::TimedOut),
        !resolved && mode == Mode::Audit ==> (receive matches Reply::Give { code, errno, .. } && code
            < 0 && errno == Errno::NoSystem),
        send !is Real ==> gives_code(send, 0),
        give !is Real ==> gives_code(give, 0),
        mode == Mode::Empty ==> (take matches Reply::Give { code, errno, .. } && code < 0 && errno
            == Errno::TimedOut),
        mode == Mode::Rng || mode == Mode::FuzzDriven ==> gives_code(take, 0),
{
}

/// A queue gives an item only where the kernel is faked, the queue is known and an item was
/// delivered; and sending to one always succeeds.
pub proof fn queues_give_what_was_delivered(
    mode: Mode,
    known: bool,
    delivered: Option<usize>,
    receive: Reply,
    send: Reply,
)
    requires
        delivered is Some ==> delivered->0 <= crate::rtos::MSG_FILL_CAP,
        call_ensures(queue_receive, (mode, known, delivered), receive),
        call_ensures(queue_send, (), send),
    ensures
        gives_code(receive, 1) <==> mode != Mode::Audit && known && delivered is Some,
        gives_code(receive, 0) <==> !(mode != Mode::Audit && known && delivered is Some),
        gives_code(send, 1),
{
}

/// A bus delivers only where the kernel is faked and there is a place for the message; a
/// pipe can always be made; and attempts are counted wherever the world is there.
pub proof fn a_bus_delivers_to_its_place(
    mode: Mode,
    place: bool,
    delivered: Option<usize>,
    can: bool,
    receive: Reply,
    pipe: Reply,
    counts: bool,
)
    requires
        call_ensures(bus_can_deliver, (mode, place), can),
        call_ensures(bus_receive, (mode, place, delivered), receive),
        call_ensures(pipe_create, (mode,), pipe),
        call_ensures(counts_attempts, (mode,), counts),
    ensures
        can <==> mode != Mode::Audit && place,
        gives_code(receive, 0) <==> can && delivered is Some,
        !gives_code(receive, 0) ==> (receive matches Reply::Give { code, .. } && code < 0),
        gives_code(pipe, 0),
        counts <==> mode != Mode::Empty,
{
}

/// A window is filled only where it was mapped at its own place; one that was mapped
/// elsewhere is undone. A page has the size that the system says, and four kibibytes where
/// it says none.
pub proof fn windows_stand_where_they_should(
    base: usize,
    mapped: Option<usize>,
    r: MmioStep,
    told: i64,
    page: usize,
)
    requires
        call_ensures(mmio_mapped, (base, mapped), r),
        told <= usize::MAX,
        call_ensures(page_size_of, (told,), page),
    ensures
        r == MmioStep::Fill <==> mapped == Some(base),
        r == MmioStep::Fail <==> mapped is None,
        told > 0 ==> page == told,
        told <= 0 ==> page == 4096,
{
}

/// Queues are given handles of their own, only where the kernel is faked, and at most as
/// many as there is room for.
pub proof fn queues_have_handles_of_their_own(queues: Seq<usize>, mode: Mode, item_size: usize)
    ensures
        match with_queue(queues, mode, item_size) {
            (after, Some(handle)) => {
                &&& mode != Mode::Audit
                &&& queues.len() < 256
                &&& after.len() == queues.len() + 1
                &&& after.take(queues.len() as int) == queues
                &&& after.last() == item_size
            },
            (after, None) => after == queues && (mode == Mode::Audit || queues.len()
                >= 256),
        },
{
    if let (after, Some(handle)) = with_queue(queues, mode, item_size) {
        assert(after.take(queues.len() as int) =~= queues);
    }
}

/// A graph has the states of its machine, in their order and under their names, each with
/// the entries that are open in it.
pub proof fn a_graph_has_the_states_of_its_machine(
    machine: &StateMachine,
    r: ProtocolStateGraph,
    i: int,
    k: int,
)
    requires
        call_ensures(ProtocolStateGraph::from_machine, (machine,), r),
    ensures
        r.machine@ == machine.name@,
        r.kind == machine.kind,
        r.states@.len() == machine.states@.len(),
        r.open_entries@.len() == machine.states@.len(),
        0 <= i < machine.states@.len() ==> {
            &&& r.states@[i]@ == machine.states@[i].name@
            &&& r.open_entries@[i]@.len() == machine.states@[i].open_entries@.len()
            &&& 0 <= k < machine.states@[i].open_entries@.len() ==> r.open_entries@[i]@[k]@
                == machine.states@[i].open_entries@[k]@
        },
{
    let m = machine@;
    assert(texts(r.states@) == m.states);
    assert(text_rows(r.open_entries@) == m.open_entries);
    assert(texts(r.states@).len() == r.states@.len());
    assert(text_rows(r.open_entries@).len() == r.open_entries@.len());
    if 0 <= i < machine.states@.len() {
        assert(texts(r.states@)[i] == r.states@[i]@);
        let row = text_rows(r.open_entries@)[i];
        assert(row == texts(r.open_entries@[i]@));
        assert(row.len() == r.open_entries@[i]@.len());
        let given = texts(machine.states@[i].open_entries@);
        assert(row == given);
        assert(given.len() == machine.states@[i].open_entries@.len());
        if 0 <= k < given.len() {
            assert(row[k] == r.open_entries@[i]@[k]@);
            assert(given[k] == machine.states@[i].open_entries@[k]@);
        }
    }
}

/// Where every transition names states that there are, the edges are the transitions one
/// for one: each with its entry, and guarded just where the transition is.
pub proof fn edges_are_the_transitions_in_order(
    states: Seq<Seq<char>>,
    transitions: Seq<TransitionView>,
    i: int,
)
    requires
        states.len() <= usize::MAX,
        forall|t: int|
            0 <= t < transitions.len() ==> states.contains((#[trigger] transitions[t]).from)
                && states.contains(transitions[t].to),
    ensures
        edges_of(states, transitions).len() == transitions.len(),
        0 <= i < transitions.len() ==> {
            let e = edges_of(states, transitions)[i];
            let t = transitions[i];
            &&& e.entry == t.entry
            &&& e.guarded == t.guarded
            &&& e.from < states.len() && states[e.from as int] == t.from
            &&& e.to < states.len() && states[e.to as int] == t.to
        },
    decreases transitions.len(),
{
    if transitions.len() > 0 {
        let front = transitions.drop_last();
        let last = transitions.last();
        assert(transitions[front.len() as int] == last);
        assert forall|t: int| 0 <= t < front.len() implies states.contains(
            (#[trigger] front[t]).from,
        ) && states.contains(front[t].to) by {
            assert(front[t] == transitions[t]);
        }
        edges_are_the_transitions_in_order(states, front, i);
        crate::adapter::names_have_the_first_number(states, last.from);
        crate::adapter::names_have_the_first_number(states, last.to);
        if 0 <= i < front.len() {
            assert(front[i] == transitions[i]);
        }
    }
}

/// The edges that leave a state are those that begin in it, in their order.
pub proof fn leaving_edges_are_those_that_begin_there(edges: Seq<EdgeView>, state: StateId)
    ensures
        leaving(edges, state) == edges.filter(|e: EdgeView| e.from == state),
    decreases edges.len(),
{
    reveal(Seq::filter);
    if edges.len() > 0 {
        leaving_edges_are_those_that_begin_there(edges.drop_last(), state);
    }
}

} // verus!

//! State machines as graphs on which the messages of a session are ordered.

use vstd::prelude::*;
use vstd::string::*;

use crate::text::{same, texts};

verus! {

/// What a machine was inferred from.
#[derive(Debug, Clone, Copy, PartialEq, Eq, Structural)]
pub enum MachineKind {
    Protected,
    Task,
}

/// A state and the entries that are open in it.
#[derive(Debug, Clone, PartialEq, Eq)]
pub struct State {
    pub name: String,
    pub open_entries: Vec<String>,
}

/// The condition of an entry.
#[derive(Debug, Clone, PartialEq, Eq)]
pub struct EntryBarrier {
    pub source: String,
}

/// A move from a state to another by an entry.
#[derive(Debug, Clone, PartialEq, Eq)]
pub struct Transition {
    pub from: String,
    pub entry: String,
    pub to: String,
    pub barrier: Option<EntryBarrier>,
}

/// A machine that was inferred.
#[derive(Debug, Clone, PartialEq, Eq)]
pub struct StateMachine {
    pub kind: MachineKind,
    pub name: String,
    pub states: Vec<State>,
    pub transitions: Vec<Transition>,
}

/// A transition as a value.
pub struct TransitionView {
    pub from: Seq<char>,
    pub entry: Seq<char>,
    pub to: Seq<char>,
    pub guarded: bool,
}

impl View for Transition {
    type V = TransitionView;

    open spec fn view(&self) -> TransitionView {
        TransitionView {
            from: self.from@,
            entry: self.entry@,
            to: self.to@,
            guarded: self.barrier is Some,
        }
    }
}

/// A machine as a value: its states' names, what is open in each, and its transitions.
pub struct MachineView {
    pub kind: MachineKind,
    pub name: Seq<char>,
    pub states: Seq<Seq<char>>,
    pub open_entries: Seq<Seq<Seq<char>>>,
    pub transitions: Seq<TransitionView>,
}

impl View for StateMachine {
    type V = MachineView;

    open spec fn view(&self) -> MachineView {
        MachineView {
            kind: self.kind,
            name: self.name@,
            states: Seq::new(self.states@.len(), |i: int| self.states@[i].name@),
            open_entries: Seq::new(
                self.states@.len(),
                |i: int| texts(self.states@[i].open_entries@),
            ),
            transitions: Seq::new(self.transitions@.len(), |i: int| self.transitions@[i]@),
        }
    }
}

/// The number of a state.
pub type StateId = usize;

/// Sending `entry` in state `from` moves the session to state `to`, if its condition
/// holds where it has one.
#[derive(Debug, Clone, PartialEq, Eq)]
pub struct ProtocolEdge {
    pub from: StateId,
    pub entry: String,
    pub to: StateId,
    pub guarded: bool,
}

pub struct EdgeView {
    pub from: StateId,
    pub entry: Seq<char>,
    pub to: StateId,
    pub guarded: bool,
}

impl View for ProtocolEdge {
    type V = EdgeView;

    open spec fn view(&self) -> EdgeView {
        EdgeView { from: self.from, entry: self.entry@, to: self.to, guarded: self.guarded }
    }
}

pub open spec fn edge_views(edges: Seq<ProtocolEdge>) -> Seq<EdgeView> {
    Seq::new(edges.len(), |i: int| edges[i]@)
}

pub open spec fn text_rows(rows: Seq<Vec<String>>) -> Seq<Seq<Seq<char>>> {
    Seq::new(rows.len(), |i: int| texts(rows[i]@))
}

/// A machine as a graph of numbered states.
#[derive(Debug, Clone, PartialEq, Eq)]
pub struct ProtocolStateGraph {
    pub machine: String,
    pub kind: MachineKind,
    pub states: Vec<String>,
    pub open_entries: Vec<Vec<String>>,
    pub initial: StateId,
    pub edges: Vec<ProtocolEdge>,
}

pub struct GraphView {
    pub machine: Seq<char>,
    pub kind: MachineKind,
    pub states: Seq<Seq<char>>,
    pub open_entries: Seq<Seq<Seq<char>>>,
    pub initial: StateId,
    pub edges: Seq<EdgeView>,
}

impl View for ProtocolStateGraph {
    type V = GraphView;

    open spec fn view(&self) -> GraphView {
        GraphView {
            machine: self.machine@,
            kind: self.kind,
            states: texts(self.states@),
            open_entries: text_rows(self.open_entries@),
            initial: self.initial,
            edges: edge_views(self.edges@),
        }
    }
}

/// The number of the first state among the first `n` with the name.
pub open spec fn position_among(states: Seq<Seq<char>>, name: Seq<char>, n: nat) -> Option<StateId>
    decreases n,
{
    if n == 0 {
        None
    } else {
        match position_among(states, name, (n - 1) as nat) {
            Some(i) => Some(i),
            None => if states[n - 1] == name {
                Some((n - 1) as StateId)
            } else {
                None
            },
        }
    }
}

/// The number of the first state with the name.
pub open spec fn position(states: Seq<Seq<char>>, name: Seq<char>) -> Option<StateId> {
    position_among(states, name, states.len())
}

/// The edges of the transitions, in order; a transition whose states are not both known
/// has none.
pub open spec fn edges_of(states: Seq<Seq<char>>, transitions: Seq<TransitionView>) -> Seq<EdgeView>
    decreases transitions.len(),
{
    if transitions.len() == 0 {
        seq![]
    } else {
        let before = edges_of(states, transitions.drop_last());
        let t = transitions.last();
        match (position(states, t.from), position(states, t.to)) {
            (Some(from), Some(to)) => before.push(
                EdgeView { from, entry: t.entry, to, guarded: t.guarded },
            ),
            _ => before,
        }
    }
}

/// The graph of a machine: the states in their order, beginning at the one that is called
/// `ready`, or at the first.
pub open spec fn graph_of(m: MachineView) -> GraphView {
    GraphView {
        machine: m.name,
        kind: m.kind,
        states: m.states,
        open_entries: m.open_entries,
        initial: match position(m.states, "ready"@) {
            Some(i) => i,
            None => 0,
        },
        edges: edges_of(m.states, m.transitions),
    }
}

fn position_of_name(states: &Vec<String>, name: &str) -> (r: Option<StateId>)
    ensures
        r == position(texts(states@), name@),
{
    let mut found: Option<StateId> = None;
    let mut i: usize = 0;
    while i < states.len()
        invariant
            i <= states@.len(),
            found == position_among(texts(states@), name@, i as nat),
        decreases states@.len() - i,
    {
        if found.is_none() && same(states[i].as_str(), name) {
            found = Some(i);
        }
        i += 1;
    }
    found
}

fn copied(v: &Vec<String>) -> (r: Vec<String>)
    ensures
        texts(r@) == texts(v@),
{
    let mut out: Vec<String> = Vec::new();
    let mut i: usize = 0;
    while i < v.len()
        invariant
            i <= v@.len(),
            out@.len() == i,
            forall|k: int| 0 <= k < i ==> (#[trigger] out@[k])@ == v@[k]@,
        decreases v@.len() - i,
    {
        out.push(v[i].clone());
        i += 1;
    }
    proof {
        assert(texts(out@) =~= texts(v@));
    }
    out
}

impl ProtocolStateGraph {
    pub fn from_machine(machine: &StateMachine) -> (r: Self)
        ensures
            r@ == graph_of(machine@),
            r.machine@ == machine.name@,
            r.kind == machine.kind,
    {
        let mut states: Vec<String> = Vec::new();
        let mut open_entries: Vec<Vec<String>> = Vec::new();
        let mut i: usize = 0;
        while i < machine.states.len()
            invariant
                i <= machine.states@.len(),
                states@.len() == i,
                open_entries@.len() == i,
                forall|k: int| 0 <= k < i ==> (#[trigger] states@[k])@ == machine.states@[k].name@,
                forall|k: int|
                    0 <= k < i ==> texts((#[trigger] open_entries@[k])@) == texts(
                        machine.states@[k].open_entries@,
                    ),
            decreases machine.states@.len() - i,
        {
            states.push(machine.states[i].name.clone());
            open_entries.push(copied(&machine.states[i].open_entries));
            i += 1;
        }
        proof {
            assert(texts(states@) =~= machine@.states);
            assert(text_rows(open_entries@) =~= machine@.open_entries);
        }
        let initial: StateId = match position_of_name(&states, "ready") {
            Some(i) => i,
            None => 0,
        };
        let mut edges: Vec<ProtocolEdge> = Vec::new();
        let mut t: usize = 0;
        proof {
            assert(edge_views(edges@) =~= seq![]);
        }
        while t < machine.transitions.len()
            invariant
                t <= machine.transitions@.len(),
                texts(states@) == machine@.states,
                edge_views(edges@) == edges_of(
                    machine@.states,
                    machine@.transitions.take(t as int),
                ),
            decreases machine.transitions@.len() - t,
        {
            let transition = &machine.transitions[t];
            let from = position_of_name(&states, transition.from.as_str());
            let to = position_of_name(&states, transition.to.as_str());
            let ghost before = edges@;
            if let (Some(from), Some(to)) = (from, to) {
                edges.push(
                    ProtocolEdge {
                        from,
                        entry: transition.entry.clone(),
                        to,
                        guarded: transition.barrier.is_some(),
                    },
                );
                proof {
                    assert(edge_views(edges@) =~= edge_views(before).push(edges@.last()@));
                }
            }
            proof {
                assert(machine@.transitions.take(t + 1).drop_last() =~= machine@.transitions.take(
                    t as int,
                ));
            }
            t += 1;
        }
        proof {
            assert(machine@.transitions.take(t as int) =~= machine@.transitions);
        }
        ProtocolStateGraph {
            machine: machine.name.clone(),
            kind: machine.kind,
            states,
            open_entries,
            initial,
            edges,
        }
    }

    pub fn initial(&self) -> (r: StateId)
        ensures
            r == self@.initial,
    {
        self.initial
    }

    pub fn state_count(&self) -> (r: usize)
        ensures
            r == self@.states.len(),
    {
        self.states.len()
    }

    pub fn states(&self) -> (r: &[String])
        ensures
            texts(r@) == self@.states,
    {
        self.states.as_slice()
    }

    pub fn edges(&self) -> (r: &[ProtocolEdge])
        ensures
            edge_views(r@) == self@.edges,
    {
        self.edges.as_slice()
    }

    pub fn state_name(&self, id: StateId) -> (r: Option<&str>)
        ensures
            match r {
                Some(s) => id < self@.states.len() && s@ == self@.states[id as int],
                None => id >= self@.states.len(),
            },
    {
        if id < self.states.len() {
            Some(self.states[id].as_str())
        } else {
            None
        }
    }

    pub fn state_id(&self, name: &str) -> (r: Option<StateId>)
        ensures
            r == position(self@.states, name@),
    {
        position_of_name(&self.states, name)
    }

    /// The entries that are open in a state: none in one that there is not.
    pub fn open_entries(&self, state: StateId) -> (r: &[String])
        ensures
            texts(r@) == if state < self@.open_entries.len() {
                self@.open_entries[state as int]
            } else {
                seq![]
            },
    {
        if state < self.open_entries.len() {
            self.open_entries[state].as_slice()
        } else {
            let none: &[String] = &[];
            proof {
                assert(texts(none@) =~= seq![]);
            }
            none
        }
    }

    /// The edges that leave a state, in order.
    pub fn transitions_from(&self, state: StateId) -> (r: Vec<&ProtocolEdge>)
        ensures
            Seq::new(r@.len(), |i: int| r@[i]@) == leaving(self@.edges, state),
    {
        let mut out: Vec<&ProtocolEdge> = Vec::new();
        let mut i: usize = 0;
        proof {
            assert(Seq::new(out@.len(), |i: int| out@[i]@) =~= leaving(
                self@.edges.take(0),
                state,
            ));
        }
        while i < self.edges.len()
            invariant
                i <= self.edges@.len(),
                Seq::new(out@.len(), |i: int| out@[i]@) == leaving(
                    self@.edges.take(i as int),
                    state,
                ),
            decreases self.edges@.len() - i,
        {
            let ghost before = out@;
            let edge = &self.edges[i];
            proof {
                assert(self@.edges.take(i + 1).drop_last() =~= self@.edges.take(i as int));
            }
            if edge.from == state {
                out.push(edge);
                proof {
                    assert(Seq::new(out@.len(), |i: int| out@[i]@) =~= Seq::new(
                        before.len(),
                        |i: int| before[i]@,
                    ).push(edge@));
                }
            }
            i += 1;
        }
        proof {
            assert(self@.edges.take(i as int) =~= self@.edges);
        }
        out
    }

    /// The state that an entry leads to from a state, by the first edge there is.
    pub fn next_state(&self, state: StateId, entry: &str) -> (r: Option<StateId>)
        ensures
            r == reached(self@.edges, state, entry@),
    {
        let mut found: Option<StateId> = None;
        let mut i: usize = 0;
        while i < self.edges.len()
            invariant
                i <= self.edges@.len(),
                found == reached(self@.edges.take(i as int), state, entry@),
            decreases self.edges@.len() - i,
        {
            proof {
                assert(self@.edges.take(i + 1).drop_last() =~= self@.edges.take(i as int));
            }
            let edge = &self.edges[i];
            if found.is_none() && edge.from == state && same(edge.entry.as_str(), entry) {
                found = Some(edge.to);
            }
            i += 1;
        }
        proof {
            assert(self@.edges.take(i as int) =~= self@.edges);
        }
        found
    }
}

/// The edges that leave a state, in order.
pub open spec fn leaving(edges: Seq<EdgeView>, state: StateId) -> Seq<EdgeView>
    decreases edges.len(),
{
    if edges.len() == 0 {
        seq![]
    } else if edges.last().from == state {
        leaving(edges.drop_last(), state).push(edges.last())
    } else {
        leaving(edges.drop_last(), state)
    }
}

/// Where the first edge for the entry leads that leaves the state.
pub open spec fn reached(edges: Seq<EdgeView>, state: StateId, entry: Seq<char>) -> Option<StateId>
    decreases edges.len(),
{
    if edges.len() == 0 {
        None
    } else {
        match reached(edges.drop_last(), state, entry) {
            Some(to) => Some(to),
            None => if edges.last().from == state && edges.last().entry == entry {
                Some(edges.last().to)
            } else {
                None
            },
        }
    }
}

/// The graph of every machine, in order.
pub fn protocol_graphs(machines: &[StateMachine]) -> (r: Vec<ProtocolStateGraph>)
    ensures
        r@.len() == machines@.len(),
        forall|i: int|
            0 <= i < r@.len() ==> {
                &&& (#[trigger] r@[i])@ == graph_of(machines@[i]@)
                &&& r@[i].machine@ == machines@[i].name@
                &&& r@[i].kind == machines@[i].kind
            },
{
    let mut out: Vec<ProtocolStateGraph> = Vec::new();
    let mut i: usize = 0;
    while i < machines.len()
        invariant
            i <= machines@.len(),
            out@.len() == i,
            forall|k: int|
                0 <= k < i ==> {
                    &&& (#[trigger] out@[k])@ == graph_of(machines@[k]@)
                    &&& out@[k].machine@ == machines@[k].name@
                    &&& out@[k].kind == machines@[k].kind
                },
        decreases machines@.len() - i,
    {
        out.push(ProtocolStateGraph::from_machine(&machines[i]));
        i += 1;
    }
    out
}

proof fn lemma_position_among(states: Seq<Seq<char>>, name: Seq<char>, n: nat)
    requires
        n <= states.len(),
        states.len() <= usize::MAX,
    ensures
        match position_among(states, name, n) {
            Some(i) => {
                &&& i < n
                &&& states[i as int] == name
                &&& forall|j: int| 0 <= j < i ==> #[trigger] states[j] != name
            },
            None => forall|j: int| 0 <= j < n ==> #[trigger] states[j] != name,
        },
    decreases n,
{
    if n > 0 {
        lemma_position_among(states, name, (n - 1) as nat);
    }
}

/// A name has the number of the first state that bears it, and none if no state does.
pub proof fn names_have_the_first_number(states: Seq<Seq<char>>, name: Seq<char>)
    requires
        states.len() <= usize::MAX,
    ensures
        match position(states, name) {
            Some(i) => {
                &&& i < states.len()
                &&& states[i as int] == name
                &&& forall|j: int| 0 <= j < i ==> #[trigger] states[j] != name
            },
            None => !states.contains(name),
        },
{
    lemma_position_among(states, name, states.len());
}

proof fn lemma_edges(states: Seq<Seq<char>>, transitions: Seq<TransitionView>)
    requires
        states.len() <= usize::MAX,
    ensures
        forall|k: int|
            0 <= k < edges_of(states, transitions).len() ==> {
                let edge = #[trigger] edges_of(states, transitions)[k];
                edge.from < states.len() && edge.to < states.len() && exists|t: int|
                    0 <= t < transitions.len() && projects(
                        states,
                        #[trigger] transitions[t],
                        edge,
                    )
            },
        forall|t: int|
            0 <= t < transitions.len() && states.contains((#[trigger] transitions[t]).from)
                && states.contains(transitions[t].to) ==> exists|k: int|
                0 <= k < edges_of(states, transitions).len() && projects(
                    states,
                    transitions[t],
                    #[trigger] edges_of(states, transitions)[k],
                ),
    decreases transitions.len(),
{
    if transitions.len() > 0 {
        let fore = transitions.drop_last();
        let before = edges_of(states, fore);
        let now = edges_of(states, transitions);
        let t = transitions.last();
        lemma_edges(states, fore);
        names_have_the_first_number(states, t.from);
        names_have_the_first_number(states, t.to);
        assert forall|k: int| 0 <= k < now.len() implies {
            let edge = #[trigger] now[k];
            edge.from < states.len() && edge.to < states.len() && exists|t: int|
                0 <= t < transitions.len() && projects(states, #[trigger] transitions[t], edge)
        } by {
            if k < before.len() {
                assert(now[k] == before[k]);
                let i = choose|i: int|
                    0 <= i < fore.len() && projects(states, #[trigger] fore[i], before[k]);
                assert(projects(states, transitions[i], now[k]));
            } else {
                assert(projects(states, transitions[transitions.len() - 1], now[k]));
            }
        }
        assert forall|i: int|
            0 <= i < transitions.len() && states.contains((#[trigger] transitions[i]).from)
                && states.contains(transitions[i].to) implies exists|k: int|
            0 <= k < now.len() && projects(states, transitions[i], #[trigger] now[k]) by {
            if i < fore.len() {
                assert(fore[i] == transitions[i]);
                let k = choose|k: int|
                    0 <= k < before.len() && projects(states, fore[i], #[trigger] before[k]);
                assert(now[k] == before[k]);
            } else {
                assert(projects(states, transitions[i], now[now.len() - 1]));
            }
        }
    }
}

/// Whether an edge stands for a transition: it joins the states of those names.
pub open spec fn projects(states: Seq<Seq<char>>, t: TransitionView, edge: EdgeView) -> bool {
    &&& states[edge.from as int] == t.from
    &&& states[edge.to as int] == t.to
    &&& edge.entry == t.entry
    &&& edge.guarded == t.guarded
}

/// Every edge of a machine's graph joins states that there are and stands for one of its
/// transitions, and every transition between known states has an edge. An edge is guarded
/// if and only if its transition has a condition.
pub proof fn edges_stand_for_transitions(m: MachineView)
    requires
        m.states.len() <= usize::MAX,
    ensures
        forall|k: int|
            0 <= k < graph_of(m).edges.len() ==> {
                let edge = #[trigger] graph_of(m).edges[k];
                edge.from < m.states.len() && edge.to < m.states.len() && exists|t: int|
                    0 <= t < m.transitions.len() && projects(
                        m.states,
                        #[trigger] m.transitions[t],
                        edge,
                    )
            },
        forall|t: int|
            0 <= t < m.transitions.len() && m.states.contains((#[trigger] m.transitions[t]).from)
                && m.states.contains(m.transitions[t].to) ==> exists|k: int|
                0 <= k < graph_of(m).edges.len() && projects(
                    m.states,
                    m.transitions[t],
                    #[trigger] graph_of(m).edges[k],
                ),
{
    lemma_edges(m.states, m.transitions);
    let edges = edges_of(m.states, m.transitions);
    assert forall|t: int|
        0 <= t < m.transitions.len() && m.states.contains((#[trigger] m.transitions[t]).from)
            && m.states.contains(m.transitions[t].to) implies exists|k: int|
        0 <= k < graph_of(m).edges.len() && projects(
            m.states,
            m.transitions[t],
            #[trigger] graph_of(m).edges[k],
        ) by {
        let k = choose|k: int|
            0 <= k < edges.len() && projects(m.states, m.transitions[t], #[trigger] edges[k]);
        assert(graph_of(m).edges[k] == edges[k]);
    }
}

/// A session begins in the state that is called `ready` where there is one, and in the
/// first where there is none.
pub proof fn a_session_begins_ready(m: MachineView)
    requires
        m.states.len() <= usize::MAX,
    ensures
        m.states.len() > 0 ==> graph_of(m).initial < m.states.len(),
        m.states.contains("ready"@) ==> m.states[graph_of(m).initial as int] == "ready"@,
        !m.states.contains("ready"@) ==> graph_of(m).initial == 0,
{
    names_have_the_first_number(m.states, "ready"@);
    if position(m.states, "ready"@) is Some {
        assert(m.states.contains("ready"@));
    }
}

/// An entry leads somewhere from a state if and only if an edge for it leaves the state,
/// and it leads where the first such edge does.
pub proof fn entries_lead_along_edges(edges: Seq<EdgeView>, state: StateId, entry: Seq<char>)
    ensures
        match reached(edges, state, entry) {
            Some(to) => exists|k: int|
                0 <= k < edges.len() && {
                    &&& (#[trigger] edges[k]).from == state
                    &&& edges[k].entry == entry
                    &&& edges[k].to == to
                    &&& forall|j: int|
                        0 <= j < k ==> (#[trigger] edges[j]).from != state || edges[j].entry
                            != entry
                },
            None => forall|k: int|
                0 <= k < edges.len() ==> (#[trigger] edges[k]).from != state || edges[k].entry
                    != entry,
        },
    decreases edges.len(),
{
    if edges.len() > 0 {
        let fore = edges.drop_last();
        entries_lead_along_edges(fore, state, entry);
        assert(forall|j: int| 0 <= j < fore.len() ==> #[trigger] fore[j] == edges[j]);
        match reached(fore, state, entry) {
            Some(to) => {
                let k = choose|k: int|
                    0 <= k < fore.len() && {
                        &&& (#[trigger] fore[k]).from == state
                        &&& fore[k].entry == entry
                        &&& fore[k].to == to
                        &&& forall|j: int|
                            0 <= j < k ==> (#[trigger] fore[j]).from != state || fore[j].entry
                                != entry
                    };
                assert(edges[k] == fore[k]);
                assert forall|j: int| 0 <= j < k implies (#[trigger] edges[j]).from != state
                    || edges[j].entry != entry by {
                    assert(fore[j] == edges[j]);
                }
            },
            None => {
                assert forall|j: int| 0 <= j < fore.len() implies (#[trigger] edges[j]).from
                    != state || edges[j].entry != entry by {
                    assert(fore[j] == edges[j]);
                }
                assert(edges[edges.len() - 1] == edges.last());
            },
        }
    }
}

/// The next state is found among the edges that leave the state.
pub proof fn the_next_state_is_left_for(edges: Seq<EdgeView>, state: StateId, entry: Seq<char>)
    ensures
        reached(edges, state, entry) == reached(leaving(edges, state), state, entry),
        forall|k: int|
            0 <= k < leaving(edges, state).len() ==> (#[trigger] leaving(edges, state)[k]).from
                == state,
    decreases edges.len(),
{
    if edges.len() > 0 {
        the_next_state_is_left_for(edges.drop_last(), state, entry);
        let fore = leaving(edges.drop_last(), state);
        if edges.last().from == state {
            assert(leaving(edges, state).drop_last() =~= fore);
        }
    }
}

} // verus!

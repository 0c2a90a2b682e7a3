use bhf::adapter::{
    protocol_graphs, EntryBarrier, MachineKind, ProtocolStateGraph, State, StateMachine, Transition,
};

fn state(name: &str, open: &[&str]) -> State {
    State {
        name: name.to_owned(),
        open_entries: open.iter().map(|e| e.to_string()).collect(),
    }
}

fn transition(from: &str, entry: &str, to: &str) -> Transition {
    Transition {
        from: from.to_owned(),
        entry: entry.to_owned(),
        to: to.to_owned(),
        barrier: None,
    }
}

fn counter() -> StateMachine {
    StateMachine {
        kind: MachineKind::Protected,
        name: "Counter".to_owned(),
        states: vec![
            state("ready", &["Increment", "Decrement"]),
            state("after-Increment", &[]),
            state("after-Decrement", &[]),
        ],
        transitions: vec![
            transition("ready", "Increment", "after-Increment"),
            transition("ready", "Decrement", "after-Decrement"),
        ],
    }
}

#[test]
fn graph_exposes_states_and_transitions_for_a_protected_type() {
    let machines = vec![counter()];
    let graph = ProtocolStateGraph::from_machine(&machines[0]);

    // Initial state is "ready" and both unguarded entries are open there.
    let initial = graph.initial();
    assert_eq!(graph.state_name(initial), Some("ready"));
    let open: Vec<&str> = graph
        .open_entries(initial)
        .iter()
        .map(String::as_str)
        .collect();
    assert!(open.iter().any(|e| e.eq_ignore_ascii_case("increment")));
    assert!(open.iter().any(|e| e.eq_ignore_ascii_case("decrement")));

    // From "ready", each entry transitions to its own "after-<entry>" state,
    // and next_state resolves the target — the adjacency an ordering
    // strategy walks.
    let leaving = graph.transitions_from(initial);
    let increment_edge = leaving
        .iter()
        .find(|edge| edge.entry.eq_ignore_ascii_case("increment"))
        .expect("increment transition present");
    let target = increment_edge.to;
    assert_eq!(
        graph.next_state(initial, &increment_edge.entry),
        Some(target)
    );
    assert!(
        graph
            .state_name(target)
            .is_some_and(|name| name.to_ascii_lowercase().starts_with("after-")),
        "increment leads to an after-<entry> state, got {:?}",
        graph.state_name(target)
    );

    // Every edge references in-bounds states — the graph is well-formed.
    for edge in graph.edges() {
        assert!(edge.from < graph.state_count());
        assert!(edge.to < graph.state_count());
    }
}

#[test]
fn barrier_presence_maps_to_guarded_edge() {
    let machine = StateMachine {
        kind: MachineKind::Protected,
        name: "Gate".to_owned(),
        states: vec![
            State {
                name: "ready".to_owned(),
                open_entries: vec!["Unlock".to_owned()],
            },
            State {
                name: "after-Open".to_owned(),
                open_entries: vec![],
            },
            State {
                name: "after-Unlock".to_owned(),
                open_entries: vec![],
            },
        ],
        transitions: vec![
            Transition {
                from: "ready".to_owned(),
                entry: "Open".to_owned(),
                to: "after-Open".to_owned(),
                barrier: Some(EntryBarrier {
                    source: "Is_Locked".to_owned(),
                }),
            },
            Transition {
                from: "ready".to_owned(),
                entry: "Unlock".to_owned(),
                to: "after-Unlock".to_owned(),
                barrier: None,
            },
        ],
    };

    let graph = ProtocolStateGraph::from_machine(&machine);
    let open_edge = graph
        .edges()
        .iter()
        .find(|edge| edge.entry == "Open")
        .expect("open transition present");
    assert!(open_edge.guarded, "barrier-guarded entry must be flagged");
    let unlock_edge = graph
        .edges()
        .iter()
        .find(|edge| edge.entry == "Unlock")
        .expect("unlock transition present");
    assert!(!unlock_edge.guarded, "unguarded entry must not be flagged");
    // The initial "ready" state resolves and its transitions target valid
    // states.
    assert_eq!(graph.state_name(graph.initial()), Some("ready"));
    assert_eq!(
        graph.next_state(graph.initial(), "Open"),
        graph.state_id("after-Open")
    );
}

#[test]
fn protocol_graphs_projects_every_machine() {
    let machines = vec![
        StateMachine {
            kind: MachineKind::Protected,
            name: "Gate".to_owned(),
            states: vec![state("ready", &["Lock"]), state("after-Lock", &[])],
            transitions: vec![transition("ready", "Lock", "after-Lock")],
        },
        StateMachine {
            kind: MachineKind::Task,
            name: "Worker".to_owned(),
            states: vec![state("ready", &["Start"]), state("after-Start", &[])],
            transitions: vec![transition("ready", "Start", "after-Start")],
        },
    ];
    let graphs = protocol_graphs(&machines);
    assert_eq!(graphs.len(), 2);
    assert!(graphs.iter().any(|g| g.kind == MachineKind::Protected));
    assert!(graphs.iter().any(|g| g.kind == MachineKind::Task));
}

#[test]
fn transitions_of_unknown_states_are_dropped() {
    let mut machine = counter();
    machine.transitions.push(transition("ready", "Lost", "nowhere"));
    machine.transitions.push(transition("nowhere", "Lost", "ready"));
    let graph = ProtocolStateGraph::from_machine(&machine);
    assert_eq!(graph.edges().len(), 2);
    assert_eq!(graph.next_state(0, "Lost"), None);
}

#[test]
fn a_machine_without_a_ready_state_begins_at_its_first() {
    let mut machine = counter();
    machine.states[0].name = "idle".to_owned();
    let graph = ProtocolStateGraph::from_machine(&machine);
    assert_eq!(graph.initial(), 0);
    assert!(graph.edges().is_empty());
    machine.states[2].name = "ready".to_owned();
    assert_eq!(ProtocolStateGraph::from_machine(&machine).initial(), 2);
}

#[test]
fn states_that_there_are_not_have_no_name_and_no_entries() {
    let graph = ProtocolStateGraph::from_machine(&counter());
    assert_eq!(graph.state_name(3), None);
    assert!(graph.open_entries(3).is_empty());
    assert!(graph.transitions_from(3).is_empty());
    assert_eq!(graph.state_id("after-Decrement"), Some(2));
    assert_eq!(graph.state_id("after"), None);
    assert_eq!(graph.states().len(), graph.state_count());
}

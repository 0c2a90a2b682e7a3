use bhf::sched::{
    hex_nibble, parse_hex_seq, pick_ordinal, route, turned_on, Gate, JoinStep, Need, Pending, Route,
    Sched, SchedState, Status, Switch, MAX_THREADS, SCHED_INPUT_KEY, SEQ_CAP,
};

#[test]
fn pick_ordinal_is_input_addressable_and_in_range() {
    // Every candidate is selectable by some byte, and the pick never escapes
    // the runnable set — the core of "the interleaving is a function of input".
    assert_eq!(pick_ordinal(0, 2), 0);
    assert_eq!(pick_ordinal(1, 2), 1);
    assert_eq!(pick_ordinal(2, 2), 0);
    assert_eq!(pick_ordinal(255, 3), 255 % 3);
    for n in 1..=MAX_THREADS {
        for byte in 0u8..=255 {
            assert!(pick_ordinal(byte, n) < n);
        }
    }
}

#[test]
fn parse_hex_seq_decodes_pairs_and_ignores_separators() {
    let mut out = [0u8; SEQ_CAP];
    // The pinned sequence "00 01" selects thread A then thread B in the
    // 2-thread fixture; separators are tolerated for readability.
    let n = parse_hex_seq(b"00:01", &mut out);
    assert_eq!(n, 2);
    assert_eq!(&out[..2], &[0x00, 0x01]);

    let n = parse_hex_seq(b"deadBEEF", &mut out);
    assert_eq!(n, 4);
    assert_eq!(&out[..4], &[0xde, 0xad, 0xbe, 0xef]);

    // A trailing odd nibble is dropped, not misdecoded.
    let n = parse_hex_seq(b"ab c", &mut out);
    assert_eq!(n, 1);
    assert_eq!(out[0], 0xab);
}

#[test]
fn parse_hex_seq_is_bounded_by_capacity() {
    let mut out = [0u8; SEQ_CAP];
    let hex = vec![b'a'; SEQ_CAP * 4]; // far more pairs than fit
    let n = parse_hex_seq(&hex, &mut out);
    assert_eq!(n, SEQ_CAP, "never writes past the fixed buffer");
}

#[test]
fn empty_or_non_hex_sequence_decodes_to_nothing() {
    let mut out = [0u8; SEQ_CAP];
    assert_eq!(parse_hex_seq(b"", &mut out), 0);
    assert_eq!(parse_hex_seq(b"----", &mut out), 0);
}

#[test]
fn nibbles_are_the_hexadecimal_digits() {
    assert_eq!(hex_nibble(b'0'), Some(0));
    assert_eq!(hex_nibble(b'9'), Some(9));
    assert_eq!(hex_nibble(b'a'), Some(10));
    assert_eq!(hex_nibble(b'F'), Some(15));
    assert_eq!(hex_nibble(b'g'), None);
    assert_eq!(hex_nibble(b' '), None);
}

fn with_two_workers() -> (SchedState, usize, usize, usize) {
    let mut state = SchedState::new();
    let main = state.ensure_registered(None, 7).unwrap();
    let a = state.reserve(100, 1).unwrap();
    state.created(a, 8);
    let b = state.reserve(200, 2).unwrap();
    state.created(b, 9);
    (state, main, a, b)
}

#[test]
fn the_first_thread_takes_the_baton_and_a_stranger_does_not() {
    let mut state = SchedState::new();
    assert_eq!(state.running(), None);
    assert_eq!(state.ensure_registered(None, 7), Some(0));
    assert_eq!(state.running(), Some(0));
    assert_eq!(state.ensure_registered(Some(0), 7), Some(0));
    assert_eq!(state.ensure_registered(None, 99), None);
    assert_eq!(state.status(1), Status::Free);
}

#[test]
fn the_input_chooses_who_runs_next() {
    for byte in 0..3u8 {
        let (mut state, main, _, _) = with_two_workers();
        state.yield_baton(main);
        assert_eq!(state.need(), Need::Schedule);
        state.load_schedule(None);
        assert_eq!(state.need(), Need::Input { key: SCHED_INPUT_KEY });
        let switch = state.grant_next(Some(byte));
        assert_eq!(state.running(), Some(byte as usize));
        assert_eq!(switch, Some(Switch { slot: byte as usize, decision: 1 }));
    }
}

#[test]
fn a_pinned_schedule_is_followed_and_starts_anew() {
    let (mut state, main, a, b) = with_two_workers();
    state.load_schedule(Some(b"02:01"));
    state.yield_baton(main);
    assert_eq!(state.need(), Need::Nothing);
    state.grant_next(Some(0));
    assert_eq!(state.running(), Some(b));
    state.yield_baton(b);
    state.grant_next(None);
    assert_eq!(state.running(), Some(a));
    state.yield_baton(a);
    state.grant_next(None);
    assert_eq!(state.running(), Some(b));
    state.load_schedule(Some(b"00"));
    state.yield_baton(b);
    state.grant_next(None);
    assert_eq!(state.running(), Some(a), "the schedule is taken once");
}

#[test]
fn without_input_the_threads_take_turns() {
    let (mut state, main, a, b) = with_two_workers();
    state.load_schedule(None);
    let mut order = vec![];
    let mut me = main;
    for _ in 0..6 {
        state.yield_baton(me);
        state.grant_next(None);
        me = state.running().unwrap();
        order.push(me);
    }
    assert_eq!(order, vec![main, a, b, main, a, b]);
}

#[test]
fn a_thread_that_keeps_the_baton_is_no_switch() {
    let mut state = SchedState::new();
    let main = state.ensure_registered(None, 7).unwrap();
    state.load_schedule(None);
    state.yield_baton(main);
    assert_eq!(state.grant_next(Some(5)), Some(Switch { slot: main, decision: 1 }));
    state.yield_baton(main);
    assert_eq!(state.grant_next(Some(9)), None);
    assert_eq!(state.running(), Some(main));
}

#[test]
fn a_join_is_released_by_the_end_of_its_joinee() {
    let (mut state, main, a, b) = with_two_workers();
    state.load_schedule(None);
    assert_eq!(state.place_of_thread(9), Some(b));
    assert_eq!(state.place_of_thread(10), None);
    assert_eq!(state.join_step(main, b, 0, false), JoinStep::HandOn);
    assert_eq!(state.status(main), Status::Joining);
    state.grant_next(Some(0));
    assert_eq!(state.running(), Some(a));
    state.exit(a);
    assert_eq!(state.status(main), Status::Joining);
    state.grant_next(Some(0));
    assert_eq!(state.running(), Some(b));
    state.exit(b);
    assert_eq!(state.status(main), Status::Runnable);
    state.grant_next(Some(0));
    assert_eq!(state.running(), Some(main));
    assert_eq!(state.at_gate(main, true), Gate::Pass);
    assert_eq!(state.join_step(main, b, 1, true), JoinStep::Join);
}

#[test]
fn a_join_gives_up_after_a_cut_wait_or_too_many() {
    let (mut state, main, a, _) = with_two_workers();
    assert_eq!(state.join_step(main, a, 64, true), JoinStep::HandOn);
    assert_eq!(state.join_step(main, a, 65, true), JoinStep::Join);
    assert_eq!(state.join_step(main, a, 1, false), JoinStep::Join);
}

#[test]
fn a_wait_that_is_too_long_takes_the_baton() {
    let (mut state, main, a, _) = with_two_workers();
    assert_eq!(state.at_gate(a, false), Gate::Wait);
    assert_eq!(state.running(), Some(main));
    assert_eq!(state.at_gate(a, true), Gate::Force);
    assert_eq!(state.running(), Some(a));
    assert_eq!(state.status(a), Status::Running);
}

#[test]
fn nobody_holds_the_baton_where_nobody_can_run() {
    let mut state = SchedState::new();
    let main = state.ensure_registered(None, 7).unwrap();
    state.exit(main);
    assert_eq!(state.need(), Need::Nothing);
    assert_eq!(state.grant_next(None), None);
    assert_eq!(state.running(), None);
    assert_eq!(state.status(main), Status::Finished);
}

#[test]
fn places_run_out_and_come_back() {
    let mut state = SchedState::new();
    for i in 0..MAX_THREADS {
        assert_eq!(state.reserve(i, i), Some(i));
    }
    assert_eq!(state.reserve(1, 1), None);
    assert_eq!(state.find_free(), None);
    assert_eq!(state.ensure_registered(None, 1), None);
    assert_eq!(state.pending(3), Pending { start: 3, arg: 3 });
    state.creation_failed(3);
    assert_eq!(state.find_free(), Some(3));
    assert_eq!(state.pending(3), Pending { start: 0, arg: 0 });
}

#[test]
fn a_new_input_forgets_the_threads_and_keeps_the_schedule() {
    let (mut state, main, _, _) = with_two_workers();
    state.load_schedule(Some(b"01"));
    state.yield_baton(main);
    state.grant_next(None);
    state.reset_for_input();
    assert_eq!(state.running(), None);
    assert_eq!(state.find_free(), Some(0));
    let main = state.ensure_registered(None, 7).unwrap();
    let a = state.reserve(1, 1).unwrap();
    state.yield_baton(main);
    assert_eq!(state.need(), Need::Nothing);
    assert_eq!(state.grant_next(None), Some(Switch { slot: a, decision: 1 }));
}

#[test]
fn calls_are_routed_by_what_stands_behind_them() {
    assert_eq!(route(true, false, false), Route::Fail);
    assert_eq!(route(false, false, false), Route::Fail);
    assert_eq!(route(false, true, false), Route::PassOn);
    assert_eq!(route(true, true, true), Route::PassOn);
    assert_eq!(route(true, true, false), Route::Manage);
}

#[test]
fn only_a_one_turns_the_scheduler_on() {
    assert!(turned_on(Some(b"1")));
    assert!(!turned_on(Some(b"11")));
    assert!(!turned_on(Some(b"0")));
    assert!(!turned_on(Some(b"")));
    assert!(!turned_on(None));
    assert!(Sched.is_enabled(Some(b"1")));
    assert_eq!(Sched.name(), "sched");
    assert_eq!(Sched.intercepts().len(), 3);
    assert!(Sched.describe().starts_with("cooperative schedule-perturbation"));
}

fn running(state: &SchedState) -> Vec<usize> {
    (0..MAX_THREADS).filter(|slot| state.status(*slot) == Status::Running).collect()
}

#[test]
fn one_thread_has_the_baton_whatever_is_drawn() {
    for byte in 0..=255u8 {
        let (mut state, main, a, b) = with_two_workers();
        state.load_schedule(None);
        assert_eq!(running(&state), vec![main]);
        state.yield_baton(main);
        state.grant_next(Some(byte));
        let holder = state.running().unwrap();
        assert_eq!(running(&state), vec![holder]);
        let target = if holder == a { b } else { a };
        assert_eq!(state.join_step(holder, target, 0, true), JoinStep::HandOn);
        state.grant_next(Some(byte));
        let next = state.running().unwrap();
        assert_ne!(next, holder);
        assert_eq!(running(&state), vec![next]);
        state.exit(next);
        state.grant_next(Some(byte));
        assert_eq!(running(&state), state.running().into_iter().collect::<Vec<usize>>());
    }
}

#[test]
fn a_schedule_written_in_digits_is_read_back() {
    let bytes: Vec<u8> = (0..=255).collect();
    let plain: String = bytes.iter().map(|b| format!("{b:02x}")).collect();
    let spaced: String = bytes.iter().map(|b| format!("{b:02x}, ")).collect();
    for text in [plain, spaced] {
        let mut out = [0u8; SEQ_CAP];
        assert_eq!(parse_hex_seq(text.as_bytes(), &mut out), 256);
        assert_eq!(out.to_vec(), bytes);
    }
}

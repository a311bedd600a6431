use dfa_codegen::automaton::Automaton;
use dfa_codegen::automaton::State;
use dfa_codegen::automaton::StateKind;
use dfa_codegen::automaton::Transition;
use dfa_codegen::semantics::run_matcher;
use dfa_codegen::semantics::run_substring_matcher;
use dfa_codegen::table::build_resolved_table;

fn state(id: usize, accept: bool, trans: Vec<(usize, Vec<u8>)>) -> State {
    State {
        state_id: id,
        kind: if accept { StateKind::Accept } else { StateKind::Normal },
        transitions: trans
            .into_iter()
            .map(|(d, bytes)| Transition { to_state: d, bytes })
            .collect(),
    }
}

fn ab_dollar() -> Automaton {
    Automaton {
        states: vec![
            state(0, false, vec![(1, vec![b'a'])]),
            state(1, false, vec![(2, vec![b'b'])]),
            state(2, true, vec![]),
        ],
        has_end_anchor: true,
        substring_boundary: None,
        pattern: String::from("ab$"),
    }
}

#[test]
fn ab_dollar_accepts_exact_input() {
    let aut = ab_dollar();
    assert!(aut.check_wf());
    let t = build_resolved_table(&aut);
    let (fin, ok) = run_matcher(&aut, &t, &vec![b'a', b'b']);
    assert_eq!(fin, 2);
    assert!(ok);
}

#[test]
fn ab_dollar_rejects_trailing_bytes_in_sentinel() {
    let aut = ab_dollar();
    let t = build_resolved_table(&aut);
    // both walks must end in the invalid sentinel (3), not in state 2
    let (fin_c, ok_c) = run_matcher(&aut, &t, &vec![b'a', b'b', b'c']);
    assert_eq!(fin_c, 3);
    assert!(!ok_c);
    let (fin_x, ok_x) = run_matcher(&aut, &t, &vec![b'a', b'b', b'x']);
    assert_eq!(fin_x, 3);
    assert!(!ok_x);
}

#[test]
fn unmapped_byte_restarts_at_start_state() {
    let aut = ab_dollar();
    let t = build_resolved_table(&aut);
    // 'q' is unmapped everywhere: the walk falls back to state 0
    let (fin, ok) = run_matcher(&aut, &t, &vec![b'q']);
    assert_eq!(fin, 0);
    assert!(!ok);
}

#[test]
fn table_size_and_entry_range() {
    let aut = ab_dollar();
    let t = build_resolved_table(&aut);
    assert_eq!(t.len(), 256 * 3);
    for &e in t.iter() {
        assert!(e <= 3);
    }
}

#[test]
fn end_anchor_overwrites_accept_rows() {
    let aut = ab_dollar();
    let t = build_resolved_table(&aut);
    for b in 0..256usize {
        assert_eq!(t[2 * 256 + b], 3);
    }
}

#[test]
fn zero_default_for_unmapped_entries() {
    let aut = ab_dollar();
    let t = build_resolved_table(&aut);
    assert_eq!(t[0 * 256 + b'a' as usize], 1);
    assert_eq!(t[0 * 256 + b'b' as usize], 0);
    assert_eq!(t[1 * 256 + b'b' as usize], 2);
    assert_eq!(t[1 * 256 + b'a' as usize], 0);
}

#[test]
fn sentinel_pre_step_takes_declared_transition() {
    // a transition on the reserved byte 255 from state 0 is taken before any
    // real input
    let aut = Automaton {
        states: vec![
            state(0, false, vec![(1, vec![255])]),
            state(1, true, vec![]),
        ],
        has_end_anchor: false,
        substring_boundary: None,
        pattern: String::from("^"),
    };
    assert!(aut.check_wf());
    let t = build_resolved_table(&aut);
    let (fin, ok) = run_matcher(&aut, &t, &vec![]);
    assert_eq!(fin, 1);
    assert!(ok);
}

fn fanout(accepts: &[usize]) -> Automaton {
    let n = 4;
    let mut states = vec![state(
        0,
        accepts.contains(&0),
        vec![(1, vec![b'x']), (2, vec![b'y']), (3, vec![b'z'])],
    )];
    for id in 1..n {
        states.push(state(id, accepts.contains(&id), vec![]));
    }
    Automaton {
        states,
        has_end_anchor: false,
        substring_boundary: None,
        pattern: String::from("[xyz]"),
    }
}

fn final_of(aut: &Automaton, input: &[u8]) -> (usize, bool) {
    let t = build_resolved_table(aut);
    run_matcher(aut, &t, &input.to_vec())
}

#[test]
fn accept_check_one_state() {
    let aut = fanout(&[1]);
    for (input, fin) in [(&b""[..], 0), (&b"x"[..], 1), (&b"y"[..], 2), (&b"z"[..], 3)] {
        let (f, ok) = final_of(&aut, input);
        assert_eq!(f, fin);
        assert_eq!(ok, fin == 1);
    }
}

#[test]
fn accept_check_two_states() {
    let aut = fanout(&[1, 2]);
    for (input, fin) in [(&b""[..], 0), (&b"x"[..], 1), (&b"y"[..], 2), (&b"z"[..], 3)] {
        let (f, ok) = final_of(&aut, input);
        assert_eq!(f, fin);
        assert_eq!(ok, fin == 1 || fin == 2);
    }
}

#[test]
fn accept_check_three_states() {
    let aut = fanout(&[1, 2, 3]);
    for (input, fin) in [(&b""[..], 0), (&b"x"[..], 1), (&b"y"[..], 2), (&b"z"[..], 3)] {
        let (f, ok) = final_of(&aut, input);
        assert_eq!(f, fin);
        assert_eq!(ok, fin != 0);
    }
}

fn capture_automaton() -> Automaton {
    Automaton {
        states: vec![
            state(0, false, vec![(1, vec![b'a'])]),
            state(1, false, vec![(1, vec![b'b']), (2, vec![b'c'])]),
            state(2, true, vec![]),
        ],
        has_end_anchor: false,
        substring_boundary: Some(vec![(0, 1)]),
        pattern: String::from("ab*c"),
    }
}

#[test]
fn substring_collects_captured_range() {
    let aut = capture_automaton();
    assert!(aut.check_wf());
    let t = build_resolved_table(&aut);
    // the walk sits in the extraction state (1) for byte positions [0, 3)
    let (fin, ok, buf) = run_substring_matcher(&aut, &t, &vec![b'a', b'b', b'b', b'c']);
    assert_eq!(fin, 2);
    assert!(ok);
    assert_eq!(buf, vec![b'a', b'b', b'b']);
}

#[test]
fn substring_with_end_anchor_stops_collecting() {
    let mut aut = capture_automaton();
    aut.has_end_anchor = true;
    assert!(aut.check_wf());
    let t = build_resolved_table(&aut);
    let (fin, ok, buf) = run_substring_matcher(&aut, &t, &vec![b'a', b'b', b'c']);
    assert_eq!(fin, 2);
    assert!(ok);
    assert_eq!(buf, vec![b'a', b'b']);
    // a trailing byte lands in the sentinel and nothing more is collected
    let (fin2, ok2, buf2) = run_substring_matcher(&aut, &t, &vec![b'a', b'b', b'c', b'x']);
    assert_eq!(fin2, 3);
    assert!(!ok2);
    assert_eq!(buf2, vec![b'a', b'b']);
}

#[test]
fn substring_empty_when_state_unreached() {
    let aut = capture_automaton();
    let t = build_resolved_table(&aut);
    let (fin, ok, buf) = run_substring_matcher(&aut, &t, &vec![b'c', b'q']);
    assert_eq!(fin, 0);
    assert!(!ok);
    assert_eq!(buf, Vec::<u8>::new());
}

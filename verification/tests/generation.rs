use dfa_codegen::automaton::Automaton;
use dfa_codegen::automaton::GenError;
use dfa_codegen::automaton::State;
use dfa_codegen::automaton::StateKind;
use dfa_codegen::automaton::Transition;
use dfa_codegen::emit::to_noir_fn;

fn state(id: usize, accept: bool, trans: Vec<(usize, Vec<u8>)>) -> State {
    State {
        state_id: id,
        kind: if accept { StateKind::Accept } else { StateKind::Normal },
        transitions: trans
            .into_iter()
            .map(|(d, bytes)| Transition { to_state: d, bytes })
            .collect(),
    }
}

fn ab_dollar() -> Automaton {
    Automaton {
        states: vec![
            state(0, false, vec![(1, vec![b'a'])]),
            state(1, false, vec![(2, vec![b'b'])]),
            state(2, true, vec![]),
        ],
        has_end_anchor: true,
        substring_boundary: None,
        pattern: String::from("ab$"),
    }
}

#[test]
fn generation_is_idempotent() {
    let aut = ab_dollar();
    let first = to_noir_fn(&aut, false).unwrap();
    let second = to_noir_fn(&aut, false).unwrap();
    assert_eq!(first, second);
}

#[test]
fn exact_output_single_state() {
    let aut = Automaton {
        states: vec![state(0, true, vec![(0, vec![b'a'])])],
        has_end_anchor: false,
        substring_boundary: None,
        pattern: String::from("a*"),
    };
    assert!(aut.check_wf());
    let code = to_noir_fn(&aut, false).unwrap();
    let mut expected = String::new();
    for line in [
        "global table = comptime { make_lookup_table() };\n",
        "\n",
        "pub fn regex_match<let N: u32>(input: [u8; N]) {\n",
        "    // regex: a*\n",
        "    let mut s = 0;\n",
        "    s = table[s * 256 + 255];\n",
        "    for i in 0..input.len() {\n",
        "        s = table[s * 256 + input[i] as Field];\n",
        "    }\n",
        "    assert((s == 0), f\"no match: {s}\");\n",
        "}\n",
        "\n",
        "comptime fn make_lookup_table() -> [Field; 256] {\n",
        "    let mut table = [0; 256];\n",
        "    table[0 * 256 + 97] = 0;\n",
        "    table\n",
        "}\n",
    ] {
        expected.push_str(line);
    }
    assert_eq!(code, expected);
}

#[test]
fn exact_output_end_anchored() {
    let aut = ab_dollar();
    let code = to_noir_fn(&aut, false).unwrap();
    let mut expected = String::new();
    for line in [
        "global table = comptime { make_lookup_table() };\n",
        "\n",
        "pub fn regex_match<let N: u32>(input: [u8; N]) {\n",
        "    // regex: ab$\n",
        "    let mut s = 0;\n",
        "    s = table[s * 256 + 255];\n",
        "    for i in 0..input.len() {\n",
        "        s = if s == 3 { 3 } else { table[s * 256 + input[i] as Field] };\n",
        "    }\n",
        "    assert((s == 2), f\"no match: {s}\");\n",
        "}\n",
        "\n",
        "comptime fn make_lookup_table() -> [Field; 768] {\n",
        "    let mut table = [0; 768];\n",
        "    table[0 * 256 + 97] = 1;\n",
        "    table[1 * 256 + 98] = 2;\n",
        "    for i in 0..256 {\n",
        "        table[2 * 256 + i] = 3;\n",
        "    }\n",
        "    table\n",
        "}\n",
    ] {
        expected.push_str(line);
    }
    assert_eq!(code, expected);
}

#[test]
fn accept_disjunction_in_output() {
    let aut = Automaton {
        states: vec![
            state(0, false, vec![(1, vec![b'x']), (2, vec![b'y'])]),
            state(1, true, vec![]),
            state(2, true, vec![]),
        ],
        has_end_anchor: false,
        substring_boundary: None,
        pattern: String::from("x|y"),
    };
    let code = to_noir_fn(&aut, false).unwrap();
    assert!(code.contains("assert((s == 1) | (s == 2), f\"no match: {s}\");"));
}

#[test]
fn substring_variant_emitted_with_boundary() {
    let aut = Automaton {
        states: vec![
            state(0, false, vec![(1, vec![b'a'])]),
            state(1, false, vec![(1, vec![b'b']), (2, vec![b'c'])]),
            state(2, true, vec![]),
        ],
        has_end_anchor: false,
        substring_boundary: Some(vec![(0, 1)]),
        pattern: String::from("ab*c"),
    };
    let code = to_noir_fn(&aut, false).unwrap();
    assert!(code.contains("pub fn regex_match_substring<let N: u32>(input: [u8; N]) -> BoundedVec<u8, N> {"));
    assert!(code.contains("        if s == 1 {\n            substring.push(input[i]);\n        }\n"));
    // the plain matcher and the table routine are still present
    assert!(code.contains("pub fn regex_match<let N: u32>(input: [u8; N]) {"));
    assert!(code.contains("comptime fn make_lookup_table() -> [Field; 768] {"));
}

#[test]
fn no_substring_variant_without_boundary() {
    let code = to_noir_fn(&ab_dollar(), false).unwrap();
    assert!(!code.contains("regex_match_substring"));
}

#[test]
fn no_accept_states_is_an_error() {
    let aut = Automaton {
        states: vec![state(0, false, vec![(0, vec![b'a'])])],
        has_end_anchor: false,
        substring_boundary: None,
        pattern: String::from("a"),
    };
    assert_eq!(to_noir_fn(&aut, false), Err(GenError::NoAcceptStates));
}

#[test]
fn dead_end_state_is_an_error() {
    let aut = Automaton {
        states: vec![
            state(0, false, vec![]),
            state(1, true, vec![]),
        ],
        has_end_anchor: false,
        substring_boundary: None,
        pattern: String::from("?"),
    };
    assert_eq!(to_noir_fn(&aut, false), Err(GenError::NoOutgoingTransitions(0)));
}

#[test]
fn accept_transitions_rejected_under_policy() {
    let aut = Automaton {
        states: vec![
            state(0, false, vec![(1, vec![b'a'])]),
            state(1, true, vec![(1, vec![b'b'])]),
        ],
        has_end_anchor: false,
        substring_boundary: None,
        pattern: String::from("ab*"),
    };
    assert_eq!(
        to_noir_fn(&aut, true),
        Err(GenError::AcceptStateHasTransitions(1))
    );
    assert!(to_noir_fn(&aut, false).is_ok());
}

#[test]
fn error_diagnostics_name_the_invariant() {
    assert_eq!(
        GenError::NoAcceptStates.describe(),
        "automaton has no accept states"
    );
    assert_eq!(
        GenError::NoOutgoingTransitions(7).describe(),
        "non-accept state 7 has no outgoing transitions"
    );
    assert_eq!(
        GenError::AcceptStateHasTransitions(12).describe(),
        "accept state 12 has outgoing transitions, which the configured policy forbids"
    );
}

#[test]
fn check_wf_accepts_and_rejects() {
    assert!(ab_dollar().check_wf());
    // state id out of line with its position
    let bad_id = Automaton {
        states: vec![state(5, true, vec![])],
        has_end_anchor: false,
        substring_boundary: None,
        pattern: String::new(),
    };
    assert!(!bad_id.check_wf());
    // transition to a state that does not exist
    let dangling = Automaton {
        states: vec![state(0, true, vec![(9, vec![b'a'])])],
        has_end_anchor: false,
        substring_boundary: None,
        pattern: String::new(),
    };
    assert!(!dangling.check_wf());
    // one byte owned by two transitions of the same state
    let dup_across = Automaton {
        states: vec![
            state(0, false, vec![(1, vec![b'a']), (1, vec![b'a'])]),
            state(1, true, vec![]),
        ],
        has_end_anchor: false,
        substring_boundary: None,
        pattern: String::new(),
    };
    assert!(!dup_across.check_wf());
    // one byte listed twice in the same transition
    let dup_within = Automaton {
        states: vec![
            state(0, false, vec![(1, vec![b'a', b'a'])]),
            state(1, true, vec![]),
        ],
        has_end_anchor: false,
        substring_boundary: None,
        pattern: String::new(),
    };
    assert!(!dup_within.check_wf());
    // boundary metadata present but empty, or naming unknown states
    let empty_boundary = Automaton {
        states: vec![state(0, true, vec![])],
        has_end_anchor: false,
        substring_boundary: Some(vec![]),
        pattern: String::new(),
    };
    assert!(!empty_boundary.check_wf());
    let bad_boundary = Automaton {
        states: vec![state(0, true, vec![])],
        has_end_anchor: false,
        substring_boundary: Some(vec![(0, 4)]),
        pattern: String::new(),
    };
    assert!(!bad_boundary.check_wf());
}

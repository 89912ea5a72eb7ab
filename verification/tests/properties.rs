use automaton::dfa::machine::{DFABuilder, DFABuilding, DFAError};
use automaton::dfa::reader::{DFAReader, DFAReaderError};
use automaton::e_nfa::machine::{ENFABuilder, ENFABuilding};
use automaton::nfa::machine::{NFABuilder, NFABuilding};
use automaton::states::StateSet;

fn cyclic_dfa() -> automaton::dfa::machine::DFA {
    // (abc)* over {a, b, c}: start = final = 0, a: 0 -> 1, b: 1 -> 2, c: 2 -> 0.
    DFABuilder::new()
        .add_start(0)
        .add_final(0)
        .add_transition('a', 0, 1)
        .add_transition('b', 1, 2)
        .add_transition('c', 2, 0)
        .finalize()
        .unwrap()
}

#[test]
fn cyclic_dfa_scenarios() {
    let dfa = cyclic_dfa();
    assert!(dfa.test("abc"));
    assert!(dfa.test(""));
    assert!(!dfa.test("ab"));
    assert!(dfa.test("abcabc"));
    assert!(!dfa.test("abca"));
}

#[test]
fn cyclic_nfa_scenarios() {
    let nfa = NFABuilder::new()
        .add_start(0)
        .add_final(0)
        .add_transition('a', 0, 1)
        .add_transition('b', 1, 2)
        .add_transition('c', 2, 0)
        .finalize()
        .unwrap();
    assert!(nfa.test("abc"));
    assert!(nfa.test(""));
    assert!(!nfa.test("ab"));
    assert!(nfa.test("abcabc"));
    assert!(!nfa.test("abca"));
}

#[test]
fn cyclic_enfa_scenarios() {
    let nfa = ENFABuilder::new()
        .add_start(0)
        .add_final(0)
        .add_transition('a', 0, 1)
        .add_transition('b', 1, 2)
        .add_transition('c', 2, 0)
        .finalize()
        .unwrap();
    assert!(nfa.test("abc"));
    assert!(nfa.test(""));
    assert!(!nfa.test("ab"));
    assert!(nfa.test("abcabc"));
    assert!(!nfa.test("abca"));
}

#[test]
fn repeated_tests_agree() {
    let dfa = cyclic_dfa();
    let first = dfa.test("abcabc");
    let second = dfa.test("abcabc");
    assert_eq!(first, second);
    let third = dfa.test("abca");
    let fourth = dfa.test("abca");
    assert_eq!(third, fourth);
}

#[test]
fn duplicate_transition_two_destinations() {
    let dfa = DFABuilder::new()
        .add_start(0)
        .add_final(1)
        .add_transition('a', 0, 1)
        .add_transition('a', 0, 2)
        .finalize();
    match dfa {
        Err(DFAError::DuplicatedTransition(sy, sr)) => assert!((sy, sr) == ('a', 0)),
        _ => assert!(false, "DuplicatedTransition expected."),
    }
}

#[test]
fn duplicate_transition_same_destination() {
    // Registering the same (symbol, source) pair a second time fails even
    // when the destination is unchanged.
    let dfa = DFABuilder::new()
        .add_start(0)
        .add_final(1)
        .add_transition('a', 0, 1)
        .add_transition('a', 0, 1)
        .finalize();
    match dfa {
        Err(DFAError::DuplicatedTransition(sy, sr)) => assert!((sy, sr) == ('a', 0)),
        _ => assert!(false, "DuplicatedTransition expected."),
    }
}

#[test]
fn epsilon_closure_reaches_final_on_empty_word() {
    // Start 0, epsilon 0 -> 1, final {1}: the empty word is accepted because
    // the epsilon closure of {0} holds the final state 1.
    let nfa = ENFABuilder::new()
        .add_start(0)
        .add_final(1)
        .add_e_transition(0, 1)
        .finalize()
        .unwrap();
    assert!(nfa.test(""));
}

#[test]
fn epsilon_moves_in_the_middle_of_a_word() {
    // a: 0 -> 1, epsilon 1 -> 2, b: 2 -> 3, final {3}: "ab" is accepted only
    // because the state set is epsilon-closed after each consumed symbol.
    let nfa = ENFABuilder::new()
        .add_start(0)
        .add_final(3)
        .add_transition('a', 0, 1)
        .add_e_transition(1, 2)
        .add_transition('b', 2, 3)
        .finalize()
        .unwrap();
    assert!(nfa.test("ab"));
    assert!(!nfa.test("a"));
    assert!(!nfa.test("b"));
    assert!(!nfa.test(""));
}

#[test]
fn epsilon_closure_idempotent_on_a_cycle() {
    let nfa = ENFABuilder::new()
        .add_start(0)
        .add_final(0)
        .add_e_transition(0, 1)
        .add_e_transition(1, 2)
        .add_e_transition(2, 0)
        .finalize()
        .unwrap();
    let init = StateSet::new().insert(0);
    let once = nfa.epsilon_closure(&init);
    assert_eq!(once.len(), 3);
    assert!(once.contains(0) && once.contains(1) && once.contains(2));
    let twice = nfa.epsilon_closure(&once);
    assert_eq!(twice.len(), 3);
    assert!(twice.contains(0) && twice.contains(1) && twice.contains(2));
}

#[test]
fn nfa_accepts_what_the_dfa_accepts() {
    // The same transitions read as a DFA and as an NFA: every word the DFA
    // accepts, the NFA accepts too.
    let dfa = cyclic_dfa();
    let nfa = NFABuilder::new()
        .add_start(0)
        .add_final(0)
        .add_transition('a', 0, 1)
        .add_transition('b', 1, 2)
        .add_transition('c', 2, 0)
        .finalize()
        .unwrap();
    for input in ["", "abc", "abcabc", "ab", "abca"] {
        if dfa.test(input) {
            assert!(nfa.test(input), "input: \"{}\"", input);
        }
    }
}

#[test]
fn reader_parses_multi_digit_states() {
    let model = "10\n\
             12 13\n\
             a 10 12\n\
             b 10 13";
    let dfa = DFAReader::new_from_string(model).unwrap();
    assert_eq!(dfa.start(), 10);
    let mut finals = dfa.finals();
    finals.sort();
    assert_eq!(finals, vec![12, 13]);
    assert!(dfa.test("a"));
    assert!(dfa.test("b"));
    assert!(!dfa.test("c"));
}

#[test]
fn reader_accepts_plus_sign_and_comments() {
    let model = "# the start state\n\
             +7   # with a sign\n\
             \n\
             8\n\
             x 7 8";
    let dfa = DFAReader::new_from_string(model).unwrap();
    assert_eq!(dfa.start(), 7);
    assert!(dfa.test("x"));
    assert!(!dfa.test(""));
}

#[test]
fn reader_incomplete_transition() {
    let model = "0\n\
             3\n\
             a 0";
    match DFAReader::new_from_string(model) {
        Err(DFAReaderError::IncompleteTransition(line)) => assert!(line == 3),
        _ => assert!(false, "IncompleteTransition expected."),
    }
}

#[test]
fn reader_overflowing_state_is_a_parse_error() {
    let model = "99999999999999999999999999999999999999\n\
             3";
    match DFAReader::new_from_string(model) {
        Err(DFAReaderError::Parse(_, line)) => assert!(line == 1),
        _ => assert!(false, "Parse expected."),
    }
}

#[test]
fn dead_input_stays_rejected() {
    let dfa = cyclic_dfa();
    assert!(!dfa.test("x"));
    assert!(!dfa.test("abcx"));
    assert!(!dfa.test("xabc"));
}

#[test]
fn state_set_operations() {
    let s = StateSet::new();
    assert!(s.is_empty());
    let s = s.insert(4).insert(2).insert(4);
    assert!(!s.is_empty());
    assert_eq!(s.len(), 2);
    assert!(s.contains(4) && s.contains(2) && !s.contains(3));
    let mut v = s.to_vec();
    v.sort();
    assert_eq!(v, vec![2, 4]);
}

use automaton::e_nfa::reader::{ENFAReader, ENFAReaderError};

#[test]
fn enfa_test_empty_file() {
    let model = "";
    match ENFAReader::new_from_string(model) {
        Err(ENFAReaderError::MissingStartingState) => assert!(true),
        _ => assert!(false, "MissingStartingState expected."),
    }
}

#[test]
fn enfa_test_start_not_a_number() {
    let model = "a";
    match ENFAReader::new_from_string(model) {
        Err(ENFAReaderError::Parse(_, line)) => assert!(line == 1),
        _ => assert!(false, "Parse expected."),
    }
}

#[test]
fn enfa_test_many_starts() {
    let model = "0 1\n\
             3\n\
             a 0 1\n\
             c 0 3\n\
             b 1 2\n\
             a 2 1\n\
             c 2 3";
    match ENFAReader::new_from_string(model) {
        Err(ENFAReaderError::Parse(_, line)) => assert!(line == 1),
        _ => assert!(false, "Parse expected."),
    }
}

#[test]
fn enfa_test_no_finals() {
    let model = "1\n\
            ";
    match ENFAReader::new_from_string(model) {
        Err(ENFAReaderError::MissingFinalStates) => assert!(true),
        _ => assert!(false, "MissingFinalStates expected."),
    }
}

#[test]
fn enfa_test_finals_not_a_number() {
    let model = "1\n\
             2 a 3";
    match ENFAReader::new_from_string(model) {
        Err(ENFAReaderError::Parse(_, line)) => assert!(line == 2),
        _ => assert!(false, "Parse expected."),
    }
}

#[test]
fn enfa_test_no_transistions() {
    let model = "0\n\
             3";
    let _nfa = ENFAReader::new_from_string(&model).unwrap();
}

#[test]
fn enfa_test_transitions_with_at_least_four_elements() {
    let model = "0\n\
             3\n\
             a 0 1 8";
    match ENFAReader::new_from_string(model) {
        Err(ENFAReaderError::IllformedTransition(line)) => assert!(line == 3),
        _ => assert!(false, "IllformedTransition expected."),
    }
}

#[test]
fn enfa_test_transitions_start_with_at_least_two_chars() {
    let model = "0\n\
             3\n\
             ab 2 3";
    match ENFAReader::new_from_string(model) {
        Err(ENFAReaderError::IllformedTransition(line)) => assert!(line == 3),
        _ => assert!(false, "IllformedTransition expected."),
    }
}

#[test]
fn enfa_test_transitions_with_src_not_a_number() {
    let model = "0\n\
             3\n\
             c b 3";
    match ENFAReader::new_from_string(model) {
        Err(ENFAReaderError::Parse(_, line)) => assert!(line == 3),
        _ => assert!(false, "Parse expected."),
    }
}

#[test]
fn enfa_test_transitions_with_dest_not_a_number() {
    let model = "0\n\
             3\n\
             c 2 b";
    match ENFAReader::new_from_string(model) {
        Err(ENFAReaderError::Parse(_, line)) => assert!(line == 3),
        _ => assert!(false, "Parse expected."),
    }
}

#[test]
fn enfa_test_epsilon_transition_line() {
    // A two-token line is an epsilon transition; with start 0, epsilon
    // 0 -> 1 and final state 1, the empty word is accepted.
    let model = "0\n\
             1\n\
             0 1";
    let nfa = ENFAReader::new_from_string(model).unwrap();
    assert!(nfa.test(""));
    let eps = nfa.e_transitions();
    assert_eq!(eps, vec![(0, 1)]);
}

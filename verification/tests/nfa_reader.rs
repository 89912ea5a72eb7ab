use automaton::nfa::reader::{NFAReader, NFAReaderError};

#[test]
fn reader_test_empty_file() {
    let model = "";
    match NFAReader::new_from_string(model) {
        Err(NFAReaderError::MissingStartingState) => assert!(true),
        _ => assert!(false, "MissingStartingState expected."),
    }
}

#[test]
fn reader_test_start_not_a_number() {
    let model = "a";
    match NFAReader::new_from_string(model) {
        Err(NFAReaderError::Parse(_, line)) => assert!(line == 1),
        _ => assert!(false, "Parse expected."),
    }
}

#[test]
fn reader_test_many_starts() {
    let model = "0 1\n\
             3\n\
             a 0 1\n\
             c 0 3\n\
             b 1 2\n\
             a 2 1\n\
             c 2 3";
    match NFAReader::new_from_string(model) {
        Err(NFAReaderError::Parse(_, line)) => assert!(line == 1),
        _ => assert!(false, "Parse expected."),
    }
}

#[test]
fn reader_test_no_finals() {
    let model = "1\n\
            ";
    match NFAReader::new_from_string(model) {
        Err(NFAReaderError::MissingFinalStates) => assert!(true),
        _ => assert!(false, "MissingFinalStates expected."),
    }
}

#[test]
fn reader_test_finals_not_a_number() {
    let model = "1\n\
             2 a 3";
    match NFAReader::new_from_string(model) {
        Err(NFAReaderError::Parse(_, line)) => assert!(line == 2),
        _ => assert!(false, "Parse expected."),
    }
}

#[test]
fn reader_test_no_transistions() {
    let model = "0\n\
             3";
    let _nfa = NFAReader::new_from_string(&model).unwrap();
}

#[test]
fn reader_test_transitions_with_at_least_four_elements() {
    let model = "0\n\
             3\n\
             a 0 1 8";
    match NFAReader::new_from_string(model) {
        Err(NFAReaderError::IllformedTransition(line)) => assert!(line == 3),
        _ => assert!(false, "IllformedTransition expected."),
    }
}

#[test]
fn reader_test_transitions_start_with_at_least_two_chars() {
    let model = "0\n\
             3\n\
             ab 2 3";
    match NFAReader::new_from_string(model) {
        Err(NFAReaderError::IllformedTransition(line)) => assert!(line == 3),
        _ => assert!(false, "IllformedTransition expected."),
    }
}

#[test]
fn reader_test_transitions_with_src_not_a_number() {
    let model = "0\n\
             3\n\
             c b 3";
    match NFAReader::new_from_string(model) {
        Err(NFAReaderError::Parse(_, line)) => assert!(line == 3),
        _ => assert!(false, "Parse expected."),
    }
}

#[test]
fn reader_test_transitions_with_dest_not_a_number() {
    let model = "0\n\
             3\n\
             c 2 b";
    match NFAReader::new_from_string(model) {
        Err(NFAReaderError::Parse(_, line)) => assert!(line == 3),
        _ => assert!(false, "Parse expected."),
    }
}

#[test]
fn reader_test_duplicated_transition() {
    // Registering two destinations for one (symbol, source) pair is a set
    // union for an NFA, never an error: both edges must be present.
    let model = "0\n\
             3\n\
             c 2 3\n\
             c 2 4";
    let nfa = NFAReader::new_from_string(model).unwrap();
    let edges = nfa.transitions();
    assert!(edges.contains(&('c', 2, 3)));
    assert!(edges.contains(&('c', 2, 4)));
    assert_eq!(edges.len(), 2);
}

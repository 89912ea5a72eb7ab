use automaton::dfa::reader::{DFAReader, DFAReaderError};

#[test]
fn test_empty_file() {
    let model = "";
    match DFAReader::new_from_string(model) {
        Err(DFAReaderError::MissingStartingState) => assert!(true),
        _ => assert!(false, "MissingStartingState expected."),
    }
}

#[test]
fn test_start_not_a_number() {
    let model = "a";
    match DFAReader::new_from_string(model) {
        Err(DFAReaderError::Parse(_, line)) => assert!(line == 1),
        _ => assert!(false, "Parse expected."),
    }
}

#[test]
fn test_many_starts() {
    let model = "0 1\n\
             3\n\
             a 0 1\n\
             c 0 3\n\
             b 1 2\n\
             a 2 1\n\
             c 2 3";
    match DFAReader::new_from_string(model) {
        Err(DFAReaderError::Parse(_, line)) => assert!(line == 1),
        _ => assert!(false, "Parse expected."),
    }
}

#[test]
fn test_no_finals() {
    let model = "1\n\
            ";
    match DFAReader::new_from_string(model) {
        Err(DFAReaderError::MissingFinalStates) => assert!(true),
        _ => assert!(false, "MissingFinalStates expected."),
    }
}

#[test]
fn test_finals_not_a_number() {
    let model = "1\n\
             2 a 3";
    match DFAReader::new_from_string(model) {
        Err(DFAReaderError::Parse(_, line)) => assert!(line == 2),
        _ => assert!(false, "Parse expected."),
    }
}

#[test]
fn test_no_transistions() {
    let model = "0\n\
             3";
    let _dfa = DFAReader::new_from_string(&model).unwrap();
}

#[test]
fn test_transitions_with_at_least_four_elements() {
    let model = "0\n\
             3\n\
             a 0 1 8";
    match DFAReader::new_from_string(model) {
        Err(DFAReaderError::IllformedTransition(line)) => assert!(line == 3),
        _ => assert!(false, "IllformedTransition expected."),
    }
}

#[test]
fn test_transitions_start_with_at_least_two_chars() {
    let model = "0\n\
             3\n\
             ab 2 3";
    match DFAReader::new_from_string(model) {
        Err(DFAReaderError::IllformedTransition(line)) => assert!(line == 3),
        _ => assert!(false, "IllformedTransition expected."),
    }
}

#[test]
fn test_transitions_with_src_not_a_number() {
    let model = "0\n\
             3\n\
             c b 3";
    match DFAReader::new_from_string(model) {
        Err(DFAReaderError::Parse(_, line)) => assert!(line == 3),
        _ => assert!(false, "Parse expected."),
    }
}

#[test]
fn test_transitions_with_dest_not_a_number() {
    let model = "0\n\
             3\n\
             c 2 b";
    match DFAReader::new_from_string(model) {
        Err(DFAReaderError::Parse(_, line)) => assert!(line == 3),
        _ => assert!(false, "Parse expected."),
    }
}

#[test]
fn test_duplicated_transition() {
    let model = "0\n\
             3\n\
             c 2 3\n\
             c 2 4";
    match DFAReader::new_from_string(model) {
        Err(DFAReaderError::DFA(_, line)) => assert!(line == 4),
        _ => assert!(false, "DuplicatedTransition expected."),
    }
}

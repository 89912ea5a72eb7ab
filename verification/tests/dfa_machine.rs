use automaton::dfa::machine::{DFABuilder, DFABuilding, DFAError};

#[test]
fn test_dfa() {
    let dfa = DFABuilder::new()
        .add_start(0)
        .add_final(3)
        .add_transition('a', 0, 1)
        .add_transition('c', 0, 3)
        .add_transition('b', 1, 2)
        .add_transition('a', 2, 1)
        .add_transition('c', 2, 3)
        .finalize()
        .unwrap();
    let samples = vec![
        ("ababac", false),
        ("ababc", true),
        ("", false),
        ("abc", true),
        ("c", true),
        ("ac", false),
        ("ababababababababababababababababababababc", true),
    ];

    for (input, expected_result) in samples {
        assert!(dfa.test(input) == expected_result, "input false for: \"{}\"", input);
    }
}

#[test]
fn test_dfa_builder() {
    let _dfa = DFABuilder::new()
        .add_start(0)
        .add_final(3)
        .add_transition('a', 0, 1)
        .add_transition('c', 0, 3)
        .add_transition('b', 1, 2)
        .add_transition('a', 2, 1)
        .add_transition('c', 2, 3)
        .finalize()
        .unwrap();
}

#[test]
fn test_dfa_builder_duplicated_transition() {
    let dfa = DFABuilder::new()
        .add_start(0)
        .add_final(3)
        .add_transition('a', 0, 1)
        .add_transition('c', 0, 3)
        .add_transition('b', 1, 2)
        .add_transition('a', 2, 1)
        .add_transition('c', 2, 3)
        .add_transition('a', 0, 2)
        .finalize();
    match dfa {
        Err(DFAError::DuplicatedTransition(sy, sr)) => assert!((sy, sr) == ('a', 0)),
        _ => assert!(false, "DuplicatedTransition expected."),
    }
}

#[test]
fn test_dfa_builder_missing_start() {
    let dfa = DFABuilder::new().add_final(3).add_transition('a', 0, 1).finalize();
    match dfa {
        Err(DFAError::MissingStartingState) => assert!(true),
        _ => assert!(false, "MissingStartingState expected."),
    }
}

#[test]
fn test_dfa_builder_missing_finals() {
    let dfa = DFABuilder::new().add_start(0).add_transition('a', 0, 1).finalize();
    match dfa {
        Err(DFAError::MissingFinalStates) => assert!(true),
        _ => assert!(false, "MissingFinalStates expected."),
    }
}

#[test]
fn dfa_test_dfa() {
    let dfa = DFABuilder::new()
        .add_start(0)
        .add_final(3)
        .add_transition('a', 0, 1)
        .add_transition('c', 0, 3)
        .add_transition('b', 1, 2)
        .add_transition('a', 2, 1)
        .add_transition('c', 2, 3)
        .finalize()
        .unwrap();
    let samples = vec![
        ("ababac", false),
        ("ababc", true),
        ("", false),
        ("abc", true),
        ("c", true),
        ("ac", false),
        ("ababababababababababababababababababababc", true),
    ];

    for (input, expected_result) in samples {
        assert!(dfa.test(input) == expected_result, "input false for: \"{}\"", input);
    }
}

#[test]
fn dfa_test_dfa_builder() {
    let _dfa = DFABuilder::new()
        .add_start(0)
        .add_final(3)
        .add_transition('a', 0, 1)
        .add_transition('c', 0, 3)
        .add_transition('b', 1, 2)
        .add_transition('a', 2, 1)
        .add_transition('c', 2, 3)
        .finalize()
        .unwrap();
}

#[test]
fn dfa_test_dfa_builder_duplicated_transition() {
    let dfa = DFABuilder::new()
        .add_start(0)
        .add_final(3)
        .add_transition('a', 0, 1)
        .add_transition('c', 0, 3)
        .add_transition('b', 1, 2)
        .add_transition('a', 2, 1)
        .add_transition('c', 2, 3)
        .add_transition('a', 0, 2)
        .finalize();
    match dfa {
        Err(DFAError::DuplicatedTransition(sy, sr)) => assert!((sy, sr) == ('a', 0)),
        _ => assert!(false, "DuplicatedTransition expected."),
    }
}

#[test]
fn dfa_test_dfa_builder_missing_start() {
    let dfa = DFABuilder::new().add_final(3).add_transition('a', 0, 1).finalize();
    match dfa {
        Err(DFAError::MissingStartingState) => assert!(true),
        _ => assert!(false, "MissingStartingState expected."),
    }
}

#[test]
fn dfa_test_dfa_builder_missing_finals() {
    let dfa = DFABuilder::new().add_start(0).add_transition('a', 0, 1).finalize();
    match dfa {
        Err(DFAError::MissingFinalStates) => assert!(true),
        _ => assert!(false, "MissingFinalStates expected."),
    }
}

use automaton::e_nfa::machine::{ENFABuilder, ENFABuilding, ENFAError};

#[test]
fn core_test_nfa() {
    let nfa = ENFABuilder::new()
        .add_start(0)
        .add_final(3)
        .add_transition('a', 0, 1)
        .add_transition('c', 0, 3)
        .add_transition('b', 1, 2)
        .add_transition('a', 2, 1)
        .add_transition('c', 2, 3)
        .finalize()
        .unwrap();
    let samples = vec![
        ("ababac", false),
        ("ababc", true),
        ("", false),
        ("abc", true),
        ("c", true),
        ("ac", false),
        ("ababababababababababababababababababababc", true),
    ];

    for (input, expected_result) in samples {
        assert!(nfa.test(input) == expected_result, "input false for: \"{}\"", input);
    }
}

#[test]
fn core_test_nfa_builder() {
    let _nfa = ENFABuilder::new()
        .add_start(0)
        .add_final(3)
        .add_transition('a', 0, 1)
        .add_transition('c', 0, 3)
        .add_transition('b', 1, 2)
        .add_transition('a', 2, 1)
        .add_transition('c', 2, 3)
        .finalize()
        .unwrap();
}

#[test]
fn core_test_nfa_builder_missing_start() {
    let nfa = ENFABuilder::new().add_final(3).add_transition('a', 0, 1).finalize();
    match nfa {
        Err(ENFAError::MissingStartingState) => assert!(true),
        _ => assert!(false, "MissingStartingState expected."),
    }
}

#[test]
fn core_test_nfa_builder_missing_finals() {
    let nfa = ENFABuilder::new().add_start(0).add_transition('a', 0, 1).finalize();
    match nfa {
        Err(ENFAError::MissingFinalStates) => assert!(true),
        _ => assert!(false, "MissingFinalStates expected."),
    }
}

use word_chain::ServerState;
use word_chain::StateError;

fn words(list: &[&str]) -> Vec<String> {
    list.iter().map(|w| w.to_string()).collect()
}

#[test]
fn empty_dictionary_is_rejected() {
    assert!(matches!(ServerState::new(words(&[])), Err(StateError::EmptyDictionary)));
    assert!(matches!(ServerState::new(words(&["ab", "a", ""])), Err(StateError::EmptyDictionary)));
}

#[test]
fn initial_word_is_a_dictionary_member() {
    let state = ServerState::new(words(&["cat"])).unwrap();
    assert_eq!(state.current_word(), "cat");
}

#[test]
fn forced_initial_word_must_be_eligible() {
    assert!(matches!(
        ServerState::new_with_word(words(&["cat", "tap"]), "dog"),
        Err(StateError::WordNotEligible)
    ));
    assert!(matches!(
        ServerState::new_with_word(words(&["cat", "ab"]), "ab"),
        Err(StateError::WordNotEligible)
    ));
    let state = ServerState::new_with_word(words(&["cat", "tap"]), "tap").unwrap();
    assert_eq!(state.current_word(), "tap");
}

#[test]
fn guess_without_overlap_is_rejected() {
    let mut state = ServerState::new_with_word(words(&["cat", "tiger", "rat"]), "cat").unwrap();
    assert!(!state.try_accept("tiger"));
    assert_eq!(state.current_word(), "cat");
}

#[test]
fn current_word_cannot_be_guessed() {
    let mut state = ServerState::new_with_word(words(&["cat", "tiger", "rat"]), "cat").unwrap();
    assert!(!state.try_accept("cat"));
    assert_eq!(state.current_word(), "cat");
}

#[test]
fn guess_outside_dictionary_is_rejected() {
    let mut state = ServerState::new_with_word(words(&["tap", "cat"]), "tap").unwrap();
    assert!(!state.try_accept("tapir"));
    assert_eq!(state.current_word(), "tap");
}

#[test]
fn overlapping_dictionary_guess_is_accepted() {
    let mut state = ServerState::new_with_word(words(&["tap", "cat"]), "tap").unwrap();
    assert!(state.try_accept("cat"));
    assert_eq!(state.current_word(), "cat");
}

#[test]
fn used_word_is_never_accepted_twice() {
    let mut state = ServerState::new_with_word(words(&["aba", "bab"]), "aba").unwrap();
    assert!(state.try_accept("bab"));
    assert!(state.try_accept("aba"));
    assert_eq!(state.current_word(), "aba");
    assert!(!state.try_accept("bab"));
    assert_eq!(state.current_word(), "aba");
}

#[test]
fn rejected_guess_leaves_state_reusable() {
    let mut state = ServerState::new_with_word(words(&["tap", "cat", "tiger"]), "tap").unwrap();
    assert!(!state.try_accept("tiger"));
    assert!(state.try_accept("cat"));
    assert_eq!(state.current_word(), "cat");
}

use automata::grammar::{ParseError, Reference};
use automata::nfa::{ResolveError, NFA};

fn two_state() -> NFA {
    NFA::try_from(String::from("q0,q1\na,b\nq0\nq1\nq0,a=>q1\n")).unwrap()
}

fn sorted(mut v: Vec<String>) -> Vec<String> {
    v.sort();
    v
}

#[test]
fn single_transition_is_followed_and_accepted() {
    let nfa = two_state();
    let frontier = nfa.resolve_transitions(vec!["a"]).unwrap();
    assert_eq!(frontier, vec![String::from("q1")]);
    assert!(nfa.is_any_state_final(frontier));
}

#[test]
fn symbol_without_transition_empties_the_frontier() {
    let nfa = two_state();
    let frontier = nfa.resolve_transitions(vec!["b"]).unwrap();
    assert_eq!(frontier, Vec::<String>::new());
    assert!(!nfa.is_any_state_final(frontier));
}

#[test]
fn two_lines_for_one_symbol_both_count() {
    let nfa = NFA::try_from(String::from("q0,q1,q2\na\nq0\nq2\nq0,a=>q1\nq0,a=>q2")).unwrap();
    let frontier = nfa.resolve_transitions(vec!["a"]).unwrap();
    assert_eq!(sorted(frontier.clone()), vec![String::from("q1"), String::from("q2")]);
    assert!(nfa.is_any_state_final(frontier));
}

#[test]
fn symbol_outside_the_alphabet_fails_resolution() {
    let nfa = two_state();
    assert_eq!(
        nfa.resolve_transitions(vec!["c"]),
        Err(ResolveError::UnknownSymbolDuringResolution(String::from("c")))
    );
}

#[test]
fn undeclared_destination_is_rejected() {
    let r = NFA::try_from(String::from("q0,q1\na,b\nq0\nq1\nq0,a=>q1,q9\n"));
    assert_eq!(r.err(), Some(ParseError::UnknownStateReference(Reference::TransitionDestination)));
}

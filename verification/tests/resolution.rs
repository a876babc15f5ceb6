use automata::nfa::{ResolveError, NFA};

fn owned(names: Vec<&str>) -> Vec<String> {
    names.into_iter().map(String::from).collect()
}

fn sorted(mut names: Vec<String>) -> Vec<String> {
    names.sort();
    names
}

// Reads a then any number of b, then c: q0 -a-> q1, q1 -b-> q1, q1 -c-> q2.
// On a, q0 also goes to the dead end q3.
fn sample() -> NFA {
    NFA::try_from(String::from(
        "q0,q1,q2,q3\na,b,c\nq0\nq2\nq0,a=>q1,q3\nq1,b=>q1\nq1,c=>q2\n",
    ))
    .unwrap()
}

fn unknown(symbol: &str) -> Result<Vec<String>, ResolveError> {
    Err(ResolveError::UnknownSymbolDuringResolution(String::from(symbol)))
}

#[test]
fn empty_input_resolves_to_the_initial_state() {
    assert_eq!(sample().resolve_transitions(vec![]), Ok(owned(vec!["q0"])));
    let other = NFA::try_from(String::from("x,y\n0\ny\nx\ny,0=>x\n")).unwrap();
    assert_eq!(other.resolve_transitions(vec![]), Ok(owned(vec!["y"])));
}

#[test]
fn frontier_follows_every_transition() {
    let nfa = sample();
    assert_eq!(sorted(nfa.resolve_transitions(vec!["a"]).unwrap()), owned(vec!["q1", "q3"]));
    assert_eq!(nfa.resolve_transitions(vec!["a", "b"]), Ok(owned(vec!["q1"])));
    assert_eq!(nfa.resolve_transitions(vec!["a", "b", "b", "b"]), Ok(owned(vec!["q1"])));
    assert_eq!(nfa.resolve_transitions(vec!["a", "b", "c"]), Ok(owned(vec!["q2"])));
    assert_eq!(nfa.resolve_transitions(vec!["a", "c"]), Ok(owned(vec!["q2"])));
}

#[test]
fn frontier_may_become_empty_and_then_stays_empty() {
    let nfa = sample();
    assert_eq!(nfa.resolve_transitions(vec!["b"]), Ok(owned(vec![])));
    assert_eq!(nfa.resolve_transitions(vec!["b", "a"]), Ok(owned(vec![])));
    assert_eq!(nfa.resolve_transitions(vec!["a", "c", "a", "b", "c"]), Ok(owned(vec![])));
}

#[test]
fn unknown_symbol_fails_wherever_it_stands() {
    let nfa = sample();
    assert_eq!(nfa.resolve_transitions(vec!["x"]), unknown("x"));
    assert_eq!(nfa.resolve_transitions(vec!["x", "a", "b"]), unknown("x"));
    assert_eq!(nfa.resolve_transitions(vec!["a", "x", "b"]), unknown("x"));
    assert_eq!(nfa.resolve_transitions(vec!["a", "b", "x"]), unknown("x"));
}

#[test]
fn unknown_symbol_fails_on_an_empty_frontier_too() {
    let nfa = sample();
    assert_eq!(nfa.resolve_transitions(vec!["b", "b", "x"]), unknown("x"));
}

#[test]
fn leftmost_unknown_symbol_is_the_one_reported() {
    let nfa = sample();
    assert_eq!(nfa.resolve_transitions(vec!["a", "y", "x"]), unknown("y"));
    assert_eq!(nfa.resolve_transitions(vec!["x", "y"]), unknown("x"));
}

#[test]
fn symbols_are_compared_as_written() {
    let nfa = sample();
    assert_eq!(nfa.resolve_transitions(vec!["A"]), unknown("A"));
    assert_eq!(nfa.resolve_transitions(vec!["a "]), unknown("a "));
    assert_eq!(nfa.resolve_transitions(vec![""]), unknown(""));
    assert_eq!(nfa.resolve_transitions(vec!["ab"]), unknown("ab"));
}

#[test]
fn resolving_twice_gives_the_same_result() {
    let nfa = sample();
    for input in [vec![], vec!["a"], vec!["a", "b", "c"], vec!["b"], vec!["a", "x"]] {
        let first = nfa.resolve_transitions(input.clone());
        let second = nfa.resolve_transitions(input.clone());
        assert_eq!(first, second, "on {:?}", input);
    }
}

#[test]
fn resolving_leaves_the_automaton_as_it_was() {
    let nfa = sample();
    let before = format!("{:?}", nfa);
    let _ = nfa.resolve_transitions(vec!["a", "b", "c"]);
    let _ = nfa.resolve_transitions(vec!["a", "x"]);
    let _ = nfa.is_any_state_final(owned(vec!["q2"]));
    assert_eq!(format!("{:?}", nfa), before);
}

#[test]
fn state_reached_twice_is_listed_once() {
    let nfa = NFA::try_from(String::from(
        "q0,q1,q2\na\nq0\nq2\nq0,a=>q1,q2,q1\nq1,a=>q2,q2\nq2,a=>q2\nq0,a=>q2\n",
    ))
    .unwrap();
    assert_eq!(sorted(nfa.resolve_transitions(vec!["a"]).unwrap()), owned(vec!["q1", "q2"]));
    assert_eq!(nfa.resolve_transitions(vec!["a", "a"]), Ok(owned(vec!["q2"])));
}

#[test]
fn transition_lists_the_destinations_as_the_text_does() {
    let nfa = NFA::try_from(String::from(
        "q0,q1,q2\na,b\nq0\nq2\nq0,a=>q1,q2,q1\nq1,b=>q0\nq0,a=>q0\n",
    ))
    .unwrap();
    assert_eq!(nfa.transition("q0", "a"), Some(&owned(vec!["q1", "q2", "q1", "q0"])));
    assert_eq!(nfa.transition("q1", "b"), Some(&owned(vec!["q0"])));
}

#[test]
fn transition_is_none_where_nothing_is_reached() {
    let nfa = sample();
    assert_eq!(nfa.transition("q0", "b"), None);
    assert_eq!(nfa.transition("q2", "a"), None);
    assert_eq!(nfa.transition("q3", "c"), None);
    assert_eq!(nfa.transition("q0", "x"), None);
    assert_eq!(nfa.transition("q9", "a"), None);
    assert_eq!(nfa.transition("a", "q0"), None);
}

#[test]
fn frontier_with_a_final_state_is_accepting() {
    let nfa = sample();
    assert!(nfa.is_any_state_final(owned(vec!["q2"])));
    assert!(nfa.is_any_state_final(owned(vec!["q0", "q1", "q2"])));
    assert!(nfa.is_any_state_final(owned(vec!["q2", "q0"])));
    assert!(nfa.is_any_state_final(owned(vec!["q2", "q2"])));
}

#[test]
fn frontier_without_a_final_state_is_not_accepting() {
    let nfa = sample();
    assert!(!nfa.is_any_state_final(owned(vec!["q0"])));
    assert!(!nfa.is_any_state_final(owned(vec!["q0", "q1", "q3"])));
}

#[test]
fn empty_frontier_is_not_accepting() {
    assert!(!sample().is_any_state_final(Vec::new()));
    let all_final = NFA::try_from(String::from("q0\na\nq0\nq0\n")).unwrap();
    assert!(!all_final.is_any_state_final(Vec::new()));
}

#[test]
fn name_of_no_state_is_not_final() {
    let nfa = sample();
    assert!(!nfa.is_any_state_final(owned(vec!["q9"])));
    assert!(!nfa.is_any_state_final(owned(vec!["a", ""])));
    assert!(nfa.is_any_state_final(owned(vec!["q9", "q2"])));
}

#[test]
fn several_final_states_all_count() {
    let nfa = NFA::try_from(String::from("q0,q1,q2\na\nq0\nq1,q2\nq0,a=>q1\n")).unwrap();
    assert!(!nfa.is_any_state_final(owned(vec!["q0"])));
    assert!(nfa.is_any_state_final(owned(vec!["q1"])));
    assert!(nfa.is_any_state_final(owned(vec!["q2"])));
    let frontier = nfa.resolve_transitions(vec!["a"]).unwrap();
    assert!(nfa.is_any_state_final(frontier));
}

#[test]
fn acceptance_follows_the_input() {
    let nfa = sample();
    let verdicts = [
        (vec![], false),
        (vec!["a"], false),
        (vec!["a", "c"], true),
        (vec!["a", "b", "b", "c"], true),
        (vec!["a", "b", "c", "c"], false),
        (vec!["c"], false),
    ];
    for (input, accepted) in verdicts {
        let frontier = nfa.resolve_transitions(input.clone()).unwrap();
        assert_eq!(nfa.is_any_state_final(frontier), accepted, "on {:?}", input);
    }
}

#[test]
fn unknown_symbol_is_named_in_the_message() {
    let error = sample().resolve_transitions(vec!["a", "xy"]).unwrap_err();
    assert_eq!(error.message(), "Symbol xy isn't the in alphabet");
    let error = ResolveError::UnknownSymbolDuringResolution(String::new());
    assert_eq!(error.message(), "Symbol  isn't the in alphabet");
}

#[test]
fn one_more_symbol_advances_the_frontier_by_one_step() {
    let nfa = sample();
    for input in [vec![], vec!["a"], vec!["a", "b"], vec!["b"], vec!["a", "c"]] {
        let frontier = nfa.resolve_transitions(input.clone()).unwrap();
        for symbol in ["a", "b", "c"] {
            let mut expected: Vec<String> = Vec::new();
            for state in &frontier {
                for to in nfa.transition(state, symbol).into_iter().flatten() {
                    if !expected.contains(to) {
                        expected.push(to.clone());
                    }
                }
            }
            let mut longer = input.clone();
            longer.push(symbol);
            assert_eq!(
                sorted(nfa.resolve_transitions(longer.clone()).unwrap()),
                sorted(expected),
                "on {:?}",
                longer
            );
        }
    }
}

#[test]
fn destinations_keep_the_order_of_the_lines_for_each_state_and_symbol() {
    let nfa = NFA::try_from(String::from(
        "p,q,r\na,b\np\nr\np,a=>r\nq,a=>p\np,b=>q,q\np,a=>p,r\nq,a=>q\np,b=>p\n",
    ))
    .unwrap();
    assert_eq!(nfa.transition("p", "a"), Some(&owned(vec!["r", "p", "r"])));
    assert_eq!(nfa.transition("p", "b"), Some(&owned(vec!["q", "q", "p"])));
    assert_eq!(nfa.transition("q", "a"), Some(&owned(vec!["p", "q"])));
    assert_eq!(nfa.transition("q", "b"), None);
    assert_eq!(nfa.transition("r", "a"), None);
}

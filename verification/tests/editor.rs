use automata::nfa::{ResolveError, NFA};
use automata::tui::input_field::{InputField, KeySignal};
use automata::tui::session::{frame, react, Reaction};

fn typed(text: &str) -> InputField {
    let mut field = InputField::new();
    for c in text.chars() {
        field.receive_event(KeySignal::Char(c));
    }
    field
}

fn owned(names: Vec<&str>) -> Vec<String> {
    names.into_iter().map(String::from).collect()
}

fn sample() -> NFA {
    NFA::try_from(String::from("q0,q1\na,b\nq0\nq1\nq0,a=>q1\nq1,b=>q1\n")).unwrap()
}

#[test]
fn new_field_is_empty() {
    let field = InputField::new();
    assert_eq!(field.get_value(), "");
    assert_eq!(field.get_split_value(), Vec::<&str>::new());
}

#[test]
fn letters_and_blanks_are_appended() {
    let mut field = InputField::new();
    field.receive_event(KeySignal::Char('a'));
    assert_eq!(field.get_value(), "a");
    field.receive_event(KeySignal::Char(' '));
    assert_eq!(field.get_value(), "a ");
    field.receive_event(KeySignal::Char('z'));
    assert_eq!(field.get_value(), "a z");
    field.receive_event(KeySignal::Char('m'));
    assert_eq!(field.get_value(), "a zm");
}

#[test]
fn other_characters_are_ignored() {
    let mut field = typed("ab");
    for c in ['A', 'Z', '0', '9', '\n', '\t', ',', '=', '>', '`', '{', 'é', '\u{a0}'] {
        field.receive_event(KeySignal::Char(c));
        assert_eq!(field.get_value(), "ab", "after {:?}", c);
    }
}

#[test]
fn backspace_removes_the_last_character() {
    let mut field = typed("ab c");
    field.receive_event(KeySignal::Backspace);
    assert_eq!(field.get_value(), "ab ");
    field.receive_event(KeySignal::Backspace);
    assert_eq!(field.get_value(), "ab");
    field.receive_event(KeySignal::Backspace);
    field.receive_event(KeySignal::Backspace);
    assert_eq!(field.get_value(), "");
}

#[test]
fn backspace_on_an_empty_field_does_nothing() {
    let mut field = InputField::new();
    field.receive_event(KeySignal::Backspace);
    assert_eq!(field.get_value(), "");
    field.receive_event(KeySignal::Char('a'));
    assert_eq!(field.get_value(), "a");
}

#[test]
fn other_keys_are_ignored() {
    let mut field = typed("ab");
    for key in [KeySignal::Other, KeySignal::Escape, KeySignal::Ctrl('a'), KeySignal::Ctrl('c')] {
        field.receive_event(key);
        assert_eq!(field.get_value(), "ab", "after {:?}", key);
    }
}

#[test]
fn split_value_is_the_words_of_the_line() {
    assert_eq!(typed("a b c").get_split_value(), vec!["a", "b", "c"]);
    assert_eq!(typed("  ab   c ").get_split_value(), vec!["ab", "c"]);
    assert_eq!(typed("   ").get_split_value(), Vec::<&str>::new());
    assert_eq!(typed("abc").get_split_value(), vec!["abc"]);
}

#[test]
fn split_value_follows_the_line() {
    let mut field = typed("a b");
    assert_eq!(field.get_split_value(), vec!["a", "b"]);
    field.receive_event(KeySignal::Backspace);
    assert_eq!(field.get_split_value(), vec!["a"]);
    field.receive_event(KeySignal::Char('c'));
    assert_eq!(field.get_split_value(), vec!["a", "c"]);
    field.receive_event(KeySignal::Backspace);
    field.receive_event(KeySignal::Backspace);
    field.receive_event(KeySignal::Char('c'));
    assert_eq!(field.get_split_value(), vec!["ac"]);
}

#[test]
fn escape_and_control_c_quit() {
    let nfa = sample();
    let mut field = typed("a");
    assert!(matches!(react(&nfa, &mut field, KeySignal::Escape), Reaction::Quit));
    assert!(matches!(react(&nfa, &mut field, KeySignal::Ctrl('c')), Reaction::Quit));
    assert_eq!(field.get_value(), "a");
}

#[test]
fn no_other_key_quits() {
    let nfa = sample();
    let mut field = InputField::new();
    for key in [
        KeySignal::Ctrl('d'),
        KeySignal::Ctrl('C'),
        KeySignal::Char('c'),
        KeySignal::Char('q'),
        KeySignal::Backspace,
        KeySignal::Other,
    ] {
        assert!(matches!(react(&nfa, &mut field, key), Reaction::Render(_)), "on {:?}", key);
    }
}

#[test]
fn key_is_applied_before_the_automaton_runs() {
    let nfa = sample();
    let mut field = InputField::new();
    match react(&nfa, &mut field, KeySignal::Char('a')) {
        Reaction::Render(shown) => {
            assert_eq!(shown.outcome, Ok(owned(vec!["q1"])));
            assert!(shown.accepted);
        },
        Reaction::Quit => panic!("a letter ended the session"),
    }
    assert_eq!(field.get_value(), "a");
    match react(&nfa, &mut field, KeySignal::Backspace) {
        Reaction::Render(shown) => {
            assert_eq!(shown.outcome, Ok(owned(vec!["q0"])));
            assert!(!shown.accepted);
        },
        Reaction::Quit => panic!("backspace ended the session"),
    }
    assert_eq!(field.get_value(), "");
}

#[test]
fn frame_shows_frontier_and_verdict() {
    let nfa = sample();
    let shown = frame(&nfa, &typed(""));
    assert_eq!(shown.outcome, Ok(owned(vec!["q0"])));
    assert!(!shown.accepted);
    let shown = frame(&nfa, &typed("a b  b "));
    assert_eq!(shown.outcome, Ok(owned(vec!["q1"])));
    assert!(shown.accepted);
    let shown = frame(&nfa, &typed("b"));
    assert_eq!(shown.outcome, Ok(owned(vec![])));
    assert!(!shown.accepted);
}

#[test]
fn frame_shows_the_unknown_word_and_rejects() {
    let nfa = sample();
    let shown = frame(&nfa, &typed("a ab b"));
    assert_eq!(
        shown.outcome,
        Err(ResolveError::UnknownSymbolDuringResolution(String::from("ab")))
    );
    assert!(!shown.accepted);
}

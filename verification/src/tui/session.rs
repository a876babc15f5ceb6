//! What the interactive session does with each key: leave, or edit the line,
//! run the automaton on its words and show the outcome.

use crate::model::Automaton;
use crate::nfa::{outcome, ResolveError, NFA};
use crate::text::{names, words, Text};
use crate::tui::input_field::{edited, InputField, KeySignal};
use vstd::prelude::*;

verus! {

/// What the session shows besides the line under edit.
#[derive(Debug)]
pub struct Frame {
    /// The states the automaton may be in after the words of the line, or
    /// the word that is no symbol of its alphabet.
    pub outcome: Result<Vec<String>, ResolveError>,
    /// Whether the automaton accepts the words of the line.
    pub accepted: bool,
}

/// What the session does after a key.
#[derive(Debug)]
pub enum Reaction {
    /// Leave the session.
    Quit,
    /// Paint the screen anew.
    Render(Frame),
}

/// The keys that end the session: escape and control-c.
pub open spec fn is_quit(key: KeySignal) -> bool {
    key == KeySignal::Escape || key == KeySignal::Ctrl('c')
}

/// Whether an automaton accepts an input: the input resolves, and to a
/// frontier that holds a final state.
pub open spec fn accepts(a: Automaton, input: Seq<Text>) -> bool {
    match a.resolve(input) {
        Ok(frontier) => a.accepting(frontier),
        Err(_) => false,
    }
}

/// Whether `frame` shows what `a` makes of the line `buffer`.
pub open spec fn shows(frame: Frame, a: Automaton, buffer: Text) -> bool {
    &&& outcome(frame.outcome) == a.resolve(words(buffer))
    &&& frame.outcome matches Ok(frontier) ==> names(frontier@).no_duplicates()
    &&& frame.accepted == accepts(a, words(buffer))
}

/// A copy of `list`.
fn copy_of(list: &Vec<String>) -> (out: Vec<String>)
    ensures
        out@ == list@,
{
    let mut out: Vec<String> = Vec::new();
    let mut i: usize = 0;
    while i < list.len()
        invariant
            i <= list.len(),
            out@ == list@.take(i as int),
        decreases list.len() - i,
    {
        out.push(list[i].clone());
        i += 1;
    }
    out
}

/// Runs the automaton on the words of the line.
pub fn frame(automaton: &NFA, editor: &InputField) -> (f: Frame)
    ensures
        shows(f, automaton@, editor@),
{
    let outcome = automaton.resolve_transitions(editor.get_split_value());
    let accepted = match &outcome {
        Ok(frontier) => automaton.is_any_state_final(copy_of(frontier)),
        Err(_) => false,
    };
    Frame { outcome, accepted }
}

/// Handles one key: a quit key ends the session and leaves the line as it
/// is; any other key is applied to the line, and the automaton is run on
/// the words of the line as it then stands.
pub fn react(automaton: &NFA, editor: &mut InputField, key: KeySignal) -> (r: Reaction)
    ensures
        final(editor)@ == if is_quit(key) {
            old(editor)@
        } else {
            edited(old(editor)@, key)
        },
        is_quit(key) <==> r is Quit,
        r matches Reaction::Render(f) ==> shows(f, automaton@, final(editor)@),
{
    match key {
        KeySignal::Escape => Reaction::Quit,
        KeySignal::Ctrl('c') => Reaction::Quit,
        _ => {
            editor.receive_event(key);
            Reaction::Render(frame(automaton, editor))
        },
    }
}

} // verus!

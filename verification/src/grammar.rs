//! The text format of an automaton, as a function from text to an automaton
//! or to the reason why the text describes none.
//!
//! The text has four header lines and any number of transition lines:
//!
//! ```text
//! q0,q1,q2        the states
//! a,b             the alphabet
//! q0              the initial state
//! q2              the final states
//! q0,a=>q1,q2     a transition: source, symbol, arrow, destinations
//! ```
//!
//! The delimiters `,` and `=>` cannot be escaped.

use crate::model::Automaton;
use crate::text::{after_arrow, before_arrow, has_arrow, lines, split, Text};
use vstd::prelude::*;

verus! {

/// A header line that a text may lack.
#[derive(Clone, Copy, Debug, PartialEq, Eq, Structural)]
pub enum Section {
    Alphabet,
    InitialState,
    FinalStates,
}

/// A place in which a text refers to a state.
#[derive(Clone, Copy, Debug, PartialEq, Eq, Structural)]
pub enum Reference {
    InitialState,
    FinalState,
    TransitionSource,
    TransitionDestination,
}

/// What a transition line may lack.
#[derive(Clone, Copy, Debug, PartialEq, Eq, Structural)]
pub enum Defect {
    /// There is no second field before the arrow.
    MissingSymbol,
    /// There is no arrow.
    MissingArrow,
}

/// Why a text describes no automaton.
#[derive(Clone, Copy, Debug, PartialEq, Eq, Structural)]
pub enum ParseError {
    /// The text ends before the named header line.
    MissingSection(Section),
    /// The text refers, in the named place, to a state that the first line
    /// does not declare.
    UnknownStateReference(Reference),
    /// A transition is on a symbol that the alphabet line does not declare.
    UnknownSymbolInAlphabet,
    /// A transition line has not the shape `source,symbol=>destinations`.
    MalformedTransitionLine(Defect),
}

impl ParseError {
    /// The error in words.
    pub open spec fn text(self) -> Text {
        match self {
            ParseError::MissingSection(Section::Alphabet) => {
                "Couldn't find the alphabet definition"@
            },
            ParseError::MissingSection(Section::InitialState) => {
                "Couldn't find the initial state definition"@
            },
            ParseError::MissingSection(Section::FinalStates) => {
                "Couldn't find the final states definition"@
            },
            ParseError::UnknownStateReference(Reference::InitialState) => {
                "Couldn't find initial state"@
            },
            ParseError::UnknownStateReference(Reference::FinalState) => {
                "Couldn't find final state"@
            },
            ParseError::UnknownStateReference(Reference::TransitionSource) => {
                "Couldn't find a transition's starting state in defined states"@
            },
            ParseError::UnknownStateReference(Reference::TransitionDestination) => {
                "Couldn't find ending state in transition in defined states"@
            },
            ParseError::UnknownSymbolInAlphabet => "Symbol doesn't belong to alphabet definition"@,
            ParseError::MalformedTransitionLine(Defect::MissingSymbol) => {
                "Couldn't find symbol in transition definition"@
            },
            ParseError::MalformedTransitionLine(Defect::MissingArrow) => {
                "Transition couldn't be split correctly"@
            },
        }
    }

    /// The error in words.
    pub fn message(&self) -> (r: &'static str)
        ensures
            r@ == self.text(),
    {
        match self {
            ParseError::MissingSection(Section::Alphabet) => {
                "Couldn't find the alphabet definition"
            },
            ParseError::MissingSection(Section::InitialState) => {
                "Couldn't find the initial state definition"
            },
            ParseError::MissingSection(Section::FinalStates) => {
                "Couldn't find the final states definition"
            },
            ParseError::UnknownStateReference(Reference::InitialState) => {
                "Couldn't find initial state"
            },
            ParseError::UnknownStateReference(Reference::FinalState) => "Couldn't find final state",
            ParseError::UnknownStateReference(Reference::TransitionSource) => {
                "Couldn't find a transition's starting state in defined states"
            },
            ParseError::UnknownStateReference(Reference::TransitionDestination) => {
                "Couldn't find ending state in transition in defined states"
            },
            ParseError::UnknownSymbolInAlphabet => "Symbol doesn't belong to alphabet definition",
            ParseError::MalformedTransitionLine(Defect::MissingSymbol) => {
                "Couldn't find symbol in transition definition"
            },
            ParseError::MalformedTransitionLine(Defect::MissingArrow) => {
                "Transition couldn't be split correctly"
            },
        }
    }
}

/// The comma-separated fields before the arrow of a transition line: the
/// source state, the symbol, and whatever else stands there.
pub open spec fn line_fields(line: Text) -> Seq<Text> {
    split(before_arrow(line), ',')
}

/// The comma-separated destinations after the arrow of a transition line.
pub open spec fn line_destinations(line: Text) -> Seq<Text> {
    split(after_arrow(line), ',')
}

/// Why a transition line is rejected, if it is. The source is looked at
/// first, then the symbol, then the arrow, then the destinations.
pub open spec fn line_error(states: Set<Text>, alphabet: Set<Text>, line: Text) -> Option<
    ParseError,
> {
    let fields = line_fields(line);
    if !states.contains(fields[0]) {
        Some(ParseError::UnknownStateReference(Reference::TransitionSource))
    } else if fields.len() < 2 {
        Some(ParseError::MalformedTransitionLine(Defect::MissingSymbol))
    } else if !alphabet.contains(fields[1]) {
        Some(ParseError::UnknownSymbolInAlphabet)
    } else if !has_arrow(line) {
        Some(ParseError::MalformedTransitionLine(Defect::MissingArrow))
    } else if !line_destinations(line).to_set().subset_of(states) {
        Some(ParseError::UnknownStateReference(Reference::TransitionDestination))
    } else {
        None
    }
}

/// The transitions that a transition line stands for: one from its source
/// on its symbol to each of its destinations.
pub open spec fn line_edges(line: Text) -> Set<(Text, Text, Text)> {
    Set::new(
        |e: (Text, Text, Text)|
            e.0 == line_fields(line)[0] && e.1 == line_fields(line)[1] && line_destinations(
                line,
            ).contains(e.2),
    )
}

/// Why the first rejected line among `rows` is rejected, if any is.
pub open spec fn first_error(states: Set<Text>, alphabet: Set<Text>, rows: Seq<Text>) -> Option<
    ParseError,
>
    decreases rows.len(),
{
    if rows.len() == 0 {
        None
    } else {
        match first_error(states, alphabet, rows.drop_last()) {
            Some(e) => Some(e),
            None => line_error(states, alphabet, rows.last()),
        }
    }
}

/// The transitions that the lines `rows` stand for together.
pub open spec fn edges(rows: Seq<Text>) -> Set<(Text, Text, Text)> {
    Set::new(
        |e: (Text, Text, Text)| exists|i: int| 0 <= i < rows.len() && line_edges(rows[i]).contains(e),
    )
}

/// Whether a transition line is one from `from` on `symbol`.
pub open spec fn line_is_for(line: Text, from: Text, symbol: Text) -> bool {
    &&& has_arrow(line)
    &&& line_fields(line).len() >= 2
    &&& line_fields(line)[0] == from
    &&& line_fields(line)[1] == symbol
}

/// The destinations that the lines `rows` list for `from` on `symbol`:
/// those of every line from `from` on `symbol`, line after line and within
/// a line from left to right. A destination that is listed twice stands
/// twice.
pub open spec fn listed(rows: Seq<Text>, from: Text, symbol: Text) -> Seq<Text>
    decreases rows.len(),
{
    if rows.len() == 0 {
        Seq::empty()
    } else if line_is_for(rows.last(), from, symbol) {
        listed(rows.drop_last(), from, symbol) + line_destinations(rows.last())
    } else {
        listed(rows.drop_last(), from, symbol)
    }
}

/// The states that the first line of `text` declares.
pub open spec fn declared_states(text: Text) -> Set<Text> {
    split(lines(text)[0], ',').to_set()
}

/// The symbols that the second line of `text` declares.
pub open spec fn declared_alphabet(text: Text) -> Set<Text> {
    split(lines(text)[1], ',').to_set()
}

/// The final states that the fourth line of `text` names.
pub open spec fn named_finals(text: Text) -> Set<Text> {
    split(lines(text)[3], ',').to_set()
}

/// The transition lines of `text`: all that follow the four header lines.
pub open spec fn transition_lines(text: Text) -> Seq<Text> {
    lines(text).skip(4)
}

/// The automaton that `text` describes, or the first reason, reading from
/// the top, why it describes none.
pub open spec fn parse(text: Text) -> Result<Automaton, ParseError> {
    let rows = lines(text);
    let states = declared_states(text);
    let alphabet = declared_alphabet(text);
    if rows.len() < 2 {
        Err(ParseError::MissingSection(Section::Alphabet))
    } else if rows.len() < 3 {
        Err(ParseError::MissingSection(Section::InitialState))
    } else if !states.contains(rows[2]) {
        Err(ParseError::UnknownStateReference(Reference::InitialState))
    } else if rows.len() < 4 {
        Err(ParseError::MissingSection(Section::FinalStates))
    } else if !named_finals(text).subset_of(states) {
        Err(ParseError::UnknownStateReference(Reference::FinalState))
    } else {
        match first_error(states, alphabet, transition_lines(text)) {
            Some(e) => Err(e),
            None => Ok(
                Automaton {
                    states,
                    alphabet,
                    initial: rows[2],
                    finals: named_finals(text),
                    transitions: edges(transition_lines(text)),
                },
            ),
        }
    }
}

/// Whether a transition line names a source or a destination outside
/// `states`, or a symbol outside `alphabet`.
pub open spec fn refers_to_undeclared(states: Set<Text>, alphabet: Set<Text>, line: Text) -> bool {
    ||| !states.contains(line_fields(line)[0])
    ||| line_fields(line).len() >= 2 && !alphabet.contains(line_fields(line)[1])
    ||| has_arrow(line) && exists|j: int|
        0 <= j < line_destinations(line).len() && !states.contains(line_destinations(line)[j])
}

/// Where no line among `rows` is rejected, none of them is.
pub proof fn lemma_no_error_anywhere(
    states: Set<Text>,
    alphabet: Set<Text>,
    rows: Seq<Text>,
    i: int,
)
    requires
        first_error(states, alphabet, rows) is None,
        0 <= i < rows.len(),
    ensures
        line_error(states, alphabet, rows[i]) is None,
    decreases rows.len(),
{
    if i < rows.len() - 1 {
        lemma_no_error_anywhere(states, alphabet, rows.drop_last(), i);
    }
}

/// An error among the first `n` lines is the error of the whole.
pub proof fn lemma_first_error_prefix(
    states: Set<Text>,
    alphabet: Set<Text>,
    rows: Seq<Text>,
    n: int,
)
    requires
        0 <= n <= rows.len(),
        first_error(states, alphabet, rows.take(n)) is Some,
    ensures
        first_error(states, alphabet, rows) == first_error(states, alphabet, rows.take(n)),
    decreases rows.len(),
{
    if n < rows.len() {
        assert(rows.drop_last().take(n) =~= rows.take(n));
        lemma_first_error_prefix(states, alphabet, rows.drop_last(), n);
    } else {
        assert(rows.take(n) =~= rows);
    }
}

/// Where no line among `rows` is rejected, the destinations listed for a
/// state and a symbol are, as a set, the transitions from that state on that
/// symbol.
pub proof fn listed_are_the_transitions(
    states: Set<Text>,
    alphabet: Set<Text>,
    rows: Seq<Text>,
    from: Text,
    symbol: Text,
    to: Text,
)
    requires
        first_error(states, alphabet, rows) is None,
    ensures
        listed(rows, from, symbol).contains(to) <==> edges(rows).contains((from, symbol, to)),
    decreases rows.len(),
{
    let e = (from, symbol, to);
    if rows.len() > 0 {
        let before = rows.drop_last();
        let line = rows.last();
        let added = line_destinations(line);
        listed_are_the_transitions(states, alphabet, before, from, symbol, to);
        lemma_no_error_anywhere(states, alphabet, rows, rows.len() - 1);
        assert(line_is_for(line, from, symbol) && added.contains(to) <==> line_edges(
            line,
        ).contains(e));
        if edges(rows).contains(e) {
            let i = choose|i: int| 0 <= i < rows.len() && line_edges(rows[i]).contains(e);
            if i < before.len() {
                assert(line_edges(before[i]).contains(e));
            }
        }
        if edges(before).contains(e) {
            let i = choose|i: int| 0 <= i < before.len() && line_edges(before[i]).contains(e);
            assert(line_edges(rows[i]).contains(e));
        }
        if line_edges(line).contains(e) {
            assert(line_edges(rows[rows.len() - 1]).contains(e));
        }
        if line_is_for(line, from, symbol) {
            let earlier = listed(before, from, symbol);
            if earlier.contains(to) {
                let i = choose|i: int| 0 <= i < earlier.len() && earlier[i] == to;
                assert((earlier + added)[i] == to);
            }
            if added.contains(to) {
                let i = choose|i: int| 0 <= i < added.len() && added[i] == to;
                assert((earlier + added)[earlier.len() + i] == to);
            }
        }
    }
}

/// A text with a transition line that refers to an undeclared state or
/// symbol describes no automaton: the line is never passed over.
pub proof fn undeclared_reference_is_rejected(text: Text, i: int)
    requires
        0 <= i < transition_lines(text).len(),
        refers_to_undeclared(
            declared_states(text),
            declared_alphabet(text),
            transition_lines(text)[i],
        ),
    ensures
        parse(text) is Err,
{
    let states = declared_states(text);
    let alphabet = declared_alphabet(text);
    let line = transition_lines(text)[i];
    if first_error(states, alphabet, transition_lines(text)) is None {
        lemma_no_error_anywhere(states, alphabet, transition_lines(text), i);
        if has_arrow(line) {
            let ds = line_destinations(line);
            if exists|j: int| 0 <= j < ds.len() && !states.contains(ds[j]) {
                let j = choose|j: int| 0 <= j < ds.len() && !states.contains(ds[j]);
                assert(ds.to_set().contains(ds[j]));
            }
        }
    }
}

/// Every transition that a line of an accepted text stands for is a
/// transition of the automaton, and the automaton has no others.
pub proof fn accepted_transitions_are_kept(text: Text, a: Automaton)
    requires
        parse(text) == Ok::<Automaton, ParseError>(a),
    ensures
        forall|i: int, j: int|
            #![trigger transition_lines(text)[i], line_destinations(transition_lines(text)[i])[j]]
            0 <= i < transition_lines(text).len() && 0 <= j < line_destinations(
                transition_lines(text)[i],
            ).len() ==> a.transitions.contains(
                (
                    line_fields(transition_lines(text)[i])[0],
                    line_fields(transition_lines(text)[i])[1],
                    line_destinations(transition_lines(text)[i])[j],
                ),
            ),
        a.transitions == edges(transition_lines(text)),
{
}

/// The automaton that an accepted text describes is well formed: its
/// initial state, its final states and both ends of every transition are
/// declared states, and every transition is on a declared symbol.
pub proof fn parsed_automaton_is_well_formed(text: Text, a: Automaton)
    requires
        parse(text) == Ok::<Automaton, ParseError>(a),
    ensures
        a.well_formed(),
{
    let states = declared_states(text);
    let alphabet = declared_alphabet(text);
    let rows = transition_lines(text);
    assert forall|q: Text, s: Text, r: Text| #[trigger]
        a.transitions.contains((q, s, r)) implies a.states.contains(q) && a.alphabet.contains(s)
        && a.states.contains(r) by {
        let i = choose|i: int| 0 <= i < rows.len() && line_edges(rows[i]).contains((q, s, r));
        lemma_no_error_anywhere(states, alphabet, rows, i);
    }
}

} // verus!

//! Nondeterministic automata: reading one from text, and running it.

use crate::grammar::{
    declared_alphabet, declared_states, edges, first_error, lemma_first_error_prefix,
    line_destinations, line_edges, line_error, line_is_for, listed, named_finals, parse,
    parsed_automaton_is_well_formed, transition_lines, Defect, ParseError, Reference, Section,
};
use crate::model::{lemma_first_unknown, step_of_insert, Automaton};
use crate::text::{
    add_unique, holds, lines, lines_of, names, split_arrow, split_on, texts, Text,
};
use crate::trusted::{multimap_entries, multimap_get_vec, multimap_insert, multimap_new};
use multimap::MultiMap;
use vstd::prelude::*;
use vstd::string::StringExecFns;

verus! {

/// Why an input could not be resolved.
#[derive(Debug, PartialEq, Eq)]
pub enum ResolveError {
    /// The input holds this symbol, which is not in the alphabet.
    UnknownSymbolDuringResolution(String),
}

impl ResolveError {
    /// The symbol that is not in the alphabet.
    pub open spec fn symbol(self) -> Text {
        match self {
            ResolveError::UnknownSymbolDuringResolution(symbol) => symbol@,
        }
    }

    /// The error in words, naming the symbol.
    pub fn message(&self) -> (r: String)
        ensures
            r@ == "Symbol "@ + self.symbol() + " isn't the in alphabet"@,
    {
        match self {
            ResolveError::UnknownSymbolDuringResolution(symbol) => String::from_str(
                "Symbol ",
            ).concat(symbol.as_str()).concat(" isn't the in alphabet"),
        }
    }
}

/// A nondeterministic finite automaton. It is made from text by
/// [`NFA::try_from`] and never changes afterwards.
#[derive(Debug)]
pub struct NFA {
    alphabet: Vec<String>,
    initial_state: String,
    states: Vec<NFAState>,
}

#[derive(Debug)]
struct NFAState {
    name: String,
    is_final: bool,
    /// From a symbol to the names of the states reached on it.
    transitions: MultiMap<String, String>,
}

/// The destinations that `state` lists under `symbol`, oldest first.
spec fn reaches(state: NFAState, symbol: Text) -> Seq<Text> {
    if multimap_entries(state.transitions).contains_key(symbol) {
        multimap_entries(state.transitions)[symbol]
    } else {
        Seq::empty()
    }
}

/// `more` where `a` is `symbol`, and nothing elsewhere.
spec fn under(symbol: Text, a: Text, more: Seq<Text>) -> Seq<Text> {
    if a == symbol {
        more
    } else {
        Seq::empty()
    }
}

/// Whether `state` has a transition on `symbol` to `to`.
spec fn has_edge(state: NFAState, symbol: Text, to: Text) -> bool {
    reaches(state, symbol).contains(to)
}

/// Every symbol under which a state lists destinations has at least one.
spec fn tidy(states: Seq<NFAState>) -> bool {
    forall|i: int, a: Text|
        0 <= i < states.len() && #[trigger] multimap_entries(states[i].transitions).contains_key(a)
            ==> multimap_entries(states[i].transitions)[a].len() > 0
}

/// No two of `states` have the same name.
spec fn distinct(states: Seq<NFAState>) -> bool {
    forall|i: int, j: int|
        0 <= i < states.len() && 0 <= j < states.len() && i != j ==> states[i].name@
            != states[j].name@
}

spec fn state_names(states: Seq<NFAState>) -> Set<Text> {
    Set::new(|q: Text| exists|i: int| 0 <= i < states.len() && states[i].name@ == q)
}

spec fn final_names(states: Seq<NFAState>) -> Set<Text> {
    Set::new(
        |q: Text| exists|i: int| 0 <= i < states.len() && states[i].name@ == q && states[i].is_final,
    )
}

spec fn edges_of(states: Seq<NFAState>) -> Set<(Text, Text, Text)> {
    Set::new(
        |e: (Text, Text, Text)|
            exists|i: int|
                0 <= i < states.len() && states[i].name@ == e.0 && has_edge(states[i], e.1, e.2),
    )
}

/// The position of the state called `name`, where there is one.
spec fn position(states: Seq<NFAState>, name: Text) -> int {
    choose|i: int| 0 <= i < states.len() && states[i].name@ == name
}

/// The destinations that the state called `from` lists under `symbol`,
/// oldest first; none where there is no such state.
spec fn held(states: Seq<NFAState>, from: Text, symbol: Text) -> Seq<Text> {
    if state_names(states).contains(from) {
        reaches(states[position(states, from)], symbol)
    } else {
        Seq::empty()
    }
}

/// Among states with distinct names, a name has one position.
proof fn lemma_position(states: Seq<NFAState>, i: int)
    requires
        distinct(states),
        0 <= i < states.len(),
    ensures
        state_names(states).contains(states[i].name@),
        position(states, states[i].name@) == i,
{
}

spec fn model_of(alphabet: Seq<String>, initial: Text, states: Seq<NFAState>) -> Automaton {
    Automaton {
        states: state_names(states),
        alphabet: names(alphabet).to_set(),
        initial,
        finals: final_names(states),
        transitions: edges_of(states),
    }
}

/// The position of the state called `name`, if there is one.
fn find_state(states: &Vec<NFAState>, name: &str) -> (r: Option<usize>)
    ensures
        r is Some <==> state_names(states@).contains(name@),
        r matches Some(i) ==> i < states.len() && states[i as int].name@ == name@,
{
    let wanted = name.to_owned();
    let mut i: usize = 0;
    while i < states.len()
        invariant
            i <= states.len(),
            wanted@ == name@,
            forall|j: int| 0 <= j < i ==> states[j].name@ != name@,
        decreases states.len() - i,
    {
        if states[i].name == wanted {
            return Some(i);
        }
        i += 1;
    }
    None
}

/// The two sequences list the same states, final or not, in the same
/// order; their transitions may differ.
spec fn same_states(a: Seq<NFAState>, b: Seq<NFAState>) -> bool {
    &&& a.len() == b.len()
    &&& forall|i: int|
        0 <= i < a.len() ==> a[i].name@ == b[i].name@ && a[i].is_final == b[i].is_final
}

proof fn lemma_same_states(a: Seq<NFAState>, b: Seq<NFAState>)
    requires
        same_states(a, b),
    ensures
        state_names(a) == state_names(b),
        final_names(a) == final_names(b),
        distinct(a) == distinct(b),
{
}

/// One state for each distinct text among `fields`, none of them final and
/// none with a transition.
fn declare_states(fields: &Vec<&str>) -> (states: Vec<NFAState>)
    ensures
        distinct(states@),
        tidy(states@),
        state_names(states@) == texts(fields@).to_set(),
        final_names(states@) == Set::<Text>::empty(),
        edges_of(states@) == Set::<(Text, Text, Text)>::empty(),
        forall|q: Text, a: Text| #[trigger] held(states@, q, a) == Seq::<Text>::empty(),
{
    let mut states: Vec<NFAState> = Vec::new();
    let mut i: usize = 0;
    while i < fields.len()
        invariant
            i <= fields.len(),
            distinct(states@),
            state_names(states@) == texts(fields@).take(i as int).to_set(),
            forall|k: int|
                0 <= k < states.len() ==> !states[k].is_final && multimap_entries(
                    states[k].transitions,
                ) == Map::<Seq<char>, Seq<Seq<char>>>::empty(),
        decreases fields.len() - i,
    {
        let ghost before = states@;
        let ghost name = fields@[i as int]@;
        proof {
            assert(texts(fields@).take(i + 1) =~= texts(fields@).take(i as int).push(name));
            texts(fields@).take(i as int).lemma_push_to_set_commute(name);
        }
        if find_state(&states, fields[i]).is_none() {
            states.push(
                NFAState {
                    name: fields[i].to_owned(),
                    is_final: false,
                    transitions: multimap_new(),
                },
            );
            proof {
                assert(states@[before.len() as int].name@ == name);
                assert(forall|k: int| 0 <= k < before.len() ==> states@[k] == before[k]);
                assert(state_names(states@) =~= state_names(before).insert(name));
            }
        }
        i += 1;
    }
    proof {
        assert(texts(fields@).take(i as int) =~= texts(fields@));
    }
    states
}

/// The distinct texts among `fields`, each once.
fn collect_unique(fields: &Vec<&str>) -> (out: Vec<String>)
    ensures
        names(out@).no_duplicates(),
        names(out@).to_set() == texts(fields@).to_set(),
{
    let mut out: Vec<String> = Vec::new();
    let mut i: usize = 0;
    while i < fields.len()
        invariant
            i <= fields.len(),
            names(out@).no_duplicates(),
            names(out@).to_set() == texts(fields@).take(i as int).to_set(),
        decreases fields.len() - i,
    {
        proof {
            assert(texts(fields@).take(i + 1) =~= texts(fields@).take(i as int).push(
                fields@[i as int]@,
            ));
            texts(fields@).take(i as int).lemma_push_to_set_commute(fields@[i as int]@);
        }
        add_unique(&mut out, fields[i]);
        i += 1;
    }
    proof {
        assert(texts(fields@).take(i as int) =~= texts(fields@));
    }
    out
}

/// Marks each state that `fields` names as final. Returns whether every
/// name among `fields` is the name of a state; where it returns `false` some
/// of the states named before the unknown one may have been marked.
fn mark_finals(states: &mut Vec<NFAState>, fields: &Vec<&str>) -> (ok: bool)
    requires
        distinct(old(states)@),
        tidy(old(states)@),
    ensures
        ok <==> texts(fields@).to_set().subset_of(state_names(old(states)@)),
        distinct(final(states)@),
        tidy(final(states)@),
        state_names(final(states)@) == state_names(old(states)@),
        edges_of(final(states)@) == edges_of(old(states)@),
        forall|q: Text, a: Text| #[trigger]
            held(final(states)@, q, a) == held(old(states)@, q, a),
        ok ==> final_names(final(states)@) == final_names(old(states)@).union(
            texts(fields@).to_set(),
        ),
{
    let mut i: usize = 0;
    while i < fields.len()
        invariant
            i <= fields.len(),
            states.len() == old(states).len(),
            forall|k: int|
                0 <= k < states.len() ==> states[k].name@ == old(states)[k].name@
                    && states[k].transitions == old(states)[k].transitions,
            distinct(states@),
            distinct(old(states)@),
            tidy(old(states)@),
            texts(fields@).take(i as int).to_set().subset_of(state_names(old(states)@)),
            final_names(states@) == final_names(old(states)@).union(
                texts(fields@).take(i as int).to_set(),
            ),
        decreases fields.len() - i,
    {
        let ghost before = states@;
        let ghost name = fields@[i as int]@;
        proof {
            assert(texts(fields@).take(i + 1) =~= texts(fields@).take(i as int).push(name));
            texts(fields@).take(i as int).lemma_push_to_set_commute(name);
            lemma_names_kept(old(states)@, before);
        }
        match find_state(states, fields[i]) {
            None => {
                proof {
                    assert(texts(fields@)[i as int] == name);
                }
                return false;
            },
            Some(k) => {
                states[k].is_final = true;
                proof {
                    assert(forall|m: int|
                        0 <= m < before.len() && m != k ==> states@[m] == before[m]);
                    assert(final_names(states@) =~= final_names(before).insert(name));
                }
            },
        }
        i += 1;
    }
    proof {
        assert(texts(fields@).take(i as int) =~= texts(fields@));
        lemma_names_kept(old(states)@, states@);
    }
    true
}

/// Where names and transitions are kept, so are the set of names and the
/// set of transitions.
proof fn lemma_names_kept(a: Seq<NFAState>, b: Seq<NFAState>)
    requires
        a.len() == b.len(),
        forall|k: int|
            0 <= k < a.len() ==> a[k].name@ == b[k].name@ && a[k].transitions == b[k].transitions,
    ensures
        state_names(a) == state_names(b),
        edges_of(a) == edges_of(b),
        tidy(a) ==> tidy(b),
        distinct(a) ==> forall|q: Text, s: Text| #[trigger] held(b, q, s) == held(a, q, s),
{
    if distinct(a) {
        assert forall|q: Text, s: Text| #[trigger] held(b, q, s) == held(a, q, s) by {
            if state_names(a).contains(q) {
                let i = position(a, q);
                lemma_position(a, i);
                lemma_position(b, i);
            }
        }
    }
}

/// A concatenation holds what either part holds.
proof fn lemma_contains_add(x: Seq<Text>, y: Seq<Text>, r: Text)
    ensures
        (x + y).contains(r) <==> x.contains(r) || y.contains(r),
{
    if x.contains(r) {
        let i = choose|i: int| 0 <= i < x.len() && x[i] == r;
        assert((x + y)[i] == r);
    }
    if y.contains(r) {
        let i = choose|i: int| 0 <= i < y.len() && y[i] == r;
        assert((x + y)[x.len() + i] == r);
    }
}

/// What one insertion does to the transitions of a state.
proof fn lemma_edge_added(before: NFAState, after: NFAState, symbol: Text, to: Text)
    requires
        multimap_entries(after.transitions) == multimap_entries(before.transitions).insert(
            symbol,
            if multimap_entries(before.transitions).contains_key(symbol) {
                multimap_entries(before.transitions)[symbol].push(to)
            } else {
                seq![to]
            },
        ),
    ensures
        (forall|a: Text| #[trigger]
            multimap_entries(before.transitions).contains_key(a) ==> multimap_entries(
                before.transitions,
            )[a].len() > 0) ==> (forall|a: Text| #[trigger]
            multimap_entries(after.transitions).contains_key(a) ==> multimap_entries(
                after.transitions,
            )[a].len() > 0),
        forall|a: Text| #[trigger]
            reaches(after, a) == reaches(before, a) + under(symbol, a, seq![to]),
{
    assert forall|a: Text| #[trigger]
        reaches(after, a) == reaches(before, a) + under(symbol, a, seq![to]) by {
        assert(reaches(after, a) =~= reaches(before, a) + under(symbol, a, seq![to]));
    }
}

/// Reads one transition line and adds its transitions to `states`. Returns
/// why the line is rejected, if it is; the states may then hold some of the
/// line's transitions.
#[verifier::loop_isolation(false)]
fn add_line(states: &mut Vec<NFAState>, alphabet: &Vec<String>, line: &str) -> (r: Option<
    ParseError,
>)
    requires
        distinct(old(states)@),
        tidy(old(states)@),
    ensures
        r == line_error(state_names(old(states)@), names(alphabet@).to_set(), line@),
        same_states(old(states)@, final(states)@),
        tidy(final(states)@),
        r is None ==> edges_of(final(states)@) == edges_of(old(states)@).union(line_edges(line@)),
        r is None ==> forall|q: Text, a: Text| #[trigger]
            held(final(states)@, q, a) == held(old(states)@, q, a) + if line_is_for(line@, q, a) {
                line_destinations(line@)
            } else {
                Seq::empty()
            },
{
    let (left, right) = split_arrow(line);
    let fields = split_on(left, ',');
    let source = match find_state(states, fields[0]) {
        Some(k) => k,
        None => {
            return Some(ParseError::UnknownStateReference(Reference::TransitionSource));
        },
    };
    if fields.len() < 2 {
        return Some(ParseError::MalformedTransitionLine(Defect::MissingSymbol));
    }
    if !holds(alphabet, fields[1]) {
        return Some(ParseError::UnknownSymbolInAlphabet);
    }
    let destinations = match right {
        Some(right) => split_on(right, ','),
        None => {
            return Some(ParseError::MalformedTransitionLine(Defect::MissingArrow));
        },
    };
    let ghost symbol = fields@[1]@;
    let ghost targets = texts(destinations@);
    let mut j: usize = 0;
    proof {
        assert forall|a: Text| #[trigger]
            reaches(states[source as int], a) == reaches(old(states)[source as int], a)
                + under(symbol, a, targets.take(0)) by {
            assert(reaches(states[source as int], a) =~= reaches(states[source as int], a)
                + Seq::empty());
            assert(targets.take(0) =~= Seq::empty());
        }
    }
    while j < destinations.len()
        invariant
            j <= destinations.len(),
            source < states.len(),
            targets == texts(destinations@),
            same_states(old(states)@, states@),
            tidy(states@),
            forall|k: int|
                0 <= k < states.len() && k != source ==> states[k].transitions == old(
                    states,
                )[k].transitions,
            forall|a: Text| #[trigger]
                reaches(states[source as int], a) == reaches(old(states)[source as int], a)
                    + under(symbol, a, targets.take(j as int)),
            targets.take(j as int).to_set().subset_of(state_names(old(states)@)),
        decreases destinations.len() - j,
    {
        let ghost before = states@;
        let ghost to = destinations@[j as int]@;
        proof {
            assert(targets.take(j + 1) =~= targets.take(j as int).push(to));
            targets.take(j as int).lemma_push_to_set_commute(to);
            lemma_same_states(old(states)@, before);
            assert(targets[j as int] == to);
        }
        if find_state(states, destinations[j]).is_none() {
            return Some(ParseError::UnknownStateReference(Reference::TransitionDestination));
        }
        multimap_insert(
            &mut states[source].transitions,
            fields[1].to_owned(),
            destinations[j].to_owned(),
        );
        proof {
            lemma_edge_added(before[source as int], states@[source as int], symbol, to);
            assert forall|a: Text| #[trigger]
                reaches(states[source as int], a) == reaches(old(states)[source as int], a)
                    + under(symbol, a, targets.take(j + 1)) by {
                let first = reaches(old(states)[source as int], a);
                assert(reaches(before[source as int], a) == first + under(
                    symbol,
                    a,
                    targets.take(j as int),
                ));
                if a == symbol {
                    assert((first + targets.take(j as int)) + seq![to] =~= first + targets.take(
                        j + 1,
                    ));
                } else {
                    assert((first + Seq::empty()) + Seq::empty() =~= first + Seq::empty());
                }
            }
        }
        j += 1;
    }
    proof {
        assert(targets.take(j as int) =~= targets);
        let was = old(states)@;
        let now = states@;
        lemma_same_states(was, now);
        assert forall|a: Text, r: Text|
            has_edge(now[source as int], a, r) <==> has_edge(was[source as int], a, r) || (a
                == symbol && targets.contains(r)) by {
            let first = reaches(was[source as int], a);
            if a == symbol {
                lemma_contains_add(first, targets, r);
            } else {
                lemma_contains_add(first, Seq::empty(), r);
            }
        }
        assert forall|q: Text, a: Text| #[trigger]
            held(now, q, a) == held(was, q, a) + if line_is_for(line@, q, a) {
                line_destinations(line@)
            } else {
                Seq::empty()
            } by {
            if state_names(was).contains(q) {
                let k = position(was, q);
                lemma_position(was, k);
                lemma_position(now, k);
                if k != source {
                    assert(held(now, q, a) =~= held(was, q, a) + Seq::empty());
                }
            } else {
                assert(held(now, q, a) =~= held(was, q, a) + Seq::empty());
            }
        }
    }
    None
}

impl View for NFA {
    type V = Automaton;

    closed spec fn view(&self) -> Automaton {
        model_of(self.alphabet@, self.initial_state@, self.states@)
    }
}

impl NFA {
    #[verifier::type_invariant]
    spec fn inv(&self) -> bool {
        &&& names(self.alphabet@).no_duplicates()
        &&& distinct(self.states@)
        &&& tidy(self.states@)
        &&& self@.well_formed()
    }

    /// Reads the description of an automaton: the states, the alphabet, the
    /// initial state and the final states, each on a line of its own, then
    /// one line for each group of transitions. Returns the automaton that
    /// the text describes, or the first reason, reading from the top, why it
    /// describes none.
    #[verifier::loop_isolation(false)]
    pub fn try_from(file: String) -> (r: Result<NFA, ParseError>)
        ensures
            parsed(r) == parse(file@),
            r matches Ok(nfa) ==> nfa@.well_formed(),
            r matches Ok(nfa) ==> forall|q: Text, a: Text| #[trigger]
                nfa.destinations(q, a) == listed(transition_lines(file@), q, a),
    {
        let rows = lines_of(file.as_str());
        if rows.len() < 2 {
            return Err(ParseError::MissingSection(Section::Alphabet));
        }
        let mut states = declare_states(&split_on(rows[0], ','));
        let alphabet = collect_unique(&split_on(rows[1], ','));
        if rows.len() < 3 {
            return Err(ParseError::MissingSection(Section::InitialState));
        }
        if find_state(&states, rows[2]).is_none() {
            return Err(ParseError::UnknownStateReference(Reference::InitialState));
        }
        if rows.len() < 4 {
            return Err(ParseError::MissingSection(Section::FinalStates));
        }
        if !mark_finals(&mut states, &split_on(rows[3], ',')) {
            return Err(ParseError::UnknownStateReference(Reference::FinalState));
        }
        let ghost declared = declared_states(file@);
        let ghost symbols = declared_alphabet(file@);
        let ghost finals = named_finals(file@);
        let ghost rest = transition_lines(file@);
        let mut i: usize = 4;
        while i < rows.len()
            invariant
                4 <= i <= rows.len(),
                texts(rows@) == lines(file@),
                rest == transition_lines(file@),
                symbols == names(alphabet@).to_set(),
                distinct(states@),
                tidy(states@),
                state_names(states@) == declared,
                final_names(states@) == finals,
                first_error(declared, symbols, rest.take(i - 4)) is None,
                edges_of(states@) == edges(rest.take(i - 4)),
                forall|q: Text, a: Text| #[trigger]
                    held(states@, q, a) == listed(rest.take(i - 4), q, a),
            decreases rows.len() - i,
        {
            let ghost before = states@;
            let ghost line = rows@[i as int]@;
            proof {
                assert(rest.take(i - 4 + 1) =~= rest.take(i - 4).push(line));
                assert(rest.take(i - 4).push(line).drop_last() =~= rest.take(i - 4));
            }
            match add_line(&mut states, &alphabet, rows[i]) {
                Some(e) => {
                    proof {
                        lemma_first_error_prefix(declared, symbols, rest, i - 4 + 1);
                    }
                    return Err(e);
                },
                None => {},
            }
            proof {
                assert forall|q: Text, a: Text| #[trigger]
                    held(states@, q, a) == listed(rest.take(i - 4 + 1), q, a) by {
                    assert(held(before, q, a) == listed(rest.take(i - 4), q, a));
                }
            }
            i += 1;
        }
        proof {
            assert(rest.take(i - 4) =~= rest);
        }
        let initial_state = rows[2].to_owned();
        proof {
            let a = model_of(alphabet@, initial_state@, states@);
            parsed_automaton_is_well_formed(file@, a);
        }
        Ok(NFA { alphabet, initial_state, states })
    }

    /// The destinations that the automaton lists for the state `from` on
    /// `symbol`, in the order in which the text listed them, each as often
    /// as the text listed it; none where `from` is no state.
    pub closed spec fn destinations(&self, from: Text, symbol: Text) -> Seq<Text> {
        held(self.states@, from, symbol)
    }

    /// The states reached from the state `from_state` on `symbol`, as
    /// listed, or `None` where there are none.
    pub fn transition(&self, from_state: &str, symbol: &str) -> (r: Option<&Vec<String>>)
        ensures
            r is Some <==> self.destinations(from_state@, symbol@).len() > 0,
            r matches Some(v) ==> names(v@) == self.destinations(from_state@, symbol@),
            forall|to: Text|
                #![trigger self.destinations(from_state@, symbol@).contains(to)]
                #![trigger self@.transitions.contains((from_state@, symbol@, to))]
                self.destinations(from_state@, symbol@).contains(to) <==> self@.transitions.contains(
                    (from_state@, symbol@, to),
                ),
    {
        proof {
            use_type_invariant(self);
        }
        match find_state(&self.states, from_state) {
            None => None,
            Some(i) => {
                let found = multimap_get_vec(&self.states[i].transitions, symbol);
                proof {
                    if let Some(v) = found {
                        assert(self@.transitions.contains((from_state@, symbol@, names(v@)[0])));
                    }
                }
                found
            },
        }
    }

    /// The frontier after one more symbol: every state reached from a state
    /// of `current` on `symbol`, each once.
    fn advance(&self, current: &Vec<String>, symbol: &str) -> (next: Vec<String>)
        ensures
            names(next@).no_duplicates(),
            names(next@).to_set() == self@.step(names(current@).to_set(), symbol@),
    {
        let mut next: Vec<String> = Vec::new();
        let mut i: usize = 0;
        while i < current.len()
            invariant
                i <= current.len(),
                names(next@).no_duplicates(),
                names(next@).to_set() == self@.step(
                    names(current@).take(i as int).to_set(),
                    symbol@,
                ),
            decreases current.len() - i,
        {
            let ghost seen = names(current@).take(i as int).to_set();
            let ghost from = current@[i as int]@;
            let ghost reached = names(next@).to_set();
            proof {
                assert(names(current@).take(i + 1) =~= names(current@).take(i as int).push(from));
                names(current@).take(i as int).lemma_push_to_set_commute(from);
            }
            match self.transition(current[i].as_str(), symbol) {
                None => {
                    proof {
                        step_of_insert(self@, seen, from, symbol@, Set::empty());
                    }
                },
                Some(found) => {
                    let mut j: usize = 0;
                    while j < found.len()
                        invariant
                            j <= found.len(),
                            names(next@).no_duplicates(),
                            names(next@).to_set() == reached.union(
                                names(found@).take(j as int).to_set(),
                            ),
                        decreases found.len() - j,
                    {
                        proof {
                            assert(names(found@).take(j + 1) =~= names(found@).take(j as int).push(
                                found@[j as int]@,
                            ));
                            names(found@).take(j as int).lemma_push_to_set_commute(found@[j as int]@);
                        }
                        add_unique(&mut next, found[j].as_str());
                        j += 1;
                    }
                    proof {
                        assert(names(found@).take(j as int) =~= names(found@));
                        step_of_insert(self@, seen, from, symbol@, names(found@).to_set());
                    }
                },
            }
            i += 1;
        }
        proof {
            assert(names(current@).take(i as int) =~= names(current@));
        }
        next
    }

    /// Runs the automaton on `symbols` from its initial state and returns
    /// the states it may then be in, each once; there may be none. Fails,
    /// without a frontier, where a symbol is not in the alphabet.
    pub fn resolve_transitions(&self, symbols: Vec<&str>) -> (r: Result<Vec<String>, ResolveError>)
        ensures
            outcome(r) == self@.resolve(texts(symbols@)),
            r matches Ok(frontier) ==> names(frontier@).no_duplicates() && names(
                frontier@,
            ).to_set().subset_of(self@.states),
    {
        proof {
            use_type_invariant(self);
        }
        let ghost input = texts(symbols@);
        let mut current: Vec<String> = Vec::new();
        current.push(self.initial_state.clone());
        proof {
            assert(names(current@)[0] == self.initial_state@);
        }
        let mut i: usize = 0;
        while i < symbols.len()
            invariant
                i <= symbols.len(),
                input == texts(symbols@),
                forall|j: int| 0 <= j < i ==> self@.alphabet.contains(input[j]),
                names(current@).no_duplicates(),
                names(current@).to_set() == self@.frontier(input.take(i as int)),
            decreases symbols.len() - i,
        {
            if !holds(&self.alphabet, symbols[i]) {
                proof {
                    let first = lemma_first_unknown(self@, input, i as int);
                }
                return Err(ResolveError::UnknownSymbolDuringResolution(symbols[i].to_owned()));
            }
            proof {
                assert(input.take(i + 1).drop_last() =~= input.take(i as int));
            }
            current = self.advance(&current, symbols[i]);
            i += 1;
        }
        proof {
            assert(input.take(i as int) =~= input);
        }
        Ok(current)
    }

    /// Whether any of `states` is a final state of the automaton. A name
    /// that is no state of the automaton counts as not final.
    pub fn is_any_state_final(&self, states: Vec<String>) -> (r: bool)
        ensures
            r == self@.accepting(names(states@).to_set()),
    {
        let mut i: usize = 0;
        while i < states.len()
            invariant
                i <= states.len(),
                forall|j: int| 0 <= j < i ==> !self@.finals.contains(names(states@)[j]),
            decreases states.len() - i,
        {
            proof {
                use_type_invariant(self);
                assert(names(states@)[i as int] == states@[i as int]@);
            }
            match find_state(&self.states, states[i].as_str()) {
                Some(k) => {
                    if self.states[k].is_final {
                        proof {
                            assert(names(states@).to_set().contains(states@[i as int]@));
                        }
                        return true;
                    }
                },
                None => {},
            }
            i += 1;
        }
        false
    }
}

/// What a result of [`NFA::try_from`] stands for: the model of the
/// automaton, or the error.
pub open spec fn parsed(r: Result<NFA, ParseError>) -> Result<Automaton, ParseError> {
    match r {
        Ok(nfa) => Ok(nfa@),
        Err(e) => Err(e),
    }
}

/// What a result of [`NFA::resolve_transitions`] stands for: the set of the
/// states it lists, or the symbol it rejects.
pub open spec fn outcome(r: Result<Vec<String>, ResolveError>) -> Result<Set<Text>, Text> {
    match r {
        Ok(frontier) => Ok(names(frontier@).to_set()),
        Err(ResolveError::UnknownSymbolDuringResolution(symbol)) => Err(symbol@),
    }
}

/// Resolving is a function of the automaton and the input: whatever two
/// calls of [`NFA::resolve_transitions`] return for the same input, both
/// fail on the same symbol or both list the same states, and as many.
pub proof fn resolution_is_deterministic(
    nfa: NFA,
    symbols: Seq<&str>,
    first: Result<Vec<String>, ResolveError>,
    second: Result<Vec<String>, ResolveError>,
)
    requires
        outcome(first) == nfa@.resolve(texts(symbols)),
        outcome(second) == nfa@.resolve(texts(symbols)),
        first matches Ok(frontier) ==> names(frontier@).no_duplicates(),
        second matches Ok(frontier) ==> names(frontier@).no_duplicates(),
    ensures
        outcome(first) == outcome(second),
        first matches Ok(a) ==> second matches Ok(b) && a.len() == b.len(),
{
    if let Ok(a) = first {
        let b = second->Ok_0;
        names(a@).unique_seq_to_set();
        names(b@).unique_seq_to_set();
    }
}

} // verus!

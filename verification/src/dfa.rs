//! Deterministic automata: building one state by state, and running it.

use crate::nfa::ResolveError;
use crate::text::{add_unique, holds, names, texts, Text};
use vstd::hash_map::StringHashMap;
use vstd::prelude::*;

verus! {

/// A deterministic finite automaton: from a state, a symbol leads to at
/// most one state.
pub struct Deterministic {
    pub states: Set<Text>,
    pub alphabet: Set<Text>,
    pub initial: Text,
    pub finals: Set<Text>,
    pub delta: Map<(Text, Text), Text>,
}

impl Deterministic {
    /// Every state that is referred to is a state of the automaton, and
    /// every symbol on a transition belongs to the alphabet.
    pub open spec fn well_formed(self) -> bool {
        &&& self.states.contains(self.initial)
        &&& self.finals.subset_of(self.states)
        &&& forall|q: Text, a: Text| #[trigger]
            self.delta.contains_key((q, a)) ==> self.states.contains(q) && self.alphabet.contains(
                a,
            ) && self.states.contains(self.delta[(q, a)])
    }

    /// The outcome of reading `input` from `state`. The symbols are read
    /// left to right: one outside the alphabet fails the run with that
    /// symbol, one without a transition from the current state ends the run
    /// without a state, and what follows it is not looked at.
    pub open spec fn run_from(self, state: Text, input: Seq<Text>) -> Result<Option<Text>, Text>
        decreases input.len(),
    {
        if input.len() == 0 {
            Ok(Some(state))
        } else if !self.alphabet.contains(input[0]) {
            Err(input[0])
        } else if !self.delta.contains_key((state, input[0])) {
            Ok(None)
        } else {
            self.run_from(self.delta[(state, input[0])], input.skip(1))
        }
    }

    /// The outcome of reading `input` from the initial state.
    pub open spec fn run(self, input: Seq<Text>) -> Result<Option<Text>, Text> {
        self.run_from(self.initial, input)
    }
}

/// A deterministic finite automaton. It starts with its initial state alone
/// and grows by [`DFA::with_state`] and [`DFA::with_transition`].
pub struct DFA {
    alphabet: Vec<String>,
    initial_state: String,
    states: Vec<DFAState>,
}

struct DFAState {
    name: String,
    is_final: bool,
    /// From a symbol to the name of the state reached on it.
    transitions: StringHashMap<String>,
}

/// No two of `states` have the same name.
spec fn distinct(states: Seq<DFAState>) -> bool {
    forall|i: int, j: int|
        0 <= i < states.len() && 0 <= j < states.len() && i != j ==> states[i].name@
            != states[j].name@
}

spec fn state_names(states: Seq<DFAState>) -> Set<Text> {
    Set::new(|q: Text| exists|i: int| 0 <= i < states.len() && states[i].name@ == q)
}

spec fn final_names(states: Seq<DFAState>) -> Set<Text> {
    Set::new(
        |q: Text| exists|i: int| 0 <= i < states.len() && states[i].name@ == q && states[i].is_final,
    )
}

/// The position of the state called `name`, where there is one.
spec fn position(states: Seq<DFAState>, name: Text) -> int {
    choose|i: int| 0 <= i < states.len() && states[i].name@ == name
}

spec fn delta_of(states: Seq<DFAState>) -> Map<(Text, Text), Text> {
    Map::new(
        |k: (Text, Text)|
            state_names(states).contains(k.0) && states[position(
                states,
                k.0,
            )].transitions@.contains_key(k.1),
        |k: (Text, Text)| states[position(states, k.0)].transitions@[k.1]@,
    )
}

spec fn model_of(alphabet: Seq<String>, initial: Text, states: Seq<DFAState>) -> Deterministic {
    Deterministic {
        states: state_names(states),
        alphabet: names(alphabet).to_set(),
        initial,
        finals: final_names(states),
        delta: delta_of(states),
    }
}

/// Among states with distinct names, a name has one position.
proof fn lemma_position(states: Seq<DFAState>, i: int)
    requires
        distinct(states),
        0 <= i < states.len(),
    ensures
        state_names(states).contains(states[i].name@),
        position(states, states[i].name@) == i,
{
}

/// The position of the state called `name`, if there is one.
fn find_state(states: &Vec<DFAState>, name: &str) -> (r: Option<usize>)
    ensures
        r is Some <==> state_names(states@).contains(name@),
        r matches Some(i) ==> i < states.len() && states[i as int].name@ == name@,
{
    let wanted = name.to_owned();
    let mut i: usize = 0;
    while i < states.len()
        invariant
            i <= states.len(),
            wanted@ == name@,
            forall|j: int| 0 <= j < i ==> states[j].name@ != name@,
        decreases states.len() - i,
    {
        if states[i].name == wanted {
            return Some(i);
        }
        i += 1;
    }
    None
}

impl View for DFA {
    type V = Deterministic;

    closed spec fn view(&self) -> Deterministic {
        model_of(self.alphabet@, self.initial_state@, self.states@)
    }
}

/// What a result of [`DFA::resolve_transitions`] stands for: the state the
/// run ends in, if it ends in one, or the symbol it rejects.
pub open spec fn run_outcome(r: Result<Option<String>, ResolveError>) -> Result<
    Option<Text>,
    Text,
> {
    match r {
        Ok(Some(state)) => Ok(Some(state@)),
        Ok(None) => Ok(None),
        Err(ResolveError::UnknownSymbolDuringResolution(symbol)) => Err(symbol@),
    }
}

impl DFA {
    #[verifier::type_invariant]
    spec fn inv(&self) -> bool {
        &&& names(self.alphabet@).no_duplicates()
        &&& distinct(self.states@)
        &&& self@.well_formed()
    }

    /// An automaton over the symbols of `alphabet` whose only state is
    /// `initial_state`, not final and without transitions.
    pub fn new(alphabet: Vec<String>, initial_state: String) -> (r: DFA)
        ensures
            r@.well_formed(),
            r@ == (Deterministic {
                states: set![initial_state@],
                alphabet: names(alphabet@).to_set(),
                initial: initial_state@,
                finals: Set::empty(),
                delta: Map::empty(),
            }),
    {
        let mut symbols: Vec<String> = Vec::new();
        let mut i: usize = 0;
        while i < alphabet.len()
            invariant
                i <= alphabet.len(),
                names(symbols@).no_duplicates(),
                names(symbols@).to_set() == names(alphabet@).take(i as int).to_set(),
            decreases alphabet.len() - i,
        {
            proof {
                assert(names(alphabet@).take(i + 1) =~= names(alphabet@).take(i as int).push(
                    alphabet@[i as int]@,
                ));
                names(alphabet@).take(i as int).lemma_push_to_set_commute(alphabet@[i as int]@);
            }
            add_unique(&mut symbols, alphabet[i].as_str());
            i += 1;
        }
        proof {
            assert(names(alphabet@).take(i as int) =~= names(alphabet@));
        }
        let mut states: Vec<DFAState> = Vec::new();
        states.push(
            DFAState {
                name: initial_state.clone(),
                is_final: false,
                transitions: StringHashMap::new(),
            },
        );
        proof {
            assert(states@[0].name@ == initial_state@);
            assert(state_names(states@) =~= set![initial_state@]);
            assert(final_names(states@) =~= Set::<Text>::empty());
            assert(delta_of(states@) =~= Map::<(Text, Text), Text>::empty());
        }
        DFA { alphabet: symbols, initial_state, states }
    }

    /// The automaton with the state `name`, final or not as `is_final`
    /// says. A state of that name that is there already keeps its
    /// transitions and is final or not as `is_final` says.
    pub fn with_state(self, name: &str, is_final: bool) -> (r: DFA)
        ensures
            r@.well_formed(),
            r@ == (Deterministic {
                states: self@.states.insert(name@),
                finals: if is_final {
                    self@.finals.insert(name@)
                } else {
                    self@.finals.remove(name@)
                },
                ..self@
            }),
    {
        proof {
            use_type_invariant(&self);
        }
        let ghost was = self.states@;
        let DFA { alphabet, initial_state, mut states } = self;
        let at = match find_state(&states, name) {
            Some(k) => {
                states[k].is_final = is_final;
                k
            },
            None => {
                states.push(
                    DFAState { name: name.to_owned(), is_final, transitions: StringHashMap::new() },
                );
                states.len() - 1
            },
        };
        proof {
            let now = states@;
            assert(now[at as int].name@ == name@ && now[at as int].is_final == is_final);
            assert(forall|k: int|
                0 <= k < was.len() ==> now[k].name@ == was[k].name@ && now[k].transitions
                    == was[k].transitions && (k != at ==> now[k].is_final == was[k].is_final));
            assert(distinct(now));
            assert(state_names(now) =~= state_names(was).insert(name@));
            assert(final_names(now) =~= if is_final {
                final_names(was).insert(name@)
            } else {
                final_names(was).remove(name@)
            });
            assert(delta_of(now) =~= delta_of(was));
        }
        DFA { alphabet, initial_state, states }
    }

    /// The automaton with a transition from `from` on `symbol` to `to`, in
    /// place of the one that `from` had on `symbol`, if it had one. Returns
    /// `None` unless `from` and `to` are states of the automaton and
    /// `symbol` is in its alphabet.
    pub fn with_transition(self, from: &str, symbol: &str, to: &str) -> (r: Option<DFA>)
        ensures
            r is Some <==> self@.states.contains(from@) && self@.alphabet.contains(symbol@)
                && self@.states.contains(to@),
            r matches Some(d) ==> d@.well_formed() && d@ == (Deterministic {
                delta: self@.delta.insert((from@, symbol@), to@),
                ..self@
            }),
    {
        proof {
            use_type_invariant(&self);
        }
        let ghost was = self.states@;
        let DFA { alphabet, initial_state, mut states } = self;
        let source = match find_state(&states, from) {
            Some(k) => k,
            None => {
                return None;
            },
        };
        if !holds(&alphabet, symbol) || find_state(&states, to).is_none() {
            return None;
        }
        states[source].transitions.insert(symbol.to_owned(), to.to_owned());
        proof {
            let now = states@;
            assert(forall|k: int|
                0 <= k < was.len() ==> now[k].name@ == was[k].name@ && now[k].is_final
                    == was[k].is_final && (k != source ==> now[k].transitions
                    == was[k].transitions));
            assert(distinct(now));
            assert(state_names(now) =~= state_names(was));
            assert(final_names(now) =~= final_names(was));
            assert(delta_of(now) =~= delta_of(was).insert((from@, symbol@), to@));
        }
        Some(DFA { alphabet, initial_state, states })
    }

    /// The state reached from the state `from_state` on `symbol`, if there
    /// is one.
    pub fn transition(&self, from_state: &str, symbol: &str) -> (r: Option<&String>)
        ensures
            r is Some <==> self@.delta.contains_key((from_state@, symbol@)),
            r matches Some(to) ==> to@ == self@.delta[(from_state@, symbol@)],
    {
        proof {
            use_type_invariant(self);
        }
        match find_state(&self.states, from_state) {
            None => None,
            Some(k) => {
                proof {
                    lemma_position(self.states@, k as int);
                }
                self.states[k].transitions.get(symbol)
            },
        }
    }

    /// Runs the automaton on `symbols` from its initial state and returns
    /// the state it ends in, or `None` as soon as a symbol has no transition
    /// from the current state. Fails on a symbol that is not in the
    /// alphabet, unless the run has ended before it.
    pub fn resolve_transitions(&self, symbols: Vec<&str>) -> (r: Result<
        Option<String>,
        ResolveError,
    >)
        ensures
            run_outcome(r) == self@.run(texts(symbols@)),
    {
        proof {
            use_type_invariant(self);
        }
        let ghost input = texts(symbols@);
        let mut current_state: String = self.initial_state.clone();
        let mut i: usize = 0;
        proof {
            assert(input.skip(0) =~= input);
        }
        while i < symbols.len()
            invariant
                i <= symbols.len(),
                input == texts(symbols@),
                self@.run(input) == self@.run_from(current_state@, input.skip(i as int)),
            decreases symbols.len() - i,
        {
            proof {
                assert(input.skip(i as int)[0] == symbols@[i as int]@);
                assert(input.skip(i as int).skip(1) =~= input.skip(i + 1));
            }
            if !holds(&self.alphabet, symbols[i]) {
                return Err(ResolveError::UnknownSymbolDuringResolution(symbols[i].to_owned()));
            }
            match self.transition(current_state.as_str(), symbols[i]) {
                Some(next_state) => {
                    current_state = next_state.clone();
                },
                None => {
                    return Ok(None);
                },
            }
            i += 1;
        }
        Ok(Some(current_state))
    }

    /// Whether `state` is a final state of the automaton. A name that is no
    /// state of the automaton counts as not final.
    pub fn is_this_state_final(&self, state: &str) -> (r: bool)
        ensures
            r == self@.finals.contains(state@),
    {
        proof {
            use_type_invariant(self);
        }
        match find_state(&self.states, state) {
            Some(k) => self.states[k].is_final,
            None => false,
        }
    }
}

} // verus!

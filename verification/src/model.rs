//! The mathematical model of an automaton and of running it on an input.

use crate::text::Text;
use vstd::prelude::*;

verus! {

/// A nondeterministic finite automaton. States and symbols are identified by
/// their text; a transition is a triple of source state, symbol and
/// destination state.
pub struct Automaton {
    pub states: Set<Text>,
    pub alphabet: Set<Text>,
    pub initial: Text,
    pub finals: Set<Text>,
    pub transitions: Set<(Text, Text, Text)>,
}

impl Automaton {
    /// Every state that is referred to is a state of the automaton, and
    /// every symbol on a transition belongs to the alphabet.
    pub open spec fn well_formed(self) -> bool {
        &&& self.states.contains(self.initial)
        &&& self.finals.subset_of(self.states)
        &&& forall|q: Text, a: Text, r: Text| #[trigger]
            self.transitions.contains((q, a, r)) ==> self.states.contains(q)
                && self.alphabet.contains(a) && self.states.contains(r)
    }

    /// The states reached from some state of `from` by one transition on
    /// `symbol`.
    pub open spec fn step(self, from: Set<Text>, symbol: Text) -> Set<Text> {
        Set::new(
            |r: Text| exists|q: Text| from.contains(q) && self.transitions.contains((q, symbol, r)),
        )
    }

    /// The states the automaton may be in after reading `input` from its
    /// initial state.
    pub open spec fn frontier(self, input: Seq<Text>) -> Set<Text>
        decreases input.len(),
    {
        if input.len() == 0 {
            set![self.initial]
        } else {
            self.step(self.frontier(input.drop_last()), input.last())
        }
    }

    /// Whether `input` holds, at position `k`, a symbol outside the alphabet.
    pub open spec fn unknown_at(self, input: Seq<Text>, k: int) -> bool {
        0 <= k < input.len() && !self.alphabet.contains(input[k])
    }

    /// Whether `k` is the leftmost position of `input` that holds a symbol
    /// outside the alphabet.
    pub open spec fn first_unknown_at(self, input: Seq<Text>, k: int) -> bool {
        self.unknown_at(input, k) && forall|j: int| 0 <= j < k ==> !self.unknown_at(input, j)
    }

    /// The outcome of resolving `input`: the frontier after the whole input
    /// where every symbol belongs to the alphabet, and otherwise the leftmost
    /// symbol that does not.
    pub open spec fn resolve(self, input: Seq<Text>) -> Result<Set<Text>, Text> {
        if exists|k: int| self.unknown_at(input, k) {
            Err(input[choose|k: int| self.first_unknown_at(input, k)])
        } else {
            Ok(self.frontier(input))
        }
    }

    /// Whether `frontier` holds a final state.
    pub open spec fn accepting(self, frontier: Set<Text>) -> bool {
        exists|q: Text| frontier.contains(q) && self.finals.contains(q)
    }
}

/// Among the positions of unknown symbols there is a leftmost one, and it
/// is the only leftmost one.
pub proof fn lemma_first_unknown(a: Automaton, input: Seq<Text>, k: int) -> (first: int)
    requires
        a.unknown_at(input, k),
    ensures
        0 <= first <= k,
        a.first_unknown_at(input, first),
        a.resolve(input) == Err::<Set<Text>, Text>(input[first]),
    decreases k,
{
    let first = if exists|j: int| 0 <= j < k && a.unknown_at(input, j) {
        let j = choose|j: int| 0 <= j < k && a.unknown_at(input, j);
        lemma_first_unknown(a, input, j)
    } else {
        k
    };
    assert(a.first_unknown_at(input, first));
    let chosen = choose|k: int| a.first_unknown_at(input, k);
    if chosen < first {
        assert(!a.unknown_at(input, chosen));
    }
    if first < chosen {
        assert(!a.unknown_at(input, first));
    }
    first
}

/// Resolving the empty input yields exactly the initial state.
pub proof fn resolve_of_empty_input(a: Automaton)
    ensures
        a.resolve(Seq::empty()) == Ok::<Set<Text>, Text>(set![a.initial]),
{
}

/// An input that holds a symbol outside the alphabet at any position fails
/// to resolve, whatever stands before or after that symbol, and the failure
/// names the leftmost such symbol.
pub proof fn resolve_rejects_unknown_symbol(a: Automaton, input: Seq<Text>, k: int)
    requires
        0 <= k < input.len(),
        !a.alphabet.contains(input[k]),
    ensures
        a.resolve(input) is Err,
        exists|first: int|
            a.first_unknown_at(input, first) && a.resolve(input) == Err::<Set<Text>, Text>(
                input[first],
            ),
{
    let first = lemma_first_unknown(a, input, k);
}

/// An input whose symbols all belong to the alphabet resolves to its
/// frontier.
pub proof fn resolve_of_known_input(a: Automaton, input: Seq<Text>)
    requires
        forall|k: int| 0 <= k < input.len() ==> a.alphabet.contains(input[k]),
    ensures
        a.resolve(input) == Ok::<Set<Text>, Text>(a.frontier(input)),
{
}

/// Resolving reads the input from left to right: a failure on what was
/// read so far stays, and otherwise the next symbol either advances the
/// frontier by one step or, being outside the alphabet, fails.
pub proof fn resolve_of_one_more_symbol(a: Automaton, input: Seq<Text>, symbol: Text)
    ensures
        a.resolve(input.push(symbol)) == match a.resolve(input) {
            Err(unknown) => Err(unknown),
            Ok(frontier) => if a.alphabet.contains(symbol) {
                Ok(a.step(frontier, symbol))
            } else {
                Err(symbol)
            },
        },
{
    let longer = input.push(symbol);
    assert(longer.drop_last() =~= input);
    if exists|k: int| a.unknown_at(input, k) {
        let k = choose|k: int| a.unknown_at(input, k);
        let first = lemma_first_unknown(a, input, k);
        assert(a.unknown_at(longer, first));
        let again = lemma_first_unknown(a, longer, first);
        if again < first {
            assert(a.unknown_at(input, again));
        }
    } else if !a.alphabet.contains(symbol) {
        let last = input.len() as int;
        assert(a.unknown_at(longer, last));
        let first = lemma_first_unknown(a, longer, last);
        if first < last {
            assert(a.unknown_at(input, first));
        }
    } else {
        assert forall|k: int| !a.unknown_at(longer, k) by {
            if 0 <= k < input.len() {
                assert(!a.unknown_at(input, k));
            }
        }
    }
}

/// No transition leaves the empty frontier: once empty, it stays empty.
pub proof fn step_of_empty_frontier(a: Automaton, symbol: Text)
    ensures
        a.step(Set::empty(), symbol) == Set::<Text>::empty(),
{
}

/// One more state in a frontier adds to the next frontier exactly the
/// states that it reaches on the symbol.
pub proof fn step_of_insert(
    a: Automaton,
    from: Set<Text>,
    state: Text,
    symbol: Text,
    reached: Set<Text>,
)
    requires
        forall|r: Text| reached.contains(r) <==> a.transitions.contains((state, symbol, r)),
    ensures
        a.step(from.insert(state), symbol) == a.step(from, symbol).union(reached),
{
    assert forall|r: Text|
        a.step(from.insert(state), symbol).contains(r) <==> a.step(from, symbol).union(
            reached,
        ).contains(r) by {
        if a.step(from.insert(state), symbol).contains(r) {
            let q = choose|q: Text|
                from.insert(state).contains(q) && a.transitions.contains((q, symbol, r));
            if q != state {
                assert(from.contains(q) && a.transitions.contains((q, symbol, r)));
            }
        }
        if a.step(from, symbol).contains(r) {
            let q = choose|q: Text| from.contains(q) && a.transitions.contains((q, symbol, r));
            assert(from.insert(state).contains(q) && a.transitions.contains((q, symbol, r)));
        }
        if reached.contains(r) {
            assert(from.insert(state).contains(state) && a.transitions.contains(
                (state, symbol, r),
            ));
        }
    }
}

/// In a well-formed automaton every frontier consists of states.
pub proof fn frontier_within_states(a: Automaton, input: Seq<Text>)
    requires
        a.well_formed(),
    ensures
        a.frontier(input).subset_of(a.states),
{
}

/// A frontier is accepting exactly if it meets the set of final states.
pub proof fn accepting_iff_meets_finals(a: Automaton, frontier: Set<Text>)
    ensures
        a.accepting(frontier) <==> !frontier.disjoint(a.finals),
{
}

/// The empty frontier is never accepting.
pub proof fn empty_frontier_not_accepting(a: Automaton)
    ensures
        !a.accepting(Set::empty()),
{
}

} // verus!

//! Nondeterministic finite automata without epsilon moves: data model,
//! validating builder, and membership test.

use vstd::prelude::*;

use crate::dfa::machine::{dfa_accepts, dfa_run, DFAView};
use crate::states::StateSet;

verus! {

/// Errors reported while building an NFA.
#[derive(Debug)]
pub enum NFAError {
    /// The transition from the `usize` state with the `char` symbol was
    /// registered a second time. This builder treats a re-registration as a
    /// set union and never produces this error.
    DuplicatedTransition(char, usize),
    /// No final state was specified.
    MissingFinalStates,
    /// No starting state was specified.
    MissingStartingState,
}

/// Mathematical content of a finalized NFA: a transition relation of
/// (symbol, source, destination) edges, a start state, and the final states.
pub ghost struct NFAView {
    pub transitions: Set<(char, usize, usize)>,
    pub start: usize,
    pub finals: Set<usize>,
}

/// Mathematical content of an NFA under construction.
pub ghost struct NFABuilderView {
    pub transitions: Set<(char, usize, usize)>,
    pub start: Option<usize>,
    pub finals: Set<usize>,
}

/// The builder a fresh `NFABuilder` holds.
pub open spec fn empty_nfa_builder() -> NFABuilderView {
    NFABuilderView { transitions: Set::empty(), start: None, finals: Set::empty() }
}

/// The states reachable from `states` in one step labelled `c`.
pub open spec fn nfa_next(edges: Set<(char, usize, usize)>, states: Set<usize>, c: char) -> Set<
    usize,
> {
    Set::new(|d: usize| exists|s: usize| states.contains(s) && edges.contains((c, s, d)))
}

/// The set of states reached after stepping through every symbol of `input`.
pub open spec fn nfa_run(
    edges: Set<(char, usize, usize)>,
    states: Set<usize>,
    input: Seq<char>,
) -> Set<usize>
    decreases input.len(),
{
    if input.len() == 0 {
        states
    } else {
        nfa_run(edges, nfa_next(edges, states, input[0]), input.drop_first())
    }
}

/// Whether the NFA described by `a` accepts `input`: the run starting from
/// the singleton {start} ends in a set that intersects the final states.
pub open spec fn nfa_accepts(a: NFAView, input: Seq<char>) -> bool {
    exists|s: usize|
        nfa_run(a.transitions, Set::empty().insert(a.start), input).contains(s)
            && a.finals.contains(s)
}

proof fn lemma_nfa_run_push(
    edges: Set<(char, usize, usize)>,
    states: Set<usize>,
    input: Seq<char>,
    c: char,
)
    ensures
        nfa_run(edges, states, input.push(c)) == nfa_next(edges, nfa_run(edges, states, input), c),
    decreases input.len(),
{
    if input.len() == 0 {
        assert(input.push(c)[0] == c);
        assert(input.push(c).drop_first() =~= Seq::<char>::empty());
        assert(nfa_run(edges, states, input.push(c)) == nfa_run(
            edges,
            nfa_next(edges, states, c),
            Seq::<char>::empty(),
        ));
    } else {
        assert(input.push(c)[0] == input[0]);
        assert(input.push(c).drop_first() =~= input.drop_first().push(c));
        lemma_nfa_run_push(edges, nfa_next(edges, states, input[0]), input.drop_first(), c);
        assert(nfa_run(edges, states, input.push(c)) == nfa_run(
            edges,
            nfa_next(edges, states, input[0]),
            input.drop_first().push(c),
        ));
    }
}

/// The type `NFA` represents a nondeterministic finite automaton over
/// single-character symbols and unsigned state identifiers.
#[derive(Debug)]
pub struct NFA {
    transitions: Vec<(char, usize, usize)>,
    start: usize,
    finals: StateSet,
}

impl View for NFA {
    type V = NFAView;

    closed spec fn view(&self) -> NFAView {
        NFAView {
            transitions: self.transitions@.to_set(),
            start: self.start,
            finals: self.finals@,
        }
    }
}

/// The `NFABuilder` accumulates a start state, final states, and transition
/// edges, and is consumed by `finalize`.
#[derive(Debug)]
pub struct NFABuilder {
    transitions: Vec<(char, usize, usize)>,
    start: Option<usize>,
    finals: StateSet,
}

impl View for NFABuilder {
    type V = NFABuilderView;

    closed spec fn view(&self) -> NFABuilderView {
        NFABuilderView {
            transitions: self.transitions@.to_set(),
            start: self.start,
            finals: self.finals@,
        }
    }
}

/// The views of a builder-or-error chaining value.
pub open spec fn builder_views(r: Result<NFABuilder, NFAError>) -> Result<
    NFABuilderView,
    NFAError,
> {
    match r {
        Ok(b) => Ok(b@),
        Err(e) => Err(e),
    }
}

/// The views of a finalized-automaton-or-error value.
pub open spec fn nfa_views(r: Result<NFA, NFAError>) -> Result<NFAView, NFAError> {
    match r {
        Ok(a) => Ok(a@),
        Err(e) => Err(e),
    }
}

/// Setting the start state overwrites any previous choice.
pub open spec fn spec_add_start(b: NFABuilderView, state: usize) -> NFABuilderView {
    NFABuilderView { start: Some(state), ..b }
}

/// Inserting a final state is idempotent.
pub open spec fn spec_add_final(b: NFABuilderView, state: usize) -> NFABuilderView {
    NFABuilderView { finals: b.finals.insert(state), ..b }
}

/// Registering a transition unions the edge into the relation; it never
/// fails, and registering the same edge twice changes nothing.
pub open spec fn spec_add_transition(
    b: NFABuilderView,
    symb: char,
    src: usize,
    dest: usize,
) -> NFABuilderView {
    NFABuilderView { transitions: b.transitions.insert((symb, src, dest)), ..b }
}

/// Finalizing requires a start state and a non-empty final-state set, in
/// that order of checks.
pub open spec fn spec_finalize(b: NFABuilderView) -> Result<NFAView, NFAError> {
    if b.start is None {
        Err(NFAError::MissingStartingState)
    } else if b.finals == Set::<usize>::empty() {
        Err(NFAError::MissingFinalStates)
    } else {
        Ok(NFAView { transitions: b.transitions, start: b.start->0, finals: b.finals })
    }
}

/// `spec_add_start` lifted over an already-failed chain.
pub open spec fn spec_chain_add_start(r: Result<NFABuilderView, NFAError>, state: usize) -> Result<
    NFABuilderView,
    NFAError,
> {
    match r {
        Ok(b) => Ok(spec_add_start(b, state)),
        Err(e) => Err(e),
    }
}

/// `spec_add_final` lifted over an already-failed chain.
pub open spec fn spec_chain_add_final(r: Result<NFABuilderView, NFAError>, state: usize) -> Result<
    NFABuilderView,
    NFAError,
> {
    match r {
        Ok(b) => Ok(spec_add_final(b, state)),
        Err(e) => Err(e),
    }
}

/// `spec_add_transition` lifted over an already-failed chain.
pub open spec fn spec_chain_add_transition(
    r: Result<NFABuilderView, NFAError>,
    symb: char,
    src: usize,
    dest: usize,
) -> Result<NFABuilderView, NFAError> {
    match r {
        Ok(b) => Ok(spec_add_transition(b, symb, src, dest)),
        Err(e) => Err(e),
    }
}

/// `spec_finalize` lifted over an already-failed chain.
pub open spec fn spec_chain_finalize(r: Result<NFABuilderView, NFAError>) -> Result<
    NFAView,
    NFAError,
> {
    match r {
        Ok(b) => spec_finalize(b),
        Err(e) => Err(e),
    }
}

/// Builder operations, implemented both by `NFABuilder` and by
/// `Result<NFABuilder, NFAError>`, so that construction steps chain without
/// unwrapping: an error produced by any step short-circuits the rest.
pub trait NFABuilding: Sized {
    /// The builder state carried into the next step: the view of the builder
    /// so far, or the first error the chain produced.
    spec fn building_view(self) -> Result<NFABuilderView, NFAError>;

    /// Adds the starting state, overwriting any previous choice.
    fn add_start(self, state: usize) -> (r: Result<NFABuilder, NFAError>)
        ensures
            builder_views(r) == spec_chain_add_start(self.building_view(), state),
    ;

    /// Adds a final state; adding it twice changes nothing.
    fn add_final(self, state: usize) -> (r: Result<NFABuilder, NFAError>)
        ensures
            builder_views(r) == spec_chain_add_final(self.building_view(), state),
    ;

    /// Adds the edge (symb, src) -> dest to the transition relation; adding
    /// it twice changes nothing.
    fn add_transition(self, symb: char, src: usize, dest: usize) -> (r: Result<
        NFABuilder,
        NFAError,
    >)
        ensures
            builder_views(r) == spec_chain_add_transition(self.building_view(), symb, src, dest),
    ;

    /// Checks the builder invariants and produces the immutable NFA; fails
    /// with `MissingStartingState` when no start was ever set, else with
    /// `MissingFinalStates` when no final state was added.
    fn finalize(self) -> (r: Result<NFA, NFAError>)
        ensures
            nfa_views(r) == spec_chain_finalize(self.building_view()),
    ;
}

impl NFABuilder {
    /// Creates a new, empty `NFABuilder`.
    pub fn new() -> (r: Result<NFABuilder, NFAError>)
        ensures
            builder_views(r) == Ok::<NFABuilderView, NFAError>(empty_nfa_builder()),
    {
        let b = NFABuilder { transitions: Vec::new(), start: None, finals: StateSet::new() };
        proof {
            assert(b@.transitions =~= empty_nfa_builder().transitions);
        }
        Ok(b)
    }
}

fn has_edge(transitions: &Vec<(char, usize, usize)>, symb: char, src: usize, dest: usize) -> (r:
    bool)
    ensures
        r == transitions@.to_set().contains((symb, src, dest)),
{
    let n = transitions.len();
    for i in 0..n
        invariant
            n == transitions.len(),
            forall|j: int| 0 <= j < i ==> #[trigger] transitions@[j] != (symb, src, dest),
    {
        let t = transitions[i];
        if t.0 == symb && t.1 == src && t.2 == dest {
            proof {
                assert(transitions@[i as int] == (symb, src, dest));
            }
            return true;
        }
    }
    proof {
        assert(!transitions@.contains((symb, src, dest)));
    }
    false
}

impl NFABuilding for NFABuilder {
    open spec fn building_view(self) -> Result<NFABuilderView, NFAError> {
        Ok(self@)
    }

    fn add_start(self, state: usize) -> (r: Result<NFABuilder, NFAError>) {
        Ok(self).add_start(state)
    }

    fn add_final(self, state: usize) -> (r: Result<NFABuilder, NFAError>) {
        Ok(self).add_final(state)
    }

    fn add_transition(self, symb: char, src: usize, dest: usize) -> (r: Result<
        NFABuilder,
        NFAError,
    >) {
        Ok(self).add_transition(symb, src, dest)
    }

    fn finalize(self) -> (r: Result<NFA, NFAError>) {
        Ok(self).finalize()
    }
}

/// Implementing `NFABuilding` for `Result<NFABuilder, NFAError>` lets the
/// return value of each step be chained into the next one instead of being
/// unwrapped at each stage of the construction.
impl NFABuilding for Result<NFABuilder, NFAError> {
    open spec fn building_view(self) -> Result<NFABuilderView, NFAError> {
        builder_views(self)
    }

    fn add_start(self, state: usize) -> (r: Result<NFABuilder, NFAError>) {
        match self {
            Ok(b) => {
                let NFABuilder { transitions, start: _, finals } = b;
                Ok(NFABuilder { transitions, start: Some(state), finals })
            },
            Err(e) => Err(e),
        }
    }

    fn add_final(self, state: usize) -> (r: Result<NFABuilder, NFAError>) {
        match self {
            Ok(b) => {
                let NFABuilder { transitions, start, finals } = b;
                Ok(NFABuilder { transitions, start, finals: finals.insert(state) })
            },
            Err(e) => Err(e),
        }
    }

    fn add_transition(self, symb: char, src: usize, dest: usize) -> (r: Result<
        NFABuilder,
        NFAError,
    >) {
        match self {
            Ok(b) => {
                if has_edge(&b.transitions, symb, src, dest) {
                    proof {
                        assert(b@.transitions.insert((symb, src, dest)) =~= b@.transitions);
                    }
                    return Ok(b);
                }
                let ghost old_seq = b.transitions@;
                let NFABuilder { mut transitions, start, finals } = b;
                transitions.push((symb, src, dest));
                proof {
                    broadcast use vstd::seq_lib::lemma_seq_contains_after_push;

                    assert(transitions@.to_set() =~= old_seq.to_set().insert((symb, src, dest)));
                }
                Ok(NFABuilder { transitions, start, finals })
            },
            Err(e) => Err(e),
        }
    }

    fn finalize(self) -> (r: Result<NFA, NFAError>) {
        match self {
            Ok(b) => {
                let NFABuilder { transitions, start, finals } = b;
                match start {
                    None => Err(NFAError::MissingStartingState),
                    Some(s) => {
                        if finals.is_empty() {
                            Err(NFAError::MissingFinalStates)
                        } else {
                            Ok(NFA { transitions, start: s, finals })
                        }
                    },
                }
            },
            Err(e) => Err(e),
        }
    }
}

/// The one-step successors contributed by the first `m` entries of `trs`.
spec fn next_upto(trs: Seq<(char, usize, usize)>, states: Set<usize>, c: char, m: int) -> Set<
    usize,
> {
    Set::new(
        |d: usize|
            exists|k: int|
                0 <= k < m && (#[trigger] trs[k]).0 == c && states.contains(trs[k].1) && trs[k].2
                    == d,
    )
}

/// The states reachable from `cur` in one step labelled `c` through the
/// edges listed in `transitions`.
pub(crate) fn next_states_vec(
    transitions: &Vec<(char, usize, usize)>,
    cur: &StateSet,
    c: char,
) -> (r: StateSet)
    ensures
        r@ == nfa_next(transitions@.to_set(), cur@, c),
{
    let n = transitions.len();
    let mut r = StateSet::new();
    proof {
        assert(r@ =~= next_upto(transitions@, cur@, c, 0));
    }
    for i in 0..n
        invariant
            n == transitions.len(),
            r@ == next_upto(transitions@, cur@, c, i as int),
    {
        let t = transitions[i];
        if t.0 == c && cur.contains(t.1) {
            r = r.insert(t.2);
            proof {
                assert(r@ =~= next_upto(transitions@, cur@, c, i + 1)) by {
                    let trs = transitions@;
                    assert forall|d: usize| next_upto(trs, cur@, c, i + 1).contains(d) implies
                    r@.contains(d) by {
                        let k = choose|k: int|
                            0 <= k < i + 1 && (#[trigger] trs[k]).0 == c && cur@.contains(trs[k].1)
                                && trs[k].2 == d;
                        if k < i {
                            assert(next_upto(trs, cur@, c, i as int).contains(d));
                        }
                    }
                    assert(trs[i as int].0 == c && cur@.contains(trs[i as int].1));
                }
            }
        } else {
            proof {
                assert(r@ =~= next_upto(transitions@, cur@, c, i + 1)) by {
                    let trs = transitions@;
                    assert forall|d: usize| next_upto(trs, cur@, c, i + 1).contains(d) implies
                    next_upto(trs, cur@, c, i as int).contains(d) by {
                        let k = choose|k: int|
                            0 <= k < i + 1 && (#[trigger] trs[k]).0 == c && cur@.contains(trs[k].1)
                                && trs[k].2 == d;
                        assert(k < i);
                    }
                }
            }
        }
    }
    proof {
        let trs = transitions@;
        assert(r@ =~= nfa_next(trs.to_set(), cur@, c)) by {
            assert forall|d: usize| next_upto(trs, cur@, c, n as int).contains(d) implies nfa_next(
                trs.to_set(),
                cur@,
                c,
            ).contains(d) by {
                let k = choose|k: int|
                    0 <= k < n && (#[trigger] trs[k]).0 == c && cur@.contains(trs[k].1) && trs[k].2
                        == d;
                let s = trs[k].1;
                assert(trs.contains((c, s, d)));
                assert(trs.to_set().contains((c, s, d)));
            }
            assert forall|d: usize| nfa_next(trs.to_set(), cur@, c).contains(d) implies next_upto(
                trs,
                cur@,
                c,
                n as int,
            ).contains(d) by {
                let s = choose|s: usize| cur@.contains(s) && trs.to_set().contains((c, s, d));
                assert(trs.contains((c, s, d)));
                let k = choose|k: int| 0 <= k < trs.len() && trs[k] == (c, s, d);
                assert((#[trigger] trs[k]).0 == c && cur@.contains(trs[k].1) && trs[k].2 == d);
            }
        }
    }
    r
}

impl NFA {
    /// The start state.
    pub fn start(&self) -> (r: usize)
        ensures
            r == self@.start,
    {
        self.start
    }

    /// The final states, without duplicates.
    pub fn finals(&self) -> (r: Vec<usize>)
        ensures
            r@.to_set() == self@.finals,
            r@.no_duplicates(),
    {
        self.finals.to_vec()
    }

    /// The transition edges as (symbol, source, destination) entries.
    pub fn transitions(&self) -> (r: Vec<(char, usize, usize)>)
        ensures
            r@.to_set() == self@.transitions,
    {
        let n = self.transitions.len();
        let mut r: Vec<(char, usize, usize)> = Vec::new();
        for i in 0..n
            invariant
                n == self.transitions.len(),
                r@ == self.transitions@.take(i as int),
        {
            r.push(self.transitions[i]);
            proof {
                assert(r@ =~= self.transitions@.take(i + 1));
            }
        }
        proof {
            assert(r@ =~= self.transitions@);
        }
        r
    }

    /// Tests whether `input` is a word of the language defined by the NFA.
    pub fn test(&self, input: &str) -> (r: bool)
        ensures
            r == nfa_accepts(self@, input@),
    {
        let cs = crate::text::chars_of(input);
        let mut cur = StateSet::new().insert(self.start);
        let n = cs.len();
        for i in 0..n
            invariant
                n == cs.len(),
                cs@ == input@,
                cur@ == nfa_run(self@.transitions, Set::empty().insert(self@.start), cs@.take(i as int)),
        {
            let next = next_states_vec(&self.transitions, &cur, cs[i]);
            proof {
                lemma_nfa_run_push(
                    self@.transitions,
                    Set::empty().insert(self@.start),
                    cs@.take(i as int),
                    cs@[i as int],
                );
                assert(cs@.take(i + 1) =~= cs@.take(i as int).push(cs@[i as int]));
            }
            cur = next;
        }
        proof {
            assert(cs@.take(n as int) =~= cs@);
        }
        let r = cur.intersects(&self.finals);
        proof {
            let ghost init = Set::<usize>::empty().insert(self@.start);
            if r {
                let s = choose|s: usize| cur@.contains(s) && self.finals@.contains(s);
                assert(nfa_run(self@.transitions, init, input@).contains(s) && self@.finals.contains(
                    s,
                ));
            }
            if nfa_accepts(self@, input@) {
                let s = choose|s: usize|
                    nfa_run(self@.transitions, init, input@).contains(s) && self@.finals.contains(
                        s,
                    );
                assert(cur@.contains(s) && self.finals@.contains(s));
            }
        }
        r
    }
}

/// Acceptance is a pure function of the automaton and the input: two results
/// of testing the same input against the same automaton always agree.
pub proof fn lemma_nfa_test_deterministic(a: NFAView, input: Seq<char>, r1: bool, r2: bool)
    requires
        r1 == nfa_accepts(a, input),
        r2 == nfa_accepts(a, input),
    ensures
        r1 == r2,
{
}

/// A builder whose start state was never set finalizes to
/// `MissingStartingState`, whatever transitions and finals it holds.
pub proof fn lemma_nfa_finalize_missing_start(b: NFABuilderView)
    requires
        b.start is None,
    ensures
        spec_finalize(b) == Err::<NFAView, NFAError>(NFAError::MissingStartingState),
{
}

/// A builder with a start state but an empty final-state set finalizes to
/// `MissingFinalStates`.
pub proof fn lemma_nfa_finalize_missing_finals(b: NFABuilderView)
    requires
        b.start is Some,
        b.finals == Set::<usize>::empty(),
    ensures
        spec_finalize(b) == Err::<NFAView, NFAError>(NFAError::MissingFinalStates),
{
}

/// The edge relation that encodes a deterministic transition function.
pub open spec fn edges_of_map(t: Map<(char, usize), usize>) -> Set<(char, usize, usize)> {
    Set::new(|e: (char, usize, usize)| t.contains_key((e.0, e.1)) && t[(e.0, e.1)] == e.2)
}

proof fn lemma_dfa_run_dead(t: Map<(char, usize), usize>, input: Seq<char>)
    ensures
        dfa_run(t, None, input) is None,
    decreases input.len(),
{
    if input.len() == 0 {
    } else {
        lemma_dfa_run_dead(t, input.drop_first());
    }
}

proof fn lemma_nfa_run_covers_dfa_run(
    t: Map<(char, usize), usize>,
    states: Set<usize>,
    st: usize,
    input: Seq<char>,
)
    requires
        states.contains(st),
    ensures
        dfa_run(t, Some(st), input) matches Some(f) ==> nfa_run(
            edges_of_map(t),
            states,
            input,
        ).contains(f),
    decreases input.len(),
{
    if input.len() == 0 {
    } else {
        let c = input[0];
        if t.contains_key((c, st)) {
            let d = t[(c, st)];
            assert(edges_of_map(t).contains((c, st, d)));
            assert(nfa_next(edges_of_map(t), states, c).contains(d));
            lemma_nfa_run_covers_dfa_run(t, nfa_next(edges_of_map(t), states, c), d, input.drop_first());
        } else {
            lemma_dfa_run_dead(t, input.drop_first());
        }
    }
}

/// Nondeterministic acceptance subsumes deterministic acceptance: every word
/// a DFA accepts is accepted by the NFA with the same start and final states
/// whose edge relation is exactly the DFA's transition function.
pub proof fn lemma_nfa_subsumes_dfa(a: DFAView, input: Seq<char>)
    ensures
        dfa_accepts(a, input) ==> nfa_accepts(
            NFAView { transitions: edges_of_map(a.transitions), start: a.start, finals: a.finals },
            input,
        ),
{
    if dfa_accepts(a, input) {
        let nview = NFAView {
            transitions: edges_of_map(a.transitions),
            start: a.start,
            finals: a.finals,
        };
        let f = dfa_run(a.transitions, Some(a.start), input)->0;
        let init = Set::<usize>::empty().insert(nview.start);
        lemma_nfa_run_covers_dfa_run(a.transitions, init, a.start, input);
        assert(nfa_run(nview.transitions, init, input).contains(f));
        assert(nview.finals.contains(f));
        assert(nfa_accepts(nview, input));
    }
}

} // verus!

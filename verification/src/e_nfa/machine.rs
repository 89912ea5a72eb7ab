//! Nondeterministic finite automata with epsilon moves: data model,
//! validating builder, epsilon closure, and membership test.

use vstd::prelude::*;
use vstd::seq_lib::lemma_seq_contains_after_push;

use crate::dfa::machine::{dfa_accepts, DFAView};
use crate::nfa::machine::{edges_of_map, next_states_vec, nfa_accepts, nfa_next, nfa_run, NFAView};
use crate::states::StateSet;

verus! {

/// Errors reported while building an ENFA.
#[derive(Debug)]
pub enum ENFAError {
    /// The transition from the `usize` state with the `char` symbol was
    /// registered a second time. This builder treats a re-registration as a
    /// set union and never produces this error.
    DuplicatedTransition(char, usize),
    /// No final state was specified.
    MissingFinalStates,
    /// No starting state was specified.
    MissingStartingState,
}

/// Mathematical content of a finalized ENFA: a transition relation of
/// (symbol, source, destination) edges, an epsilon relation of
/// (source, destination) edges, a start state, and the final states.
pub ghost struct ENFAView {
    pub transitions: Set<(char, usize, usize)>,
    pub e_transitions: Set<(usize, usize)>,
    pub start: usize,
    pub finals: Set<usize>,
}

/// Mathematical content of an ENFA under construction.
pub ghost struct ENFABuilderView {
    pub transitions: Set<(char, usize, usize)>,
    pub e_transitions: Set<(usize, usize)>,
    pub start: Option<usize>,
    pub finals: Set<usize>,
}

/// The builder a fresh `ENFABuilder` holds.
pub open spec fn empty_enfa_builder() -> ENFABuilderView {
    ENFABuilderView {
        transitions: Set::empty(),
        e_transitions: Set::empty(),
        start: None,
        finals: Set::empty(),
    }
}

/// Whether `d` is reachable from `init` by exactly `n` epsilon edges.
pub open spec fn eps_reach_n(eps: Set<(usize, usize)>, init: Set<usize>, d: usize, n: nat) -> bool
    decreases n,
{
    if n == 0 {
        init.contains(d)
    } else {
        exists|s: usize| eps_reach_n(eps, init, s, (n - 1) as nat) && eps.contains((s, d))
    }
}

/// Whether `d` is reachable from `init` by any number of epsilon edges.
pub open spec fn eps_reachable(eps: Set<(usize, usize)>, init: Set<usize>, d: usize) -> bool {
    exists|n: nat| eps_reach_n(eps, init, d, n)
}

/// The epsilon closure of `init`: every state reachable from `init` using
/// only epsilon edges, the states of `init` included.
pub open spec fn eps_closure(eps: Set<(usize, usize)>, init: Set<usize>) -> Set<usize> {
    Set::new(|d: usize| eps_reachable(eps, init, d))
}

/// Whether `s` is closed under the epsilon relation `eps`.
pub open spec fn eps_closed(eps: Set<(usize, usize)>, s: Set<usize>) -> bool {
    forall|a: usize, b: usize| s.contains(a) && #[trigger] eps.contains((a, b)) ==> s.contains(b)
}

/// The closure contains the set it closes.
pub proof fn lemma_eps_closure_contains_init(eps: Set<(usize, usize)>, init: Set<usize>)
    ensures
        forall|d: usize| init.contains(d) ==> #[trigger] eps_closure(eps, init).contains(d),
{
    assert forall|d: usize| init.contains(d) implies #[trigger] eps_closure(eps, init).contains(
        d,
    ) by {
        assert(eps_reach_n(eps, init, d, 0));
    }
}

/// The closure is closed under the epsilon relation.
pub proof fn lemma_eps_closure_closed(eps: Set<(usize, usize)>, init: Set<usize>)
    ensures
        eps_closed(eps, eps_closure(eps, init)),
{
    assert forall|a: usize, b: usize|
        eps_closure(eps, init).contains(a) && #[trigger] eps.contains((a, b)) implies eps_closure(
        eps,
        init,
    ).contains(b) by {
        let n = choose|n: nat| eps_reach_n(eps, init, a, n);
        assert(eps_reach_n(eps, init, b, n + 1));
    }
}

proof fn lemma_eps_reach_in_closed(
    eps: Set<(usize, usize)>,
    init: Set<usize>,
    s: Set<usize>,
    d: usize,
    n: nat,
)
    requires
        eps_reach_n(eps, init, d, n),
        forall|x: usize| init.contains(x) ==> s.contains(x),
        eps_closed(eps, s),
    ensures
        s.contains(d),
    decreases n,
{
    if n == 0 {
    } else {
        let prev = choose|p: usize| eps_reach_n(eps, init, p, (n - 1) as nat) && eps.contains((p, d));
        lemma_eps_reach_in_closed(eps, init, s, prev, (n - 1) as nat);
    }
}

/// The closure is the least closed superset: it is contained in every set
/// that contains `init` and is closed under the epsilon relation.
pub proof fn lemma_eps_closure_minimal(eps: Set<(usize, usize)>, init: Set<usize>, s: Set<usize>)
    requires
        forall|x: usize| init.contains(x) ==> s.contains(x),
        eps_closed(eps, s),
    ensures
        forall|d: usize| #[trigger] eps_closure(eps, init).contains(d) ==> s.contains(d),
{
    assert forall|d: usize| #[trigger] eps_closure(eps, init).contains(d) implies s.contains(d) by {
        let n = choose|n: nat| eps_reach_n(eps, init, d, n);
        lemma_eps_reach_in_closed(eps, init, s, d, n);
    }
}

/// Epsilon closure is idempotent: closing an already-closed set returns the
/// same set.
pub proof fn lemma_eps_closure_idempotent(eps: Set<(usize, usize)>, init: Set<usize>)
    ensures
        eps_closure(eps, eps_closure(eps, init)) == eps_closure(eps, init),
{
    let c = eps_closure(eps, init);
    lemma_eps_closure_contains_init(eps, c);
    lemma_eps_closure_closed(eps, init);
    lemma_eps_closure_minimal(eps, c, c);
    assert(eps_closure(eps, c) =~= c);
}

/// Closing under an empty epsilon relation changes nothing.
pub proof fn lemma_eps_closure_empty(init: Set<usize>)
    ensures
        eps_closure(Set::<(usize, usize)>::empty(), init) == init,
{
    let eps = Set::<(usize, usize)>::empty();
    lemma_eps_closure_contains_init(eps, init);
    lemma_eps_closure_minimal(eps, init, init);
    assert(eps_closure(eps, init) =~= init);
}

/// The set of states reached after stepping through every symbol of `input`,
/// starting from an already epsilon-closed set and closing again after each
/// consumed symbol.
pub open spec fn enfa_run(
    edges: Set<(char, usize, usize)>,
    eps: Set<(usize, usize)>,
    states: Set<usize>,
    input: Seq<char>,
) -> Set<usize>
    decreases input.len(),
{
    if input.len() == 0 {
        states
    } else {
        enfa_run(edges, eps, eps_closure(eps, nfa_next(edges, states, input[0])), input.drop_first())
    }
}

/// Whether the ENFA described by `a` accepts `input`: the run starting from
/// the epsilon closure of {start} ends in a set that intersects the final
/// states.
pub open spec fn enfa_accepts(a: ENFAView, input: Seq<char>) -> bool {
    exists|s: usize|
        enfa_run(
            a.transitions,
            a.e_transitions,
            eps_closure(a.e_transitions, Set::empty().insert(a.start)),
            input,
        ).contains(s) && a.finals.contains(s)
}

proof fn lemma_enfa_run_push(
    edges: Set<(char, usize, usize)>,
    eps: Set<(usize, usize)>,
    states: Set<usize>,
    input: Seq<char>,
    c: char,
)
    ensures
        enfa_run(edges, eps, states, input.push(c)) == eps_closure(
            eps,
            nfa_next(edges, enfa_run(edges, eps, states, input), c),
        ),
    decreases input.len(),
{
    if input.len() == 0 {
        assert(input.push(c)[0] == c);
        assert(input.push(c).drop_first() =~= Seq::<char>::empty());
        assert(enfa_run(edges, eps, states, input.push(c)) == enfa_run(
            edges,
            eps,
            eps_closure(eps, nfa_next(edges, states, c)),
            Seq::<char>::empty(),
        ));
    } else {
        assert(input.push(c)[0] == input[0]);
        assert(input.push(c).drop_first() =~= input.drop_first().push(c));
        lemma_enfa_run_push(
            edges,
            eps,
            eps_closure(eps, nfa_next(edges, states, input[0])),
            input.drop_first(),
            c,
        );
        assert(enfa_run(edges, eps, states, input.push(c)) == enfa_run(
            edges,
            eps,
            eps_closure(eps, nfa_next(edges, states, input[0])),
            input.drop_first().push(c),
        ));
    }
}

/// The type `ENFA` represents a nondeterministic finite automaton with
/// epsilon moves over single-character symbols and unsigned state
/// identifiers.
#[derive(Debug)]
pub struct ENFA {
    transitions: Vec<(char, usize, usize)>,
    e_transitions: Vec<(usize, usize)>,
    start: usize,
    finals: StateSet,
}

impl View for ENFA {
    type V = ENFAView;

    closed spec fn view(&self) -> ENFAView {
        ENFAView {
            transitions: self.transitions@.to_set(),
            e_transitions: self.e_transitions@.to_set(),
            start: self.start,
            finals: self.finals@,
        }
    }
}

/// The `ENFABuilder` accumulates a start state, final states, transition
/// edges, and epsilon edges, and is consumed by `finalize`.
#[derive(Debug)]
pub struct ENFABuilder {
    transitions: Vec<(char, usize, usize)>,
    e_transitions: Vec<(usize, usize)>,
    start: Option<usize>,
    finals: StateSet,
}

impl View for ENFABuilder {
    type V = ENFABuilderView;

    closed spec fn view(&self) -> ENFABuilderView {
        ENFABuilderView {
            transitions: self.transitions@.to_set(),
            e_transitions: self.e_transitions@.to_set(),
            start: self.start,
            finals: self.finals@,
        }
    }
}

/// The views of a builder-or-error chaining value.
pub open spec fn builder_views(r: Result<ENFABuilder, ENFAError>) -> Result<
    ENFABuilderView,
    ENFAError,
> {
    match r {
        Ok(b) => Ok(b@),
        Err(e) => Err(e),
    }
}

/// The views of a finalized-automaton-or-error value.
pub open spec fn enfa_views(r: Result<ENFA, ENFAError>) -> Result<ENFAView, ENFAError> {
    match r {
        Ok(a) => Ok(a@),
        Err(e) => Err(e),
    }
}

/// Setting the start state overwrites any previous choice.
pub open spec fn spec_add_start(b: ENFABuilderView, state: usize) -> ENFABuilderView {
    ENFABuilderView { start: Some(state), ..b }
}

/// Inserting a final state is idempotent.
pub open spec fn spec_add_final(b: ENFABuilderView, state: usize) -> ENFABuilderView {
    ENFABuilderView { finals: b.finals.insert(state), ..b }
}

/// Registering a transition unions the edge into the relation; it never
/// fails, and registering the same edge twice changes nothing.
pub open spec fn spec_add_transition(
    b: ENFABuilderView,
    symb: char,
    src: usize,
    dest: usize,
) -> ENFABuilderView {
    ENFABuilderView { transitions: b.transitions.insert((symb, src, dest)), ..b }
}

/// Registering an epsilon transition unions the edge into the epsilon
/// relation; it never fails, and registering the same edge twice changes
/// nothing.
pub open spec fn spec_add_e_transition(b: ENFABuilderView, src: usize, dest: usize) -> ENFABuilderView {
    ENFABuilderView { e_transitions: b.e_transitions.insert((src, dest)), ..b }
}

/// Finalizing requires a start state and a non-empty final-state set, in
/// that order of checks.
pub open spec fn spec_finalize(b: ENFABuilderView) -> Result<ENFAView, ENFAError> {
    if b.start is None {
        Err(ENFAError::MissingStartingState)
    } else if b.finals == Set::<usize>::empty() {
        Err(ENFAError::MissingFinalStates)
    } else {
        Ok(
            ENFAView {
                transitions: b.transitions,
                e_transitions: b.e_transitions,
                start: b.start->0,
                finals: b.finals,
            },
        )
    }
}

/// `spec_add_start` lifted over an already-failed chain.
pub open spec fn spec_chain_add_start(
    r: Result<ENFABuilderView, ENFAError>,
    state: usize,
) -> Result<ENFABuilderView, ENFAError> {
    match r {
        Ok(b) => Ok(spec_add_start(b, state)),
        Err(e) => Err(e),
    }
}

/// `spec_add_final` lifted over an already-failed chain.
pub open spec fn spec_chain_add_final(
    r: Result<ENFABuilderView, ENFAError>,
    state: usize,
) -> Result<ENFABuilderView, ENFAError> {
    match r {
        Ok(b) => Ok(spec_add_final(b, state)),
        Err(e) => Err(e),
    }
}

/// `spec_add_transition` lifted over an already-failed chain.
pub open spec fn spec_chain_add_transition(
    r: Result<ENFABuilderView, ENFAError>,
    symb: char,
    src: usize,
    dest: usize,
) -> Result<ENFABuilderView, ENFAError> {
    match r {
        Ok(b) => Ok(spec_add_transition(b, symb, src, dest)),
        Err(e) => Err(e),
    }
}

/// `spec_add_e_transition` lifted over an already-failed chain.
pub open spec fn spec_chain_add_e_transition(
    r: Result<ENFABuilderView, ENFAError>,
    src: usize,
    dest: usize,
) -> Result<ENFABuilderView, ENFAError> {
    match r {
        Ok(b) => Ok(spec_add_e_transition(b, src, dest)),
        Err(e) => Err(e),
    }
}

/// `spec_finalize` lifted over an already-failed chain.
pub open spec fn spec_chain_finalize(r: Result<ENFABuilderView, ENFAError>) -> Result<
    ENFAView,
    ENFAError,
> {
    match r {
        Ok(b) => spec_finalize(b),
        Err(e) => Err(e),
    }
}

/// Builder operations, implemented both by `ENFABuilder` and by
/// `Result<ENFABuilder, ENFAError>`, so that construction steps chain without
/// unwrapping: an error produced by any step short-circuits the rest.
pub trait ENFABuilding: Sized {
    /// The builder state carried into the next step: the view of the builder
    /// so far, or the first error the chain produced.
    spec fn building_view(self) -> Result<ENFABuilderView, ENFAError>;

    /// Adds the starting state, overwriting any previous choice.
    fn add_start(self, state: usize) -> (r: Result<ENFABuilder, ENFAError>)
        ensures
            builder_views(r) == spec_chain_add_start(self.building_view(), state),
    ;

    /// Adds a final state; adding it twice changes nothing.
    fn add_final(self, state: usize) -> (r: Result<ENFABuilder, ENFAError>)
        ensures
            builder_views(r) == spec_chain_add_final(self.building_view(), state),
    ;

    /// Adds the edge (symb, src) -> dest to the transition relation; adding
    /// it twice changes nothing.
    fn add_transition(self, symb: char, src: usize, dest: usize) -> (r: Result<
        ENFABuilder,
        ENFAError,
    >)
        ensures
            builder_views(r) == spec_chain_add_transition(self.building_view(), symb, src, dest),
    ;

    /// Adds the epsilon edge src -> dest; adding it twice changes nothing.
    fn add_e_transition(self, src: usize, dest: usize) -> (r: Result<ENFABuilder, ENFAError>)
        ensures
            builder_views(r) == spec_chain_add_e_transition(self.building_view(), src, dest),
    ;

    /// Checks the builder invariants and produces the immutable ENFA; fails
    /// with `MissingStartingState` when no start was ever set, else with
    /// `MissingFinalStates` when no final state was added.
    fn finalize(self) -> (r: Result<ENFA, ENFAError>)
        ensures
            enfa_views(r) == spec_chain_finalize(self.building_view()),
    ;
}

impl ENFABuilder {
    /// Creates a new, empty `ENFABuilder`.
    pub fn new() -> (r: Result<ENFABuilder, ENFAError>)
        ensures
            builder_views(r) == Ok::<ENFABuilderView, ENFAError>(empty_enfa_builder()),
    {
        let b = ENFABuilder {
            transitions: Vec::new(),
            e_transitions: Vec::new(),
            start: None,
            finals: StateSet::new(),
        };
        proof {
            assert(b@.transitions =~= empty_enfa_builder().transitions);
            assert(b@.e_transitions =~= empty_enfa_builder().e_transitions);
        }
        Ok(b)
    }
}

fn has_edge(transitions: &Vec<(char, usize, usize)>, symb: char, src: usize, dest: usize) -> (r:
    bool)
    ensures
        r == transitions@.to_set().contains((symb, src, dest)),
{
    let n = transitions.len();
    for i in 0..n
        invariant
            n == transitions.len(),
            forall|j: int| 0 <= j < i ==> #[trigger] transitions@[j] != (symb, src, dest),
    {
        let t = transitions[i];
        if t.0 == symb && t.1 == src && t.2 == dest {
            proof {
                assert(transitions@[i as int] == (symb, src, dest));
            }
            return true;
        }
    }
    proof {
        assert(!transitions@.contains((symb, src, dest)));
    }
    false
}

fn has_e_edge(e_transitions: &Vec<(usize, usize)>, src: usize, dest: usize) -> (r: bool)
    ensures
        r == e_transitions@.to_set().contains((src, dest)),
{
    let n = e_transitions.len();
    for i in 0..n
        invariant
            n == e_transitions.len(),
            forall|j: int| 0 <= j < i ==> #[trigger] e_transitions@[j] != (src, dest),
    {
        let t = e_transitions[i];
        if t.0 == src && t.1 == dest {
            proof {
                assert(e_transitions@[i as int] == (src, dest));
            }
            return true;
        }
    }
    proof {
        assert(!e_transitions@.contains((src, dest)));
    }
    false
}

impl ENFABuilding for ENFABuilder {
    open spec fn building_view(self) -> Result<ENFABuilderView, ENFAError> {
        Ok(self@)
    }

    fn add_start(self, state: usize) -> (r: Result<ENFABuilder, ENFAError>) {
        Ok(self).add_start(state)
    }

    fn add_final(self, state: usize) -> (r: Result<ENFABuilder, ENFAError>) {
        Ok(self).add_final(state)
    }

    fn add_transition(self, symb: char, src: usize, dest: usize) -> (r: Result<
        ENFABuilder,
        ENFAError,
    >) {
        Ok(self).add_transition(symb, src, dest)
    }

    fn add_e_transition(self, src: usize, dest: usize) -> (r: Result<ENFABuilder, ENFAError>) {
        Ok(self).add_e_transition(src, dest)
    }

    fn finalize(self) -> (r: Result<ENFA, ENFAError>) {
        Ok(self).finalize()
    }
}

/// Implementing `ENFABuilding` for `Result<ENFABuilder, ENFAError>` lets the
/// return value of each step be chained into the next one instead of being
/// unwrapped at each stage of the construction.
impl ENFABuilding for Result<ENFABuilder, ENFAError> {
    open spec fn building_view(self) -> Result<ENFABuilderView, ENFAError> {
        builder_views(self)
    }

    fn add_start(self, state: usize) -> (r: Result<ENFABuilder, ENFAError>) {
        match self {
            Ok(b) => {
                let ENFABuilder { transitions, e_transitions, start: _, finals } = b;
                Ok(ENFABuilder { transitions, e_transitions, start: Some(state), finals })
            },
            Err(e) => Err(e),
        }
    }

    fn add_final(self, state: usize) -> (r: Result<ENFABuilder, ENFAError>) {
        match self {
            Ok(b) => {
                let ENFABuilder { transitions, e_transitions, start, finals } = b;
                Ok(ENFABuilder { transitions, e_transitions, start, finals: finals.insert(state) })
            },
            Err(e) => Err(e),
        }
    }

    fn add_transition(self, symb: char, src: usize, dest: usize) -> (r: Result<
        ENFABuilder,
        ENFAError,
    >) {
        match self {
            Ok(b) => {
                if has_edge(&b.transitions, symb, src, dest) {
                    proof {
                        assert(b@.transitions.insert((symb, src, dest)) =~= b@.transitions);
                    }
                    return Ok(b);
                }
                let ghost old_seq = b.transitions@;
                let ENFABuilder { mut transitions, e_transitions, start, finals } = b;
                transitions.push((symb, src, dest));
                proof {
                    broadcast use lemma_seq_contains_after_push;

                    assert(transitions@.to_set() =~= old_seq.to_set().insert((symb, src, dest)));
                }
                Ok(ENFABuilder { transitions, e_transitions, start, finals })
            },
            Err(e) => Err(e),
        }
    }

    fn add_e_transition(self, src: usize, dest: usize) -> (r: Result<ENFABuilder, ENFAError>) {
        match self {
            Ok(b) => {
                if has_e_edge(&b.e_transitions, src, dest) {
                    proof {
                        assert(b@.e_transitions.insert((src, dest)) =~= b@.e_transitions);
                    }
                    return Ok(b);
                }
                let ghost old_seq = b.e_transitions@;
                let ENFABuilder { transitions, mut e_transitions, start, finals } = b;
                e_transitions.push((src, dest));
                proof {
                    broadcast use lemma_seq_contains_after_push;

                    assert(e_transitions@.to_set() =~= old_seq.to_set().insert((src, dest)));
                }
                Ok(ENFABuilder { transitions, e_transitions, start, finals })
            },
            Err(e) => Err(e),
        }
    }

    fn finalize(self) -> (r: Result<ENFA, ENFAError>) {
        match self {
            Ok(b) => {
                let ENFABuilder { transitions, e_transitions, start, finals } = b;
                match start {
                    None => Err(ENFAError::MissingStartingState),
                    Some(s) => {
                        if finals.is_empty() {
                            Err(ENFAError::MissingFinalStates)
                        } else {
                            Ok(ENFA { transitions, e_transitions, start: s, finals })
                        }
                    },
                }
            },
            Err(e) => Err(e),
        }
    }
}

fn vec_contains_state(v: &Vec<usize>, x: usize) -> (r: bool)
    ensures
        r == v@.contains(x),
{
    let n = v.len();
    for i in 0..n
        invariant
            n == v.len(),
            forall|j: int| 0 <= j < i ==> v@[j] != x,
    {
        if v[i] == x {
            return true;
        }
    }
    false
}

/// Computes the epsilon closure of `init` under the epsilon edges listed in
/// `e_transitions`, by a worklist walk that tracks already-visited states, so
/// it terminates even when epsilon edges form cycles.
fn eps_close(e_transitions: &Vec<(usize, usize)>, init: &StateSet) -> (r: StateSet)
    ensures
        r@ == eps_closure(e_transitions@.to_set(), init@),
{
    let ghost eps = e_transitions@.to_set();
    let ghost dests = e_transitions@.map_values(|e: (usize, usize)| e.1).to_set();
    let ghost universe = init@.union(dests);
    proof {
        broadcast use vstd::seq_lib::seq_to_set_is_finite;

        init.lemma_finite();
        assert(universe.finite());
    }
    let mut acc: Vec<usize> = init.to_vec();
    proof {
        assert(forall|j: int|
            0 <= j < acc@.len() ==> universe.contains(#[trigger] acc@[j]) && eps_reachable(
                eps,
                init@,
                acc@[j],
            )) by {
            assert forall|j: int| 0 <= j < acc@.len() implies universe.contains(#[trigger] acc@[j])
                && eps_reachable(eps, init@, acc@[j]) by {
                assert(init@.contains(acc@[j]));
                assert(eps_reach_n(eps, init@, acc@[j], 0));
            }
        }
        acc@.unique_seq_to_set();
        vstd::set_lib::lemma_len_subset(acc@.to_set(), universe);
    }
    let mut i: usize = 0;
    while i < acc.len()
        invariant
            acc@.no_duplicates(),
            i <= acc@.len(),
            acc@.len() <= universe.len(),
            universe.finite(),
            eps == e_transitions@.to_set(),
            dests == e_transitions@.map_values(|e: (usize, usize)| e.1).to_set(),
            universe == init@.union(dests),
            forall|j: int|
                0 <= j < acc@.len() ==> universe.contains(#[trigger] acc@[j]) && eps_reachable(
                    eps,
                    init@,
                    acc@[j],
                ),
            forall|x: usize| init@.contains(x) ==> acc@.contains(x),
            forall|j: int, k: int|
                #![trigger e_transitions@[k], acc@[j]]
                0 <= j < i && 0 <= k < e_transitions@.len() && e_transitions@[k].0 == acc@[j]
                    ==> acc@.contains(e_transitions@[k].1),
        decreases universe.len() - i,
    {
        let s = acc[i];
        let m = e_transitions.len();
        for k in 0..m
            invariant
                m == e_transitions@.len(),
                acc@.no_duplicates(),
                i < acc@.len(),
                acc@[i as int] == s,
                acc@.len() <= universe.len(),
                universe.finite(),
                eps == e_transitions@.to_set(),
                dests == e_transitions@.map_values(|e: (usize, usize)| e.1).to_set(),
                universe == init@.union(dests),
                forall|j: int|
                    0 <= j < acc@.len() ==> universe.contains(#[trigger] acc@[j]) && eps_reachable(
                        eps,
                        init@,
                        acc@[j],
                    ),
                forall|x: usize| init@.contains(x) ==> acc@.contains(x),
                forall|j: int, kk: int|
                    #![trigger e_transitions@[kk], acc@[j]]
                    0 <= j < i && 0 <= kk < e_transitions@.len() && e_transitions@[kk].0 == acc@[j]
                        ==> acc@.contains(e_transitions@[kk].1),
                forall|kk: int|
                    0 <= kk < k && (#[trigger] e_transitions@[kk]).0 == s ==> acc@.contains(
                        e_transitions@[kk].1,
                    ),
        {
            let t = e_transitions[k];
            if t.0 == s && !vec_contains_state(&acc, t.1) {
                proof {
                    broadcast use lemma_seq_contains_after_push;

                    // the pushed state is a fresh epsilon destination
                    assert(e_transitions@.map_values(|e: (usize, usize)| e.1)[k as int] == t.1);
                    assert(e_transitions@.map_values(|e: (usize, usize)| e.1).contains(t.1));
                    assert(universe.contains(t.1));
                    let n = choose|n: nat| eps_reach_n(eps, init@, s, n);
                    assert(e_transitions@[k as int] == t);
                    assert(e_transitions@.contains(t));
                    assert(eps.contains((s, t.1)));
                    assert(eps_reach_n(eps, init@, t.1, n + 1));
                }
                acc.push(t.1);
                proof {
                    broadcast use lemma_seq_contains_after_push;

                    acc@.unique_seq_to_set();
                    assert(acc@.to_set().subset_of(universe)) by {
                        assert forall|x: usize| acc@.to_set().contains(x) implies universe.contains(
                            x,
                        ) by {
                            let j = choose|j: int| 0 <= j < acc@.len() && acc@[j] == x;
                        }
                    }
                    vstd::set_lib::lemma_len_subset(acc@.to_set(), universe);
                }
            }
        }
        i = i + 1;
    }
    proof {
        let a = acc@.to_set();
        assert forall|x: usize| init@.contains(x) implies a.contains(x) by {
            assert(acc@.contains(x));
        }
        assert(eps_closed(eps, a)) by {
            assert forall|p: usize, q: usize| a.contains(p) && #[trigger] eps.contains((p, q)) implies a.contains(
                q,
            ) by {
                let j = choose|j: int| 0 <= j < acc@.len() && acc@[j] == p;
                assert(e_transitions@.contains((p, q)));
                let k = choose|k: int| 0 <= k < e_transitions@.len() && e_transitions@[k] == (p, q);
                assert((#[trigger] e_transitions@[k]).0 == acc@[j]);
                assert(acc@.contains(e_transitions@[k].1));
            }
        }
        lemma_eps_closure_minimal(eps, init@, a);
        assert forall|x: usize| a.contains(x) implies eps_closure(eps, init@).contains(x) by {
            let j = choose|j: int| 0 <= j < acc@.len() && acc@[j] == x;
            assert(eps_reachable(eps, init@, x));
        }
        assert(a =~= eps_closure(eps, init@));
    }
    StateSet::from_vec(acc)
}

impl ENFA {
    /// The start state.
    pub fn start(&self) -> (r: usize)
        ensures
            r == self@.start,
    {
        self.start
    }

    /// The final states, without duplicates.
    pub fn finals(&self) -> (r: Vec<usize>)
        ensures
            r@.to_set() == self@.finals,
            r@.no_duplicates(),
    {
        self.finals.to_vec()
    }

    /// The transition edges as (symbol, source, destination) entries.
    pub fn transitions(&self) -> (r: Vec<(char, usize, usize)>)
        ensures
            r@.to_set() == self@.transitions,
    {
        let n = self.transitions.len();
        let mut r: Vec<(char, usize, usize)> = Vec::new();
        for i in 0..n
            invariant
                n == self.transitions.len(),
                r@ == self.transitions@.take(i as int),
        {
            r.push(self.transitions[i]);
            proof {
                assert(r@ =~= self.transitions@.take(i + 1));
            }
        }
        proof {
            assert(r@ =~= self.transitions@);
        }
        r
    }

    /// The epsilon edges as (source, destination) entries.
    pub fn e_transitions(&self) -> (r: Vec<(usize, usize)>)
        ensures
            r@.to_set() == self@.e_transitions,
    {
        let n = self.e_transitions.len();
        let mut r: Vec<(usize, usize)> = Vec::new();
        for i in 0..n
            invariant
                n == self.e_transitions.len(),
                r@ == self.e_transitions@.take(i as int),
        {
            r.push(self.e_transitions[i]);
            proof {
                assert(r@ =~= self.e_transitions@.take(i + 1));
            }
        }
        proof {
            assert(r@ =~= self.e_transitions@);
        }
        r
    }

    /// The epsilon closure of `states` under this automaton's epsilon
    /// transitions: the smallest superset of `states` closed under them.
    pub fn epsilon_closure(&self, states: &StateSet) -> (r: StateSet)
        ensures
            r@ == eps_closure(self@.e_transitions, states@),
    {
        eps_close(&self.e_transitions, states)
    }

    /// Tests whether `input` is a word of the language defined by the ENFA.
    /// The current state set is epsilon-closed before the first symbol and
    /// after each consumed symbol, so a word may also reach a final state by
    /// trailing epsilon moves.
    pub fn test(&self, input: &str) -> (r: bool)
        ensures
            r == enfa_accepts(self@, input@),
    {
        let cs = crate::text::chars_of(input);
        let mut cur = eps_close(&self.e_transitions, &StateSet::new().insert(self.start));
        let n = cs.len();
        for i in 0..n
            invariant
                n == cs.len(),
                cs@ == input@,
                cur@ == enfa_run(
                    self@.transitions,
                    self@.e_transitions,
                    eps_closure(self@.e_transitions, Set::empty().insert(self@.start)),
                    cs@.take(i as int),
                ),
        {
            let moved = next_states_vec(&self.transitions, &cur, cs[i]);
            let next = eps_close(&self.e_transitions, &moved);
            proof {
                lemma_enfa_run_push(
                    self@.transitions,
                    self@.e_transitions,
                    eps_closure(self@.e_transitions, Set::empty().insert(self@.start)),
                    cs@.take(i as int),
                    cs@[i as int],
                );
                assert(cs@.take(i + 1) =~= cs@.take(i as int).push(cs@[i as int]));
            }
            cur = next;
        }
        proof {
            assert(cs@.take(n as int) =~= cs@);
        }
        let r = cur.intersects(&self.finals);
        proof {
            let ghost init = eps_closure(self@.e_transitions, Set::empty().insert(self@.start));
            if r {
                let s = choose|s: usize| cur@.contains(s) && self.finals@.contains(s);
                assert(enfa_run(self@.transitions, self@.e_transitions, init, input@).contains(s)
                    && self@.finals.contains(s));
            }
            if enfa_accepts(self@, input@) {
                let s = choose|s: usize|
                    enfa_run(self@.transitions, self@.e_transitions, init, input@).contains(s)
                        && self@.finals.contains(s);
                assert(cur@.contains(s) && self.finals@.contains(s));
            }
        }
        r
    }
}

/// Acceptance is a pure function of the automaton and the input: two results
/// of testing the same input against the same automaton always agree.
pub proof fn lemma_enfa_test_deterministic(a: ENFAView, input: Seq<char>, r1: bool, r2: bool)
    requires
        r1 == enfa_accepts(a, input),
        r2 == enfa_accepts(a, input),
    ensures
        r1 == r2,
{
}

/// A builder whose start state was never set finalizes to
/// `MissingStartingState`, whatever transitions and finals it holds.
pub proof fn lemma_enfa_finalize_missing_start(b: ENFABuilderView)
    requires
        b.start is None,
    ensures
        spec_finalize(b) == Err::<ENFAView, ENFAError>(ENFAError::MissingStartingState),
{
}

/// A builder with a start state but an empty final-state set finalizes to
/// `MissingFinalStates`.
pub proof fn lemma_enfa_finalize_missing_finals(b: ENFABuilderView)
    requires
        b.start is Some,
        b.finals == Set::<usize>::empty(),
    ensures
        spec_finalize(b) == Err::<ENFAView, ENFAError>(ENFAError::MissingFinalStates),
{
}

proof fn lemma_enfa_run_no_epsilon(
    edges: Set<(char, usize, usize)>,
    states: Set<usize>,
    input: Seq<char>,
)
    ensures
        enfa_run(edges, Set::<(usize, usize)>::empty(), states, input) == nfa_run(
            edges,
            states,
            input,
        ),
    decreases input.len(),
{
    if input.len() == 0 {
    } else {
        lemma_eps_closure_empty(nfa_next(edges, states, input[0]));
        lemma_enfa_run_no_epsilon(edges, nfa_next(edges, states, input[0]), input.drop_first());
    }
}

/// An ENFA without epsilon edges accepts exactly the words the NFA with the
/// same edges, start, and final states accepts.
pub proof fn lemma_enfa_without_epsilon_agrees_with_nfa(a: ENFAView, input: Seq<char>)
    requires
        a.e_transitions == Set::<(usize, usize)>::empty(),
    ensures
        enfa_accepts(a, input) == nfa_accepts(
            NFAView { transitions: a.transitions, start: a.start, finals: a.finals },
            input,
        ),
{
    let nview = NFAView { transitions: a.transitions, start: a.start, finals: a.finals };
    let init = Set::<usize>::empty().insert(a.start);
    lemma_eps_closure_empty(init);
    lemma_enfa_run_no_epsilon(a.transitions, init, input);
    if enfa_accepts(a, input) {
        let s = choose|s: usize|
            enfa_run(a.transitions, a.e_transitions, eps_closure(a.e_transitions, init), input).contains(
                s,
            ) && a.finals.contains(s);
        assert(nfa_run(nview.transitions, init, input).contains(s) && nview.finals.contains(s));
    }
    if nfa_accepts(nview, input) {
        let s = choose|s: usize|
            nfa_run(nview.transitions, init, input).contains(s) && nview.finals.contains(s);
        assert(enfa_run(a.transitions, a.e_transitions, eps_closure(a.e_transitions, init), input).contains(
            s,
        ) && a.finals.contains(s));
    }
}

/// Nondeterministic acceptance with epsilon moves subsumes deterministic
/// acceptance: every word a DFA accepts is accepted by the epsilon-free ENFA
/// whose edge relation is exactly the DFA's transition function.
pub proof fn lemma_enfa_subsumes_dfa(a: DFAView, input: Seq<char>)
    ensures
        dfa_accepts(a, input) ==> enfa_accepts(
            ENFAView {
                transitions: edges_of_map(a.transitions),
                e_transitions: Set::empty(),
                start: a.start,
                finals: a.finals,
            },
            input,
        ),
{
    let eview = ENFAView {
        transitions: edges_of_map(a.transitions),
        e_transitions: Set::empty(),
        start: a.start,
        finals: a.finals,
    };
    crate::nfa::machine::lemma_nfa_subsumes_dfa(a, input);
    lemma_enfa_without_epsilon_agrees_with_nfa(eview, input);
}

} // verus!

//! Deterministic finite automata: data model, validating builder, and
//! membership test.

use vstd::prelude::*;

use crate::states::StateSet;

verus! {

/// Errors reported while building a DFA.
#[derive(Debug)]
pub enum DFAError {
    /// The transition from the `usize` state with the `char` symbol was
    /// registered a second time.
    DuplicatedTransition(char, usize),
    /// No final state was specified.
    MissingFinalStates,
    /// No starting state was specified.
    MissingStartingState,
}

/// Mathematical content of a finalized DFA: a partial transition function
/// keyed by (symbol, source state), a start state, and the final states.
pub ghost struct DFAView {
    pub transitions: Map<(char, usize), usize>,
    pub start: usize,
    pub finals: Set<usize>,
}

/// Mathematical content of a DFA under construction.
pub ghost struct DFABuilderView {
    pub transitions: Map<(char, usize), usize>,
    pub start: Option<usize>,
    pub finals: Set<usize>,
}

/// The builder a fresh `DFABuilder` holds: no transitions, no start state,
/// no final states.
pub open spec fn empty_dfa_builder() -> DFABuilderView {
    DFABuilderView { transitions: Map::empty(), start: None, finals: Set::empty() }
}

/// Transition function described by a vector of (symbol, source, destination)
/// entries.
pub open spec fn trans_map(s: Seq<(char, usize, usize)>) -> Map<(char, usize), usize>
    decreases s.len(),
{
    if s.len() == 0 {
        Map::empty()
    } else {
        trans_map(s.drop_last()).insert((s.last().0, s.last().1), s.last().2)
    }
}

/// Whether no (symbol, source) pair occurs twice in the entry vector.
pub open spec fn keys_unique(s: Seq<(char, usize, usize)>) -> bool {
    forall|i: int, j: int|
        0 <= i < j < s.len() ==> ((#[trigger] s[i]).0 != (#[trigger] s[j]).0 || s[i].1 != s[j].1)
}

proof fn lemma_trans_map_contains(s: Seq<(char, usize, usize)>, c: char, st: usize)
    ensures
        trans_map(s).contains_key((c, st)) <==> exists|i: int|
            0 <= i < s.len() && (#[trigger] s[i]).0 == c && s[i].1 == st,
    decreases s.len(),
{
    if s.len() == 0 {
    } else {
        lemma_trans_map_contains(s.drop_last(), c, st);
        if s.last().0 == c && s.last().1 == st {
            assert(s[s.len() - 1].0 == c && s[s.len() - 1].1 == st);
        } else {
            if trans_map(s).contains_key((c, st)) {
                let i = choose|i: int|
                    0 <= i < s.drop_last().len() && (#[trigger] s.drop_last()[i]).0 == c
                        && s.drop_last()[i].1 == st;
                assert(s[i].0 == c && s[i].1 == st);
            }
            if exists|i: int| 0 <= i < s.len() && (#[trigger] s[i]).0 == c && s[i].1 == st {
                let i = choose|i: int|
                    0 <= i < s.len() && (#[trigger] s[i]).0 == c && s[i].1 == st;
                assert(i < s.len() - 1);
                assert(s.drop_last()[i].0 == c && s.drop_last()[i].1 == st);
            }
        }
    }
}

proof fn lemma_trans_map_at(s: Seq<(char, usize, usize)>, i: int)
    requires
        keys_unique(s),
        0 <= i < s.len(),
    ensures
        trans_map(s).contains_key((s[i].0, s[i].1)),
        trans_map(s)[(s[i].0, s[i].1)] == s[i].2,
    decreases s.len(),
{
    if i == s.len() - 1 {
    } else {
        assert(keys_unique(s.drop_last()));
        assert(s.drop_last()[i] == s[i]);
        lemma_trans_map_at(s.drop_last(), i);
        assert(s[i].0 != s.last().0 || s[i].1 != s.last().1);
    }
}

/// One deterministic step: the destination bound to (symbol, current state),
/// or nothing once the current state is absent or the pair is unbound.
pub open spec fn dfa_step(t: Map<(char, usize), usize>, st: Option<usize>, c: char) -> Option<
    usize,
> {
    match st {
        Some(s) => if t.contains_key((c, s)) {
            Some(t[(c, s)])
        } else {
            None
        },
        None => None,
    }
}

/// The state reached after stepping through every symbol of `input`.
pub open spec fn dfa_run(
    t: Map<(char, usize), usize>,
    st: Option<usize>,
    input: Seq<char>,
) -> Option<usize>
    decreases input.len(),
{
    if input.len() == 0 {
        st
    } else {
        dfa_run(t, dfa_step(t, st, input[0]), input.drop_first())
    }
}

/// Whether the DFA described by `a` accepts `input`: the run over the whole
/// input ends in a present state that is final.
pub open spec fn dfa_accepts(a: DFAView, input: Seq<char>) -> bool {
    match dfa_run(a.transitions, Some(a.start), input) {
        Some(s) => a.finals.contains(s),
        None => false,
    }
}

proof fn lemma_dfa_run_push(
    t: Map<(char, usize), usize>,
    st: Option<usize>,
    input: Seq<char>,
    c: char,
)
    ensures
        dfa_run(t, st, input.push(c)) == dfa_step(t, dfa_run(t, st, input), c),
    decreases input.len(),
{
    if input.len() == 0 {
        assert(input.push(c)[0] == c);
        assert(input.push(c).drop_first() =~= Seq::<char>::empty());
        assert(dfa_run(t, st, input.push(c)) == dfa_run(
            t,
            dfa_step(t, st, c),
            Seq::<char>::empty(),
        ));
        assert(dfa_run(t, dfa_step(t, st, c), Seq::<char>::empty()) == dfa_step(t, st, c));
        assert(dfa_run(t, st, input) == st);
    } else {
        assert(input.push(c)[0] == input[0]);
        assert(input.push(c).drop_first() =~= input.drop_first().push(c));
        lemma_dfa_run_push(t, dfa_step(t, st, input[0]), input.drop_first(), c);
        assert(dfa_run(t, st, input.push(c)) == dfa_run(
            t,
            dfa_step(t, st, input[0]),
            input.drop_first().push(c),
        ));
        assert(dfa_run(t, st, input) == dfa_run(t, dfa_step(t, st, input[0]), input.drop_first()));
    }
}

/// The type `DFA` represents a deterministic finite automaton over
/// single-character symbols and unsigned state identifiers.
#[derive(Debug)]
pub struct DFA {
    transitions: Vec<(char, usize, usize)>,
    start: usize,
    finals: StateSet,
}

impl View for DFA {
    type V = DFAView;

    closed spec fn view(&self) -> DFAView {
        DFAView {
            transitions: trans_map(self.transitions@),
            start: self.start,
            finals: self.finals@,
        }
    }
}

/// The `DFABuilder` accumulates a start state, final states, and transitions,
/// and is consumed by `finalize`, which checks the structural invariants.
#[derive(Debug)]
pub struct DFABuilder {
    transitions: Vec<(char, usize, usize)>,
    start: Option<usize>,
    finals: StateSet,
}

impl View for DFABuilder {
    type V = DFABuilderView;

    closed spec fn view(&self) -> DFABuilderView {
        DFABuilderView {
            transitions: trans_map(self.transitions@),
            start: self.start,
            finals: self.finals@,
        }
    }
}

/// The views of a builder-or-error chaining value.
pub open spec fn builder_views(r: Result<DFABuilder, DFAError>) -> Result<
    DFABuilderView,
    DFAError,
> {
    match r {
        Ok(b) => Ok(b@),
        Err(e) => Err(e),
    }
}

/// The views of a finalized-automaton-or-error value.
pub open spec fn dfa_views(r: Result<DFA, DFAError>) -> Result<DFAView, DFAError> {
    match r {
        Ok(a) => Ok(a@),
        Err(e) => Err(e),
    }
}

/// Setting the start state overwrites any previous choice.
pub open spec fn spec_add_start(b: DFABuilderView, state: usize) -> DFABuilderView {
    DFABuilderView { start: Some(state), ..b }
}

/// Inserting a final state is idempotent.
pub open spec fn spec_add_final(b: DFABuilderView, state: usize) -> DFABuilderView {
    DFABuilderView { finals: b.finals.insert(state), ..b }
}

/// Registering a transition fails exactly when its (symbol, source) pair is
/// already bound, whatever destination it was bound to.
pub open spec fn spec_add_transition(
    b: DFABuilderView,
    symb: char,
    src: usize,
    dest: usize,
) -> Result<DFABuilderView, DFAError> {
    if b.transitions.contains_key((symb, src)) {
        Err(DFAError::DuplicatedTransition(symb, src))
    } else {
        Ok(DFABuilderView { transitions: b.transitions.insert((symb, src), dest), ..b })
    }
}

/// Finalizing requires a start state and a non-empty final-state set, in
/// that order of checks.
pub open spec fn spec_finalize(b: DFABuilderView) -> Result<DFAView, DFAError> {
    if b.start is None {
        Err(DFAError::MissingStartingState)
    } else if b.finals == Set::<usize>::empty() {
        Err(DFAError::MissingFinalStates)
    } else {
        Ok(DFAView { transitions: b.transitions, start: b.start->0, finals: b.finals })
    }
}

/// `spec_add_start` lifted over an already-failed chain.
pub open spec fn spec_chain_add_start(
    r: Result<DFABuilderView, DFAError>,
    state: usize,
) -> Result<DFABuilderView, DFAError> {
    match r {
        Ok(b) => Ok(spec_add_start(b, state)),
        Err(e) => Err(e),
    }
}

/// `spec_add_final` lifted over an already-failed chain.
pub open spec fn spec_chain_add_final(r: Result<DFABuilderView, DFAError>, state: usize) -> Result<
    DFABuilderView,
    DFAError,
> {
    match r {
        Ok(b) => Ok(spec_add_final(b, state)),
        Err(e) => Err(e),
    }
}

/// `spec_add_transition` lifted over an already-failed chain.
pub open spec fn spec_chain_add_transition(
    r: Result<DFABuilderView, DFAError>,
    symb: char,
    src: usize,
    dest: usize,
) -> Result<DFABuilderView, DFAError> {
    match r {
        Ok(b) => spec_add_transition(b, symb, src, dest),
        Err(e) => Err(e),
    }
}

/// `spec_finalize` lifted over an already-failed chain.
pub open spec fn spec_chain_finalize(r: Result<DFABuilderView, DFAError>) -> Result<
    DFAView,
    DFAError,
> {
    match r {
        Ok(b) => spec_finalize(b),
        Err(e) => Err(e),
    }
}

/// Builder operations, implemented both by `DFABuilder` and by
/// `Result<DFABuilder, DFAError>`, so that construction steps chain without
/// unwrapping: an error produced by any step short-circuits the rest.
pub trait DFABuilding: Sized {
    /// The builder state carried into the next step: the view of the builder
    /// so far, or the first error the chain produced.
    spec fn building_view(self) -> Result<DFABuilderView, DFAError>;

    /// Adds the starting state, overwriting any previous choice.
    fn add_start(self, state: usize) -> (r: Result<DFABuilder, DFAError>)
        ensures
            builder_views(r) == spec_chain_add_start(self.building_view(), state),
    ;

    /// Adds a final state; adding it twice changes nothing.
    fn add_final(self, state: usize) -> (r: Result<DFABuilder, DFAError>)
        ensures
            builder_views(r) == spec_chain_add_final(self.building_view(), state),
    ;

    /// Adds the transition (symb, src) -> dest; fails with
    /// `DuplicatedTransition` when (symb, src) is already bound, even to the
    /// same destination.
    fn add_transition(self, symb: char, src: usize, dest: usize) -> (r: Result<
        DFABuilder,
        DFAError,
    >)
        ensures
            builder_views(r) == spec_chain_add_transition(self.building_view(), symb, src, dest),
    ;

    /// Checks the builder invariants and produces the immutable DFA; fails
    /// with `MissingStartingState` when no start was ever set, else with
    /// `MissingFinalStates` when no final state was added.
    fn finalize(self) -> (r: Result<DFA, DFAError>)
        ensures
            dfa_views(r) == spec_chain_finalize(self.building_view()),
    ;
}

impl DFABuilder {
    #[verifier::type_invariant]
    spec fn wf(self) -> bool {
        keys_unique(self.transitions@)
    }

    /// Creates a new, empty `DFABuilder`.
    pub fn new() -> (r: Result<DFABuilder, DFAError>)
        ensures
            builder_views(r) == Ok::<DFABuilderView, DFAError>(empty_dfa_builder()),
    {
        let b = DFABuilder { transitions: Vec::new(), start: None, finals: StateSet::new() };
        proof {
            assert(b@ =~= empty_dfa_builder());
        }
        Ok(b)
    }
}

fn has_key(transitions: &Vec<(char, usize, usize)>, symb: char, src: usize) -> (r: bool)
    ensures
        r == trans_map(transitions@).contains_key((symb, src)),
{
    proof {
        lemma_trans_map_contains(transitions@, symb, src);
    }
    let n = transitions.len();
    for i in 0..n
        invariant
            n == transitions.len(),
            forall|j: int|
                0 <= j < i ==> !((#[trigger] transitions@[j]).0 == symb && transitions@[j].1
                    == src),
            trans_map(transitions@).contains_key((symb, src)) <==> exists|k: int|
                0 <= k < transitions@.len() && (#[trigger] transitions@[k]).0 == symb
                    && transitions@[k].1 == src,
    {
        let t = transitions[i];
        if t.0 == symb && t.1 == src {
            return true;
        }
    }
    false
}

impl DFABuilding for DFABuilder {
    open spec fn building_view(self) -> Result<DFABuilderView, DFAError> {
        Ok(self@)
    }

    fn add_start(self, state: usize) -> (r: Result<DFABuilder, DFAError>) {
        Ok(self).add_start(state)
    }

    fn add_final(self, state: usize) -> (r: Result<DFABuilder, DFAError>) {
        Ok(self).add_final(state)
    }

    fn add_transition(self, symb: char, src: usize, dest: usize) -> (r: Result<
        DFABuilder,
        DFAError,
    >) {
        Ok(self).add_transition(symb, src, dest)
    }

    fn finalize(self) -> (r: Result<DFA, DFAError>) {
        Ok(self).finalize()
    }
}

/// Implementing `DFABuilding` for `Result<DFABuilder, DFAError>` lets the
/// return value of each step be chained into the next one instead of being
/// unwrapped at each stage of the construction.
impl DFABuilding for Result<DFABuilder, DFAError> {
    open spec fn building_view(self) -> Result<DFABuilderView, DFAError> {
        builder_views(self)
    }

    fn add_start(self, state: usize) -> (r: Result<DFABuilder, DFAError>) {
        match self {
            Ok(b) => {
                proof {
                    use_type_invariant(&b);
                }
                let DFABuilder { transitions, start: _, finals } = b;
                Ok(DFABuilder { transitions, start: Some(state), finals })
            },
            Err(e) => Err(e),
        }
    }

    fn add_final(self, state: usize) -> (r: Result<DFABuilder, DFAError>) {
        match self {
            Ok(b) => {
                proof {
                    use_type_invariant(&b);
                }
                let DFABuilder { transitions, start, finals } = b;
                Ok(DFABuilder { transitions, start, finals: finals.insert(state) })
            },
            Err(e) => Err(e),
        }
    }

    fn add_transition(self, symb: char, src: usize, dest: usize) -> (r: Result<
        DFABuilder,
        DFAError,
    >) {
        match self {
            Ok(b) => {
                proof {
                    use_type_invariant(&b);
                }
                if has_key(&b.transitions, symb, src) {
                    return Err(DFAError::DuplicatedTransition(symb, src));
                }
                proof {
                    lemma_trans_map_contains(b.transitions@, symb, src);
                }
                let ghost old_seq = b.transitions@;
                let DFABuilder { mut transitions, start, finals } = b;
                transitions.push((symb, src, dest));
                proof {
                    assert(transitions@.drop_last() =~= old_seq);
                    assert forall|i: int, j: int| 0 <= i < j < transitions@.len() implies ((
                    #[trigger] transitions@[i]).0 != (#[trigger] transitions@[j]).0
                        || transitions@[i].1 != transitions@[j].1) by {
                        if j == transitions@.len() - 1 {
                            assert(!(old_seq[i].0 == symb && old_seq[i].1 == src));
                        } else {
                            assert(old_seq[i] == transitions@[i]);
                            assert(old_seq[j] == transitions@[j]);
                        }
                    }
                }
                Ok(DFABuilder { transitions, start, finals })
            },
            Err(e) => Err(e),
        }
    }

    fn finalize(self) -> (r: Result<DFA, DFAError>) {
        match self {
            Ok(b) => {
                proof {
                    use_type_invariant(&b);
                }
                let DFABuilder { transitions, start, finals } = b;
                match start {
                    None => Err(DFAError::MissingStartingState),
                    Some(s) => {
                        if finals.is_empty() {
                            Err(DFAError::MissingFinalStates)
                        } else {
                            Ok(DFA { transitions, start: s, finals })
                        }
                    },
                }
            },
            Err(e) => Err(e),
        }
    }
}

impl DFA {
    #[verifier::type_invariant]
    spec fn wf(self) -> bool {
        keys_unique(self.transitions@) && self.finals@ != Set::<usize>::empty()
    }

    fn lookup(&self, c: char, s: usize) -> (r: Option<usize>)
        ensures
            r == dfa_step(self@.transitions, Some(s), c),
    {
        proof {
            use_type_invariant(&*self);
            lemma_trans_map_contains(self.transitions@, c, s);
        }
        let n = self.transitions.len();
        for i in 0..n
            invariant
                n == self.transitions.len(),
                keys_unique(self.transitions@),
                forall|j: int|
                    0 <= j < i ==> !((#[trigger] self.transitions@[j]).0 == c
                        && self.transitions@[j].1 == s),
                trans_map(self.transitions@).contains_key((c, s)) <==> exists|k: int|
                    0 <= k < self.transitions@.len() && (#[trigger] self.transitions@[k]).0 == c
                        && self.transitions@[k].1 == s,
        {
            let t = self.transitions[i];
            if t.0 == c && t.1 == s {
                proof {
                    lemma_trans_map_at(self.transitions@, i as int);
                }
                return Some(t.2);
            }
        }
        None
    }

    /// The start state.
    pub fn start(&self) -> (r: usize)
        ensures
            r == self@.start,
    {
        self.start
    }

    /// The final states, without duplicates.
    pub fn finals(&self) -> (r: Vec<usize>)
        ensures
            r@.to_set() == self@.finals,
            r@.no_duplicates(),
    {
        self.finals.to_vec()
    }

    /// The transitions as (symbol, source, destination) entries, one entry
    /// per bound (symbol, source) pair.
    pub fn transitions(&self) -> (r: Vec<(char, usize, usize)>)
        ensures
            trans_map(r@) == self@.transitions,
            keys_unique(r@),
    {
        proof {
            use_type_invariant(&*self);
        }
        let n = self.transitions.len();
        let mut r: Vec<(char, usize, usize)> = Vec::new();
        for i in 0..n
            invariant
                n == self.transitions.len(),
                r@ == self.transitions@.take(i as int),
        {
            r.push(self.transitions[i]);
            proof {
                assert(r@ =~= self.transitions@.take(i + 1));
            }
        }
        proof {
            assert(r@ =~= self.transitions@);
        }
        r
    }

    /// Tests whether `input` is a word of the language defined by the DFA.
    pub fn test(&self, input: &str) -> (r: bool)
        ensures
            r == dfa_accepts(self@, input@),
    {
        let cs = crate::text::chars_of(input);
        let mut cur: Option<usize> = Some(self.start);
        let n = cs.len();
        for i in 0..n
            invariant
                n == cs.len(),
                cs@ == input@,
                cur == dfa_run(self@.transitions, Some(self@.start), cs@.take(i as int)),
        {
            let next = match cur {
                Some(s) => self.lookup(cs[i], s),
                None => None,
            };
            proof {
                lemma_dfa_run_push(self@.transitions, Some(self@.start), cs@.take(i as int), cs@[i as int]);
                assert(cs@.take(i + 1) =~= cs@.take(i as int).push(cs@[i as int]));
            }
            cur = next;
        }
        proof {
            assert(cs@.take(n as int) =~= cs@);
        }
        match cur {
            Some(s) => self.finals.contains(s),
            None => false,
        }
    }
}

/// Acceptance is a pure function of the automaton and the input: two results
/// of testing the same input against the same automaton always agree.
pub proof fn lemma_dfa_test_deterministic(a: DFAView, input: Seq<char>, r1: bool, r2: bool)
    requires
        r1 == dfa_accepts(a, input),
        r2 == dfa_accepts(a, input),
    ensures
        r1 == r2,
{
}

/// Registering a (symbol, source) pair that is already bound fails with
/// `DuplicatedTransition(symbol, source)`, whatever destinations the two
/// registrations name.
pub proof fn lemma_duplicate_transition_rejected(
    b: DFABuilderView,
    symb: char,
    src: usize,
    d1: usize,
    d2: usize,
)
    ensures
        spec_add_transition(b, symb, src, d1) is Ok ==> spec_chain_add_transition(
            spec_add_transition(b, symb, src, d1),
            symb,
            src,
            d2,
        ) == Err::<DFABuilderView, DFAError>(DFAError::DuplicatedTransition(symb, src)),
{
}

/// A builder whose start state was never set finalizes to
/// `MissingStartingState`, whatever transitions and finals it holds.
pub proof fn lemma_dfa_finalize_missing_start(b: DFABuilderView)
    requires
        b.start is None,
    ensures
        spec_finalize(b) == Err::<DFAView, DFAError>(DFAError::MissingStartingState),
{
}

/// A builder with a start state but an empty final-state set finalizes to
/// `MissingFinalStates`.
pub proof fn lemma_dfa_finalize_missing_finals(b: DFABuilderView)
    requires
        b.start is Some,
        b.finals == Set::<usize>::empty(),
    ensures
        spec_finalize(b) == Err::<DFAView, DFAError>(DFAError::MissingFinalStates),
{
}

} // verus!

//! Finite sets of automaton states.

use vstd::prelude::*;

verus! {

/// A finite set of states, held as a duplicate-free vector of state
/// identifiers. Its view is the mathematical set of its elements.
#[derive(Debug)]
pub struct StateSet {
    elems: Vec<usize>,
}

impl View for StateSet {
    type V = Set<usize>;

    closed spec fn view(&self) -> Set<usize> {
        self.elems@.to_set()
    }
}

impl StateSet {
    #[verifier::type_invariant]
    spec fn wf(self) -> bool {
        self.elems@.no_duplicates()
    }

    /// The empty set of states.
    pub fn new() -> (r: StateSet)
        ensures
            r@ == Set::<usize>::empty(),
    {
        let r = StateSet { elems: Vec::new() };
        proof {
            assert(r@ =~= Set::<usize>::empty());
        }
        r
    }

    /// Builds a set from a duplicate-free vector of states.
    pub(crate) fn from_vec(elems: Vec<usize>) -> (r: StateSet)
        requires
            elems@.no_duplicates(),
        ensures
            r@ == elems@.to_set(),
    {
        StateSet { elems }
    }

    /// Whether `state` is in the set.
    pub fn contains(&self, state: usize) -> (r: bool)
        ensures
            r == self@.contains(state),
    {
        let n = self.elems.len();
        for i in 0..n
            invariant
                n == self.elems.len(),
                forall|j: int| 0 <= j < i ==> self.elems@[j] != state,
        {
            if self.elems[i] == state {
                return true;
            }
        }
        proof {
            assert(!self.elems@.contains(state));
        }
        false
    }

    /// The set with `state` added; adding a present state changes nothing.
    pub fn insert(self, state: usize) -> (r: StateSet)
        ensures
            r@ == self@.insert(state),
    {
        proof {
            use_type_invariant(&self);
        }
        if self.contains(state) {
            proof {
                assert(self@.insert(state) =~= self@);
            }
            self
        } else {
            let StateSet { mut elems } = self;
            proof {
                assert(forall|j: int| 0 <= j < elems@.len() ==> elems@[j] != state);
            }
            elems.push(state);
            let r = StateSet { elems };
            proof {
                broadcast use vstd::seq_lib::lemma_seq_contains_after_push;

                assert(r@ =~= self@.insert(state));
            }
            r
        }
    }

    /// Whether the set is empty.
    pub fn is_empty(&self) -> (r: bool)
        ensures
            r == (self@ == Set::<usize>::empty()),
    {
        if self.elems.len() == 0 {
            proof {
                assert(self@ =~= Set::<usize>::empty());
            }
            true
        } else {
            proof {
                assert(self@.contains(self.elems@[0]));
                assert(self@ != Set::<usize>::empty());
            }
            false
        }
    }

    /// The number of states in the set.
    pub fn len(&self) -> (r: usize)
        ensures
            r == self@.len(),
    {
        proof {
            use_type_invariant(&*self);
            self.elems@.unique_seq_to_set();
        }
        self.elems.len()
    }

    /// The states as a duplicate-free vector.
    pub fn to_vec(&self) -> (r: Vec<usize>)
        ensures
            r@.to_set() == self@,
            r@.no_duplicates(),
    {
        proof {
            use_type_invariant(&*self);
        }
        let n = self.elems.len();
        let mut r: Vec<usize> = Vec::new();
        for i in 0..n
            invariant
                n == self.elems.len(),
                r@ == self.elems@.take(i as int),
        {
            r.push(self.elems[i]);
            proof {
                assert(r@ =~= self.elems@.take(i + 1));
            }
        }
        proof {
            assert(r@ =~= self.elems@);
        }
        r
    }

    /// The view of a `StateSet` is always a finite set.
    pub proof fn lemma_finite(&self)
        ensures
            self@.finite(),
    {
        broadcast use vstd::seq_lib::seq_to_set_is_finite;

    }

    /// Whether the two sets share a state.
    pub fn intersects(&self, other: &StateSet) -> (r: bool)
        ensures
            r == exists|s: usize| self@.contains(s) && other@.contains(s),
    {
        let n = self.elems.len();
        for i in 0..n
            invariant
                n == self.elems.len(),
                forall|j: int| 0 <= j < i ==> !other@.contains(#[trigger] self.elems@[j]),
        {
            if other.contains(self.elems[i]) {
                proof {
                    assert(self@.contains(self.elems@[i as int]));
                }
                return true;
            }
        }
        proof {
            assert forall|s: usize| self@.contains(s) implies !other@.contains(s) by {
                let j = choose|j: int| 0 <= j < self.elems@.len() && self.elems@[j] == s;
                assert(!other@.contains(self.elems@[j]));
            }
        }
        false
    }
}

} // verus!

//! Reading an NFA from its line-oriented text description: first non-blank
//! line the start state, second the final states, every further line a
//! `<symbol> <source> <destination>` transition. A `#` starts a comment and
//! blank lines are skipped; errors name the 1-based source line.

use vstd::prelude::*;

use crate::nfa::machine::{
    empty_nfa_builder, spec_add_final, spec_add_start, spec_add_transition,
    spec_finalize, NFA, NFABuilder, NFABuilderView, NFABuilding, NFAError, NFAView,
};
use crate::text::{
    chars_of, clean_lines, clean_lines_exec, numbered_view, parse_usize, parses_to_usize, tokens,
    tokens_exec, usize_of_dec,
};

verus! {

/// The errors that can occur while reading an NFA description.
#[derive(Debug)]
pub enum NFAReaderError {
    /// The text holds no non-blank line to read the starting state from.
    MissingStartingState,
    /// The text holds no non-blank line to read the final states from.
    MissingFinalStates,
    /// The transition on the given line misses its source or destination.
    IncompleteTransition(usize),
    /// The transition on the given line has too many elements, or a symbol
    /// of more than one character.
    IllformedTransition(usize),
    /// An error of the building process, with the line that triggered it.
    NFA(NFAError, usize),
    /// An error of the input channel the description came from.
    Io(std::io::Error),
    /// An integer failed to parse, on the given line.
    Parse(std::num::ParseIntError, usize),
}

/// The failure cases of reading an NFA description, with the payloads the
/// contracts speak about: parse failures are identified by their line alone.
pub ghost enum NFAReadFailure {
    MissingStart,
    MissingFinals,
    Incomplete(int),
    Illformed(int),
    Nfa(NFAError, int),
    Parse(int),
}

/// Whether the reader error `e` reports the failure `k`.
pub open spec fn nfa_err_matches(e: NFAReaderError, k: NFAReadFailure) -> bool {
    match (e, k) {
        (NFAReaderError::MissingStartingState, NFAReadFailure::MissingStart) => true,
        (NFAReaderError::MissingFinalStates, NFAReadFailure::MissingFinals) => true,
        (NFAReaderError::IncompleteTransition(l), NFAReadFailure::Incomplete(n)) => l as int == n,
        (NFAReaderError::IllformedTransition(l), NFAReadFailure::Illformed(n)) => l as int == n,
        (NFAReaderError::NFA(e1, l), NFAReadFailure::Nfa(e2, n)) => e1 == e2 && l as int == n,
        (NFAReaderError::Parse(_, l), NFAReadFailure::Parse(n)) => l as int == n,
        _ => false,
    }
}

/// Adding each token of a finals line in order; the first token that is not
/// a state identifier stops the reading.
pub open spec fn spec_add_finals(
    b: NFABuilderView,
    toks: Seq<Seq<char>>,
    line: int,
) -> Result<NFABuilderView, NFAReadFailure>
    decreases toks.len(),
{
    if toks.len() == 0 {
        Ok(b)
    } else if !parses_to_usize(toks[0]) {
        Err(NFAReadFailure::Parse(line))
    } else {
        spec_add_finals(
            spec_add_final(b, usize_of_dec(toks[0]) as usize),
            toks.drop_first(),
            line,
        )
    }
}

/// Reading one transition line: a one-character symbol, a source state, and
/// a destination state, checked in that order. Registering the edge itself
/// never fails.
pub open spec fn spec_read_transition(b: NFABuilderView, nline: int, content: Seq<char>) -> Result<
    NFABuilderView,
    NFAReadFailure,
> {
    let toks = tokens(content);
    if toks.len() == 0 {
        Ok(b)
    } else if toks[0].len() != 1 {
        Err(NFAReadFailure::Illformed(nline))
    } else if toks.len() < 2 {
        Err(NFAReadFailure::Incomplete(nline))
    } else if !parses_to_usize(toks[1]) {
        Err(NFAReadFailure::Parse(nline))
    } else if toks.len() < 3 {
        Err(NFAReadFailure::Incomplete(nline))
    } else if !parses_to_usize(toks[2]) {
        Err(NFAReadFailure::Parse(nline))
    } else if toks.len() > 3 {
        Err(NFAReadFailure::Illformed(nline))
    } else {
        Ok(
            spec_add_transition(
                b,
                toks[0][0],
                usize_of_dec(toks[1]) as usize,
                usize_of_dec(toks[2]) as usize,
            ),
        )
    }
}

/// Reading every transition line in order; the first failing line stops the
/// reading.
pub open spec fn spec_read_transitions(
    b: NFABuilderView,
    rest: Seq<(int, Seq<char>)>,
) -> Result<NFABuilderView, NFAReadFailure>
    decreases rest.len(),
{
    if rest.len() == 0 {
        Ok(b)
    } else {
        match spec_read_transition(b, rest[0].0, rest[0].1) {
            Ok(b2) => spec_read_transitions(b2, rest.drop_first()),
            Err(e) => Err(e),
        }
    }
}

/// Reading an NFA from its meaningful lines: the first is the start state,
/// the second lists the final states, the rest are transitions.
pub open spec fn spec_read_nfa_clean(cls: Seq<(int, Seq<char>)>) -> Result<
    NFAView,
    NFAReadFailure,
> {
    if cls.len() == 0 {
        Err(NFAReadFailure::MissingStart)
    } else if !parses_to_usize(cls[0].1) {
        Err(NFAReadFailure::Parse(cls[0].0))
    } else {
        let b1 = spec_add_start(empty_nfa_builder(), usize_of_dec(cls[0].1) as usize);
        if cls.len() == 1 {
            Err(NFAReadFailure::MissingFinals)
        } else {
            match spec_add_finals(b1, tokens(cls[1].1), cls[1].0) {
                Err(e) => Err(e),
                Ok(b2) => match spec_read_transitions(b2, cls.skip(2)) {
                    Err(e) => Err(e),
                    Ok(b3) => match spec_finalize(b3) {
                        Ok(a) => Ok(a),
                        Err(e) => Err(NFAReadFailure::Nfa(e, 0)),
                    },
                },
            }
        }
    }
}

/// Reading an NFA from a whole text.
pub open spec fn spec_read_nfa(s: Seq<char>) -> Result<NFAView, NFAReadFailure> {
    spec_read_nfa_clean(clean_lines(s))
}

/// Whether the outcome `r` is the one `spec_r` describes: the same automaton
/// on success, a matching error on failure.
pub open spec fn matches_read_nfa(
    r: Result<NFA, NFAReaderError>,
    spec_r: Result<NFAView, NFAReadFailure>,
) -> bool {
    match r {
        Ok(d) => spec_r is Ok && d@ == spec_r->Ok_0,
        Err(e) => spec_r is Err && nfa_err_matches(e, spec_r->Err_0),
    }
}

/// Struct `NFAReader` is an empty structure that builds an `NFA` from the
/// text format.
pub struct NFAReader;

impl NFAReader {
    fn parse_nfa_error(contents: &Vec<char>, line: usize) -> (r: Result<usize, NFAReaderError>)
        ensures
            r is Ok <==> parses_to_usize(contents@),
            r is Ok ==> r->Ok_0 as int == usize_of_dec(contents@),
            r matches Err(e) ==> nfa_err_matches(e, NFAReadFailure::Parse(line as int)),
    {
        match parse_usize(contents) {
            Ok(v) => Ok(v),
            Err(e) => Err(NFAReaderError::Parse(e, line)),
        }
    }

    fn read_start(nfa: NFABuilder, nline: usize, content: &Vec<char>) -> (r: Result<
        NFABuilder,
        NFAReaderError,
    >)
        ensures
            match r {
                Ok(b2) => parses_to_usize(content@) && b2@ == spec_add_start(
                    nfa@,
                    usize_of_dec(content@) as usize,
                ),
                Err(e) => !parses_to_usize(content@) && nfa_err_matches(
                    e,
                    NFAReadFailure::Parse(nline as int),
                ),
            },
    {
        let start = match Self::parse_nfa_error(content, nline) {
            Ok(v) => v,
            Err(e) => {
                return Err(e);
            },
        };
        match nfa.add_start(start) {
            Ok(b) => Ok(b),
            Err(e) => Err(NFAReaderError::NFA(e, nline)),
        }
    }

    fn read_finals(nfa: NFABuilder, nline: usize, content: &Vec<char>) -> (r: Result<
        NFABuilder,
        NFAReaderError,
    >)
        ensures
            match r {
                Ok(b2) => spec_add_finals(nfa@, tokens(content@), nline as int)
                    == Ok::<NFABuilderView, NFAReadFailure>(b2@),
                Err(e) => spec_add_finals(nfa@, tokens(content@), nline as int) matches Err(k)
                    && nfa_err_matches(e, k),
            },
    {
        let toks = tokens_exec(content);
        let ghost toks_dv = toks.deep_view();
        let mut b = nfa;
        let m = toks.len();
        proof {
            assert(toks_dv.skip(0) =~~= toks_dv);
        }
        for i in 0..m
            invariant
                m == toks.len(),
                toks_dv == toks.deep_view(),
                toks_dv == tokens(content@),
                toks_dv.len() == m,
                spec_add_finals(nfa@, toks_dv, nline as int) == spec_add_finals(
                    b@,
                    toks_dv.skip(i as int),
                    nline as int,
                ),
        {
            proof {
                assert(toks_dv.skip(i as int)[0] == toks_dv[i as int]);
                assert(toks_dv[i as int] == toks@[i as int]@);
                assert(toks_dv.skip(i as int).drop_first() =~~= toks_dv.skip(i + 1));
            }
            let v = match Self::parse_nfa_error(&toks[i], nline) {
                Ok(v) => v,
                Err(e) => {
                    proof {
                        assert(spec_add_finals(b@, toks_dv.skip(i as int), nline as int)
                            == Err::<NFABuilderView, NFAReadFailure>(
                            NFAReadFailure::Parse(nline as int),
                        ));
                    }
                    return Err(e);
                },
            };
            b = match b.add_final(v) {
                Ok(b2) => b2,
                Err(e) => {
                    return Err(NFAReaderError::NFA(e, nline));
                },
            };
        }
        proof {
            assert(toks_dv.skip(m as int) =~~= Seq::<Seq<char>>::empty());
        }
        Ok(b)
    }

    fn read_transition(nfa: NFABuilder, nline: usize, content: &Vec<char>) -> (r: Result<
        NFABuilder,
        NFAReaderError,
    >)
        ensures
            match r {
                Ok(b2) => spec_read_transition(nfa@, nline as int, content@)
                    == Ok::<NFABuilderView, NFAReadFailure>(b2@),
                Err(e) => spec_read_transition(nfa@, nline as int, content@) matches Err(k)
                    && nfa_err_matches(e, k),
            },
    {
        let toks = tokens_exec(content);
        proof {
            assert(forall|i: int|
                0 <= i < toks@.len() ==> toks.deep_view()[i] == #[trigger] toks@[i]@);
        }
        if toks.len() == 0 {
            return Ok(nfa);
        }
        if toks[0].len() != 1 {
            return Err(NFAReaderError::IllformedTransition(nline));
        }
        let symb = toks[0][0];
        if toks.len() < 2 {
            return Err(NFAReaderError::IncompleteTransition(nline));
        }
        let src = match Self::parse_nfa_error(&toks[1], nline) {
            Ok(v) => v,
            Err(e) => {
                return Err(e);
            },
        };
        if toks.len() < 3 {
            return Err(NFAReaderError::IncompleteTransition(nline));
        }
        let dest = match Self::parse_nfa_error(&toks[2], nline) {
            Ok(v) => v,
            Err(e) => {
                return Err(e);
            },
        };
        if toks.len() > 3 {
            return Err(NFAReaderError::IllformedTransition(nline));
        }
        match nfa.add_transition(symb, src, dest) {
            Ok(b) => Ok(b),
            Err(e) => Err(NFAReaderError::NFA(e, nline)),
        }
    }

    fn new_from_lines(lines: &Vec<(usize, Vec<char>)>) -> (r: Result<NFA, NFAReaderError>)
        ensures
            matches_read_nfa(r, spec_read_nfa_clean(numbered_view(lines@))),
    {
        let ghost cls = numbered_view(lines@);
        proof {
            assert(forall|i: int|
                0 <= i < lines@.len() ==> #[trigger] cls[i] == (
                    lines@[i].0 as int,
                    lines@[i].1@,
                ));
        }
        let mut nfa = match NFABuilder::new() {
            Ok(b) => b,
            Err(e) => {
                return Err(NFAReaderError::NFA(e, 0));
            },
        };
        proof {
            assert(nfa@ == empty_nfa_builder());
        }
        if lines.len() == 0 {
            return Err(NFAReaderError::MissingStartingState);
        }
        proof {
            assert(cls[0] == (lines@[0].0 as int, lines@[0].1@));
        }
        nfa = match Self::read_start(nfa, lines[0].0, &lines[0].1) {
            Ok(b) => b,
            Err(e) => {
                proof {
                    assert(spec_read_nfa_clean(cls) == Err::<NFAView, NFAReadFailure>(
                        NFAReadFailure::Parse(cls[0].0),
                    ));
                }
                return Err(e);
            },
        };
        let ghost b1 = nfa@;
        proof {
            assert(parses_to_usize(cls[0].1));
            assert(b1 == spec_add_start(empty_nfa_builder(), usize_of_dec(cls[0].1) as usize));
        }
        if lines.len() == 1 {
            return Err(NFAReaderError::MissingFinalStates);
        }
        proof {
            assert(cls[1] == (lines@[1].0 as int, lines@[1].1@));
        }
        nfa = match Self::read_finals(nfa, lines[1].0, &lines[1].1) {
            Ok(b) => b,
            Err(e) => {
                proof {
                    assert(spec_add_finals(b1, tokens(cls[1].1), cls[1].0) matches Err(k)
                        && nfa_err_matches(e, k));
                }
                return Err(e);
            },
        };
        let ghost b2 = nfa@;
        proof {
            assert(spec_add_finals(b1, tokens(cls[1].1), cls[1].0) == Ok::<
                NFABuilderView,
                NFAReadFailure,
            >(b2));
        }
        let n = lines.len();
        for i in 2..n
            invariant
                n == lines.len(),
                cls == numbered_view(lines@),
                cls.len() == n,
                spec_read_transitions(b2, cls.skip(2)) == spec_read_transitions(
                    nfa@,
                    cls.skip(i as int),
                ),
                spec_read_nfa_clean(cls) == (match spec_read_transitions(b2, cls.skip(2)) {
                    Err(k) => Err(k),
                    Ok(b3) => match spec_finalize(b3) {
                        Ok(a) => Ok(a),
                        Err(e) => Err(NFAReadFailure::Nfa(e, 0)),
                    },
                }),
        {
            proof {
                assert(cls.skip(i as int)[0] == cls[i as int]);
                assert(cls[i as int] == (lines@[i as int].0 as int, lines@[i as int].1@));
                assert(cls.skip(i as int).drop_first() =~= cls.skip(i + 1));
            }
            let ghost bi = nfa@;
            nfa = match Self::read_transition(nfa, lines[i].0, &lines[i].1) {
                Ok(b) => b,
                Err(e) => {
                    proof {
                        assert(spec_read_transition(bi, cls[i as int].0, cls[i as int].1) matches Err(
                            k,
                        ) && nfa_err_matches(e, k));
                        assert(spec_read_transitions(bi, cls.skip(i as int)) matches Err(k)
                            && nfa_err_matches(e, k));
                    }
                    return Err(e);
                },
            };
        }
        proof {
            assert(cls.skip(n as int) =~= Seq::<(int, Seq<char>)>::empty());
        }
        match nfa.finalize() {
            Ok(a) => Ok(a),
            Err(e) => Err(NFAReaderError::NFA(e, 0)),
        }
    }

    /// Reads an NFA from the text format: first non-blank line the start
    /// state, second the final states, each further line a transition
    /// `<symbol> <source> <destination>`.
    pub fn new_from_string(nfa: &str) -> (r: Result<NFA, NFAReaderError>)
        ensures
            matches_read_nfa(r, spec_read_nfa(nfa@)),
    {
        let cs = chars_of(nfa);
        let cls = clean_lines_exec(&cs);
        Self::new_from_lines(&cls)
    }
}

} // verus!

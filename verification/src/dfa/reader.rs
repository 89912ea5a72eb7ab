//! Reading a DFA from its line-oriented text description: first non-blank
//! line the start state, second the final states, every further line a
//! `<symbol> <source> <destination>` transition. A `#` starts a comment and
//! blank lines are skipped; errors name the 1-based source line.

use vstd::prelude::*;

use crate::dfa::machine::{
    empty_dfa_builder, spec_add_final, spec_add_start, spec_add_transition,
    spec_finalize, DFA, DFABuilder, DFABuilderView, DFABuilding, DFAError, DFAView,
};
use crate::text::{
    chars_of, clean_lines, clean_lines_exec, numbered_view, parse_usize, parses_to_usize, tokens,
    tokens_exec, usize_of_dec,
};

verus! {

/// The errors that can occur while reading a DFA description.
#[derive(Debug)]
pub enum DFAReaderError {
    /// The text holds no non-blank line to read the starting state from.
    MissingStartingState,
    /// The text holds no non-blank line to read the final states from.
    MissingFinalStates,
    /// The transition on the given line misses its source or destination.
    IncompleteTransition(usize),
    /// The transition on the given line has too many elements, or a symbol
    /// of more than one character.
    IllformedTransition(usize),
    /// An error of the building process, with the line that triggered it.
    DFA(DFAError, usize),
    /// An error of the input channel the description came from.
    Io(std::io::Error),
    /// An integer failed to parse, on the given line.
    Parse(std::num::ParseIntError, usize),
}

#[verifier::external_type_specification]
#[verifier::external_body]
pub struct ExIoError(std::io::Error);

/// The failure cases of reading a DFA description, with the payloads the
/// contracts speak about: parse failures are identified by their line alone.
pub ghost enum DFAReadFailure {
    MissingStart,
    MissingFinals,
    Incomplete(int),
    Illformed(int),
    Dfa(DFAError, int),
    Parse(int),
}

/// Whether the reader error `e` reports the failure `k`.
pub open spec fn dfa_err_matches(e: DFAReaderError, k: DFAReadFailure) -> bool {
    match (e, k) {
        (DFAReaderError::MissingStartingState, DFAReadFailure::MissingStart) => true,
        (DFAReaderError::MissingFinalStates, DFAReadFailure::MissingFinals) => true,
        (DFAReaderError::IncompleteTransition(l), DFAReadFailure::Incomplete(n)) => l as int == n,
        (DFAReaderError::IllformedTransition(l), DFAReadFailure::Illformed(n)) => l as int == n,
        (DFAReaderError::DFA(e1, l), DFAReadFailure::Dfa(e2, n)) => e1 == e2 && l as int == n,
        (DFAReaderError::Parse(_, l), DFAReadFailure::Parse(n)) => l as int == n,
        _ => false,
    }
}

/// Adding each token of a finals line in order; the first token that is not
/// a state identifier stops the reading.
pub open spec fn spec_add_finals(
    b: DFABuilderView,
    toks: Seq<Seq<char>>,
    line: int,
) -> Result<DFABuilderView, DFAReadFailure>
    decreases toks.len(),
{
    if toks.len() == 0 {
        Ok(b)
    } else if !parses_to_usize(toks[0]) {
        Err(DFAReadFailure::Parse(line))
    } else {
        spec_add_finals(
            spec_add_final(b, usize_of_dec(toks[0]) as usize),
            toks.drop_first(),
            line,
        )
    }
}

/// Reading one transition line: a one-character symbol, a source state, and
/// a destination state, checked in that order.
pub open spec fn spec_read_transition(b: DFABuilderView, nline: int, content: Seq<char>) -> Result<
    DFABuilderView,
    DFAReadFailure,
> {
    let toks = tokens(content);
    if toks.len() == 0 {
        Ok(b)
    } else if toks[0].len() != 1 {
        Err(DFAReadFailure::Illformed(nline))
    } else if toks.len() < 2 {
        Err(DFAReadFailure::Incomplete(nline))
    } else if !parses_to_usize(toks[1]) {
        Err(DFAReadFailure::Parse(nline))
    } else if toks.len() < 3 {
        Err(DFAReadFailure::Incomplete(nline))
    } else if !parses_to_usize(toks[2]) {
        Err(DFAReadFailure::Parse(nline))
    } else if toks.len() > 3 {
        Err(DFAReadFailure::Illformed(nline))
    } else {
        match spec_add_transition(
            b,
            toks[0][0],
            usize_of_dec(toks[1]) as usize,
            usize_of_dec(toks[2]) as usize,
        ) {
            Ok(b2) => Ok(b2),
            Err(e) => Err(DFAReadFailure::Dfa(e, nline)),
        }
    }
}

/// Reading every transition line in order; the first failing line stops the
/// reading.
pub open spec fn spec_read_transitions(
    b: DFABuilderView,
    rest: Seq<(int, Seq<char>)>,
) -> Result<DFABuilderView, DFAReadFailure>
    decreases rest.len(),
{
    if rest.len() == 0 {
        Ok(b)
    } else {
        match spec_read_transition(b, rest[0].0, rest[0].1) {
            Ok(b2) => spec_read_transitions(b2, rest.drop_first()),
            Err(e) => Err(e),
        }
    }
}

/// Reading a DFA from its meaningful lines: the first is the start state,
/// the second lists the final states, the rest are transitions.
pub open spec fn spec_read_dfa_clean(cls: Seq<(int, Seq<char>)>) -> Result<
    DFAView,
    DFAReadFailure,
> {
    if cls.len() == 0 {
        Err(DFAReadFailure::MissingStart)
    } else if !parses_to_usize(cls[0].1) {
        Err(DFAReadFailure::Parse(cls[0].0))
    } else {
        let b1 = spec_add_start(empty_dfa_builder(), usize_of_dec(cls[0].1) as usize);
        if cls.len() == 1 {
            Err(DFAReadFailure::MissingFinals)
        } else {
            match spec_add_finals(b1, tokens(cls[1].1), cls[1].0) {
                Err(e) => Err(e),
                Ok(b2) => match spec_read_transitions(b2, cls.skip(2)) {
                    Err(e) => Err(e),
                    Ok(b3) => match spec_finalize(b3) {
                        Ok(a) => Ok(a),
                        Err(e) => Err(DFAReadFailure::Dfa(e, 0)),
                    },
                },
            }
        }
    }
}

/// Reading a DFA from a whole text.
pub open spec fn spec_read_dfa(s: Seq<char>) -> Result<DFAView, DFAReadFailure> {
    spec_read_dfa_clean(clean_lines(s))
}

/// Whether the outcome `r` is the one `spec_r` describes: the same automaton
/// on success, a matching error on failure.
pub open spec fn matches_read_dfa(
    r: Result<DFA, DFAReaderError>,
    spec_r: Result<DFAView, DFAReadFailure>,
) -> bool {
    match r {
        Ok(d) => spec_r is Ok && d@ == spec_r->Ok_0,
        Err(e) => spec_r is Err && dfa_err_matches(e, spec_r->Err_0),
    }
}

/// Struct `DFAReader` is an empty structure that builds a `DFA` from the
/// text format.
pub struct DFAReader;

impl DFAReader {
    fn parse_dfa_error(contents: &Vec<char>, line: usize) -> (r: Result<usize, DFAReaderError>)
        ensures
            r is Ok <==> parses_to_usize(contents@),
            r is Ok ==> r->Ok_0 as int == usize_of_dec(contents@),
            r matches Err(e) ==> dfa_err_matches(e, DFAReadFailure::Parse(line as int)),
    {
        match parse_usize(contents) {
            Ok(v) => Ok(v),
            Err(e) => Err(DFAReaderError::Parse(e, line)),
        }
    }

    fn read_start(dfa: DFABuilder, nline: usize, content: &Vec<char>) -> (r: Result<
        DFABuilder,
        DFAReaderError,
    >)
        ensures
            match r {
                Ok(b2) => parses_to_usize(content@) && b2@ == spec_add_start(
                    dfa@,
                    usize_of_dec(content@) as usize,
                ),
                Err(e) => !parses_to_usize(content@) && dfa_err_matches(
                    e,
                    DFAReadFailure::Parse(nline as int),
                ),
            },
    {
        let start = match Self::parse_dfa_error(content, nline) {
            Ok(v) => v,
            Err(e) => {
                return Err(e);
            },
        };
        match dfa.add_start(start) {
            Ok(b) => Ok(b),
            Err(e) => Err(DFAReaderError::DFA(e, nline)),
        }
    }

    fn read_finals(dfa: DFABuilder, nline: usize, content: &Vec<char>) -> (r: Result<
        DFABuilder,
        DFAReaderError,
    >)
        ensures
            match r {
                Ok(b2) => spec_add_finals(dfa@, tokens(content@), nline as int)
                    == Ok::<DFABuilderView, DFAReadFailure>(b2@),
                Err(e) => spec_add_finals(dfa@, tokens(content@), nline as int) matches Err(k)
                    && dfa_err_matches(e, k),
            },
    {
        let toks = tokens_exec(content);
        let ghost toks_dv = toks.deep_view();
        let mut b = dfa;
        let m = toks.len();
        proof {
            assert(toks_dv.skip(0) =~~= toks_dv);
        }
        for i in 0..m
            invariant
                m == toks.len(),
                toks_dv == toks.deep_view(),
                toks_dv == tokens(content@),
                toks_dv.len() == m,
                spec_add_finals(dfa@, toks_dv, nline as int) == spec_add_finals(
                    b@,
                    toks_dv.skip(i as int),
                    nline as int,
                ),
        {
            proof {
                assert(toks_dv.skip(i as int)[0] == toks_dv[i as int]);
                assert(toks_dv[i as int] == toks@[i as int]@);
                assert(toks_dv.skip(i as int).drop_first() =~~= toks_dv.skip(i + 1));
            }
            let v = match Self::parse_dfa_error(&toks[i], nline) {
                Ok(v) => v,
                Err(e) => {
                    proof {
                        assert(spec_add_finals(b@, toks_dv.skip(i as int), nline as int)
                            == Err::<DFABuilderView, DFAReadFailure>(
                            DFAReadFailure::Parse(nline as int),
                        ));
                    }
                    return Err(e);
                },
            };
            b = match b.add_final(v) {
                Ok(b2) => b2,
                Err(e) => {
                    return Err(DFAReaderError::DFA(e, nline));
                },
            };
        }
        proof {
            assert(toks_dv.skip(m as int) =~~= Seq::<Seq<char>>::empty());
        }
        Ok(b)
    }

    fn read_transition(dfa: DFABuilder, nline: usize, content: &Vec<char>) -> (r: Result<
        DFABuilder,
        DFAReaderError,
    >)
        ensures
            match r {
                Ok(b2) => spec_read_transition(dfa@, nline as int, content@)
                    == Ok::<DFABuilderView, DFAReadFailure>(b2@),
                Err(e) => spec_read_transition(dfa@, nline as int, content@) matches Err(k)
                    && dfa_err_matches(e, k),
            },
    {
        let toks = tokens_exec(content);
        proof {
            assert(forall|i: int|
                0 <= i < toks@.len() ==> toks.deep_view()[i] == #[trigger] toks@[i]@);
        }
        if toks.len() == 0 {
            return Ok(dfa);
        }
        if toks[0].len() != 1 {
            return Err(DFAReaderError::IllformedTransition(nline));
        }
        let symb = toks[0][0];
        if toks.len() < 2 {
            return Err(DFAReaderError::IncompleteTransition(nline));
        }
        let src = match Self::parse_dfa_error(&toks[1], nline) {
            Ok(v) => v,
            Err(e) => {
                return Err(e);
            },
        };
        if toks.len() < 3 {
            return Err(DFAReaderError::IncompleteTransition(nline));
        }
        let dest = match Self::parse_dfa_error(&toks[2], nline) {
            Ok(v) => v,
            Err(e) => {
                return Err(e);
            },
        };
        if toks.len() > 3 {
            return Err(DFAReaderError::IllformedTransition(nline));
        }
        match dfa.add_transition(symb, src, dest) {
            Ok(b) => Ok(b),
            Err(e) => Err(DFAReaderError::DFA(e, nline)),
        }
    }

    fn new_from_lines(lines: &Vec<(usize, Vec<char>)>) -> (r: Result<DFA, DFAReaderError>)
        ensures
            matches_read_dfa(r, spec_read_dfa_clean(numbered_view(lines@))),
    {
        let ghost cls = numbered_view(lines@);
        proof {
            assert(forall|i: int|
                0 <= i < lines@.len() ==> #[trigger] cls[i] == (
                    lines@[i].0 as int,
                    lines@[i].1@,
                ));
        }
        let mut dfa = match DFABuilder::new() {
            Ok(b) => b,
            Err(e) => {
                return Err(DFAReaderError::DFA(e, 0));
            },
        };
        proof {
            assert(dfa@ == empty_dfa_builder());
        }
        if lines.len() == 0 {
            return Err(DFAReaderError::MissingStartingState);
        }
        proof {
            assert(cls[0] == (lines@[0].0 as int, lines@[0].1@));
        }
        dfa = match Self::read_start(dfa, lines[0].0, &lines[0].1) {
            Ok(b) => b,
            Err(e) => {
                proof {
                    assert(spec_read_dfa_clean(cls) == Err::<DFAView, DFAReadFailure>(
                        DFAReadFailure::Parse(cls[0].0),
                    ));
                }
                return Err(e);
            },
        };
        let ghost b1 = dfa@;
        proof {
            assert(parses_to_usize(cls[0].1));
            assert(b1 == spec_add_start(empty_dfa_builder(), usize_of_dec(cls[0].1) as usize));
        }
        if lines.len() == 1 {
            return Err(DFAReaderError::MissingFinalStates);
        }
        proof {
            assert(cls[1] == (lines@[1].0 as int, lines@[1].1@));
        }
        dfa = match Self::read_finals(dfa, lines[1].0, &lines[1].1) {
            Ok(b) => b,
            Err(e) => {
                proof {
                    assert(spec_add_finals(b1, tokens(cls[1].1), cls[1].0) matches Err(k)
                        && dfa_err_matches(e, k));
                }
                return Err(e);
            },
        };
        let ghost b2 = dfa@;
        proof {
            assert(spec_add_finals(b1, tokens(cls[1].1), cls[1].0) == Ok::<
                DFABuilderView,
                DFAReadFailure,
            >(b2));
        }
        let n = lines.len();
        for i in 2..n
            invariant
                n == lines.len(),
                cls == numbered_view(lines@),
                cls.len() == n,
                spec_read_transitions(b2, cls.skip(2)) == spec_read_transitions(
                    dfa@,
                    cls.skip(i as int),
                ),
                spec_read_dfa_clean(cls) == (match spec_read_transitions(b2, cls.skip(2)) {
                    Err(k) => Err(k),
                    Ok(b3) => match spec_finalize(b3) {
                        Ok(a) => Ok(a),
                        Err(e) => Err(DFAReadFailure::Dfa(e, 0)),
                    },
                }),
        {
            proof {
                assert(cls.skip(i as int)[0] == cls[i as int]);
                assert(cls[i as int] == (lines@[i as int].0 as int, lines@[i as int].1@));
                assert(cls.skip(i as int).drop_first() =~= cls.skip(i + 1));
            }
            let ghost bi = dfa@;
            dfa = match Self::read_transition(dfa, lines[i].0, &lines[i].1) {
                Ok(b) => b,
                Err(e) => {
                    proof {
                        assert(spec_read_transition(bi, cls[i as int].0, cls[i as int].1) matches Err(
                            k,
                        ) && dfa_err_matches(e, k));
                        assert(spec_read_transitions(bi, cls.skip(i as int)) matches Err(k)
                            && dfa_err_matches(e, k));
                    }
                    return Err(e);
                },
            };
        }
        proof {
            assert(cls.skip(n as int) =~= Seq::<(int, Seq<char>)>::empty());
        }
        match dfa.finalize() {
            Ok(a) => Ok(a),
            Err(e) => Err(DFAReaderError::DFA(e, 0)),
        }
    }

    /// Reads a DFA from the text format: first non-blank line the start
    /// state, second the final states, each further line a transition
    /// `<symbol> <source> <destination>`.
    pub fn new_from_string(dfa: &str) -> (r: Result<DFA, DFAReaderError>)
        ensures
            matches_read_dfa(r, spec_read_dfa(dfa@)),
    {
        let cs = chars_of(dfa);
        let cls = clean_lines_exec(&cs);
        Self::new_from_lines(&cls)
    }
}

} // verus!

//! Reading an ENFA from its line-oriented text description: first non-blank
//! line the start state, second the final states, every further line either
//! a `<symbol> <source> <destination>` transition (three tokens) or an
//! epsilon transition `<source> <destination>` (two tokens). A `#` starts a
//! comment and blank lines are skipped; errors name the 1-based source line.

use vstd::prelude::*;

use crate::e_nfa::machine::{
    empty_enfa_builder, spec_add_e_transition, spec_add_final, spec_add_start,
    spec_add_transition, spec_finalize, ENFA, ENFABuilder, ENFABuilderView, ENFABuilding,
    ENFAError, ENFAView,
};
use crate::text::{
    chars_of, clean_lines, clean_lines_exec, numbered_view, parse_usize, parses_to_usize, tokens,
    tokens_exec, usize_of_dec,
};

verus! {

/// The errors that can occur while reading an ENFA description.
#[derive(Debug)]
pub enum ENFAReaderError {
    /// The text holds no non-blank line to read the starting state from.
    MissingStartingState,
    /// The text holds no non-blank line to read the final states from.
    MissingFinalStates,
    /// The transition on the given line misses its source or destination.
    IncompleteTransition(usize),
    /// The transition on the given line has a number of elements that fits
    /// neither transition form, or a symbol of more than one character.
    IllformedTransition(usize),
    /// An error of the building process, with the line that triggered it.
    ENFA(ENFAError, usize),
    /// An error of the input channel the description came from.
    Io(std::io::Error),
    /// An integer failed to parse, on the given line.
    Parse(std::num::ParseIntError, usize),
}

/// The failure cases of reading an ENFA description, with the payloads the
/// contracts speak about: parse failures are identified by their line alone.
pub ghost enum ENFAReadFailure {
    MissingStart,
    MissingFinals,
    Incomplete(int),
    Illformed(int),
    Enfa(ENFAError, int),
    Parse(int),
}

/// Whether the reader error `e` reports the failure `k`.
pub open spec fn enfa_err_matches(e: ENFAReaderError, k: ENFAReadFailure) -> bool {
    match (e, k) {
        (ENFAReaderError::MissingStartingState, ENFAReadFailure::MissingStart) => true,
        (ENFAReaderError::MissingFinalStates, ENFAReadFailure::MissingFinals) => true,
        (ENFAReaderError::IncompleteTransition(l), ENFAReadFailure::Incomplete(n)) => l as int == n,
        (ENFAReaderError::IllformedTransition(l), ENFAReadFailure::Illformed(n)) => l as int == n,
        (ENFAReaderError::ENFA(e1, l), ENFAReadFailure::Enfa(e2, n)) => e1 == e2 && l as int == n,
        (ENFAReaderError::Parse(_, l), ENFAReadFailure::Parse(n)) => l as int == n,
        _ => false,
    }
}

/// Adding each token of a finals line in order; the first token that is not
/// a state identifier stops the reading.
pub open spec fn spec_add_finals(
    b: ENFABuilderView,
    toks: Seq<Seq<char>>,
    line: int,
) -> Result<ENFABuilderView, ENFAReadFailure>
    decreases toks.len(),
{
    if toks.len() == 0 {
        Ok(b)
    } else if !parses_to_usize(toks[0]) {
        Err(ENFAReadFailure::Parse(line))
    } else {
        spec_add_finals(
            spec_add_final(b, usize_of_dec(toks[0]) as usize),
            toks.drop_first(),
            line,
        )
    }
}

/// Reading a three-token transition line: a one-character symbol, a source
/// state, and a destination state, checked in that order. Registering the
/// edge itself never fails.
pub open spec fn spec_read_complete_transition(
    b: ENFABuilderView,
    nline: int,
    toks: Seq<Seq<char>>,
) -> Result<ENFABuilderView, ENFAReadFailure> {
    if toks[0].len() != 1 {
        Err(ENFAReadFailure::Illformed(nline))
    } else if !parses_to_usize(toks[1]) {
        Err(ENFAReadFailure::Parse(nline))
    } else if !parses_to_usize(toks[2]) {
        Err(ENFAReadFailure::Parse(nline))
    } else {
        Ok(
            spec_add_transition(
                b,
                toks[0][0],
                usize_of_dec(toks[1]) as usize,
                usize_of_dec(toks[2]) as usize,
            ),
        )
    }
}

/// Reading a two-token epsilon-transition line: a source state and a
/// destination state. Registering the edge itself never fails.
pub open spec fn spec_read_e_transition(
    b: ENFABuilderView,
    nline: int,
    toks: Seq<Seq<char>>,
) -> Result<ENFABuilderView, ENFAReadFailure> {
    if !parses_to_usize(toks[0]) {
        Err(ENFAReadFailure::Parse(nline))
    } else if !parses_to_usize(toks[1]) {
        Err(ENFAReadFailure::Parse(nline))
    } else {
        Ok(
            spec_add_e_transition(
                b,
                usize_of_dec(toks[0]) as usize,
                usize_of_dec(toks[1]) as usize,
            ),
        )
    }
}

/// Reading one transition line, told apart purely by token count: three
/// tokens are a symbol transition, two an epsilon transition, any other
/// count is ill-formed.
pub open spec fn spec_read_transition(
    b: ENFABuilderView,
    nline: int,
    content: Seq<char>,
) -> Result<ENFABuilderView, ENFAReadFailure> {
    let toks = tokens(content);
    if toks.len() == 0 {
        Ok(b)
    } else if toks.len() == 3 {
        spec_read_complete_transition(b, nline, toks)
    } else if toks.len() == 2 {
        spec_read_e_transition(b, nline, toks)
    } else {
        Err(ENFAReadFailure::Illformed(nline))
    }
}

/// Reading every transition line in order; the first failing line stops the
/// reading.
pub open spec fn spec_read_transitions(
    b: ENFABuilderView,
    rest: Seq<(int, Seq<char>)>,
) -> Result<ENFABuilderView, ENFAReadFailure>
    decreases rest.len(),
{
    if rest.len() == 0 {
        Ok(b)
    } else {
        match spec_read_transition(b, rest[0].0, rest[0].1) {
            Ok(b2) => spec_read_transitions(b2, rest.drop_first()),
            Err(e) => Err(e),
        }
    }
}

/// Reading an ENFA from its meaningful lines: the first is the start state,
/// the second lists the final states, the rest are transitions.
pub open spec fn spec_read_enfa_clean(cls: Seq<(int, Seq<char>)>) -> Result<
    ENFAView,
    ENFAReadFailure,
> {
    if cls.len() == 0 {
        Err(ENFAReadFailure::MissingStart)
    } else if !parses_to_usize(cls[0].1) {
        Err(ENFAReadFailure::Parse(cls[0].0))
    } else {
        let b1 = spec_add_start(empty_enfa_builder(), usize_of_dec(cls[0].1) as usize);
        if cls.len() == 1 {
            Err(ENFAReadFailure::MissingFinals)
        } else {
            match spec_add_finals(b1, tokens(cls[1].1), cls[1].0) {
                Err(e) => Err(e),
                Ok(b2) => match spec_read_transitions(b2, cls.skip(2)) {
                    Err(e) => Err(e),
                    Ok(b3) => match spec_finalize(b3) {
                        Ok(a) => Ok(a),
                        Err(e) => Err(ENFAReadFailure::Enfa(e, 0)),
                    },
                },
            }
        }
    }
}

/// Reading an ENFA from a whole text.
pub open spec fn spec_read_enfa(s: Seq<char>) -> Result<ENFAView, ENFAReadFailure> {
    spec_read_enfa_clean(clean_lines(s))
}

/// Whether the outcome `r` is the one `spec_r` describes: the same automaton
/// on success, a matching error on failure.
pub open spec fn matches_read_enfa(
    r: Result<ENFA, ENFAReaderError>,
    spec_r: Result<ENFAView, ENFAReadFailure>,
) -> bool {
    match r {
        Ok(d) => spec_r is Ok && d@ == spec_r->Ok_0,
        Err(e) => spec_r is Err && enfa_err_matches(e, spec_r->Err_0),
    }
}

/// Struct `ENFAReader` is an empty structure that builds an `ENFA` from the
/// text format.
pub struct ENFAReader;

impl ENFAReader {
    fn parse_nfa_error(contents: &Vec<char>, line: usize) -> (r: Result<usize, ENFAReaderError>)
        ensures
            r is Ok <==> parses_to_usize(contents@),
            r is Ok ==> r->Ok_0 as int == usize_of_dec(contents@),
            r matches Err(e) ==> enfa_err_matches(e, ENFAReadFailure::Parse(line as int)),
    {
        match parse_usize(contents) {
            Ok(v) => Ok(v),
            Err(e) => Err(ENFAReaderError::Parse(e, line)),
        }
    }

    fn read_start(nfa: ENFABuilder, nline: usize, content: &Vec<char>) -> (r: Result<
        ENFABuilder,
        ENFAReaderError,
    >)
        ensures
            match r {
                Ok(b2) => parses_to_usize(content@) && b2@ == spec_add_start(
                    nfa@,
                    usize_of_dec(content@) as usize,
                ),
                Err(e) => !parses_to_usize(content@) && enfa_err_matches(
                    e,
                    ENFAReadFailure::Parse(nline as int),
                ),
            },
    {
        let start = match Self::parse_nfa_error(content, nline) {
            Ok(v) => v,
            Err(e) => {
                return Err(e);
            },
        };
        match nfa.add_start(start) {
            Ok(b) => Ok(b),
            Err(e) => Err(ENFAReaderError::ENFA(e, nline)),
        }
    }

    fn read_finals(nfa: ENFABuilder, nline: usize, content: &Vec<char>) -> (r: Result<
        ENFABuilder,
        ENFAReaderError,
    >)
        ensures
            match r {
                Ok(b2) => spec_add_finals(nfa@, tokens(content@), nline as int)
                    == Ok::<ENFABuilderView, ENFAReadFailure>(b2@),
                Err(e) => spec_add_finals(nfa@, tokens(content@), nline as int) matches Err(k)
                    && enfa_err_matches(e, k),
            },
    {
        let toks = tokens_exec(content);
        let ghost toks_dv = toks.deep_view();
        let mut b = nfa;
        let m = toks.len();
        proof {
            assert(toks_dv.skip(0) =~~= toks_dv);
        }
        for i in 0..m
            invariant
                m == toks.len(),
                toks_dv == toks.deep_view(),
                toks_dv == tokens(content@),
                toks_dv.len() == m,
                spec_add_finals(nfa@, toks_dv, nline as int) == spec_add_finals(
                    b@,
                    toks_dv.skip(i as int),
                    nline as int,
                ),
        {
            proof {
                assert(toks_dv.skip(i as int)[0] == toks_dv[i as int]);
                assert(toks_dv[i as int] == toks@[i as int]@);
                assert(toks_dv.skip(i as int).drop_first() =~~= toks_dv.skip(i + 1));
            }
            let v = match Self::parse_nfa_error(&toks[i], nline) {
                Ok(v) => v,
                Err(e) => {
                    proof {
                        assert(spec_add_finals(b@, toks_dv.skip(i as int), nline as int)
                            == Err::<ENFABuilderView, ENFAReadFailure>(
                            ENFAReadFailure::Parse(nline as int),
                        ));
                    }
                    return Err(e);
                },
            };
            b = match b.add_final(v) {
                Ok(b2) => b2,
                Err(e) => {
                    return Err(ENFAReaderError::ENFA(e, nline));
                },
            };
        }
        proof {
            assert(toks_dv.skip(m as int) =~~= Seq::<Seq<char>>::empty());
        }
        Ok(b)
    }

    fn read_complete_transition(nfa: ENFABuilder, nline: usize, toks: &Vec<Vec<char>>) -> (r:
        Result<ENFABuilder, ENFAReaderError>)
        requires
            toks@.len() == 3,
        ensures
            match r {
                Ok(b2) => spec_read_complete_transition(nfa@, nline as int, toks.deep_view())
                    == Ok::<ENFABuilderView, ENFAReadFailure>(b2@),
                Err(e) => spec_read_complete_transition(nfa@, nline as int, toks.deep_view()) matches Err(
                    k,
                ) && enfa_err_matches(e, k),
            },
    {
        proof {
            assert(forall|i: int|
                0 <= i < toks@.len() ==> toks.deep_view()[i] == #[trigger] toks@[i]@);
        }
        if toks[0].len() != 1 {
            return Err(ENFAReaderError::IllformedTransition(nline));
        }
        let symb = toks[0][0];
        let src = match Self::parse_nfa_error(&toks[1], nline) {
            Ok(v) => v,
            Err(e) => {
                return Err(e);
            },
        };
        let dest = match Self::parse_nfa_error(&toks[2], nline) {
            Ok(v) => v,
            Err(e) => {
                return Err(e);
            },
        };
        match nfa.add_transition(symb, src, dest) {
            Ok(b) => Ok(b),
            Err(e) => Err(ENFAReaderError::ENFA(e, nline)),
        }
    }

    fn read_e_transition(nfa: ENFABuilder, nline: usize, toks: &Vec<Vec<char>>) -> (r: Result<
        ENFABuilder,
        ENFAReaderError,
    >)
        requires
            toks@.len() == 2,
        ensures
            match r {
                Ok(b2) => spec_read_e_transition(nfa@, nline as int, toks.deep_view())
                    == Ok::<ENFABuilderView, ENFAReadFailure>(b2@),
                Err(e) => spec_read_e_transition(nfa@, nline as int, toks.deep_view()) matches Err(
                    k,
                ) && enfa_err_matches(e, k),
            },
    {
        proof {
            assert(forall|i: int|
                0 <= i < toks@.len() ==> toks.deep_view()[i] == #[trigger] toks@[i]@);
        }
        let src = match Self::parse_nfa_error(&toks[0], nline) {
            Ok(v) => v,
            Err(e) => {
                return Err(e);
            },
        };
        let dest = match Self::parse_nfa_error(&toks[1], nline) {
            Ok(v) => v,
            Err(e) => {
                return Err(e);
            },
        };
        match nfa.add_e_transition(src, dest) {
            Ok(b) => Ok(b),
            Err(e) => Err(ENFAReaderError::ENFA(e, nline)),
        }
    }

    fn read_transition(nfa: ENFABuilder, nline: usize, content: &Vec<char>) -> (r: Result<
        ENFABuilder,
        ENFAReaderError,
    >)
        ensures
            match r {
                Ok(b2) => spec_read_transition(nfa@, nline as int, content@)
                    == Ok::<ENFABuilderView, ENFAReadFailure>(b2@),
                Err(e) => spec_read_transition(nfa@, nline as int, content@) matches Err(k)
                    && enfa_err_matches(e, k),
            },
    {
        let toks = tokens_exec(content);
        if toks.len() == 0 {
            return Ok(nfa);
        }
        if toks.len() == 3 {
            Self::read_complete_transition(nfa, nline, &toks)
        } else if toks.len() == 2 {
            Self::read_e_transition(nfa, nline, &toks)
        } else {
            Err(ENFAReaderError::IllformedTransition(nline))
        }
    }

    fn new_from_lines(lines: &Vec<(usize, Vec<char>)>) -> (r: Result<ENFA, ENFAReaderError>)
        ensures
            matches_read_enfa(r, spec_read_enfa_clean(numbered_view(lines@))),
    {
        let ghost cls = numbered_view(lines@);
        proof {
            assert(forall|i: int|
                0 <= i < lines@.len() ==> #[trigger] cls[i] == (
                    lines@[i].0 as int,
                    lines@[i].1@,
                ));
        }
        let mut nfa = match ENFABuilder::new() {
            Ok(b) => b,
            Err(e) => {
                return Err(ENFAReaderError::ENFA(e, 0));
            },
        };
        proof {
            assert(nfa@ == empty_enfa_builder());
        }
        if lines.len() == 0 {
            return Err(ENFAReaderError::MissingStartingState);
        }
        proof {
            assert(cls[0] == (lines@[0].0 as int, lines@[0].1@));
        }
        nfa = match Self::read_start(nfa, lines[0].0, &lines[0].1) {
            Ok(b) => b,
            Err(e) => {
                proof {
                    assert(spec_read_enfa_clean(cls) == Err::<ENFAView, ENFAReadFailure>(
                        ENFAReadFailure::Parse(cls[0].0),
                    ));
                }
                return Err(e);
            },
        };
        let ghost b1 = nfa@;
        proof {
            assert(parses_to_usize(cls[0].1));
            assert(b1 == spec_add_start(empty_enfa_builder(), usize_of_dec(cls[0].1) as usize));
        }
        if lines.len() == 1 {
            return Err(ENFAReaderError::MissingFinalStates);
        }
        proof {
            assert(cls[1] == (lines@[1].0 as int, lines@[1].1@));
        }
        nfa = match Self::read_finals(nfa, lines[1].0, &lines[1].1) {
            Ok(b) => b,
            Err(e) => {
                proof {
                    assert(spec_add_finals(b1, tokens(cls[1].1), cls[1].0) matches Err(k)
                        && enfa_err_matches(e, k));
                }
                return Err(e);
            },
        };
        let ghost b2 = nfa@;
        proof {
            assert(spec_add_finals(b1, tokens(cls[1].1), cls[1].0) == Ok::<
                ENFABuilderView,
                ENFAReadFailure,
            >(b2));
        }
        let n = lines.len();
        for i in 2..n
            invariant
                n == lines.len(),
                cls == numbered_view(lines@),
                cls.len() == n,
                spec_read_transitions(b2, cls.skip(2)) == spec_read_transitions(
                    nfa@,
                    cls.skip(i as int),
                ),
                spec_read_enfa_clean(cls) == (match spec_read_transitions(b2, cls.skip(2)) {
                    Err(k) => Err(k),
                    Ok(b3) => match spec_finalize(b3) {
                        Ok(a) => Ok(a),
                        Err(e) => Err(ENFAReadFailure::Enfa(e, 0)),
                    },
                }),
        {
            proof {
                assert(cls.skip(i as int)[0] == cls[i as int]);
                assert(cls[i as int] == (lines@[i as int].0 as int, lines@[i as int].1@));
                assert(cls.skip(i as int).drop_first() =~= cls.skip(i + 1));
            }
            let ghost bi = nfa@;
            nfa = match Self::read_transition(nfa, lines[i].0, &lines[i].1) {
                Ok(b) => b,
                Err(e) => {
                    proof {
                        assert(spec_read_transition(bi, cls[i as int].0, cls[i as int].1) matches Err(
                            k,
                        ) && enfa_err_matches(e, k));
                        assert(spec_read_transitions(bi, cls.skip(i as int)) matches Err(k)
                            && enfa_err_matches(e, k));
                    }
                    return Err(e);
                },
            };
        }
        proof {
            assert(cls.skip(n as int) =~= Seq::<(int, Seq<char>)>::empty());
        }
        match nfa.finalize() {
            Ok(a) => Ok(a),
            Err(e) => Err(ENFAReaderError::ENFA(e, 0)),
        }
    }

    /// Reads an ENFA from the text format: first non-blank line the start
    /// state, second the final states, each further line a transition
    /// `<symbol> <source> <destination>` or an epsilon transition
    /// `<source> <destination>`.
    pub fn new_from_string(nfa: &str) -> (r: Result<ENFA, ENFAReaderError>)
        ensures
            matches_read_enfa(r, spec_read_enfa(nfa@)),
    {
        let cs = chars_of(nfa);
        let cls = clean_lines_exec(&cs);
        Self::new_from_lines(&cls)
    }
}

} // verus!

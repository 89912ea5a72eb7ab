//! The line-oriented text format shared by the three readers: splitting a
//! text into lines, stripping comments, trimming, whitespace tokenization,
//! and decimal parsing of state identifiers.

use vstd::prelude::*;
use vstd::string::StrSliceExecFns;

verus! {

/// The characters of a string slice as a vector.
pub fn chars_of(s: &str) -> (r: Vec<char>)
    ensures
        r@ == s@,
{
    let n = s.unicode_len();
    let mut r: Vec<char> = Vec::new();
    for i in 0..n
        invariant
            n == s@.len(),
            r@ == s@.take(i as int),
    {
        r.push(s.get_char(i));
        proof {
            assert(r@ =~= s@.take(i + 1));
        }
    }
    proof {
        assert(s@.take(n as int) =~= s@);
    }
    r
}

/// Whether `c` is a whitespace character of the text format: the ASCII
/// blank, tab, line and page separators.
pub open spec fn is_space(c: char) -> bool {
    c == ' ' || c == '\t' || c == '\n' || c == '\r' || c == '\u{b}' || c == '\u{c}'
}

fn is_space_exec(c: char) -> (r: bool)
    ensures
        r == is_space(c),
{
    c == ' ' || c == '\t' || c == '\n' || c == '\r' || c == '\u{b}' || c == '\u{c}'
}

/// Recognizes a line break.
pub open spec fn nl_pred() -> spec_fn(char) -> bool {
    |c: char| c == '\n'
}

/// Recognizes the start of a comment.
pub open spec fn hash_pred() -> spec_fn(char) -> bool {
    |c: char| c == '#'
}

/// Recognizes a whitespace character.
pub open spec fn space_pred() -> spec_fn(char) -> bool {
    |c: char| is_space(c)
}

/// Recognizes a non-whitespace character.
pub open spec fn non_space_pred() -> spec_fn(char) -> bool {
    |c: char| !is_space(c)
}

/// The index of the first character of `s` satisfying `p`, or `s.len()` if
/// none does.
pub open spec fn first_where(s: Seq<char>, p: spec_fn(char) -> bool) -> int
    decreases s.len(),
{
    if s.len() == 0 {
        0
    } else if p(s[0]) {
        0
    } else {
        1 + first_where(s.drop_first(), p)
    }
}

pub proof fn lemma_first_where_bounds(s: Seq<char>, p: spec_fn(char) -> bool)
    ensures
        0 <= first_where(s, p) <= s.len(),
        forall|k: int| 0 <= k < first_where(s, p) ==> !p(#[trigger] s[k]),
        first_where(s, p) < s.len() ==> p(s[first_where(s, p)]),
    decreases s.len(),
{
    if s.len() == 0 {
    } else if p(s[0]) {
    } else {
        lemma_first_where_bounds(s.drop_first(), p);
        assert forall|k: int| 0 <= k < first_where(s, p) implies !p(#[trigger] s[k]) by {
            if k > 0 {
                assert(s.drop_first()[k - 1] == s[k]);
            }
        }
        if first_where(s, p) < s.len() {
            assert(s.drop_first()[first_where(s.drop_first(), p)] == s[first_where(s, p)]);
        }
    }
}

pub proof fn lemma_first_where_at(s: Seq<char>, p: spec_fn(char) -> bool, j: int)
    requires
        0 <= j <= s.len(),
        forall|k: int| 0 <= k < j ==> !p(#[trigger] s[k]),
        j == s.len() || p(s[j]),
    ensures
        first_where(s, p) == j,
    decreases s.len(),
{
    if s.len() == 0 {
    } else if p(s[0]) {
        assert(j == 0);
    } else {
        assert(j > 0);
        assert forall|k: int| 0 <= k < j - 1 implies !p(#[trigger] s.drop_first()[k]) by {
            assert(s.drop_first()[k] == s[k + 1]);
        }
        if j < s.len() {
            assert(s.drop_first()[j - 1] == s[j]);
        }
        lemma_first_where_at(s.drop_first(), p, j - 1);
    }
}

/// The lines of a text: maximal segments not containing a line feed, the
/// line feeds themselves consumed. An empty text has no lines, and a final
/// line feed opens no further line.
pub open spec fn split_lines(s: Seq<char>) -> Seq<Seq<char>>
    decreases s.len(),
    via split_lines_decreases
{
    if s.len() == 0 {
        Seq::empty()
    } else {
        let k = first_where(s, nl_pred());
        if k == s.len() {
            seq![s]
        } else {
            seq![s.take(k)] + split_lines(s.skip(k + 1))
        }
    }
}

#[via_fn]
proof fn split_lines_decreases(s: Seq<char>) {
    lemma_first_where_bounds(s, nl_pred());
}

/// The line with any comment removed: its prefix up to the first '#'.
pub open spec fn strip_comment(l: Seq<char>) -> Seq<char> {
    l.take(first_where(l, hash_pred()))
}

/// The length of `l` once trailing whitespace is dropped.
pub open spec fn trim_end_len(l: Seq<char>) -> int
    decreases l.len(),
{
    if l.len() == 0 {
        0
    } else if is_space(l.last()) {
        trim_end_len(l.drop_last())
    } else {
        l.len() as int
    }
}

pub proof fn lemma_trim_end_len_at(l: Seq<char>, j: int)
    requires
        0 <= j <= l.len(),
        forall|k: int| j <= k < l.len() ==> is_space(#[trigger] l[k]),
        j > 0 ==> !is_space(l[j - 1]),
    ensures
        trim_end_len(l) == j,
    decreases l.len(),
{
    if l.len() == 0 {
    } else if is_space(l.last()) {
        assert(j < l.len());
        assert forall|k: int| j <= k < l.drop_last().len() implies is_space(
            #[trigger] l.drop_last()[k],
        ) by {
            assert(l.drop_last()[k] == l[k]);
        }
        if j > 0 {
            assert(l.drop_last()[j - 1] == l[j - 1]);
        }
        lemma_trim_end_len_at(l.drop_last(), j);
    } else {
        assert(j == l.len());
    }
}

/// The line with leading and trailing whitespace dropped.
pub open spec fn trim(l: Seq<char>) -> Seq<char> {
    let a = first_where(l, non_space_pred());
    let suffix = l.skip(a);
    suffix.take(trim_end_len(suffix))
}

/// The whitespace-separated tokens of a line, in order.
pub open spec fn tokens(l: Seq<char>) -> Seq<Seq<char>>
    decreases l.len(),
    via tokens_decreases
{
    if l.len() == 0 {
        Seq::empty()
    } else if is_space(l[0]) {
        tokens(l.drop_first())
    } else {
        let k = first_where(l, space_pred());
        seq![l.take(k)] + tokens(l.skip(k))
    }
}

#[via_fn]
proof fn tokens_decreases(l: Seq<char>) {
    if l.len() > 0 && !is_space(l[0]) {
        lemma_first_where_bounds(l, space_pred());
        assert(space_pred()(l[0]) == is_space(l[0]));
        assert(first_where(l, space_pred()) != 0);
    }
}

/// The non-blank lines of `lines`, numbered from `base` upward, each with
/// its comment stripped and its whitespace trimmed.
pub open spec fn clean_of(lines: Seq<Seq<char>>, base: int) -> Seq<(int, Seq<char>)>
    decreases lines.len(),
{
    if lines.len() == 0 {
        Seq::empty()
    } else {
        let t = trim(strip_comment(lines[0]));
        let rest = clean_of(lines.drop_first(), base + 1);
        if t.len() == 0 {
            rest
        } else {
            seq![(base, t)] + rest
        }
    }
}

/// The meaningful lines of a text: 1-based line number and cleaned content
/// of every line that is not blank once comments and whitespace are removed.
pub open spec fn clean_lines(s: Seq<char>) -> Seq<(int, Seq<char>)> {
    clean_of(split_lines(s), 1)
}

/// The view of an executable numbered-lines vector.
pub open spec fn numbered_view(v: Seq<(usize, Vec<char>)>) -> Seq<(int, Seq<char>)> {
    v.map_values(|p: (usize, Vec<char>)| (p.0 as int, p.1@))
}

/// Whether `c` is an ASCII decimal digit.
pub open spec fn is_digit(c: char) -> bool {
    '0' <= c && c <= '9'
}

/// The value of a decimal digit.
pub open spec fn digit_val(c: char) -> int {
    c as u32 - '0' as u32
}

/// Whether every character of `s` is a decimal digit.
pub open spec fn all_digits(s: Seq<char>) -> bool {
    forall|i: int| 0 <= i < s.len() ==> is_digit(#[trigger] s[i])
}

/// The value of a digit string read in base ten.
pub open spec fn dec_val(s: Seq<char>) -> int
    decreases s.len(),
{
    if s.len() == 0 {
        0
    } else {
        dec_val(s.drop_last()) * 10 + digit_val(s.last())
    }
}

/// The string with one leading '+' sign dropped.
pub open spec fn strip_plus(s: Seq<char>) -> Seq<char> {
    if s.len() > 0 && s[0] == '+' {
        s.drop_first()
    } else {
        s
    }
}

/// Whether `s` is a decimal rendering of a `usize` value: an optional
/// leading '+', then one or more digits, with a value that fits.
pub open spec fn parses_to_usize(s: Seq<char>) -> bool {
    let b = strip_plus(s);
    b.len() > 0 && all_digits(b) && dec_val(b) <= usize::MAX as int
}

/// The value of a decimal rendering accepted by `parses_to_usize`.
pub open spec fn usize_of_dec(s: Seq<char>) -> int {
    dec_val(strip_plus(s))
}

#[verifier::external_type_specification]
#[verifier::external_body]
pub struct ExParseIntError(std::num::ParseIntError);

/// Relies on `str::parse::<usize>`: it accepts an optional leading '+'
/// followed by one or more ASCII digits whose base-ten value fits in
/// `usize`, returns that value, and errs on every other string.
#[verifier::external_body]
pub(crate) fn parse_usize(cs: &Vec<char>) -> (r: Result<usize, std::num::ParseIntError>)
    ensures
        r is Ok <==> parses_to_usize(cs@),
        r is Ok ==> r->Ok_0 as int == usize_of_dec(cs@),
{
    let s: String = cs.iter().collect();
    s.parse::<usize>()
}

fn copy_range(cs: &Vec<char>, a: usize, b: usize) -> (r: Vec<char>)
    requires
        a <= b <= cs.len(),
    ensures
        r@ == cs@.subrange(a as int, b as int),
{
    let mut r: Vec<char> = Vec::new();
    for i in a..b
        invariant
            a <= i <= b <= cs.len(),
            r@ == cs@.subrange(a as int, i as int),
    {
        r.push(cs[i]);
        proof {
            assert(r@ =~= cs@.subrange(a as int, i + 1));
        }
    }
    r
}

/// The lines of the text held in `cs`.
pub fn split_lines_exec(cs: &Vec<char>) -> (r: Vec<Vec<char>>)
    ensures
        r.deep_view() == split_lines(cs@),
{
    let n = cs.len();
    let mut r: Vec<Vec<char>> = Vec::new();
    let mut p: usize = 0;
    proof {
        assert(cs@.skip(0) =~= cs@);
        assert(r.deep_view() + split_lines(cs@.skip(0)) =~~= split_lines(cs@));
    }
    while p < n
        invariant
            n == cs.len(),
            p <= n,
            r.deep_view() + split_lines(cs@.skip(p as int)) == split_lines(cs@),
        decreases n - p,
    {
        let ghost sub = cs@.skip(p as int);
        let mut j = p;
        while j < n && cs[j] != '\n'
            invariant
                n == cs.len(),
                p <= j <= n,
                forall|k: int| p <= k < j ==> cs@[k] != '\n',
            decreases n - j,
        {
            j = j + 1;
        }
        proof {
            assert forall|k: int| 0 <= k < j - p implies !(nl_pred()(#[trigger] sub[k])) by {
                assert(sub[k] == cs@[p + k]);
            }
            if j < n {
                assert(sub[j - p] == cs@[j as int]);
            }
            lemma_first_where_at(sub, nl_pred(), j - p);
        }
        let line = copy_range(cs, p, j);
        proof {
            assert(line@ =~= sub.take(j - p));
        }
        let ghost old_r = r.deep_view();
        r.push(line);
        proof {
            assert(r.deep_view() =~~= old_r + seq![line@]);
        }
        if j < n {
            proof {
                assert(sub.skip(j - p + 1) =~= cs@.skip(j + 1));
                assert(split_lines(sub) =~~= seq![line@] + split_lines(cs@.skip(j + 1)));
                assert(r.deep_view() + split_lines(cs@.skip(j + 1)) =~~= split_lines(cs@));
            }
            p = j + 1;
        } else {
            proof {
                assert(sub.take(j - p) =~= sub);
                assert(split_lines(sub) =~~= seq![line@]);
                assert(cs@.skip(n as int) =~= Seq::<char>::empty());
                assert(r.deep_view() + split_lines(cs@.skip(n as int)) =~~= split_lines(cs@));
            }
            p = n;
        }
    }
    proof {
        assert(cs@.skip(n as int) =~= Seq::<char>::empty());
        assert(r.deep_view() =~~= split_lines(cs@));
    }
    r
}

/// The line with its comment stripped and its whitespace trimmed.
pub fn clean_line(line: &Vec<char>) -> (r: Vec<char>)
    ensures
        r@ == trim(strip_comment(line@)),
{
    let n = line.len();
    let mut h: usize = 0;
    while h < n && line[h] != '#'
        invariant
            n == line.len(),
            h <= n,
            forall|k: int| 0 <= k < h ==> line@[k] != '#',
        decreases n - h,
    {
        h = h + 1;
    }
    proof {
        lemma_first_where_at(line@, hash_pred(), h as int);
    }
    let ghost stripped = strip_comment(line@);
    proof {
        assert(stripped =~= line@.take(h as int));
    }
    let mut a: usize = 0;
    while a < h && is_space_exec(line[a])
        invariant
            h <= n == line.len(),
            a <= h,
            forall|k: int| 0 <= k < a ==> is_space(#[trigger] line@[k]),
        decreases h - a,
    {
        a = a + 1;
    }
    proof {
        assert forall|k: int| 0 <= k < a implies !(non_space_pred()(#[trigger] stripped[k])) by {
            assert(stripped[k] == line@[k]);
        }
        if a < h {
            assert(stripped[a as int] == line@[a as int]);
        }
        lemma_first_where_at(stripped, non_space_pred(), a as int);
    }
    let ghost suffix = stripped.skip(a as int);
    let mut b: usize = h;
    while b > a && is_space_exec(line[b - 1])
        invariant
            a <= b <= h <= n == line.len(),
            forall|k: int| b <= k < h ==> is_space(#[trigger] line@[k]),
        decreases b,
    {
        b = b - 1;
    }
    proof {
        assert forall|k: int| b - a <= k < suffix.len() implies is_space(#[trigger] suffix[k]) by {
            assert(suffix[k] == line@[a + k]);
        }
        if b > a {
            assert(suffix[b - a - 1] == line@[b - 1]);
        }
        lemma_trim_end_len_at(suffix, b - a);
    }
    let r = copy_range(line, a, b);
    proof {
        assert(r@ =~= suffix.take(b - a));
    }
    r
}

/// The whitespace-separated tokens of a line.
pub fn tokens_exec(line: &Vec<char>) -> (r: Vec<Vec<char>>)
    ensures
        r.deep_view() == tokens(line@),
{
    let n = line.len();
    let mut r: Vec<Vec<char>> = Vec::new();
    let mut p: usize = 0;
    proof {
        assert(line@.skip(0) =~= line@);
        assert(r.deep_view() + tokens(line@.skip(0)) =~~= tokens(line@));
    }
    while p < n
        invariant
            n == line.len(),
            p <= n,
            r.deep_view() + tokens(line@.skip(p as int)) == tokens(line@),
        decreases n - p,
    {
        let ghost sub = line@.skip(p as int);
        if is_space_exec(line[p]) {
            proof {
                assert(sub[0] == line@[p as int]);
                assert(sub.drop_first() =~= line@.skip(p + 1));
                assert(tokens(sub) =~~= tokens(line@.skip(p + 1)));
            }
            p = p + 1;
        } else {
            let mut j = p;
            while j < n && !is_space_exec(line[j])
                invariant
                    n == line.len(),
                    p <= j <= n,
                    forall|k: int| p <= k < j ==> !is_space(#[trigger] line@[k]),
                decreases n - j,
            {
                j = j + 1;
            }
            proof {
                assert forall|k: int| 0 <= k < j - p implies !(space_pred()(#[trigger] sub[k])) by {
                    assert(sub[k] == line@[p + k]);
                }
                if j < n {
                    assert(sub[j - p] == line@[j as int]);
                }
                lemma_first_where_at(sub, space_pred(), j - p);
                assert(sub[0] == line@[p as int]);
            }
            let token = copy_range(line, p, j);
            proof {
                assert(token@ =~= sub.take(j - p));
            }
            let ghost old_r = r.deep_view();
            r.push(token);
            proof {
                assert(r.deep_view() =~~= old_r + seq![token@]);
                assert(sub.skip(j - p) =~= line@.skip(j as int));
                assert(tokens(sub) =~~= seq![token@] + tokens(line@.skip(j as int)));
                assert(r.deep_view() + tokens(line@.skip(j as int)) =~~= tokens(line@));
            }
            p = j;
        }
    }
    proof {
        assert(line@.skip(n as int) =~= Seq::<char>::empty());
        assert(r.deep_view() =~~= tokens(line@));
    }
    r
}

/// The meaningful lines of the text held in `cs`: 1-based line number and
/// cleaned content of every line that is not blank once comments and
/// whitespace are removed.
pub fn clean_lines_exec(cs: &Vec<char>) -> (r: Vec<(usize, Vec<char>)>)
    ensures
        numbered_view(r@) == clean_lines(cs@),
{
    let lines = split_lines_exec(cs);
    let ghost dv = lines.deep_view();
    let mut r: Vec<(usize, Vec<char>)> = Vec::new();
    let m = lines.len();
    proof {
        assert(dv.skip(0) =~~= dv);
        assert(numbered_view(r@) + clean_of(dv.skip(0), 1) =~= clean_of(dv, 1));
    }
    for i in 0..m
        invariant
            m == lines.len(),
            dv == lines.deep_view(),
            dv.len() == m,
            numbered_view(r@) + clean_of(dv.skip(i as int), i + 1) == clean_of(dv, 1),
    {
        let t = clean_line(&lines[i]);
        proof {
            assert(dv.skip(i as int)[0] == dv[i as int]);
            assert(dv[i as int] == lines@[i as int]@);
            assert(dv.skip(i as int).drop_first() =~~= dv.skip(i + 1));
        }
        if t.len() > 0 {
            let ghost old_r = r@;
            r.push((i + 1, t));
            proof {
                assert(numbered_view(r@) =~= numbered_view(old_r) + seq![(i + 1, t@)]);
                assert(clean_of(dv.skip(i as int), i + 1) =~= seq![(i + 1, t@)] + clean_of(
                    dv.skip(i + 1),
                    i + 2,
                ));
                assert(numbered_view(r@) + clean_of(dv.skip(i + 1), i + 2) =~= clean_of(dv, 1));
            }
        } else {
            proof {
                assert(clean_of(dv.skip(i as int), i + 1) =~= clean_of(dv.skip(i + 1), i + 2));
            }
        }
    }
    proof {
        assert(dv.skip(m as int) =~~= Seq::<Seq<char>>::empty());
        assert(numbered_view(r@) =~= clean_of(dv, 1));
    }
    r
}

} // verus!

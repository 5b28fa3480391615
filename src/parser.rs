use crate::text::{
    all_digits, chars_of, decimal, digits_to_u64, digits_value, push_decimal, split_tokens,
    tokens,
};
use crate::solver::literals_in_range;
use vstd::prelude::*;

verus! {

/// A variable reference with a negation flag; `idx` counts from 1.
#[derive(Debug, Clone, Copy, PartialEq, Eq, Structural)]
pub struct Literal {
    pub negated: bool,
    pub idx: u64,
}

/// A disjunction of literals.
#[derive(Debug, Clone, PartialEq)]
pub struct Clause {
    pub var_idxs: Vec<Literal>,
}

impl View for Clause {
    type V = Seq<Literal>;

    open spec fn view(&self) -> Seq<Literal> {
        self.var_idxs@
    }
}

/// A parsed formula: a conjunction of clauses over `variables_count` variables.
#[derive(Debug, Clone, PartialEq)]
pub struct Problem {
    /// Amount of variables used in `clauses`.
    pub variables_count: u64,
    /// Variables in clauses are indexed 1 through `variables_count`.
    pub clauses: Vec<Clause>,
}

/// The literals of each clause, in order.
pub open spec fn clause_views(clauses: Seq<Clause>) -> Seq<Seq<Literal>> {
    clauses.map_values(|c: Clause| c@)
}

impl View for Problem {
    type V = (u64, Seq<Seq<Literal>>);

    open spec fn view(&self) -> (u64, Seq<Seq<Literal>>) {
        (self.variables_count, clause_views(self.clauses@))
    }
}

/// Why a text is not an accepted formula. Positions count the tokens of the
/// clause section from 1.
#[derive(Debug, Clone, Copy, PartialEq, Eq, Structural)]
pub enum ParseError {
    MissingProblemLine,
    HeaderWordCount { found: u64 },
    HeaderNotP,
    HeaderNotCnf,
    BadVariablesCount,
    BadClausesCount,
    BadLiteral { position: u64 },
    ZeroLiteral { position: u64 },
    OutOfBound { idx: u64 },
    ClauseCountMismatch { expected: u64, actual: u64 },
}

/// The human-readable description of each error.
pub open spec fn error_text(e: ParseError) -> Seq<char> {
    match e {
        ParseError::MissingProblemLine => "File should contain a line starting with 'p ...'"@,
        ParseError::HeaderWordCount { found } => "Problem description contains unexpected amount of words: "@
            + decimal(found as nat),
        ParseError::HeaderNotP => "Problem does not start with p"@,
        ParseError::HeaderNotCnf => "Problem does not have 'cnf' as second word"@,
        ParseError::BadVariablesCount => "Could not parse variables amount"@,
        ParseError::BadClausesCount => "Could not parse clauses count"@,
        ParseError::BadLiteral { position } => "Could not parse literal at token "@ + decimal(
            position as nat,
        ),
        ParseError::ZeroLiteral { position } => "Idx 0 is invalid at token "@ + decimal(
            position as nat,
        ),
        ParseError::OutOfBound { idx } => "Idx "@ + decimal(idx as nat)
            + " is out of bounds for problem"@,
        ParseError::ClauseCountMismatch { expected, actual } =>
            "Problem clauses count does not match actual clauses count: "@ + decimal(
            expected as nat,
        ) + " vs "@ + decimal(actual as nat),
    }
}

impl ParseError {
    /// The error described in words.
    pub fn message(&self) -> (r: String)
        ensures
            r@ == error_text(*self),
    {
        match *self {
            ParseError::MissingProblemLine => String::from_str(
                "File should contain a line starting with 'p ...'",
            ),
            ParseError::HeaderWordCount { found } => {
                let mut m = String::from_str(
                    "Problem description contains unexpected amount of words: ",
                );
                push_decimal(&mut m, found);
                m
            },
            ParseError::HeaderNotP => String::from_str("Problem does not start with p"),
            ParseError::HeaderNotCnf => String::from_str(
                "Problem does not have 'cnf' as second word",
            ),
            ParseError::BadVariablesCount => String::from_str("Could not parse variables amount"),
            ParseError::BadClausesCount => String::from_str("Could not parse clauses count"),
            ParseError::BadLiteral { position } => {
                let mut m = String::from_str("Could not parse literal at token ");
                push_decimal(&mut m, position);
                m
            },
            ParseError::ZeroLiteral { position } => {
                let mut m = String::from_str("Idx 0 is invalid at token ");
                push_decimal(&mut m, position);
                m
            },
            ParseError::OutOfBound { idx } => {
                let mut m = String::from_str("Idx ");
                push_decimal(&mut m, idx);
                m.append(" is out of bounds for problem");
                m
            },
            ParseError::ClauseCountMismatch { expected, actual } => {
                let mut m = String::from_str(
                    "Problem clauses count does not match actual clauses count: ",
                );
                push_decimal(&mut m, expected);
                m.append(" vs ");
                push_decimal(&mut m, actual);
                m
            },
        }
    }
}

/// The text of an unsigned count: an optional `+`, then decimal digits whose
/// value fits in a `u64`.
pub open spec fn unsigned_number(t: Seq<char>) -> Option<u64> {
    let d = if t.len() > 0 && t[0] == '+' {
        t.drop_first()
    } else {
        t
    };
    if all_digits(d) && digits_value(d) <= u64::MAX {
        Some(digits_value(d) as u64)
    } else {
        None
    }
}

/// The text of a literal: an optional sign, then decimal digits whose signed
/// value fits in an `i64`.
pub open spec fn signed_number(t: Seq<char>) -> Option<int> {
    if t.len() > 0 && t[0] == '-' {
        let d = t.drop_first();
        if all_digits(d) && digits_value(d) <= 0x8000_0000_0000_0000 {
            Some(-digits_value(d))
        } else {
            None
        }
    } else {
        let d = if t.len() > 0 && t[0] == '+' {
            t.drop_first()
        } else {
            t
        };
        if all_digits(d) && digits_value(d) <= i64::MAX {
            Some(digits_value(d) as int)
        } else {
            None
        }
    }
}

/// The words of a problem line give the variable and clause counts.
pub open spec fn header_counts(words: Seq<Seq<char>>) -> Result<(u64, u64), ParseError> {
    if words.len() != 4 {
        Err(ParseError::HeaderWordCount { found: words.len() as u64 })
    } else if words[0] != seq!['p'] {
        Err(ParseError::HeaderNotP)
    } else if words[1] != seq!['c', 'n', 'f'] {
        Err(ParseError::HeaderNotCnf)
    } else {
        match unsigned_number(words[2]) {
            None => Err(ParseError::BadVariablesCount),
            Some(v) => match unsigned_number(words[3]) {
                None => Err(ParseError::BadClausesCount),
                Some(c) => Ok((v, c)),
            },
        }
    }
}

struct ProblemDescription {
    clauses_count: u64,
    variables_count: u64,
}

fn parse_unsigned(t: &Vec<char>) -> (r: Option<u64>)
    ensures
        r == unsigned_number(t@),
{
    if t.len() > 0 && t[0] == '+' {
        assert(t@.subrange(1, t@.len() as int) =~= t@.drop_first());
        digits_to_u64(t, 1, u64::MAX)
    } else {
        assert(t@.subrange(0, t@.len() as int) =~= t@);
        digits_to_u64(t, 0, u64::MAX)
    }
}

fn is_word(t: &Vec<char>, w: &[char]) -> (r: bool)
    ensures
        r == (t@ == w@),
{
    if t.len() != w.len() {
        return false;
    }
    let mut i: usize = 0;
    while i < t.len()
        invariant
            i <= t@.len() == w@.len(),
            forall|k: int| 0 <= k < i ==> t@[k] == w@[k],
        decreases t@.len() - i,
    {
        if t[i] != w[i] {
            return false;
        }
        i = i + 1;
    }
    assert(t@ =~= w@);
    true
}

fn get_problem_description(words: &Vec<Vec<char>>) -> (r: Result<ProblemDescription, ParseError>)
    ensures
        ({
            let ws = Seq::new(words@.len(), |i: int| words@[i]@);
            match (r, header_counts(ws)) {
                (Ok(d), Ok((v, c))) => d.variables_count == v && d.clauses_count == c,
                (Err(e), Err(f)) => e == f,
                _ => false,
            }
        }),
{
    let ghost ws = Seq::new(words@.len(), |i: int| words@[i]@);
    if words.len() != 4 {
        return Err(ParseError::HeaderWordCount { found: words.len() as u64 });
    }
    let p = ['p'];
    if !is_word(&words[0], &p) {
        assert(p@ =~= seq!['p']);
        return Err(ParseError::HeaderNotP);
    }
    assert(p@ =~= seq!['p']);
    let cnf = ['c', 'n', 'f'];
    if !is_word(&words[1], &cnf) {
        assert(cnf@ =~= seq!['c', 'n', 'f']);
        return Err(ParseError::HeaderNotCnf);
    }
    assert(cnf@ =~= seq!['c', 'n', 'f']);
    let variables_count = match parse_unsigned(&words[2]) {
        None => return Err(ParseError::BadVariablesCount),
        Some(v) => v,
    };
    let clauses_count = match parse_unsigned(&words[3]) {
        None => return Err(ParseError::BadClausesCount),
        Some(c) => c,
    };
    Ok(ProblemDescription { clauses_count, variables_count })
}

/// The token that ends a clause.
pub open spec fn is_terminator(t: Seq<char>) -> bool {
    t == seq!['0']
}

/// The literal that token `t` at `position` writes, for a formula of `n`
/// variables.
pub open spec fn literal_of(t: Seq<char>, position: u64, n: u64) -> Result<Literal, ParseError> {
    match signed_number(t) {
        None => Err(ParseError::BadLiteral { position }),
        Some(v) => {
            let idx = if v < 0 {
                -v
            } else {
                v
            };
            if idx == 0 {
                Err(ParseError::ZeroLiteral { position })
            } else if idx > n {
                Err(ParseError::OutOfBound { idx: idx as u64 })
            } else {
                Ok(Literal { negated: v < 0, idx: idx as u64 })
            }
        },
    }
}

/// Splits the clause tokens at each terminator into segments of literals,
/// the last segment included even when empty; the first bad token, in order,
/// is the error.
pub open spec fn scan_clauses(toks: Seq<Seq<char>>, n: u64) -> Result<Seq<Seq<Literal>>, ParseError>
    decreases toks.len(),
{
    if toks.len() == 0 {
        Ok(seq![seq![]])
    } else {
        match scan_clauses(toks.drop_last(), n) {
            Err(e) => Err(e),
            Ok(segs) => if is_terminator(toks.last()) {
                Ok(segs.push(seq![]))
            } else {
                match literal_of(toks.last(), toks.len() as u64, n) {
                    Err(e) => Err(e),
                    Ok(l) => Ok(segs.update(segs.len() - 1, segs.last().push(l))),
                }
            },
        }
    }
}

/// The segments without the empty one that a terminated last clause leaves.
pub open spec fn without_trailing_empty(segs: Seq<Seq<Literal>>) -> Seq<Seq<Literal>> {
    if segs.len() > 0 && segs.last().len() == 0 {
        segs.drop_last()
    } else {
        segs
    }
}

/// The clauses that the tokens of a clause section write, when there are as
/// many as declared.
pub open spec fn clause_list(toks: Seq<Seq<char>>, n: u64, expected: u64) -> Result<
    Seq<Seq<Literal>>,
    ParseError,
> {
    match scan_clauses(toks, n) {
        Err(e) => Err(e),
        Ok(segs) => {
            let cs = without_trailing_empty(segs);
            if cs.len() != expected {
                Err(ParseError::ClauseCountMismatch { expected, actual: cs.len() as u64 })
            } else {
                Ok(cs)
            }
        },
    }
}

/// Once a prefix of the tokens holds an error, the whole does, and the same.
proof fn lemma_scan_error_stays(toks: Seq<Seq<char>>, i: int, n: u64)
    requires
        0 <= i <= toks.len(),
        scan_clauses(toks.subrange(0, i), n) is Err,
    ensures
        scan_clauses(toks, n) == scan_clauses(toks.subrange(0, i), n),
    decreases toks.len() - i,
{
    if i < toks.len() {
        let t = toks.subrange(0, i + 1);
        assert(t.drop_last() =~= toks.subrange(0, i));
        assert(toks.subrange(0, i + 1).subrange(0, i) =~= toks.subrange(0, i));
        lemma_scan_error_stays(toks, i + 1, n);
    } else {
        assert(toks.subrange(0, i) =~= toks);
    }
}

fn parse_literal(t: &Vec<char>, position: u64, n: u64) -> (r: Result<Literal, ParseError>)
    ensures
        r == literal_of(t@, position, n),
{
    let negated = t.len() > 0 && t[0] == '-';
    let start: usize = if t.len() > 0 && (t[0] == '-' || t[0] == '+') {
        1
    } else {
        0
    };
    assert(t@.subrange(1, t@.len() as int) =~= t@.drop_first());
    assert(t@.subrange(0, t@.len() as int) =~= t@);
    let limit: u64 = if negated {
        0x8000_0000_0000_0000
    } else {
        0x7fff_ffff_ffff_ffff
    };
    match digits_to_u64(t, start, limit) {
        None => Err(ParseError::BadLiteral { position }),
        Some(idx) => {
            if idx == 0 {
                Err(ParseError::ZeroLiteral { position })
            } else if idx > n {
                Err(ParseError::OutOfBound { idx })
            } else {
                Ok(Literal { negated, idx })
            }
        },
    }
}

/// The token sequences of a list of token vectors.
pub open spec fn token_views(toks: Seq<Vec<char>>) -> Seq<Seq<char>> {
    Seq::new(toks.len(), |i: int| toks[i]@)
}

fn get_problem_body(desc: &ProblemDescription, toks: &Vec<Vec<char>>) -> (r: Result<
    Vec<Clause>,
    ParseError,
>)
    ensures
        match (r, clause_list(token_views(toks@), desc.variables_count, desc.clauses_count)) {
            (Ok(cs), Ok(m)) => clause_views(cs@) == m,
            (Err(e), Err(f)) => e == f,
            _ => false,
        },
{
    let ghost all = token_views(toks@);
    let ghost n = desc.variables_count;
    let mut done: Vec<Clause> = Vec::new();
    let mut cur: Vec<Literal> = Vec::new();
    let mut i: usize = 0;
    assert(all.subrange(0, 0) =~= seq![]);
    while i < toks.len()
        invariant
            i <= toks@.len(),
            all == token_views(toks@),
            n == desc.variables_count,
            scan_clauses(all.subrange(0, i as int), n) is Ok,
            ({
                let segs = scan_clauses(all.subrange(0, i as int), n)->Ok_0;
                &&& segs.len() == done@.len() + 1
                &&& forall|k: int| 0 <= k < done@.len() ==> #[trigger] done@[k]@ == segs[k]
                &&& cur@ == segs.last()
            }),
        decreases toks@.len() - i,
    {
        let ghost before = all.subrange(0, i as int);
        let ghost segs = scan_clauses(before, n)->Ok_0;
        let ghost after = all.subrange(0, i + 1);
        assert(after.drop_last() =~= before);
        assert(after.last() == toks@[i as int]@);
        let t = &toks[i];
        if t.len() == 1 && t[0] == '0' {
            assert(is_terminator(t@)) by {
                assert(t@ =~= seq!['0']);
            }
            let ghost old_done = done@;
            done.push(Clause { var_idxs: cur });
            cur = Vec::new();
            assert(scan_clauses(after, n) == Ok::<Seq<Seq<Literal>>, ParseError>(segs.push(seq![])));
            assert forall|k: int| 0 <= k < done@.len() implies #[trigger] done@[k]@ == segs.push(
                seq![],
            )[k] by {
                if k < old_done.len() {
                    assert(done@[k] == old_done[k]);
                }
            }
            assert(cur@ =~= seq![]);
        } else {
            assert(!is_terminator(t@)) by {
                if t@ == seq!['0'] {
                    assert(t@.len() == 1 && t@[0] == '0');
                }
            }
            match parse_literal(t, (i + 1) as u64, desc.variables_count) {
                Err(e) => {
                    proof {
                        lemma_scan_error_stays(all, i + 1, n);
                        assert(all.subrange(0, i + 1) == after);
                    }
                    return Err(e);
                },
                Ok(l) => {
                    cur.push(l);
                },
            }
        }
        i = i + 1;
    }
    let ghost segs = scan_clauses(all.subrange(0, i as int), n)->Ok_0;
    assert(all.subrange(0, i as int) =~= all);
    if cur.len() > 0 {
        let ghost old_done = done@;
        done.push(Clause { var_idxs: cur });
        assert(clause_views(done@) =~= without_trailing_empty(segs)) by {
            assert forall|k: int| 0 <= k < done@.len() implies #[trigger] clause_views(done@)[k]
                == segs[k] by {
                if k < old_done.len() {
                    assert(done@[k] == old_done[k]);
                }
            }
        }
    } else {
        assert(clause_views(done@) =~= without_trailing_empty(segs));
    }
    if done.len() as u64 != desc.clauses_count {
        return Err(
            ParseError::ClauseCountMismatch {
                expected: desc.clauses_count,
                actual: done.len() as u64,
            },
        );
    }
    Ok(done)
}

/// A line starts at `i` and begins with `p` and a space.
pub open spec fn starts_problem_line(s: Seq<char>, i: int) -> bool {
    &&& 0 <= i && i + 1 < s.len()
    &&& i == 0 || s[i - 1] == '\n'
    &&& s[i] == 'p' && s[i + 1] == ' '
}

/// Where the first problem line at or after `i` starts.
pub open spec fn problem_line_from(s: Seq<char>, i: int) -> Option<int>
    decreases s.len() - i,
{
    if i < 0 || i >= s.len() {
        None
    } else if starts_problem_line(s, i) {
        Some(i)
    } else {
        problem_line_from(s, i + 1)
    }
}

/// Where the line holding position `i` ends: its newline, or the end of text.
pub open spec fn line_end_from(s: Seq<char>, i: int) -> int
    decreases s.len() - i,
{
    if i < 0 || i >= s.len() {
        s.len() as int
    } else if s[i] == '\n' {
        i
    } else {
        line_end_from(s, i + 1)
    }
}

/// Everything after the line that ends at `e`.
pub open spec fn rest_after(s: Seq<char>, e: int) -> Seq<char> {
    if e < s.len() {
        s.subrange(e + 1, s.len() as int)
    } else {
        seq![]
    }
}

/// The formula that text `s` writes: its variable count and its clauses.
pub open spec fn parse_text(s: Seq<char>) -> Result<(u64, Seq<Seq<Literal>>), ParseError> {
    match problem_line_from(s, 0) {
        None => Err(ParseError::MissingProblemLine),
        Some(h) => {
            let e = line_end_from(s, h);
            match header_counts(tokens(s.subrange(h, e))) {
                Err(err) => Err(err),
                Ok((v, c)) => match clause_list(tokens(rest_after(s, e)), v, c) {
                    Err(err) => Err(err),
                    Ok(cs) => Ok((v, cs)),
                },
            }
        },
    }
}

fn find_problem_line(s: &Vec<char>) -> (r: Option<usize>)
    ensures
        match r {
            None => problem_line_from(s@, 0) is None,
            Some(k) => problem_line_from(s@, 0) == Some(k as int),
        },
        r matches Some(h) ==> h < s@.len(),
{
    let mut i: usize = 0;
    while i < s.len()
        invariant
            i <= s@.len(),
            problem_line_from(s@, 0) == problem_line_from(s@, i as int),
        decreases s@.len() - i,
    {
        if (i == 0 || s[i - 1] == '\n') && i + 1 < s.len() && s[i] == 'p' && s[i + 1] == ' ' {
            return Some(i);
        }
        i = i + 1;
    }
    None
}

fn line_end(s: &Vec<char>, from: usize) -> (r: usize)
    requires
        from <= s@.len(),
    ensures
        r == line_end_from(s@, from as int),
        from <= r <= s@.len(),
{
    let mut i: usize = from;
    while i < s.len()
        invariant
            from <= i <= s@.len(),
            line_end_from(s@, from as int) == line_end_from(s@, i as int),
        decreases s@.len() - i,
    {
        if s[i] == '\n' {
            return i;
        }
        i = i + 1;
    }
    i
}

/// The result of parsing matches the formula that the text writes.
pub open spec fn parse_agrees(
    r: Result<Problem, ParseError>,
    m: Result<(u64, Seq<Seq<Literal>>), ParseError>,
) -> bool {
    match (r, m) {
        (Ok(p), Ok(v)) => p@ == v,
        (Err(e), Err(f)) => e == f,
        _ => false,
    }
}

/// Parses CNF text into a formula, or the first error in reading order.
pub fn parse_problem(cnf: &str) -> (r: Result<Problem, ParseError>)
    ensures
        parse_agrees(r, parse_text(cnf@)),
{
    let s = chars_of(cnf);
    let h = match find_problem_line(&s) {
        None => return Err(ParseError::MissingProblemLine),
        Some(h) => h,
    };
    let e = line_end(&s, h);
    let words = split_tokens(&s, h, e);
    assert(token_views(words@) =~= tokens(s@.subrange(h as int, e as int)));
    assert(Seq::new(words@.len(), |i: int| words@[i]@) =~= token_views(words@));
    let problem_desc = match get_problem_description(&words) {
        Err(err) => return Err(err),
        Ok(d) => d,
    };
    let start: usize = if e < s.len() {
        e + 1
    } else {
        e
    };
    assert(s@.subrange(start as int, s@.len() as int) =~= rest_after(s@, e as int));
    let toks = split_tokens(&s, start, s.len());
    assert(token_views(toks@) =~= tokens(rest_after(s@, e as int)));
    let clauses = match get_problem_body(&problem_desc, &toks) {
        Err(err) => return Err(err),
        Ok(cs) => cs,
    };
    Ok(Problem { variables_count: problem_desc.variables_count, clauses })
}

/// Parses CNF text into a formula, or describes the first error in words.
pub fn parse_cnf(cnf: &str) -> (r: Result<Problem, String>)
    ensures
        match (r, parse_text(cnf@)) {
            (Ok(p), Ok(v)) => p@ == v,
            (Err(msg), Err(e)) => msg@ == error_text(e),
            _ => false,
        },
{
    match parse_problem(cnf) {
        Ok(problem) => Ok(problem),
        Err(e) => Err(e.message()),
    }
}

/// The words of the problem line of `s`.
pub open spec fn header_words(s: Seq<char>) -> Seq<Seq<char>> {
    let h = problem_line_from(s, 0)->Some_0;
    tokens(s.subrange(h, line_end_from(s, h)))
}

/// The tokens of the clause section of `s`: all text after the problem line.
pub open spec fn clause_tokens(s: Seq<char>) -> Seq<Seq<char>> {
    let h = problem_line_from(s, 0)->Some_0;
    tokens(rest_after(s, line_end_from(s, h)))
}

/// A token that reads as a literal within `n` variables.
pub open spec fn valid_literal_token(t: Seq<char>, n: u64) -> bool {
    match signed_number(t) {
        Some(v) => v != 0 && -(n as int) <= v <= n,
        None => false,
    }
}

/// A token that reads as a non-zero literal, whatever its variable.
pub open spec fn nonzero_literal_token(t: Seq<char>) -> bool {
    signed_number(t) matches Some(v) && v != 0
}

/// A token that reads as a literal whose variable lies beyond `n`.
pub open spec fn literal_beyond(t: Seq<char>, n: u64) -> bool {
    signed_number(t) matches Some(v) && (v > n || v < -(n as int))
}

/// How many terminators the tokens hold.
pub open spec fn terminator_count(toks: Seq<Seq<char>>) -> nat
    decreases toks.len(),
{
    if toks.len() == 0 {
        0
    } else {
        terminator_count(toks.drop_last()) + if is_terminator(toks.last()) {
            1nat
        } else {
            0nat
        }
    }
}

/// How many clauses the tokens delimit: one more than the terminators, less
/// the empty one after a final terminator (or in an empty section).
pub open spec fn segment_count(toks: Seq<Seq<char>>) -> nat {
    if toks.len() == 0 || is_terminator(toks.last()) {
        terminator_count(toks)
    } else {
        terminator_count(toks) + 1
    }
}

/// The terminator reads as the number zero.
proof fn lemma_terminator_reads_zero(t: Seq<char>)
    requires
        is_terminator(t),
    ensures
        signed_number(t) == Some(0int),
{
    assert(t.drop_last() =~= seq![]);
    assert(digits_value(t.drop_last()) == 0);
    assert(t.last() == '0');
    assert(digits_value(t) == 0);
    assert(all_digits(t));
}

proof fn lemma_literal_of_valid(t: Seq<char>, position: u64, n: u64)
    requires
        valid_literal_token(t, n),
    ensures
        literal_of(t, position, n) is Ok,
        !is_terminator(t),
{
    if is_terminator(t) {
        lemma_terminator_reads_zero(t);
    }
}

/// Tokens that are all terminators or valid literals scan without error into
/// one segment per terminator and one more; the last is empty exactly when
/// the tokens are empty or end with a terminator.
proof fn lemma_scan_valid(toks: Seq<Seq<char>>, n: u64)
    requires
        forall|k: int|
            0 <= k < toks.len() ==> is_terminator(#[trigger] toks[k]) || valid_literal_token(
                toks[k],
                n,
            ),
    ensures
        scan_clauses(toks, n) is Ok,
        scan_clauses(toks, n)->Ok_0.len() == terminator_count(toks) + 1,
        (scan_clauses(toks, n)->Ok_0.last().len() == 0) == (toks.len() == 0 || is_terminator(
            toks.last(),
        )),
        literals_in_range(scan_clauses(toks, n)->Ok_0, n as nat),
    decreases toks.len(),
{
    if toks.len() > 0 {
        let t = toks.drop_last();
        assert forall|k: int| 0 <= k < t.len() implies is_terminator(#[trigger] t[k])
            || valid_literal_token(t[k], n) by {
            assert(t[k] == toks[k]);
        }
        lemma_scan_valid(t, n);
        let last = toks.last();
        assert(last == toks[toks.len() - 1]);
        if !is_terminator(last) {
            lemma_literal_of_valid(last, toks.len() as u64, n);
        }
    }
}

/// Literals read from tokens that are all well formed, within the header's
/// variables or beyond them: one beyond them is rejected as out of bounds.
proof fn lemma_scan_out_of_bound(toks: Seq<Seq<char>>, n: u64, i: int)
    requires
        forall|k: int|
            0 <= k < toks.len() ==> is_terminator(#[trigger] toks[k]) || nonzero_literal_token(
                toks[k],
            ),
        0 <= i < toks.len(),
        literal_beyond(toks[i], n),
    ensures
        scan_clauses(toks, n) matches Err(ParseError::OutOfBound { .. }),
    decreases toks.len(),
{
    let t = toks.drop_last();
    if exists|k: int| 0 <= k < t.len() && literal_beyond(t[k], n) {
        let k = choose|k: int| 0 <= k < t.len() && literal_beyond(t[k], n);
        assert forall|j: int| 0 <= j < t.len() implies is_terminator(#[trigger] t[j])
            || nonzero_literal_token(t[j]) by {
            assert(t[j] == toks[j]);
        }
        lemma_scan_out_of_bound(t, n, k);
    } else {
        assert forall|j: int| 0 <= j < t.len() implies is_terminator(#[trigger] t[j])
            || valid_literal_token(t[j], n) by {
            assert(t[j] == toks[j]);
        }
        lemma_scan_valid(t, n);
        if i < t.len() {
            assert(t[i] == toks[i]);
        }
        assert(i == toks.len() - 1);
        let last = toks.last();
        if is_terminator(last) {
            lemma_terminator_reads_zero(last);
        }
    }
}

/// Parsing gives the same outcome on the same text: structurally equal
/// formulas, or the same error.
pub proof fn lemma_parse_deterministic(
    text: Seq<char>,
    first: Result<Problem, ParseError>,
    second: Result<Problem, ParseError>,
)
    requires
        parse_agrees(first, parse_text(text)),
        parse_agrees(second, parse_text(text)),
    ensures
        match (first, second) {
            (Ok(p), Ok(q)) => p@ == q@,
            (Err(e), Err(f)) => e == f,
            _ => false,
        },
{
}

/// A formula that parses has every literal within its variables and exactly
/// the declared number of clauses.
pub proof fn lemma_accepted_well_formed(text: Seq<char>)
    requires
        parse_text(text) is Ok,
    ensures
        ({
            let (v, cs) = parse_text(text)->Ok_0;
            &&& literals_in_range(cs, v as nat)
            &&& header_counts(header_words(text)) == Ok::<(u64, u64), ParseError>((v, cs.len() as u64))
        }),
{
    let v = header_counts(header_words(text))->Ok_0.0;
    lemma_scan_in_range(clause_tokens(text), v);
}

/// Segments that scan without error hold only literals within the variables.
proof fn lemma_scan_in_range(toks: Seq<Seq<char>>, n: u64)
    requires
        scan_clauses(toks, n) is Ok,
    ensures
        literals_in_range(scan_clauses(toks, n)->Ok_0, n as nat),
        literals_in_range(without_trailing_empty(scan_clauses(toks, n)->Ok_0), n as nat),
        scan_clauses(toks, n)->Ok_0.len() >= 1,
    decreases toks.len(),
{
    if toks.len() > 0 {
        lemma_scan_in_range(toks.drop_last(), n);
    }
    let segs = scan_clauses(toks, n)->Ok_0;
    let kept = without_trailing_empty(segs);
    assert forall|j: int, i: int| 0 <= j < kept.len() && 0 <= i < kept[j].len() implies 1
        <= #[trigger] kept[j][i].idx <= n by {
        assert(kept[j] == segs[j]);
    }
}

/// When the problem line is well formed and every clause token is a
/// terminator or a non-zero literal, a literal beyond the declared variables
/// makes the text fail with an out-of-bounds error.
pub proof fn lemma_out_of_bound_rejected(text: Seq<char>, i: int)
    requires
        problem_line_from(text, 0) is Some,
        header_counts(header_words(text)) is Ok,
        forall|k: int|
            0 <= k < clause_tokens(text).len() ==> is_terminator(#[trigger] clause_tokens(text)[k])
                || nonzero_literal_token(clause_tokens(text)[k]),
        0 <= i < clause_tokens(text).len(),
        literal_beyond(clause_tokens(text)[i], header_counts(header_words(text))->Ok_0.0),
    ensures
        parse_text(text) matches Err(ParseError::OutOfBound { .. }),
{
    let v = header_counts(header_words(text))->Ok_0.0;
    lemma_scan_out_of_bound(clause_tokens(text), v, i);
}

/// When the problem line is well formed and every clause token is a
/// terminator or a literal within the declared variables, the text fails
/// exactly when the declared clause count differs from the number of
/// terminator-delimited clauses, and then with a count mismatch naming both.
pub proof fn lemma_clause_count_checked(text: Seq<char>)
    requires
        problem_line_from(text, 0) is Some,
        header_counts(header_words(text)) is Ok,
        forall|k: int|
            0 <= k < clause_tokens(text).len() ==> is_terminator(#[trigger] clause_tokens(text)[k])
                || valid_literal_token(
                clause_tokens(text)[k],
                header_counts(header_words(text))->Ok_0.0,
            ),
    ensures
        ({
            let (v, c) = header_counts(header_words(text))->Ok_0;
            let found = segment_count(clause_tokens(text));
            &&& (parse_text(text) is Ok) == (found == c)
            &&& found != c ==> parse_text(text) == Err::<(u64, Seq<Seq<Literal>>), ParseError>(
                ParseError::ClauseCountMismatch { expected: c, actual: found as u64 },
            )
        }),
{
    let v = header_counts(header_words(text))->Ok_0.0;
    lemma_scan_valid(clause_tokens(text), v);
}

impl Problem {
    /// Splits the formula into the header and the clauses that the solver reads.
    pub fn into_parts(self) -> (r: (crate::solver::Problem, crate::solver::ProblemBody))
        ensures
            r.0.variables_count == self.variables_count,
            r.0.clauses_count == self.clauses@.len(),
            r.1@ == self@.1,
    {
        let header = crate::solver::Problem {
            clauses_count: self.clauses.len() as u64,
            variables_count: self.variables_count,
        };
        (header, crate::solver::ProblemBody { clauses: self.clauses })
    }
}

} // verus!

use vstd::prelude::*;

use crate::problem::{Constraint, Objective, Problem, Relation};

verus! {

/// Why a textual problem description was rejected: a missing or unexpected
/// token, or a token that is not a number this library can hold.
#[derive(Clone, Copy, Debug, PartialEq, Eq, Structural)]
pub enum ParseError {
    Syntax,
    Num,
}

/// An ASCII decimal digit.
pub open spec fn is_digit(b: u8) -> bool {
    48 <= b <= 57
}

/// A non-empty run of decimal digits.
pub open spec fn is_digits(s: Seq<u8>) -> bool {
    s.len() >= 1 && forall|i: int| 0 <= i < s.len() ==> is_digit(#[trigger] s[i])
}

/// The value of a run of decimal digits, most significant first.
pub open spec fn digits_val(s: Seq<u8>) -> int
    decreases s.len(),
{
    if s.len() == 0 {
        0
    } else {
        digits_val(s.drop_last()) * 10 + (s.last() - 48)
    }
}

/// A decimal integer token: digits with an optional leading minus sign.
pub open spec fn is_int_token(s: Seq<u8>) -> bool {
    if s.len() >= 1 && s[0] == 45 {
        is_digits(s.skip(1))
    } else {
        is_digits(s)
    }
}

/// The value of a decimal integer token.
pub open spec fn token_val(s: Seq<u8>) -> int {
    if s.len() >= 1 && s[0] == 45 {
        -digits_val(s.skip(1))
    } else {
        digits_val(s)
    }
}


/// ASCII whitespace that separates tokens.
pub open spec fn is_ws(b: u8) -> bool {
    b == 32 || b == 9 || b == 13 || b == 10
}

/// The first index at or after `pos` whose byte is not whitespace, or `end`.
pub open spec fn skip_ws(s: Seq<u8>, pos: int, end: int) -> int
    decreases end - pos,
{
    if pos >= end {
        end
    } else if is_ws(s[pos]) {
        skip_ws(s, pos + 1, end)
    } else {
        pos
    }
}

/// The first whitespace index at or after `pos`, or `end`.
pub open spec fn scan_token(s: Seq<u8>, pos: int, end: int) -> int
    decreases end - pos,
{
    if pos >= end {
        end
    } else if is_ws(s[pos]) {
        pos
    } else {
        scan_token(s, pos + 1, end)
    }
}

/// The first line break at or after `pos`, or the end of the input.
pub open spec fn line_break(s: Seq<u8>, pos: int) -> int
    decreases s.len() - pos,
{
    if pos >= s.len() {
        s.len() as int
    } else if s[pos] == 10 {
        pos
    } else {
        line_break(s, pos + 1)
    }
}

/// The cursor at the start of the line after the one holding `pos`.
pub open spec fn next_line(s: Seq<u8>, pos: int) -> int {
    if line_break(s, pos) < s.len() {
        line_break(s, pos) + 1
    } else {
        line_break(s, pos)
    }
}

/// The cursor after `k` whitespace-separated tokens from `pos` within `end`.
pub open spec fn tok_cursor(s: Seq<u8>, pos: int, end: int, k: nat) -> int
    decreases k,
{
    if k == 0 {
        pos
    } else {
        scan_token(s, skip_ws(s, tok_cursor(s, pos, end, (k - 1) as nat), end), end)
    }
}

/// Where token `k` starts.
pub open spec fn tok_lo(s: Seq<u8>, pos: int, end: int, k: nat) -> int {
    skip_ws(s, tok_cursor(s, pos, end, k), end)
}

/// Where token `k` ends.
pub open spec fn tok_hi(s: Seq<u8>, pos: int, end: int, k: nat) -> int {
    scan_token(s, tok_lo(s, pos, end, k), end)
}

/// The bytes of token `k`.
pub open spec fn tok_seq(s: Seq<u8>, pos: int, end: int, k: nat) -> Seq<u8> {
    s.subrange(tok_lo(s, pos, end, k), tok_hi(s, pos, end, k))
}

/// Token `k` exists: it is non-empty.
pub open spec fn has_tok(s: Seq<u8>, pos: int, end: int, k: nat) -> bool {
    tok_lo(s, pos, end, k) < tok_hi(s, pos, end, k)
}

/// Token `k` exists and is a decimal integer that fits 64 signed bits.
pub open spec fn tok_ok_i64(s: Seq<u8>, pos: int, end: int, k: nat) -> bool {
    &&& has_tok(s, pos, end, k)
    &&& is_int_token(tok_seq(s, pos, end, k))
    &&& i64::MIN <= token_val(tok_seq(s, pos, end, k)) <= i64::MAX
}

/// The value of token `k` as a decimal integer.
pub open spec fn tok_i64(s: Seq<u8>, pos: int, end: int, k: nat) -> int {
    token_val(tok_seq(s, pos, end, k))
}

/// The relation a token denotes, if any.
pub open spec fn spec_relation(t: Seq<u8>) -> Option<Relation> {
    if t == seq![61u8] {
        Some(Relation::Eq)
    } else if t == seq![60u8, 61u8] {
        Some(Relation::Le)
    } else if t == seq![62u8, 61u8] {
        Some(Relation::Ge)
    } else {
        None
    }
}

/// The header line is well formed: a dimension and a constraint count that
/// fit a `usize`, and a direction sign.
pub open spec fn header_ok(s: Seq<u8>) -> bool {
    let e = line_break(s, 0);
    &&& tok_ok_i64(s, 0, e, 0) && 0 <= tok_i64(s, 0, e, 0) <= usize::MAX
    &&& tok_ok_i64(s, 0, e, 1) && 0 <= tok_i64(s, 0, e, 1) <= usize::MAX
    &&& has_tok(s, 0, e, 2) && tok_hi(s, 0, e, 2) == tok_lo(s, 0, e, 2) + 1
    &&& (s[tok_lo(s, 0, e, 2)] == 43 || s[tok_lo(s, 0, e, 2)] == 45)
}

/// One constraint line is well formed: `n` coefficients, a relation token,
/// and a right-hand side.
pub open spec fn constraint_line_ok(s: Seq<u8>, pos: int, n: int) -> bool {
    let e = line_break(s, pos);
    &&& forall|k: int| 0 <= k < n ==> #[trigger] tok_ok_i64(s, pos, e, k as nat)
    &&& spec_relation(tok_seq(s, pos, e, n as nat)) is Some
    &&& tok_ok_i64(s, pos, e, (n + 1) as nat)
}

/// `c` holds exactly the values of the constraint line at `pos`.
pub open spec fn matches_line(s: Seq<u8>, pos: int, n: int, c: Constraint) -> bool {
    let e = line_break(s, pos);
    &&& c.lhs@.len() == n
    &&& forall|k: int| 0 <= k < n ==> (#[trigger] c.lhs@[k]) as int == tok_i64(s, pos, e, k as nat)
    &&& Some(c.relation) == spec_relation(tok_seq(s, pos, e, n as nat))
    &&& c.rhs as int == tok_i64(s, pos, e, (n + 1) as nat)
}

/// The cursor at the start of constraint line `i`.
pub open spec fn cons_cursor(s: Seq<u8>, pos: int, i: nat) -> int
    decreases i,
{
    if i == 0 {
        pos
    } else {
        next_line(s, cons_cursor(s, pos, (i - 1) as nat))
    }
}

/// The whole textual description is well formed: the header, an objective
/// line with one coefficient per decision variable, and one line per
/// constraint.
pub open spec fn problem_text_ok(s: Seq<u8>) -> bool {
    let e0 = line_break(s, 0);
    let n = tok_i64(s, 0, e0, 0);
    let m = tok_i64(s, 0, e0, 1);
    let obj_pos = next_line(s, 0);
    let cons_pos = next_line(s, obj_pos);
    &&& header_ok(s)
    &&& forall|k: int|
        0 <= k < n ==> #[trigger] tok_ok_i64(s, obj_pos, line_break(s, obj_pos), k as nat)
    &&& forall|i: int|
        0 <= i < m ==> constraint_line_ok(s, #[trigger] cons_cursor(s, cons_pos, i as nat), n)
}

/// Parses the byte range `[s, e)` of `input` as a decimal integer.  Returns
/// the exact value when the range is a well-formed integer token whose value
/// fits 64 signed bits, and an error otherwise.
#[verifier::loop_isolation(false)]
fn parse_i64(input: &Vec<u8>, s: usize, e: usize) -> (r: Result<i64, ParseError>)
    requires
        s <= e <= input@.len(),
    ensures
        r matches Ok(v) ==> is_int_token(input@.subrange(s as int, e as int)) && v as int
            == token_val(input@.subrange(s as int, e as int)),
        r is Err <==> !(is_int_token(input@.subrange(s as int, e as int)) && i64::MIN
            <= token_val(input@.subrange(s as int, e as int)) <= i64::MAX),
        r is Err ==> r == Err::<i64, ParseError>(ParseError::Num),
{
    let ghost tok = input@.subrange(s as int, e as int);
    let neg = s < e && input[s] == 45;
    let ds: usize = if neg {
        s + 1
    } else {
        s
    };
    let ghost dseq = input@.subrange(ds as int, e as int);
    proof {
        if neg {
            assert(dseq =~= tok.skip(1));
        } else {
            assert(dseq =~= tok);
        }
    }
    if ds == e {
        proof {
            assert(dseq.len() == 0);
            assert(!is_digits(dseq));
            if neg {
                assert(tok[0] == input@[s as int]);
            }
            assert(!is_int_token(tok));
        }
        return Err(ParseError::Num);
    }
    let limit: i128 = if neg {
        9223372036854775808i128
    } else {
        9223372036854775807i128
    };
    let mut mag: i128 = 0;
    let mut i: usize = ds;
    while i < e
        invariant
            ds <= i <= e <= input@.len(),
            dseq == input@.subrange(ds as int, e as int),
            mag as int == digits_val(input@.subrange(ds as int, i as int)),
            0 <= mag <= limit,
            limit == 9223372036854775807i128 + if neg {
                1i128
            } else {
                0i128
            },
            forall|q: int| ds <= q < i ==> is_digit(#[trigger] input@[q]),
        decreases e - i,
    {
        let b = input[i];
        if b < 48 || b > 57 {
            proof {
                assert(dseq[i - ds] == input@[i as int]);
                assert(!is_digit(dseq[i - ds]));
                assert(!is_digits(dseq));
                if neg {
                    assert(tok[0] == input@[s as int]);
                } else {
                    assert(tok.len() >= 1 ==> tok[0] == input@[s as int]);
                }
                assert(!is_int_token(tok));
            }
            return Err(ParseError::Num);
        }
        let d: i128 = (b - 48) as i128;
        let next: i128 = mag * 10 + d;
        proof {
            let pre = input@.subrange(ds as int, i as int);
            let cur = input@.subrange(ds as int, i + 1 as int);
            assert(cur.drop_last() =~= pre);
            assert(cur.last() == input@[i as int]);
        }
        if next > limit {
            proof {
                if is_digits(dseq) {
                    assert forall|q: int| i + 1 <= q < e implies is_digit(
                        #[trigger] input@[q],
                    ) by {
                        assert(dseq[q - ds] == input@[q]);
                    }
                    lemma_digits_val_grows(input@, ds as int, i + 1 as int, e as int);
                    assert(input@.subrange(ds as int, e as int) =~= dseq);
                    assert(digits_val(dseq) >= next as int);
                    if neg {
                        assert(tok[0] == input@[s as int]);
                        assert(token_val(tok) == -digits_val(dseq));
                    } else {
                        assert(tok.len() >= 1 ==> tok[0] == input@[s as int]);
                        assert(token_val(tok) == digits_val(dseq));
                    }
                } else {
                    if neg {
                        assert(tok[0] == input@[s as int]);
                    } else {
                        assert(tok.len() >= 1 ==> tok[0] == input@[s as int]);
                    }
                    assert(!is_int_token(tok));
                }
            }
            return Err(ParseError::Num);
        }
        mag = next;
        i += 1;
    }
    proof {
        assert(input@.subrange(ds as int, i as int) =~= dseq);
        assert(is_digits(dseq));
        if neg {
            assert(tok[0] == input@[s as int]);
            assert(is_int_token(tok));
            assert(token_val(tok) == -digits_val(dseq));
        } else {
            assert(tok.len() >= 1 && tok[0] == input@[s as int]);
            assert(is_int_token(tok));
            assert(token_val(tok) == digits_val(dseq));
        }
    }
    if neg {
        if mag == 9223372036854775808i128 {
            Ok(i64::MIN)
        } else {
            Ok(-(mag as i64))
        }
    } else {
        Ok(mag as i64)
    }
}

/// A longer digit run never has a smaller value.
proof fn lemma_digits_val_grows(s: Seq<u8>, a: int, b: int, c: int)
    requires
        0 <= a <= b <= c <= s.len(),
        forall|q: int| a <= q < b ==> is_digit(#[trigger] s[q]),
        forall|q: int| b <= q < c ==> is_digit(#[trigger] s[q]),
        digits_val(s.subrange(a, b)) >= 0,
    ensures
        digits_val(s.subrange(a, c)) >= digits_val(s.subrange(a, b)),
    decreases c - b,
{
    if b < c {
        lemma_digits_val_grows(s, a, b, c - 1);
        let pre = s.subrange(a, c - 1);
        let cur = s.subrange(a, c);
        assert(cur.drop_last() =~= pre);
        assert(cur.last() == s[c - 1]);
        assert(digits_val(cur) == digits_val(pre) * 10 + (s[c - 1] - 48));
        lemma_digits_val_nonneg(s, a, c - 1);
        assert(digits_val(pre) * 10 >= digits_val(pre)) by (nonlinear_arith)
            requires
                digits_val(pre) >= 0,
        ;
    }
}

/// The value of a digit run is never negative.
proof fn lemma_digits_val_nonneg(s: Seq<u8>, a: int, b: int)
    requires
        0 <= a <= b <= s.len(),
        forall|q: int| a <= q < b ==> is_digit(#[trigger] s[q]),
    ensures
        digits_val(s.subrange(a, b)) >= 0,
    decreases b - a,
{
    if a < b {
        lemma_digits_val_nonneg(s, a, b - 1);
        let pre = s.subrange(a, b - 1);
        let cur = s.subrange(a, b);
        assert(cur.drop_last() =~= pre);
        assert(cur.last() == s[b - 1]);
        assert(digits_val(pre) * 10 >= 0) by (nonlinear_arith)
            requires
                digits_val(pre) >= 0,
        ;
    }
}

/// The position of the first line break at or after `pos`, or the end of the
/// input.
#[verifier::loop_isolation(false)]
fn find_line_end(input: &Vec<u8>, pos: usize) -> (e: usize)
    requires
        pos <= input@.len(),
    ensures
        pos <= e <= input@.len(),
        e as int == line_break(input@, pos as int),
{
    let mut i = pos;
    while i < input.len()
        invariant
            pos <= i <= input@.len(),
            line_break(input@, pos as int) == line_break(input@, i as int),
        decreases input@.len() - i,
    {
        if input[i] == 10 {
            return i;
        }
        i += 1;
    }
    i
}

/// The bounds of the next whitespace-separated token in `[pos, end)`: equal
/// bounds at `end` when only whitespace is left.
#[verifier::loop_isolation(false)]
fn next_token(input: &Vec<u8>, pos: usize, end: usize) -> (r: (usize, usize))
    requires
        pos <= end <= input@.len(),
    ensures
        pos <= r.0 <= r.1 <= end,
        r.0 as int == skip_ws(input@, pos as int, end as int),
        r.1 as int == scan_token(input@, r.0 as int, end as int),
{
    let mut a = pos;
    while a < end && (input[a] == 32 || input[a] == 9 || input[a] == 13 || input[a] == 10)
        invariant
            pos <= a <= end <= input@.len(),
            skip_ws(input@, pos as int, end as int) == skip_ws(input@, a as int, end as int),
        decreases end - a,
    {
        a += 1;
    }
    let mut b = a;
    while b < end && !(input[b] == 32 || input[b] == 9 || input[b] == 13 || input[b] == 10)
        invariant
            a <= b <= end <= input@.len(),
            scan_token(input@, a as int, end as int) == scan_token(input@, b as int, end as int),
        decreases end - b,
    {
        b += 1;
    }
    (a, b)
}

impl Problem {
    /// Reads a problem from its textual description: a first line with the
    /// number of decision variables, the number of constraints and the
    /// direction (`+` to maximize, `-` to minimize); a second line with the
    /// objective coefficients; and one line per constraint as coefficients,
    /// a relation (`<=`, `=` or `>=`) and a right-hand side.  Succeeds
    /// exactly when the text is well formed, and then returns exactly the
    /// parsed values; the problem is well formed: each constraint holds one
    /// coefficient per decision variable.
    #[verifier::loop_isolation(false)]
    pub fn read_from_input(input: &Vec<u8>) -> (r: Result<Problem, ParseError>)
        ensures
            r is Ok <==> problem_text_ok(input@),
            r matches Ok(p) ==> ({
                let s = input@;
                let e0 = line_break(s, 0);
                let obj_pos = next_line(s, 0);
                let cons_pos = next_line(s, obj_pos);
                &&& p.wf()
                &&& (p.objective == Objective::Maximize <==> s[tok_lo(s, 0, e0, 2)] == 43)
                &&& p.function@.len() as int == tok_i64(s, 0, e0, 0)
                &&& forall|k: int|
                    0 <= k < p.function@.len() ==> (#[trigger] p.function@[k]) as int == tok_i64(
                        s,
                        obj_pos,
                        line_break(s, obj_pos),
                        k as nat,
                    )
                &&& p.constraints@.len() as int == tok_i64(s, 0, e0, 1)
                &&& forall|i: int|
                    0 <= i < p.constraints@.len() ==> matches_line(
                        s,
                        cons_cursor(s, cons_pos, i as nat),
                        p.function@.len() as int,
                        #[trigger] p.constraints@[i],
                    )
            }),
    {
        let (dimension, constraints_size, objective, mut pos) = match Self::read_problem_info(
            input,
        ) {
            Ok(x) => x,
            Err(er) => {
                return Err(er);
            },
        };
        let function = match Self::read_objective(input, dimension, &mut pos) {
            Ok(f) => f,
            Err(er) => {
                return Err(er);
            },
        };
        let constraints = match Self::read_constraints(input, dimension, constraints_size, &mut pos) {
            Ok(c) => c,
            Err(er) => {
                return Err(er);
            },
        };
        Ok(Problem::new(objective, function, constraints))
    }

    /// Parses the next token of the line `[*pos, end)` as a 64-bit integer
    /// and moves the cursor past it; a missing token is a syntax error and
    /// leaves the cursor in place.
    fn parse_next(input: &Vec<u8>, pos: &mut usize, end: usize) -> (r: Result<i64, ParseError>)
        requires
            *old(pos) <= end <= input@.len(),
        ensures
            *old(pos) <= *final(pos) <= end,
            ({
                let a = skip_ws(input@, *old(pos) as int, end as int);
                let b = scan_token(input@, a, end as int);
                &&& *old(pos) <= a <= b <= end
                &&& (a == b ==> r == Err::<i64, ParseError>(ParseError::Syntax) && *final(pos)
                    == *old(pos))
                &&& (a < b ==> {
                    &&& *final(pos) as int == b
                    &&& (r matches Ok(v) ==> is_int_token(input@.subrange(a, b)) && v as int
                        == token_val(input@.subrange(a, b)))
                    &&& (r is Err <==> !(is_int_token(input@.subrange(a, b)) && i64::MIN
                        <= token_val(input@.subrange(a, b)) <= i64::MAX))
                    &&& (r is Err ==> r == Err::<i64, ParseError>(ParseError::Num))
                })
            }),
    {
        let (a, b) = next_token(input, *pos, end);
        if a == b {
            return Err(ParseError::Syntax);
        }
        *pos = b;
        parse_i64(input, a, b)
    }

    /// Reads the header line: dimension, constraint count and direction.
    /// Succeeds exactly when the header is well formed, and then returns
    /// exactly its values, with the cursor at the start of the next line.
    fn read_problem_info(input: &Vec<u8>) -> (r: Result<
        (usize, usize, Objective, usize),
        ParseError,
    >)
        ensures
            r is Ok <==> header_ok(input@),
            ({
                let s = input@;
                let e = line_break(s, 0);
                &&& (r == Err::<(usize, usize, Objective, usize), ParseError>(ParseError::Syntax)
                    ==> !has_tok(s, 0, e, 0) || !has_tok(s, 0, e, 1) || !(has_tok(s, 0, e, 2)
                    && tok_hi(s, 0, e, 2) == tok_lo(s, 0, e, 2) + 1 && (s[tok_lo(s, 0, e, 2)] == 43
                    || s[tok_lo(s, 0, e, 2)] == 45)))
                &&& (r == Err::<(usize, usize, Objective, usize), ParseError>(ParseError::Num)
                    ==> !(tok_ok_i64(s, 0, e, 0) && 0 <= tok_i64(s, 0, e, 0) <= usize::MAX) || !(
                    tok_ok_i64(s, 0, e, 1) && 0 <= tok_i64(s, 0, e, 1) <= usize::MAX))
            }),
            r matches Ok(x) ==> ({
                let s = input@;
                let e = line_break(s, 0);
                &&& x.0 as int == tok_i64(s, 0, e, 0)
                &&& x.1 as int == tok_i64(s, 0, e, 1)
                &&& (x.2 == Objective::Maximize <==> s[tok_lo(s, 0, e, 2)] == 43)
                &&& x.3 as int == next_line(s, 0)
                &&& x.3 <= input@.len()
            }),
    {
        let ghost s = input@;
        let end = find_line_end(input, 0);
        let ghost e = end as int;
        let mut pos: usize = 0;
        proof {
            assert(tok_cursor(s, 0, e, 0) == 0);
        }
        let n = match Self::parse_next(input, &mut pos, end) {
            Ok(v) => v,
            Err(er) => {
                return Err(er);
            },
        };
        proof {
            assert(tok_cursor(s, 0, e, 1) == scan_token(s, skip_ws(s, 0, e), e));
            assert(pos as int == tok_cursor(s, 0, e, 1));
        }
        let m = match Self::parse_next(input, &mut pos, end) {
            Ok(v) => v,
            Err(er) => {
                return Err(er);
            },
        };
        proof {
            assert(tok_cursor(s, 0, e, 2) == scan_token(
                s,
                skip_ws(s, tok_cursor(s, 0, e, 1), e),
                e,
            ));
            assert(pos as int == tok_cursor(s, 0, e, 2));
        }
        if n < 0 || m < 0 {
            return Err(ParseError::Num);
        }
        if (n as u64) > (usize::MAX as u64) || (m as u64) > (usize::MAX as u64) {
            return Err(ParseError::Num);
        }
        let (a, b) = next_token(input, pos, end);
        if b - a != 1 {
            return Err(ParseError::Syntax);
        }
        let objective = if input[a] == 43 {
            Objective::Maximize
        } else if input[a] == 45 {
            Objective::Minimize
        } else {
            return Err(ParseError::Syntax);
        };
        let next_start = if end < input.len() {
            end + 1
        } else {
            end
        };
        Ok((n as usize, m as usize, objective, next_start))
    }

    /// Reads the objective line: one coefficient per decision variable.
    /// Succeeds exactly when the line holds that many integer tokens, and
    /// then returns exactly their values, with the cursor at the start of
    /// the next line; on failure the cursor is unchanged.
    #[verifier::loop_isolation(false)]
    fn read_objective(input: &Vec<u8>, dimension: usize, pos: &mut usize) -> (r: Result<
        Vec<i64>,
        ParseError,
    >)
        requires
            *old(pos) <= input@.len(),
        ensures
            *final(pos) <= input@.len(),
            ({
                let s = input@;
                let p0 = *old(pos) as int;
                let e = line_break(s, p0);
                &&& (r is Ok <==> forall|k: int|
                    0 <= k < dimension ==> #[trigger] tok_ok_i64(s, p0, e, k as nat))
                &&& (r matches Ok(f) ==> {
                    &&& f@.len() == dimension
                    &&& forall|k: int|
                        0 <= k < dimension ==> (#[trigger] f@[k]) as int == tok_i64(
                            s,
                            p0,
                            e,
                            k as nat,
                        )
                    &&& *final(pos) as int == next_line(s, p0)
                })
                &&& (r is Err ==> *final(pos) == *old(pos))
                &&& (r == Err::<Vec<i64>, ParseError>(ParseError::Syntax) ==> exists|k: int|
                    0 <= k < dimension && !(#[trigger] has_tok(s, p0, e, k as nat)))
                &&& (r == Err::<Vec<i64>, ParseError>(ParseError::Num) ==> exists|k: int|
                    0 <= k < dimension && #[trigger] has_tok(s, p0, e, k as nat) && !(is_int_token(
                        tok_seq(s, p0, e, k as nat),
                    ) && i64::MIN <= token_val(tok_seq(s, p0, e, k as nat)) <= i64::MAX))
            }),
    {
        let ghost s = input@;
        let ghost p0 = *pos as int;
        let end = find_line_end(input, *pos);
        let ghost e = end as int;
        let mut cur = *pos;
        let mut coefficients: Vec<i64> = Vec::new();
        let mut k: usize = 0;
        proof {
            assert(tok_cursor(s, p0, e, 0) == p0);
        }
        while k < dimension
            invariant
                cur <= end <= input@.len(),
                k <= dimension,
                coefficients@.len() == k,
                cur as int == tok_cursor(s, p0, e, k as nat),
                forall|k2: int| 0 <= k2 < k ==> #[trigger] tok_ok_i64(s, p0, e, k2 as nat),
                forall|k2: int|
                    0 <= k2 < k ==> (#[trigger] coefficients@[k2]) as int == tok_i64(
                        s,
                        p0,
                        e,
                        k2 as nat,
                    ),
            decreases dimension - k,
        {
            proof {
                assert(tok_cursor(s, p0, e, (k + 1) as nat) == scan_token(
                    s,
                    skip_ws(s, tok_cursor(s, p0, e, k as nat), e),
                    e,
                ));
            }
            let v = match Self::parse_next(input, &mut cur, end) {
                Ok(v) => v,
                Err(er) => {
                    proof {
                        let kk = k as int;
                        assert(!tok_ok_i64(s, p0, e, kk as nat));
                    }
                    return Err(er);
                },
            };
            coefficients.push(v);
            k += 1;
        }
        *pos = if end < input.len() {
            end + 1
        } else {
            end
        };
        Ok(coefficients)
    }

    /// Reads all constraint lines.  Succeeds exactly when every line is well
    /// formed, and then returns exactly their values, with the cursor past
    /// the last line.
    #[verifier::loop_isolation(false)]
    fn read_constraints(
        input: &Vec<u8>,
        dimension: usize,
        constraints_size: usize,
        pos: &mut usize,
    ) -> (r: Result<Vec<Constraint>, ParseError>)
        requires
            *old(pos) <= input@.len(),
        ensures
            *final(pos) <= input@.len(),
            ({
                let s = input@;
                let p0 = *old(pos) as int;
                &&& (r is Ok <==> forall|i: int|
                    0 <= i < constraints_size ==> constraint_line_ok(
                        s,
                        #[trigger] cons_cursor(s, p0, i as nat),
                        dimension as int,
                    ))
                &&& (r matches Ok(cs) ==> {
                    &&& cs@.len() == constraints_size
                    &&& forall|i: int|
                        0 <= i < constraints_size ==> matches_line(
                            s,
                            cons_cursor(s, p0, i as nat),
                            dimension as int,
                            #[trigger] cs@[i],
                        )
                    &&& *final(pos) as int == cons_cursor(s, p0, constraints_size as nat)
                })
            }),
    {
        let ghost s = input@;
        let ghost p0 = *pos as int;
        let mut constraints: Vec<Constraint> = Vec::new();
        let mut i: usize = 0;
        proof {
            assert(cons_cursor(s, p0, 0) == p0);
        }
        while i < constraints_size
            invariant
                *pos <= input@.len(),
                i <= constraints_size,
                constraints@.len() == i,
                *pos as int == cons_cursor(s, p0, i as nat),
                forall|i2: int|
                    0 <= i2 < i ==> constraint_line_ok(
                        s,
                        #[trigger] cons_cursor(s, p0, i2 as nat),
                        dimension as int,
                    ),
                forall|i2: int|
                    0 <= i2 < i ==> matches_line(
                        s,
                        cons_cursor(s, p0, i2 as nat),
                        dimension as int,
                        #[trigger] constraints@[i2],
                    ),
            decreases constraints_size - i,
        {
            proof {
                assert(cons_cursor(s, p0, (i + 1) as nat) == next_line(
                    s,
                    cons_cursor(s, p0, i as nat),
                ));
            }
            let c = match Self::read_constraint(input, dimension, pos) {
                Ok(c) => c,
                Err(er) => {
                    proof {
                        let ii = i as int;
                        assert(!constraint_line_ok(
                            s,
                            cons_cursor(s, p0, ii as nat),
                            dimension as int,
                        ));
                    }
                    return Err(er);
                },
            };
            constraints.push(c);
            i += 1;
        }
        Ok(constraints)
    }

    /// Reads one constraint line: the coefficients, the relation token, and
    /// the right-hand side.  Succeeds exactly when the line is well formed,
    /// and then returns exactly its values, with the cursor at the start of
    /// the next line; on failure the cursor is unchanged.
    #[verifier::loop_isolation(false)]
    fn read_constraint(input: &Vec<u8>, dimension: usize, pos: &mut usize) -> (r: Result<
        Constraint,
        ParseError,
    >)
        requires
            *old(pos) <= input@.len(),
        ensures
            *final(pos) <= input@.len(),
            ({
                let s = input@;
                let p0 = *old(pos) as int;
                &&& (r is Ok <==> constraint_line_ok(s, p0, dimension as int))
                &&& (r matches Ok(c) ==> matches_line(s, p0, dimension as int, c) && *final(pos)
                    as int == next_line(s, p0))
                &&& (r is Err ==> *final(pos) == *old(pos))
                &&& ({
                    let e = line_break(s, p0);
                    &&& (r == Err::<Constraint, ParseError>(ParseError::Syntax) ==> (exists|k: int|
                        0 <= k <= dimension + 1 && !(#[trigger] has_tok(s, p0, e, k as nat)))
                        || spec_relation(tok_seq(s, p0, e, dimension as nat)) is None)
                    &&& (r == Err::<Constraint, ParseError>(ParseError::Num) ==> exists|k: int|
                        0 <= k <= dimension + 1 && #[trigger] has_tok(s, p0, e, k as nat) && !(
                        is_int_token(tok_seq(s, p0, e, k as nat)) && i64::MIN <= token_val(
                            tok_seq(s, p0, e, k as nat),
                        ) <= i64::MAX))
                })
            }),
    {
        let ghost s = input@;
        let ghost p0 = *pos as int;
        let end = find_line_end(input, *pos);
        let ghost e = end as int;
        let mut cur = *pos;
        let mut lhs: Vec<i64> = Vec::new();
        let mut k: usize = 0;
        proof {
            assert(tok_cursor(s, p0, e, 0) == p0);
        }
        while k < dimension
            invariant
                cur <= end <= input@.len(),
                k <= dimension,
                lhs@.len() == k,
                cur as int == tok_cursor(s, p0, e, k as nat),
                forall|k2: int| 0 <= k2 < k ==> #[trigger] tok_ok_i64(s, p0, e, k2 as nat),
                forall|k2: int|
                    0 <= k2 < k ==> (#[trigger] lhs@[k2]) as int == tok_i64(s, p0, e, k2 as nat),
            decreases dimension - k,
        {
            proof {
                assert(tok_cursor(s, p0, e, (k + 1) as nat) == scan_token(
                    s,
                    skip_ws(s, tok_cursor(s, p0, e, k as nat), e),
                    e,
                ));
            }
            let v = match Self::parse_next(input, &mut cur, end) {
                Ok(v) => v,
                Err(er) => {
                    proof {
                        let kk = k as int;
                        assert(!tok_ok_i64(s, p0, e, kk as nat));
                        if er == ParseError::Syntax {
                            assert(!has_tok(s, p0, e, kk as nat));
                        } else {
                            assert(has_tok(s, p0, e, kk as nat) && !(is_int_token(
                                tok_seq(s, p0, e, kk as nat),
                            ) && i64::MIN <= token_val(tok_seq(s, p0, e, kk as nat)) <= i64::MAX));
                        }
                    }
                    return Err(er);
                },
            };
            lhs.push(v);
            k += 1;
        }
        let (a, b) = next_token(input, cur, end);
        proof {
            assert(a as int == tok_lo(s, p0, e, dimension as nat));
            assert(b as int == tok_hi(s, p0, e, dimension as nat));
        }
        let ghost rt = tok_seq(s, p0, e, dimension as nat);
        let tl = b - a;
        proof {
            assert(rt.len() == b - a);
            if tl == 1 {
                assert(rt[0] == s[a as int]);
            }
            if tl == 2 {
                assert(rt[0] == s[a as int]);
                assert(rt[1] == s[a + 1]);
            }
            assert(seq![61u8].len() == 1 && seq![61u8][0] == 61u8);
            assert(seq![60u8, 61u8].len() == 2 && seq![60u8, 61u8][0] == 60u8 && seq![60u8, 61u8][1]
                == 61u8);
            assert(seq![62u8, 61u8].len() == 2 && seq![62u8, 61u8][0] == 62u8 && seq![62u8, 61u8][1]
                == 61u8);
        }
        let relation = if tl == 1 && input[a] == 61 {
            proof {
                assert(rt =~= seq![61u8]);
            }
            Relation::Eq
        } else if tl == 2 && input[a] == 60 && input[a + 1] == 61 {
            proof {
                assert(rt =~= seq![60u8, 61u8]);
            }
            Relation::Le
        } else if tl == 2 && input[a] == 62 && input[a + 1] == 61 {
            proof {
                assert(rt =~= seq![62u8, 61u8]);
            }
            Relation::Ge
        } else {
            proof {
                assert(spec_relation(rt) is None) by {
                    if rt == seq![61u8] {
                        assert(rt.len() == 1 && rt[0] == 61u8);
                    }
                    if rt == seq![60u8, 61u8] {
                        assert(rt.len() == 2 && rt[0] == 60u8 && rt[1] == 61u8);
                    }
                    if rt == seq![62u8, 61u8] {
                        assert(rt.len() == 2 && rt[0] == 62u8 && rt[1] == 61u8);
                    }
                }
            }
            return Err(ParseError::Syntax);
        };
        let mut cur2 = b;
        proof {
            assert(tok_cursor(s, p0, e, (dimension + 1) as nat) == scan_token(
                s,
                skip_ws(s, tok_cursor(s, p0, e, dimension as nat), e),
                e,
            ));
            assert(cur2 as int == tok_cursor(s, p0, e, (dimension + 1) as nat));
            assert(tok_cursor(s, p0, e, (dimension + 2) as nat) == scan_token(
                s,
                skip_ws(s, tok_cursor(s, p0, e, (dimension + 1) as nat), e),
                e,
            ));
        }
        let rhs = match Self::parse_next(input, &mut cur2, end) {
            Ok(v) => v,
            Err(er) => {
                proof {
                    let kk = (dimension + 1) as nat;
                    assert(!tok_ok_i64(s, p0, e, kk));
                    if er == ParseError::Syntax {
                        assert(!has_tok(s, p0, e, kk));
                        assert(0 <= dimension + 1 <= dimension + 1 && !has_tok(s, p0, e, kk));
                    } else {
                        assert(has_tok(s, p0, e, kk) && !(is_int_token(tok_seq(s, p0, e, kk))
                            && i64::MIN <= token_val(tok_seq(s, p0, e, kk)) <= i64::MAX));
                    }
                }
                return Err(er);
            },
        };
        *pos = if end < input.len() {
            end + 1
        } else {
            end
        };
        Ok(Constraint::new(lhs, relation, rhs))
    }
}

} // verus!

use vstd::prelude::*;
use vstd::string::*;
use vstd::utf8::encode_utf8;
use crate::cnf::{CnfSat, SatModel, witness_values};
use crate::backbone::EvaluationResult;

verus! {

/// Blank bytes between tokens.
pub open spec fn is_ws(b: u8) -> bool {
    b == 32 || b == 9 || b == 10 || b == 11 || b == 12 || b == 13
}

pub open spec fn is_digit(b: u8) -> bool {
    48 <= b <= 57
}

/// The number written by the decimal digits `d`.
pub open spec fn digits_val(d: Seq<u8>) -> int
    decreases d.len(),
{
    if d.len() == 0 {
        0
    } else {
        10 * digits_val(d.drop_last()) + (d.last() - 48)
    }
}

pub open spec fn all_digits(d: Seq<u8>) -> bool {
    d.len() > 0 && forall|i: int| 0 <= i < d.len() ==> is_digit(d[i])
}

/// The value of a token: an optional sign and decimal digits, within `i64`.
pub open spec fn token_value(tok: Seq<u8>) -> Option<int> {
    let neg = tok.len() > 0 && tok[0] == 45;
    let digits = if tok.len() > 0 && (tok[0] == 45 || tok[0] == 43) {
        tok.drop_first()
    } else {
        tok
    };
    let v = if neg {
        -digits_val(digits)
    } else {
        digits_val(digits)
    };
    if all_digits(digits) && i64::MIN <= v <= i64::MAX {
        Some(v)
    } else {
        None
    }
}

/// Adds one token's value to the literals read so far; a zero adds nothing,
/// a malformed token spoils the whole witness.
pub open spec fn add_token(acc: Option<Seq<int>>, tok: Seq<u8>) -> Option<Seq<int>> {
    match (acc, token_value(tok)) {
        (Some(s), Some(v)) => Some(if v == 0 { s } else { s.push(v) }),
        _ => None,
    }
}

/// The end of the token that starts at `i` (it ends before `end`).
pub open spec fn token_end(t: Seq<u8>, i: int, end: int) -> int
    decreases end - i,
{
    if i >= end || is_ws(t[i]) {
        i
    } else {
        token_end(t, i + 1, end)
    }
}

/// Reads the tokens of `t` from `i` to `end` into `acc`.
pub open spec fn scan_tokens(t: Seq<u8>, i: int, end: int, acc: Option<Seq<int>>) -> Option<
    Seq<int>,
>
    decreases end - i,
{
    if i >= end {
        acc
    } else if is_ws(t[i]) {
        scan_tokens(t, i + 1, end, acc)
    } else {
        let k = token_end(t, i, end);
        if k <= i || k > end {
            acc
        } else {
            scan_tokens(t, k, end, add_token(acc, t.subrange(i, k)))
        }
    }
}

/// The bytes of `UNSATISFIABLE`.
pub open spec fn unsat_marker() -> Seq<u8> {
    seq![85u8, 78, 83, 65, 84, 73, 83, 70, 73, 65, 66, 76, 69]
}

/// The text of `t` from `i` to `end` holds the unsatisfiable marker.
pub open spec fn has_unsat(t: Seq<u8>, i: int, end: int) -> bool {
    exists|k: int| i <= k && k + 13 <= end && #[trigger] t.subrange(k, k + 13) == unsat_marker()
}

/// The end of the line that starts at `i`: the next newline, or the end of `t`.
pub open spec fn line_end(t: Seq<u8>, i: int) -> int
    decreases t.len() - i,
{
    if i >= t.len() || i < 0 || t[i] == 10 {
        i
    } else {
        line_end(t, i + 1)
    }
}

/// What a line from `i` to `e` adds to what was read. The status is `None`
/// until a status line (`s`) is seen, then `Some(false)` once any status line
/// holds the unsatisfiable marker, `Some(true)` while none does; a value line
/// (`v`) adds the tokens after its first two bytes.
pub open spec fn apply_line(t: Seq<u8>, i: int, e: int, st: (Option<bool>, Option<Seq<int>>)) -> (
    Option<bool>,
    Option<Seq<int>>,
) {
    if i < e && t[i] == 115 {
        (Some(st.0 != Some(false) && !has_unsat(t, i, e)), st.1)
    } else if i < e && t[i] == 118 {
        (st.0, scan_tokens(t, i + 2, e, st.1))
    } else {
        st
    }
}

/// Reads the lines of `t` from `i` on.
pub open spec fn scan_lines(t: Seq<u8>, i: int, st: (Option<bool>, Option<Seq<int>>)) -> (
    Option<bool>,
    Option<Seq<int>>,
)
    decreases t.len() + 1 - i,
{
    if i >= t.len() || i < 0 {
        st
    } else {
        let e = line_end(t, i);
        if e < i || e > t.len() {
            st
        } else {
            scan_lines(t, e + 1, apply_line(t, i, e, st))
        }
    }
}

/// The oracle's answer in `t`: satisfiable when there is a status line and
/// none holds the unsatisfiable marker (an absent or mixed status reads as
/// unsatisfiable); and the witness literals of all value lines, if all are well formed.
pub open spec fn read_outcome(t: Seq<u8>) -> (bool, Option<Seq<int>>) {
    let st = scan_lines(t, 0, (None, Some(seq![])));
    (st.0 == Some(true), st.1)
}

/// Once a witness is spoiled, it stays spoiled.
pub proof fn lemma_spoiled_stays(t: Seq<u8>, i: int, end: int)
    ensures
        scan_tokens(t, i, end, None) is None,
    decreases end - i,
{
    if i < end {
        if is_ws(t[i]) {
            lemma_spoiled_stays(t, i + 1, end);
        } else {
            let k = token_end(t, i, end);
            if k > i && k <= end {
                lemma_spoiled_stays(t, k, end);
            }
        }
    }
}

const SIGN_LIMIT: u128 = 9223372036854775808;

/// Reads the token `t[i..k]`.
fn parse_token(t: &[u8], i: usize, k: usize) -> (r: Option<i64>)
    requires
        i < k <= t@.len(),
    ensures
        r matches Some(v) ==> token_value(t@.subrange(i as int, k as int)) == Some(v as int),
        r is None ==> token_value(t@.subrange(i as int, k as int)) is None,
{
    let ghost tok = t@.subrange(i as int, k as int);
    let neg = t[i] == 45;
    let j: usize = if t[i] == 45 || t[i] == 43 { i + 1 } else { i };
    let ghost ds = t@.subrange(j as int, k as int);
    assert(tok[0] == t@[i as int]);
    assert(j == i + 1 ==> tok.drop_first() =~= ds);
    assert(j == i ==> tok =~= ds);
    if j >= k {
        assert(ds.len() == 0);
        assert(tok.len() > 0 && (tok[0] == 45 || tok[0] == 43));
        assert(tok.drop_first() =~= ds);
        assert(!all_digits(tok.drop_first()));
        assert(token_value(tok) is None);
        return None;
    }
    assert(!all_digits(ds) ==> token_value(tok) is None);
    assert(all_digits(ds) ==> token_value(tok) == (if i64::MIN <= (if neg {
        -digits_val(ds)
    } else {
        digits_val(ds)
    }) <= i64::MAX {
        Some(if neg { -digits_val(ds) } else { digits_val(ds) })
    } else {
        None
    }));
    let mut acc: u128 = 0;
    let mut big = false;
    let mut p: usize = j;
    assert(t@.subrange(j as int, j as int) =~= Seq::<u8>::empty());
    while p < k
        invariant
            j <= p <= k <= t@.len(),
            ds == t@.subrange(j as int, k as int),
            tok == t@.subrange(i as int, k as int),
            !all_digits(ds) ==> token_value(tok) is None,
            all_digits(ds) ==> token_value(tok) == (if i64::MIN <= (if neg {
                -digits_val(ds)
            } else {
                digits_val(ds)
            }) <= i64::MAX {
                Some(if neg { -digits_val(ds) } else { digits_val(ds) })
            } else {
                None
            }),
            forall|q: int| j <= q < p ==> is_digit(t@[q]),
            !big ==> acc == digits_val(t@.subrange(j as int, p as int)),
            !big ==> acc <= SIGN_LIMIT,
            big ==> digits_val(t@.subrange(j as int, p as int)) > SIGN_LIMIT,
            digits_val(t@.subrange(j as int, p as int)) >= 0,
        decreases k - p,
    {
        let b = t[p];
        if b < 48 || b > 57 {
            assert(ds[p - j] == b);
            return None;
        }
        let ghost pre = t@.subrange(j as int, p as int);
        assert(t@.subrange(j as int, p + 1).drop_last() =~= pre);
        assert(digits_val(t@.subrange(j as int, p + 1)) == 10 * digits_val(pre) + (b - 48));
        if !big {
            let next = acc * 10 + (b - 48) as u128;
            if next > SIGN_LIMIT {
                big = true;
            } else {
                acc = next;
            }
        }
        p = p + 1;
    }
    assert(t@.subrange(j as int, k as int) =~= ds);
    assert(all_digits(ds));
    if big {
        return None;
    }
    if neg {
        if acc == SIGN_LIMIT {
            Some(i64::MIN)
        } else {
            Some(-(acc as i64))
        }
    } else if acc < SIGN_LIMIT {
        Some(acc as i64)
    } else {
        None
    }
}

/// The integers of `v`.
pub open spec fn ints(v: Seq<i64>) -> Seq<int> {
    v.map_values(|x: i64| x as int)
}

/// Reads the tokens of `t[i..end]`, adding the nonzero values to `lits`;
/// `false` when a token is malformed.
fn read_tokens(t: &[u8], i: usize, end: usize, lits: &mut Vec<i64>) -> (ok: bool)
    requires
        i <= end <= t@.len(),
    ensures
        ok ==> scan_tokens(t@, i as int, end as int, Some(ints(old(lits)@))) == Some(
            ints(final(lits)@),
        ),
        !ok ==> scan_tokens(t@, i as int, end as int, Some(ints(old(lits)@))) is None,
{
    let mut p: usize = i;
    while p < end
        invariant
            i <= p <= end <= t@.len(),
            scan_tokens(t@, i as int, end as int, Some(ints(old(lits)@))) == scan_tokens(
                t@,
                p as int,
                end as int,
                Some(ints(lits@)),
            ),
        decreases end - p,
    {
        let b = t[p];
        if b == 32 || b == 9 || b == 10 || b == 11 || b == 12 || b == 13 {
            p = p + 1;
        } else {
            let mut k: usize = p + 1;
            while k < end && !(t[k] == 32 || t[k] == 9 || t[k] == 10 || t[k] == 11 || t[k] == 12
                || t[k] == 13)
                invariant
                    p < k <= end <= t@.len(),
                    token_end(t@, p as int, end as int) == token_end(t@, k as int, end as int),
                decreases end - k,
            {
                k = k + 1;
            }
            let ghost before = lits@;
            match parse_token(t, p, k) {
                None => {
                    proof {
                        lemma_spoiled_stays(t@, k as int, end as int);
                    }
                    return false;
                },
                Some(v) => {
                    if v != 0 {
                        lits.push(v);
                        assert(ints(lits@) =~= ints(before).push(v as int));
                    }
                },
            }
            p = k;
        }
    }
    true
}

/// Whether `t[i..e]` holds the unsatisfiable marker.
fn find_unsat(t: &[u8], i: usize, e: usize) -> (r: bool)
    requires
        i <= e <= t@.len(),
    ensures
        r == has_unsat(t@, i as int, e as int),
{
    if e < 13 {
        return false;
    }
    let mut k: usize = i;
    while k <= e - 13
        invariant
            i <= k,
            13 <= e <= t@.len(),
            forall|q: int| i <= q < k ==> #[trigger] t@.subrange(q, q + 13) != unsat_marker(),
        decreases e - k,
    {
        if t[k] == 85 && t[k + 1] == 78 && t[k + 2] == 83 && t[k + 3] == 65 && t[k + 4] == 84
            && t[k + 5] == 73 && t[k + 6] == 83 && t[k + 7] == 70 && t[k + 8] == 73 && t[k + 9]
            == 65 && t[k + 10] == 66 && t[k + 11] == 76 && t[k + 12] == 69 {
            assert(t@.subrange(k as int, k + 13) =~= unsat_marker());
            return true;
        }
        assert(t@.subrange(k as int, k + 13)[0] == t@[k as int]);
        assert(t@.subrange(k as int, k + 13) != unsat_marker()) by {
            let w = t@.subrange(k as int, k + 13);
            let m = unsat_marker();
            if w == m {
                assert(w[1] == m[1] && w[2] == m[2] && w[3] == m[3] && w[4] == m[4]);
                assert(w[5] == m[5] && w[6] == m[6] && w[7] == m[7] && w[8] == m[8]);
                assert(w[9] == m[9] && w[10] == m[10] && w[11] == m[11] && w[12] == m[12]);
            }
        }
        k = k + 1;
    }
    false
}

/// Reads an oracle answer: the status and the witness literals, `None` for
/// the literals when a value token is malformed.
pub fn read_answer(t: &[u8]) -> (r: (bool, Option<Vec<i64>>))
    ensures
        r.0 == read_outcome(t@).0,
        r.1 is None <==> read_outcome(t@).1 is None,
        r.1 matches Some(v) ==> read_outcome(t@).1 == Some(ints(v@)),
{
    let n = t.len();
    let mut status: Option<bool> = None;
    let mut lits: Vec<i64> = Vec::new();
    let mut ok = true;
    let mut i: usize = 0;
    assert(ints(lits@) =~= seq![]);
    while i < n
        invariant
            n == t@.len(),
            i <= n,
            scan_lines(t@, 0, (None, Some(seq![]))) == scan_lines(
                t@,
                i as int,
                (status, if ok { Some(ints(lits@)) } else { None }),
            ),
        decreases n - i,
    {
        let mut e: usize = i;
        while e < n && t[e] != 10
            invariant
                i <= e <= n,
                n == t@.len(),
                line_end(t@, i as int) == line_end(t@, e as int),
            decreases n - e,
        {
            e = e + 1;
        }
        assert(line_end(t@, e as int) == e as int);
        let ghost st = (status, if ok { Some(ints(lits@)) } else { None });
        let ghost st2 = apply_line(t@, i as int, e as int, st);
        assert(scan_lines(t@, 0, (None, Some(seq![]))) == scan_lines(t@, e + 1, st2));
        if t[i] == 115 {
            let clean = !find_unsat(t, i, e);
            status = Some(status != Some(false) && clean);
        } else if t[i] == 118 && ok && e - i > 2 {
            ok = read_tokens(t, i + 2, e, &mut lits);
        } else if t[i] == 118 && !ok && e - i > 2 {
            proof {
                lemma_spoiled_stays(t@, i + 2, e as int);
            }
        }
        assert(st2 == (status, if ok { Some(ints(lits@)) } else { None }));
        if e < n {
            i = e + 1;
        } else {
            i = n;
        }
    }
    (status == Some(true), if ok { Some(lits) } else { None })
}

/// Why an oracle answer yields no model.
#[derive(PartialEq, Eq, Structural, Clone, Copy, Debug)]
pub enum AnswerError {
    /// The answer reports no solution, or has no satisfiable status line.
    Unsatisfiable,
    /// A value line holds a token that is not an `i64`.
    MalformedLiteral,
    /// A witness literal names a variable that is not declared.
    UnknownVariable,
}

/// The variable and value a nonzero witness literal stands for.
pub open spec fn literal_pair(v: int) -> (usize, bool) {
    ((if v < 0 { -v - 1 } else { v - 1 }) as usize, v > 0)
}

/// Every literal names one of `n` variables.
pub open spec fn known_ids(lits: Seq<int>, n: nat) -> bool {
    forall|i: int| 0 <= i < lits.len() ==> lits[i] != 0 && -n <= #[trigger] lits[i] <= n
}

/// The model that the answer `t` gives over `n` variables.
pub open spec fn answer_model(t: Seq<u8>, n: nat) -> Result<Seq<Option<bool>>, AnswerError> {
    let (sat, lits) = read_outcome(t);
    match lits {
        None => Err(AnswerError::MalformedLiteral),
        Some(l) => if !sat {
            Err(AnswerError::Unsatisfiable)
        } else if !known_ids(l, n) {
            Err(AnswerError::UnknownVariable)
        } else {
            Ok(witness_values(n, l.map_values(|v: int| literal_pair(v))))
        },
    }
}

impl CnfSat {
    /// Reads the oracle's answer to this clause set.
    pub fn result_from_dimacs(&self, dimacs: &str) -> (r: Result<SatModel, AnswerError>)
        requires
            self.wf(),
        ensures
            r matches Ok(m) ==> m.wf() && m.names() == self.names() && answer_model(
                dimacs.spec_bytes(),
                self.names().len(),
            ) == Ok::<Seq<Option<bool>>, AnswerError>(m.values()),
            r matches Err(e) ==> answer_model(dimacs.spec_bytes(), self.names().len()) == Err::<
                Seq<Option<bool>>,
                AnswerError,
            >(e),
    {
        let t = dimacs.as_bytes();
        let (satisfiable, lits) = read_answer(t);
        let lits = match lits {
            None => return Err(AnswerError::MalformedLiteral),
            Some(l) => l,
        };
        if !satisfiable {
            return Err(AnswerError::Unsatisfiable);
        }
        let n = self.variable_count();
        let ghost l = ints(lits@);
        let mut pairs: Vec<(usize, bool)> = Vec::new();
        let mut i: usize = 0;
        while i < lits.len()
            invariant
                l == ints(lits@),
                read_outcome(t@) == (true, Some(l)),
                t@ == dimacs.spec_bytes(),
                n == self.names().len(),
                i <= lits@.len(),
                pairs@ == l.take(i as int).map_values(|v: int| literal_pair(v)),
                known_ids(l.take(i as int), n as nat),
                forall|k: int| 0 <= k < pairs@.len() ==> #[trigger] pairs@[k].0 < n,
            decreases lits@.len() - i,
        {
            let v = lits[i];
            let mag: u128 = if v < 0 { (-(v as i128)) as u128 } else { v as u128 };
            if v == 0 || mag > n as u128 {
                assert(l[i as int] == v);
                assert(!known_ids(l, n as nat));
                assert(read_outcome(t@).1 == Some(l));
                assert(answer_model(t@, n as nat) == Err::<Seq<Option<bool>>, AnswerError>(
                    AnswerError::UnknownVariable,
                ));
                return Err(AnswerError::UnknownVariable);
            }
            let id = (mag - 1) as usize;
            pairs.push((id, v > 0));
            assert(l.take(i + 1) =~= l.take(i as int).push(v as int));
            assert(pairs@ =~= l.take(i + 1).map_values(|v: int| literal_pair(v)));
            i = i + 1;
        }
        assert(l.take(lits@.len() as int) =~= l);
        Ok(SatModel::from_vec(self, &pairs))
    }
}

/// The outcome of one oracle call whose answer `dimacs` took `time_micros`:
/// satisfiable with its model, or unsatisfiable; an error when the answer is unreadable.
pub fn evaluation_from_answer(sat: &CnfSat, dimacs: String, time_micros: u64) -> (r: Result<
    EvaluationResult,
    AnswerError,
>)
    requires
        sat.wf(),
    ensures
        answer_model(encode_utf8(dimacs@), sat.names().len()) matches Ok(values) ==> (
        r matches Ok(EvaluationResult::Sat { dimacs: d, model, time_micros: t }) && d@ == dimacs@
            && t == time_micros && model.values() == values && model.names() == sat.names()),
        answer_model(encode_utf8(dimacs@), sat.names().len()) == Err::<
            Seq<Option<bool>>,
            AnswerError,
        >(AnswerError::Unsatisfiable) ==> (r matches Ok(
            EvaluationResult::Unsat { dimacs: d, time_micros: t },
        ) && d@ == dimacs@ && t == time_micros),
        answer_model(encode_utf8(dimacs@), sat.names().len()) matches Err(e) ==> (e
            != AnswerError::Unsatisfiable ==> r == Err::<EvaluationResult, AnswerError>(e)),
{
    match sat.result_from_dimacs(dimacs.as_str()) {
        Ok(model) => Ok(EvaluationResult::Sat { dimacs, model, time_micros }),
        Err(AnswerError::Unsatisfiable) => Ok(EvaluationResult::Unsat { dimacs, time_micros }),
        Err(e) => Err(e),
    }
}

} // verus!

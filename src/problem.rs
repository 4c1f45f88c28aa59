use vstd::prelude::*;
use crate::cnf::{CnfClause, CnfSat, set_literal, clause_in_range, mentions};
use crate::dimacs::{dec, digit_char, append_decimal};

verus! {

/// A nonzero literal of a problem over `n` variables.
pub open spec fn literal_in_range(l: i64, n: nat) -> bool {
    l != 0 && -n <= l <= n
}

/// The clause that the signed 1-based literals `ls` describe, a later literal
/// on the same variable overriding an earlier one.
pub open spec fn clause_of(ls: Seq<i64>) -> Seq<(usize, bool)>
    decreases ls.len(),
{
    if ls.len() == 0 {
        seq![]
    } else {
        let l = ls.last();
        set_literal(
            clause_of(ls.drop_last()),
            (if l < 0 { -l - 1 } else { l - 1 }) as usize,
            l > 0,
        )
    }
}

proof fn lemma_dec_nonempty(n: nat)
    ensures
        dec(n).len() >= 1,
    decreases n,
{
    if n >= 10 {
        lemma_dec_nonempty(n / 10);
    }
}

proof fn lemma_digit_injective(a: nat, b: nat)
    requires
        a < 10,
        b < 10,
        digit_char(a) == digit_char(b),
    ensures
        a == b,
{
}

/// Distinct numbers have distinct decimal notations.
pub proof fn lemma_dec_injective(a: nat, b: nat)
    requires
        dec(a) == dec(b),
    ensures
        a == b,
    decreases a,
{
    if a < 10 && b < 10 {
        assert(dec(a) == seq![digit_char(a)]);
        assert(dec(b) == seq![digit_char(b)]);
        assert(dec(a)[0] == dec(b)[0]);
        assert(seq![digit_char(a)][0] == digit_char(a));
        assert(seq![digit_char(b)][0] == digit_char(b));
        lemma_digit_injective(a, b);
    } else if a < 10 {
        lemma_dec_nonempty(b / 10);
        assert(dec(b).len() >= 2);
    } else if b < 10 {
        lemma_dec_nonempty(a / 10);
        assert(dec(a).len() >= 2);
    } else {
        assert(dec(a) == dec(a / 10).push(digit_char(a % 10)));
        assert(dec(b) == dec(b / 10).push(digit_char(b % 10)));
        let la = dec(a / 10).push(digit_char(a % 10));
        let lb = dec(b / 10).push(digit_char(b % 10));
        assert(la.last() == digit_char(a % 10));
        assert(lb.last() == digit_char(b % 10));
        assert(digit_char(a % 10) == digit_char(b % 10));
        lemma_digit_injective(a % 10, b % 10);
        assert(a % 10 == b % 10);
        assert(dec(a).drop_last() =~= dec(a / 10));
        assert(dec(b).drop_last() =~= dec(b / 10));
        lemma_dec_injective(a / 10, b / 10);
        assert(a == 10 * (a / 10) + a % 10);
        assert(b == 10 * (b / 10) + b % 10);
    }
}

/// The clause set of a problem over `variable_count` variables named by their
/// 0-based ids in decimal, with one clause per literal list, and the ids of the
/// variables; `None` when a clause is empty, or a literal is zero or names no variable.
pub fn dimacs_to_sat(variable_count: usize, clauses: &Vec<Vec<i64>>) -> (r: Option<(CnfSat, Vec<usize>)>)
    requires
        variable_count < usize::MAX,
    ensures
        r is None <==> (exists|k: int, j: int|
            0 <= k < clauses@.len() && 0 <= j < clauses@[k]@.len() && !literal_in_range(
                #[trigger] clauses@[k]@[j],
                variable_count as nat,
            )) || (exists|k: int| 0 <= k < clauses@.len() && #[trigger] clauses@[k]@.len() == 0),
        r matches Some((sat, vars)) ==> {
            &&& sat.wf()
            &&& sat.names() == Seq::new(variable_count as nat, |i: int| dec(i as nat))
            &&& vars@ == Seq::new(variable_count as nat, |i: int| i as usize)
            &&& sat.clause_seq() == Seq::new(
                clauses@.len(),
                |k: int| clause_of(clauses@[k]@),
            )
        },
{
    let mut cnf = CnfSat::new();
    let mut vars: Vec<usize> = Vec::new();
    let mut i: usize = 0;
    while i < variable_count
        invariant
            i <= variable_count < usize::MAX,
            cnf.wf(),
            cnf.names() == Seq::new(i as nat, |k: int| dec(k as nat)),
            cnf.clause_seq() == Seq::<Seq<(usize, bool)>>::empty(),
            vars@ == Seq::new(i as nat, |k: int| k as usize),
        decreases variable_count - i,
    {
        let mut name = String::new();
        append_decimal(&mut name, i);
        assert(name@ =~= dec(i as nat));
        proof {
            if cnf.names().contains(name@) {
                let k = choose|k: int| 0 <= k < cnf.names().len() && cnf.names()[k] == name@;
                lemma_dec_injective(k as nat, i as nat);
            }
        }
        let id = cnf.push_variable(name.as_str());
        vars.push(id);
        i = i + 1;
        assert(cnf.names() =~= Seq::new(i as nat, |k: int| dec(k as nat)));
        assert(vars@ =~= Seq::new(i as nat, |k: int| k as usize));
    }
    let m = clauses.len();
    let mut k: usize = 0;
    while k < m
        invariant
            m == clauses@.len(),
            k <= m,
            variable_count < usize::MAX,
            cnf.wf(),
            cnf.names() == Seq::new(variable_count as nat, |k: int| dec(k as nat)),
            vars@ == Seq::new(variable_count as nat, |i: int| i as usize),
            forall|q: int| 0 <= q < k ==> #[trigger] clauses@[q]@.len() > 0,
            cnf.clause_seq() == Seq::new(k as nat, |q: int| clause_of(clauses@[q]@)),
            forall|q: int, j: int|
                0 <= q < k && 0 <= j < clauses@[q]@.len() ==> literal_in_range(
                    #[trigger] clauses@[q]@[j],
                    variable_count as nat,
                ),
        decreases m - k,
    {
        let ls = &clauses[k];
        if ls.len() == 0 {
            return None;
        }
        let mut clause = CnfClause::new();
        let mut j: usize = 0;
        assert(ls@.take(0) =~= Seq::<i64>::empty());
        while j < ls.len()
            invariant
                j <= ls@.len(),
                k < m,
                m == clauses@.len(),
                ls@ == clauses@[k as int]@,
                cnf.wf(),
                cnf.names() == Seq::new(variable_count as nat, |k: int| dec(k as nat)),
                vars@ == Seq::new(variable_count as nat, |i: int| i as usize),
                cnf.clause_seq() == Seq::new(k as nat, |q: int| clause_of(clauses@[q]@)),
                forall|q: int, j: int|
                    0 <= q < k && 0 <= j < clauses@[q]@.len() ==> literal_in_range(
                        #[trigger] clauses@[q]@[j],
                        variable_count as nat,
                    ),
                variable_count < usize::MAX,
                clause.wf(),
                clause.literals() == clause_of(ls@.take(j as int)),
                clause_in_range(clause.literals(), variable_count as nat),
                j > 0 ==> clause.literals().len() > 0,
                forall|q: int| 0 <= q < k ==> #[trigger] clauses@[q]@.len() > 0,
                forall|q: int| 0 <= q < j ==> literal_in_range(#[trigger] ls@[q], variable_count as nat),
            decreases ls@.len() - j,
        {
            let l = ls[j];
            let mag: u128 = if l < 0 { (-(l as i128)) as u128 } else { l as u128 };
            if l == 0 || mag > variable_count as u128 {
                assert(clauses@[k as int]@[j as int] == l);
                assert(!literal_in_range(l, variable_count as nat));
                return None;
            }
            let id = (mag - 1) as usize;
            let ghost before = clause.literals();
            clause.set(id, l > 0);
            proof {
                assert(ls@.take(j + 1).drop_last() =~= ls@.take(j as int));
                let after = clause.literals();
                if mentions(before, id) {
                    let c = choose|c: int| 0 <= c < before.len() && before[c].0 == id;
                    assert(after == before.update(c, (id, l > 0)));
                    assert forall|q: int| 0 <= q < after.len() implies after[q].0
                        < variable_count by {
                        if q != c {
                            assert(after[q] == before[q]);
                        }
                    }
                } else {
                    assert(after == before.push((id, l > 0)));
                    assert forall|q: int| 0 <= q < after.len() implies after[q].0
                        < variable_count by {
                        if q < before.len() {
                            assert(after[q] == before[q]);
                        }
                    }
                }
                assert(ls@[j as int] == l);
                assert(after.len() > 0);
            }
            j = j + 1;
        }
        assert(ls@.take(ls@.len() as int) =~= ls@);
        cnf.add_clause(clause);
        k = k + 1;
        assert(cnf.clause_seq() =~= Seq::new(k as nat, |q: int| clause_of(clauses@[q]@)));
    }
    Some((cnf, vars))
}

/// The clauses of a literal stream: each `0` closes the clause collected so far
/// (which may be empty); literals after the last `0` form a final clause.
pub open spec fn group_clauses(ls: Seq<i64>, cur: Seq<i64>, acc: Seq<Seq<i64>>) -> Seq<Seq<i64>>
    decreases ls.len(),
{
    if ls.len() == 0 {
        if cur.len() > 0 {
            acc.push(cur)
        } else {
            acc
        }
    } else if ls[0] == 0 {
        group_clauses(ls.drop_first(), seq![], acc.push(cur))
    } else {
        group_clauses(ls.drop_first(), cur.push(ls[0]), acc)
    }
}

/// Splits a stream of literals into clauses at each `0`.
pub fn split_clauses(literals: &[i64]) -> (r: Vec<Vec<i64>>)
    ensures
        r@.map_values(|c: Vec<i64>| c@) == group_clauses(literals@, seq![], seq![]),
{
    let mut clauses: Vec<Vec<i64>> = Vec::new();
    let mut current: Vec<i64> = Vec::new();
    let n = literals.len();
    let mut i: usize = 0;
    assert(literals@.skip(0) =~= literals@);
    assert(clauses@.map_values(|c: Vec<i64>| c@) =~= Seq::<Seq<i64>>::empty());
    while i < n
        invariant
            n == literals@.len(),
            i <= n,
            group_clauses(literals@, seq![], seq![]) == group_clauses(
                literals@.skip(i as int),
                current@,
                clauses@.map_values(|c: Vec<i64>| c@),
            ),
        decreases n - i,
    {
        let l = literals[i];
        let ghost rest = literals@.skip(i as int);
        assert(rest.drop_first() =~= literals@.skip(i + 1));
        assert(rest[0] == l);
        if l == 0 {
            let ghost before = clauses@;
            let done = current;
            current = Vec::new();
            clauses.push(done);
            assert(clauses@.map_values(|c: Vec<i64>| c@) =~= before.map_values(|c: Vec<i64>| c@).push(done@));
            assert(current@ =~= Seq::<i64>::empty());
        } else {
            current.push(l);
        }
        i = i + 1;
    }
    assert(literals@.skip(n as int) =~= Seq::<i64>::empty());
    if current.len() > 0 {
        let ghost before = clauses@;
        let last = current;
        clauses.push(last);
        assert(clauses@.map_values(|c: Vec<i64>| c@) =~= before.map_values(|c: Vec<i64>| c@).push(last@));
    }
    clauses
}

} // verus!

use vstd::prelude::*;
use vstd::string::*;
use crate::cnf::CnfSat;

verus! {

/// The decimal digit for `d < 10`.
pub open spec fn digit_char(d: nat) -> char {
    if d == 0 {
        '0'
    } else if d == 1 {
        '1'
    } else if d == 2 {
        '2'
    } else if d == 3 {
        '3'
    } else if d == 4 {
        '4'
    } else if d == 5 {
        '5'
    } else if d == 6 {
        '6'
    } else if d == 7 {
        '7'
    } else if d == 8 {
        '8'
    } else {
        '9'
    }
}

/// The decimal notation of `n`, without leading zeros.
pub open spec fn dec(n: nat) -> Seq<char>
    decreases n,
{
    if n < 10 {
        seq![digit_char(n)]
    } else {
        dec(n / 10).push(digit_char(n % 10))
    }
}

/// A literal as a signed 1-based variable number.
pub open spec fn lit_text(l: (usize, bool)) -> Seq<char> {
    if l.1 {
        dec((l.0 + 1) as nat)
    } else {
        seq!['-'] + dec((l.0 + 1) as nat)
    }
}

/// The literals of a clause separated by single spaces.
pub open spec fn clause_body(s: Seq<(usize, bool)>) -> Seq<char>
    decreases s.len(),
{
    if s.len() == 0 {
        seq![]
    } else if s.len() == 1 {
        lit_text(s[0])
    } else {
        clause_body(s.drop_last()) + seq![' '] + lit_text(s.last())
    }
}

/// One clause line, closed by the zero sentinel.
pub open spec fn clause_line(s: Seq<(usize, bool)>) -> Seq<char> {
    clause_body(s) + seq![' ', '0', '\n']
}

/// The clause lines of `cs`, in order.
pub open spec fn clauses_text(cs: Seq<Seq<(usize, bool)>>) -> Seq<char>
    decreases cs.len(),
{
    if cs.len() == 0 {
        seq![]
    } else {
        clauses_text(cs.drop_last()) + clause_line(cs.last())
    }
}

/// The oracle request for `n` variables and clauses `cs`: the header line
/// `p cnf <n> <m>` and then one line per clause.
pub open spec fn dimacs_text(n: nat, cs: Seq<Seq<(usize, bool)>>) -> Seq<char> {
    seq!['p', ' ', 'c', 'n', 'f', ' '] + dec(n) + seq![' '] + dec(cs.len()) + seq!['\n']
        + clauses_text(cs)
}

fn digit_str(d: usize) -> (r: &'static str)
    requires
        d < 10,
    ensures
        r@ == seq![digit_char(d as nat)],
{
    proof {
        reveal_strlit("0");
        reveal_strlit("1");
        reveal_strlit("2");
        reveal_strlit("3");
        reveal_strlit("4");
        reveal_strlit("5");
        reveal_strlit("6");
        reveal_strlit("7");
        reveal_strlit("8");
        reveal_strlit("9");
    }
    let r = if d == 0 {
        "0"
    } else if d == 1 {
        "1"
    } else if d == 2 {
        "2"
    } else if d == 3 {
        "3"
    } else if d == 4 {
        "4"
    } else if d == 5 {
        "5"
    } else if d == 6 {
        "6"
    } else if d == 7 {
        "7"
    } else if d == 8 {
        "8"
    } else {
        "9"
    };
    assert(r@ =~= seq![digit_char(d as nat)]);
    r
}

/// Appends the decimal notation of `n` to `out`.
pub fn append_decimal(out: &mut String, n: usize)
    ensures
        final(out)@ == old(out)@ + dec(n as nat),
    decreases n,
{
    if n >= 10 {
        append_decimal(out, n / 10);
    }
    out.append(digit_str(n % 10));
    assert(final(out)@ =~= old(out)@ + dec(n as nat));
}

fn append_literal(out: &mut String, id: usize, value: bool)
    requires
        id < usize::MAX,
    ensures
        final(out)@ == old(out)@ + lit_text((id, value)),
{
    if !value {
        proof {
            reveal_strlit("-");
        }
        out.append("-");
    }
    append_decimal(out, id + 1);
    assert(final(out)@ =~= old(out)@ + lit_text((id, value)));
}

impl CnfSat {
    /// The clause set as an oracle request.
    pub fn to_dimacs(&self) -> (r: String)
        requires
            self.wf(),
        ensures
            r@ == dimacs_text(self.names().len(), self.clause_seq()),
    {
        proof {
            reveal_strlit("p cnf ");
            reveal_strlit(" ");
            reveal_strlit("\n");
            reveal_strlit(" 0\n");
        }
        let mut dimacs = String::new();
        dimacs.append("p cnf ");
        append_decimal(&mut dimacs, self.variable_count());
        dimacs.append(" ");
        append_decimal(&mut dimacs, self.clause_count());
        dimacs.append("\n");
        let ghost cs = self.clause_seq();
        let ghost header = dimacs@;
        let n = self.clause_count();
        let mut i: usize = 0;
        assert(cs.take(0) =~= Seq::<Seq<(usize, bool)>>::empty());
        while i < n
            invariant
                self.wf(),
                cs == self.clause_seq(),
                n == cs.len(),
                i <= n,
                dimacs@ == header + clauses_text(cs.take(i as int)),
            decreases n - i,
        {
            let lits = self.clause_literals(i);
            let m = lits.len();
            let ghost before = dimacs@;
            let mut j: usize = 0;
            assert(lits@.take(0) =~= Seq::<(usize, bool)>::empty());
            while j < m
                invariant
                    self.wf(),
                    m == lits@.len(),
                    lits@ == cs[i as int],
                    forall|k: int| 0 <= k < m ==> lits@[k].0 < self.names().len(),
                    self.names().len() <= usize::MAX,
                    j <= m,
                    dimacs@ == before + clause_body(lits@.take(j as int)),
                decreases m - j,
            {
                if j > 0 {
                    proof {
                        reveal_strlit(" ");
                    }
                    dimacs.append(" ");
                }
                let ghost mid = dimacs@;
                assert(j > 0 ==> mid =~= before + clause_body(lits@.take(j as int)) + seq![' ']);
                let (id, value) = lits[j];
                append_literal(&mut dimacs, id, value);
                proof {
                    let t = lits@.take(j + 1);
                    assert(t.drop_last() =~= lits@.take(j as int));
                    assert(t.last() == (id, value));
                    if j == 0 {
                        assert(t.len() == 1);
                        assert(clause_body(t) == lit_text(t[0]));
                        assert(dimacs@ =~= before + clause_body(t));
                    } else {
                        assert(clause_body(t) == clause_body(lits@.take(j as int)) + seq![' ']
                            + lit_text((id, value)));
                        assert(dimacs@ == mid + lit_text((id, value)));
                        assert(dimacs@ =~= before + clause_body(t));
                    }
                }
                j = j + 1;
            }
            assert(lits@.take(m as int) =~= lits@);
            proof {
                reveal_strlit(" 0\n");
            }
            dimacs.append(" 0\n");
            assert(cs.take(i + 1).last() == cs[i as int]);
            proof {
                let t = cs.take(i + 1);
                assert(t.len() > 0);
                assert(clauses_text(t) == clauses_text(t.drop_last()) + clause_line(t.last()));
            }
            assert(cs.take(i + 1).drop_last() =~= cs.take(i as int));
            assert(dimacs@ =~= header + clauses_text(cs.take(i + 1)));
            i = i + 1;
        }
        assert(cs.take(n as int) =~= cs);
        dimacs
    }
}

} // verus!

use vstd::prelude::*;
use vstd::string::*;
use vstd::utf8::encode_utf8;
use crate::reader::{all_digits, digits_val, is_digit};

verus! {

/// The oracles that can be selected.
#[derive(PartialEq, Eq, Structural, Clone, Copy, Debug)]
pub enum Solver {
    Kissat,
    Cadical,
    Oxisat,
    OxisatDpll,
    Glucose,
    GlucoseSyrup { threads: usize },
}

/// The value of a thread count: an optional `+` and decimal digits, within `usize`.
pub open spec fn count_value(t: Seq<u8>) -> Option<int> {
    let d = if t.len() > 0 && t[0] == 43 {
        t.drop_first()
    } else {
        t
    };
    if all_digits(d) && digits_val(d) <= usize::MAX {
        Some(digits_val(d))
    } else {
        None
    }
}

/// The thread count given by the argument at index 2, one when it is absent or unreadable.
pub open spec fn thread_count(args: Seq<String>) -> usize {
    if args.len() > 2 {
        match count_value(encode_utf8(args[2]@)) {
            Some(v) => v as usize,
            None => 1,
        }
    } else {
        1
    }
}

/// The oracle that the command-line arguments select by their second entry;
/// Kissat when it is absent or unknown.
pub open spec fn solver_for(args: Seq<String>) -> Solver {
    if args.len() < 2 {
        Solver::Kissat
    } else if args[1]@ == "cadical"@ {
        Solver::Cadical
    } else if args[1]@ == "oxisat"@ {
        Solver::Oxisat
    } else if args[1]@ == "oxisat-dpll"@ {
        Solver::OxisatDpll
    } else if args[1]@ == "glucose"@ {
        Solver::Glucose
    } else if args[1]@ == "glucose-syrup"@ {
        Solver::GlucoseSyrup { threads: thread_count(args) }
    } else {
        Solver::Kissat
    }
}

/// Reads a thread count.
fn parse_count(t: &[u8]) -> (r: Option<usize>)
    ensures
        r matches Some(v) ==> count_value(t@) == Some(v as int),
        r is None ==> count_value(t@) is None,
{
    let n = t.len();
    let j: usize = if n > 0 && t[0] == 43 { 1 } else { 0 };
    let ghost d = t@.subrange(j as int, n as int);
    assert(j == 1 ==> t@.drop_first() =~= d);
    assert(j == 0 ==> t@ =~= d);
    if j >= n {
        assert(d.len() == 0);
        return None;
    }
    let mut acc: u128 = 0;
    let mut big = false;
    let mut p: usize = j;
    assert(t@.subrange(j as int, j as int) =~= Seq::<u8>::empty());
    while p < n
        invariant
            j <= p <= n == t@.len(),
            d == t@.subrange(j as int, n as int),
            !all_digits(d) ==> count_value(t@) is None,
            all_digits(d) ==> count_value(t@) == (if digits_val(d) <= usize::MAX {
                Some(digits_val(d))
            } else {
                None
            }),
            forall|q: int| j <= q < p ==> is_digit(t@[q]),
            !big ==> acc == digits_val(t@.subrange(j as int, p as int)),
            !big ==> acc <= usize::MAX,
            big ==> digits_val(t@.subrange(j as int, p as int)) > usize::MAX,
            digits_val(t@.subrange(j as int, p as int)) >= 0,
        decreases n - p,
    {
        let b = t[p];
        if b < 48 || b > 57 {
            assert(d[p - j] == b);
            return None;
        }
        let ghost pre = t@.subrange(j as int, p as int);
        assert(t@.subrange(j as int, p + 1).drop_last() =~= pre);
        assert(digits_val(t@.subrange(j as int, p + 1)) == 10 * digits_val(pre) + (b - 48));
        if !big {
            let next = acc * 10 + (b - 48) as u128;
            if next > usize::MAX as u128 {
                big = true;
            } else {
                acc = next;
            }
        }
        p = p + 1;
    }
    assert(t@.subrange(j as int, n as int) =~= d);
    if big {
        None
    } else {
        Some(acc as usize)
    }
}

/// The oracle selected by the command-line arguments.
pub fn parse_solver(args: Vec<String>) -> (r: Solver)
    ensures
        r == solver_for(args@),
{
    if args.len() < 2 {
        return Solver::Kissat;
    }
    let name = &args[1];
    if *name == "cadical".to_owned() {
        Solver::Cadical
    } else if *name == "oxisat".to_owned() {
        Solver::Oxisat
    } else if *name == "oxisat-dpll".to_owned() {
        Solver::OxisatDpll
    } else if *name == "glucose".to_owned() {
        Solver::Glucose
    } else if *name == "glucose-syrup".to_owned() {
        let threads = if args.len() > 2 {
            match parse_count(args[2].as_str().as_bytes()) {
                Some(v) => v,
                None => 1,
            }
        } else {
            1
        };
        Solver::GlucoseSyrup { threads }
    } else {
        Solver::Kissat
    }
}

} // verus!

use vstd::prelude::*;
use crate::backbone::{
    all_merge, is_candidate, merge, merge_at, merged_all, no_candidate_from, VariableValue,
};
use crate::cnf::{last_value, witness_values};
use crate::dimacs::dimacs_text;
use crate::reader::{
    all_digits, answer_model, apply_line, digits_val, has_unsat, is_ws, known_ids, line_end,
    add_token, literal_pair, read_outcome, scan_lines, scan_tokens, token_end, token_value, unsat_marker,
};

verus! {

/// The decimal digits of `n` as bytes.
pub open spec fn dec_bytes(n: nat) -> Seq<u8>
    decreases n,
{
    if n < 10 {
        seq![(48 + n) as u8]
    } else {
        dec_bytes(n / 10).push((48 + n % 10) as u8)
    }
}

/// A nonzero literal written as an oracle writes it.
pub open spec fn lit_bytes(v: int) -> Seq<u8> {
    if v < 0 {
        seq![45u8] + dec_bytes((-v) as nat)
    } else {
        dec_bytes(v as nat)
    }
}

/// The witness literals for assignment `a`: variable `i` as `i + 1` when true,
/// as `-(i + 1)` when false.
pub open spec fn assignment_literals(a: Seq<bool>) -> Seq<int> {
    Seq::new(a.len(), |i: int| if a[i] { i + 1 } else { -(i + 1) })
}

proof fn lemma_dec_bytes(n: nat)
    ensures
        all_digits(dec_bytes(n)),
        digits_val(dec_bytes(n)) == n,
    decreases n,
{
    if n >= 10 {
        lemma_dec_bytes(n / 10);
        let d = dec_bytes(n);
        assert(d.drop_last() =~= dec_bytes(n / 10));
        assert forall|i: int| 0 <= i < d.len() implies 48 <= #[trigger] d[i] <= 57 by {
            if i < d.len() - 1 {
                assert(d[i] == dec_bytes(n / 10)[i]);
            }
        }
        assert(d.last() == (48 + n % 10) as u8);
        assert(d.last() - 48 == n % 10);
        assert(n == 10 * (n / 10) + n % 10);
        assert(digits_val(d) == 10 * digits_val(d.drop_last()) + (d.last() - 48));
    } else {
        let d = dec_bytes(n);
        assert(d.drop_last() =~= Seq::<u8>::empty());
        assert(d.last() - 48 == n);
        assert(digits_val(d) == 10 * digits_val(d.drop_last()) + (d.last() - 48));
    }
}

/// A literal written out as a token reads back as the same literal.
pub proof fn lemma_literal_round_trip(v: int)
    requires
        i64::MIN < v <= i64::MAX,
    ensures
        token_value(lit_bytes(v)) == Some(v),
{
    if v < 0 {
        lemma_dec_bytes((-v) as nat);
        assert(lit_bytes(v).drop_first() =~= dec_bytes((-v) as nat));
    } else {
        lemma_dec_bytes(v as nat);
        let d = dec_bytes(v as nat);
        assert(d[0] != 45 && d[0] != 43);
    }
}

proof fn lemma_last_value_prefix(a: Seq<bool>, k: int, v: int)
    requires
        0 <= k <= a.len() < i64::MAX,
        a.len() < usize::MAX,
        0 <= v,
    ensures
        last_value(
            assignment_literals(a).take(k).map_values(|x: int| literal_pair(x)),
            v,
        ) == if v < k {
            Some(a[v])
        } else {
            None
        },
    decreases k,
{
    let m = assignment_literals(a).take(k).map_values(|x: int| literal_pair(x));
    if k > 0 {
        let prev = assignment_literals(a).take(k - 1).map_values(|x: int| literal_pair(x));
        assert(m.drop_last() =~= prev);
        assert(m.last() == literal_pair(assignment_literals(a)[k - 1]));
        let x = assignment_literals(a)[k - 1];
        assert(x == k || x == -k);
        assert(literal_pair(x).0 == k - 1);
        assert(m.last().0 == k - 1);
        assert(m.last().1 == a[k - 1]);
        lemma_last_value_prefix(a, k - 1, v);
        if v == k - 1 {
            assert(last_value(m, v) == Some(a[v]));
        } else {
            assert(last_value(m, v) == last_value(prev, v));
        }
    } else {
        assert(m.len() == 0);
    }
}

/// The witness that an oracle writes for a known assignment `a` names only
/// declared variables, and reads back as exactly `a`, variable by variable.
pub proof fn lemma_witness_round_trip(a: Seq<bool>)
    requires
        a.len() < i64::MAX,
        a.len() < usize::MAX,
    ensures
        known_ids(assignment_literals(a), a.len()),
        witness_values(
            a.len(),
            assignment_literals(a).map_values(|x: int| literal_pair(x)),
        ) == Seq::new(a.len(), |i: int| Some(a[i])),
        forall|i: int|
            0 <= i < a.len() ==> token_value(lit_bytes(#[trigger] assignment_literals(a)[i]))
                == Some(assignment_literals(a)[i]),
{
    let lits = assignment_literals(a);
    assert forall|i: int| 0 <= i < a.len() implies token_value(
        lit_bytes(#[trigger] assignment_literals(a)[i]),
    ) == Some(assignment_literals(a)[i]) by {
        lemma_literal_round_trip(lits[i]);
    }
    assert(lits.take(a.len() as int) =~= lits);
    let pairs = lits.map_values(|x: int| literal_pair(x));
    let w = witness_values(a.len(), pairs);
    assert forall|v: int| 0 <= v < a.len() implies #[trigger] w[v] == Some(a[v]) by {
        lemma_last_value_prefix(a, a.len() as int, v);
    }
    assert(w =~= Seq::new(
        a.len(),
        |i: int| Some(a[i]),
    ));
}

/// Pushing a clause and popping it again leaves the serialized clause set as it was.
pub proof fn lemma_push_pop_restores(n: nat, cs: Seq<Seq<(usize, bool)>>, c: Seq<(usize, bool)>)
    ensures
        cs.push(c).drop_last() == cs,
        dimacs_text(n, cs.push(c).drop_last()) == dimacs_text(n, cs),
{
    assert(cs.push(c).drop_last() =~= cs);
}

/// A fresh witness never makes a variable a backbone literal: only a refuted
/// probe does. A confirmed backbone literal stays as it is, or the witness is rejected.
pub proof fn lemma_merge_keeps_backbones(prev: VariableValue, observed: bool)
    ensures
        merge(prev, observed) matches Some(VariableValue::Backbone(p)) ==> prev
            == VariableValue::Backbone(p),
        prev matches VariableValue::Backbone(p) ==> (merge(prev, observed) is None
            || merge(prev, observed) == Some(prev)),
        prev == VariableValue::Either ==> merge(prev, observed) == Some(VariableValue::Either),
{
}

/// The tokens of a value line for literals `lits`, closed by the zero sentinel.
pub open spec fn value_body(lits: Seq<int>) -> Seq<u8>
    decreases lits.len(),
{
    if lits.len() == 0 {
        seq![48u8]
    } else {
        lit_bytes(lits[0]) + seq![32u8] + value_body(lits.drop_first())
    }
}

/// An oracle answer reporting satisfiable, with one value line listing `lits`.
pub open spec fn answer_text(lits: Seq<int>) -> Seq<u8> {
    seq![115u8, 32, 83, 65, 84, 73, 83, 70, 73, 65, 66, 76, 69, 10, 118, 32] + value_body(lits)
        + seq![10u8]
}

/// The answer an oracle gives for the satisfying assignment `a`, its literals
/// in id order.
pub open spec fn witness_text(a: Seq<bool>) -> Seq<u8> {
    answer_text(assignment_literals(a))
}

/// The 0-based variable of a nonzero literal.
pub open spec fn var_of(l: int) -> int {
    if l < 0 {
        -l - 1
    } else {
        l - 1
    }
}

/// Every literal of `lits` agrees with assignment `a`.
pub open spec fn agrees(lits: Seq<int>, a: Seq<bool>) -> bool {
    forall|k: int|
        0 <= k < lits.len() ==> #[trigger] lits[k] != 0 && -a.len() <= lits[k] <= a.len() && (
        lits[k] > 0) == a[var_of(lits[k])]
}

/// Some literal of `lits` is about variable `i`.
pub open spec fn names_var(lits: Seq<int>, i: int) -> bool {
    exists|k: int| 0 <= k < lits.len() && #[trigger] var_of(lits[k]) == i
}

/// `lits`, in any order and with any repetition, agrees with `a` and names
/// every one of its variables.
pub open spec fn lists_assignment(lits: Seq<int>, a: Seq<bool>) -> bool {
    &&& agrees(lits, a)
    &&& forall|i: int| 0 <= i < a.len() ==> #[trigger] names_var(lits, i)
}

/// Bytes that may stand in a value line.
pub open spec fn value_byte(b: u8) -> bool {
    48 <= b <= 57 || b == 45 || b == 32
}

proof fn lemma_lit_bytes(v: int)
    requires
        v != 0,
    ensures
        lit_bytes(v).len() >= 1,
        forall|q: int| 0 <= q < lit_bytes(v).len() ==> !is_ws(#[trigger] lit_bytes(v)[q]),
        forall|q: int| 0 <= q < lit_bytes(v).len() ==> value_byte(#[trigger] lit_bytes(v)[q]),
{
    if v < 0 {
        lemma_dec_bytes((-v) as nat);
        let d = dec_bytes((-v) as nat);
        assert forall|q: int| 0 <= q < lit_bytes(v).len() implies value_byte(
            #[trigger] lit_bytes(v)[q],
        ) && !is_ws(lit_bytes(v)[q]) by {
            if q > 0 {
                assert(lit_bytes(v)[q] == d[q - 1]);
            }
        }
    } else {
        lemma_dec_bytes(v as nat);
    }
}

proof fn lemma_value_body_bytes(lits: Seq<int>)
    requires
        forall|i: int| 0 <= i < lits.len() ==> #[trigger] lits[i] != 0,
    ensures
        forall|q: int| 0 <= q < value_body(lits).len() ==> value_byte(#[trigger] value_body(lits)[q]),
    decreases lits.len(),
{
    if lits.len() > 0 {
        lemma_lit_bytes(lits[0]);
        lemma_value_body_bytes(lits.drop_first());
        let l = lit_bytes(lits[0]);
        let rest = value_body(lits.drop_first());
        assert forall|q: int| 0 <= q < value_body(lits).len() implies value_byte(
            #[trigger] value_body(lits)[q],
        ) by {
            if q < l.len() {
                assert(value_body(lits)[q] == l[q]);
            } else if q > l.len() {
                assert(value_body(lits)[q] == rest[q - l.len() - 1]);
            }
        }
    }
}

proof fn lemma_token_end(t: Seq<u8>, i: int, j: int, end: int)
    requires
        0 <= i <= j <= end <= t.len(),
        forall|q: int| i <= q < j ==> !is_ws(#[trigger] t[q]),
        j == end || is_ws(t[j]),
    ensures
        token_end(t, i, end) == j,
    decreases j - i,
{
    if i < j {
        lemma_token_end(t, i + 1, j, end);
    }
}

proof fn lemma_line_end(t: Seq<u8>, i: int, e: int)
    requires
        0 <= i <= e < t.len(),
        t[e] == 10,
        forall|q: int| i <= q < e ==> #[trigger] t[q] != 10,
    ensures
        line_end(t, i) == e,
    decreases e - i,
{
    if i < e {
        lemma_line_end(t, i + 1, e);
    }
}

#[verifier::spinoff_prover]
proof fn lemma_scan_body(t: Seq<u8>, i: int, e: int, lits: Seq<int>, acc: Seq<int>)
    requires
        0 <= i <= e <= t.len(),
        t.subrange(i, e) == value_body(lits),
        forall|k: int| 0 <= k < lits.len() ==> #[trigger] lits[k] != 0 && i64::MIN < lits[k]
            <= i64::MAX,
    ensures
        scan_tokens(t, i, e, Some(acc)) == Some(acc + lits),
    decreases lits.len(),
{
    if lits.len() == 0 {
        assert(t.subrange(i, e)[0] == t[i]);
        lemma_token_end(t, i, i + 1, e);
        assert(t.subrange(i, i + 1) =~= seq![48u8]);
        lemma_dec_bytes(0);
        assert(dec_bytes(0) =~= seq![48u8]);
        assert(token_value(seq![48u8]) == Some(0int));
        assert(e == i + 1);
        assert(!is_ws(t[i]));
        assert(add_token(Some(acc), t.subrange(i, i + 1)) == Some(acc));
        assert(scan_tokens(t, i, e, Some(acc)) == scan_tokens(t, i + 1, e, Some(acc)));
        assert(acc + lits =~= acc);
    } else {
        let l = lits[0];
        let tok = lit_bytes(l);
        let len = tok.len() as int;
        lemma_lit_bytes(l);
        lemma_literal_round_trip(l);
        let body = value_body(lits);
        assert(body == tok + seq![32u8] + value_body(lits.drop_first()));
        assert forall|q: int| i <= q < i + len implies !is_ws(#[trigger] t[q]) by {
            assert(t[q] == t.subrange(i, e)[q - i]);
            assert(body[q - i] == tok[q - i]);
        }
        assert(t[i + len] == t.subrange(i, e)[len]);
        assert(body[len] == 32u8);
        lemma_token_end(t, i, i + len, e);
        assert(t.subrange(i, i + len) =~= tok);
        let rest = value_body(lits.drop_first());
        assert(e - i == len + 1 + rest.len());
        assert forall|q: int| 0 <= q < rest.len() implies #[trigger] t.subrange(i + len + 1, e)[q]
            == rest[q] by {
            assert(t.subrange(i + len + 1, e)[q] == t[i + len + 1 + q]);
            assert(t[i + len + 1 + q] == t.subrange(i, e)[len + 1 + q]);
            assert(body[len + 1 + q] == rest[q]);
        }
        assert(t.subrange(i + len + 1, e) =~= rest);
        lemma_scan_body(t, i + len + 1, e, lits.drop_first(), acc.push(l));
        assert(!is_ws(t[i]));
        assert(add_token(Some(acc), tok) == Some(acc.push(l)));
        assert(scan_tokens(t, i, e, Some(acc)) == scan_tokens(t, i + len, e, Some(acc.push(l))));
        assert(is_ws(t[i + len]));
        assert(scan_tokens(t, i + len, e, Some(acc.push(l))) == scan_tokens(
            t,
            i + len + 1,
            e,
            Some(acc.push(l)),
        ));
        assert(acc.push(l) + lits.drop_first() =~= acc + lits);
    }
}

proof fn lemma_last_value_agrees(lits: Seq<int>, a: Seq<bool>, k: int, v: int)
    requires
        agrees(lits, a),
        0 <= k <= lits.len(),
        0 <= v < a.len(),
        a.len() < usize::MAX,
    ensures
        last_value(lits.take(k).map_values(|x: int| literal_pair(x)), v) == if exists|j: int|
            0 <= j < k && #[trigger] var_of(lits[j]) == v {
            Some(a[v])
        } else {
            None
        },
    decreases k,
{
    let m = lits.take(k).map_values(|x: int| literal_pair(x));
    if k > 0 {
        let prev = lits.take(k - 1).map_values(|x: int| literal_pair(x));
        assert(m.drop_last() =~= prev);
        let x = lits[k - 1];
        assert(x != 0 && -a.len() <= x <= a.len());
        assert(m.last() == literal_pair(x));
        assert(m.last().0 == var_of(x));
        lemma_last_value_agrees(lits, a, k - 1, v);
        if var_of(x) == v {
            assert(last_value(m, v) == Some(a[v]));
        } else {
            assert(last_value(m, v) == last_value(prev, v));
            if exists|j: int| 0 <= j < k && #[trigger] var_of(lits[j]) == v {
                let j = choose|j: int| 0 <= j < k && #[trigger] var_of(lits[j]) == v;
                assert(j < k - 1);
            }
        }
    } else {
        assert(m.len() == 0);
    }
}

/// An oracle's answer whose value line lists the literals of a known
/// assignment `a` in any order (repetitions allowed) reads back as exactly `a`.
#[verifier::spinoff_prover]
pub proof fn lemma_answer_any_order(a: Seq<bool>, lits: Seq<int>)
    requires
        a.len() < i64::MAX,
        a.len() < usize::MAX,
        lists_assignment(lits, a),
    ensures
        answer_model(answer_text(lits), a.len()) == Ok::<
            Seq<Option<bool>>,
            crate::reader::AnswerError,
        >(Seq::new(a.len(), |i: int| Some(a[i]))),
{
    let t = answer_text(lits);
    let body = value_body(lits);
    assert(lits.take(lits.len() as int) =~= lits);
    let pairs = lits.map_values(|x: int| literal_pair(x));
    let w = witness_values(a.len(), pairs);
    assert forall|v: int| 0 <= v < a.len() implies #[trigger] w[v] == Some(a[v]) by {
        lemma_last_value_agrees(lits, a, lits.len() as int, v);
        assert(names_var(lits, v));
        let k = choose|k: int| 0 <= k < lits.len() && #[trigger] var_of(lits[k]) == v;
        assert(var_of(lits[k]) == v);
    }
    assert(w =~= Seq::new(a.len(), |i: int| Some(a[i])));
    assert(known_ids(lits, a.len()));
    assert forall|k: int| 0 <= k < lits.len() implies #[trigger] lits[k] != 0 && i64::MIN
        < lits[k] <= i64::MAX by {
        assert(lits[k] != 0);
    }
    lemma_value_body_bytes(lits);
    let n = t.len() as int;
    assert(n == 17 + body.len());
    // the status line
    lemma_line_end(t, 0, 13);
    assert(t.subrange(0, 13)[0] == 115u8);
    assert(!has_unsat(t, 0, 13)) by {
        if has_unsat(t, 0, 13) {
            let k = choose|k: int| 0 <= k && k + 13 <= 13 && #[trigger] t.subrange(k, k + 13)
                == unsat_marker();
            assert(k == 0);
            assert(t.subrange(0, 13)[0] == unsat_marker()[0]);
        }
    }
    assert(apply_line(t, 0, 13, (None, Some(seq![]))) == (Some(true), Some(Seq::<int>::empty())));
    // the value line
    assert forall|q: int| 14 <= q < n - 1 implies #[trigger] t[q] != 10 by {
        if q >= 16 {
            assert(t[q] == body[q - 16]);
        }
    }
    lemma_line_end(t, 14, n - 1);
    assert(t.subrange(16, n - 1) =~= body);
    lemma_scan_body(t, 16, n - 1, lits, seq![]);
    assert(Seq::<int>::empty() + lits =~= lits);
    assert(apply_line(t, 14, n - 1, (Some(true), Some(Seq::<int>::empty()))) == (
        Some(true),
        Some(lits),
    ));
    assert(scan_lines(t, n, (Some(true), Some(lits))) == (Some(true), Some(lits)));
    assert(scan_lines(t, 14, (Some(true), Some(Seq::<int>::empty()))) == (Some(true), Some(lits)));
    assert(read_outcome(t) == (true, Some(lits)));
}

/// An oracle's answer that writes out a known assignment `a` reads back as
/// exactly that assignment.
pub proof fn lemma_answer_round_trip(a: Seq<bool>)
    requires
        a.len() < i64::MAX,
        a.len() < usize::MAX,
    ensures
        answer_model(witness_text(a), a.len()) == Ok::<Seq<Option<bool>>, crate::reader::AnswerError>(
            Seq::new(a.len(), |i: int| Some(a[i])),
        ),
{
    let lits = assignment_literals(a);
    assert forall|k: int| 0 <= k < lits.len() implies #[trigger] lits[k] != 0 && -a.len()
        <= lits[k] <= a.len() && (lits[k] > 0) == a[var_of(lits[k])] by {
        assert(var_of(lits[k]) == k);
    }
    assert forall|i: int| 0 <= i < a.len() implies #[trigger] names_var(lits, i) by {
        assert(var_of(lits[i]) == i);
    }
    lemma_answer_any_order(a, lits);
}

/// Merging a whole witness keeps every confirmed backbone literal and makes no
/// new one: a backbone literal comes only from a refuted probe.
pub proof fn lemma_witness_keeps_backbones(values: Seq<VariableValue>, w: Seq<Option<bool>>)
    requires
        forall|i: int| 0 <= i < values.len() ==> #[trigger] merge_at(values, w, i) is Some,
    ensures
        forall|i: int|
            0 <= i < values.len() && #[trigger] merged_all(values, w)[i] is Backbone ==> values[i]
                == merged_all(values, w)[i],
        forall|i: int|
            0 <= i < values.len() && #[trigger] values[i] is Backbone ==> merged_all(values, w)[i]
                == values[i],
{
    assert forall|i: int| 0 <= i < values.len() implies (#[trigger] merged_all(values, w)[i]
        is Backbone ==> values[i] == merged_all(values, w)[i]) && (values[i] is Backbone
        ==> merged_all(values, w)[i] == values[i]) by {
        assert(merge_at(values, w, i) is Some);
    }
}

/// A variable that has been seen and is no candidate never becomes one again,
/// so the forward scan for candidates misses none.
pub proof fn lemma_no_new_candidates(prev: VariableValue, observed: bool)
    requires
        prev != VariableValue::Unseen,
        !is_candidate(prev),
    ensures
        merge(prev, observed) matches Some(next) ==> !is_candidate(next),
{
}

/// A candidate whose probe came back satisfiable with the opposite value is
/// settled as seen with both values.
pub proof fn lemma_probe_settles_candidate(prev: VariableValue, observed: bool)
    requires
        is_candidate(prev),
        observed != (prev == VariableValue::True),
    ensures
        merge(prev, observed) == Some(VariableValue::Either),
{
}

/// Assignment `a` makes some literal of clause `c` true.
pub open spec fn satisfies(a: Seq<bool>, c: Seq<(usize, bool)>) -> bool {
    exists|i: int| 0 <= i < c.len() && c[i].0 < a.len() && #[trigger] a[c[i].0 as int] == c[i].1
}

/// `a` is a model of the clauses `cs` over `n` variables.
pub open spec fn is_model(a: Seq<bool>, cs: Seq<Seq<(usize, bool)>>, n: nat) -> bool {
    a.len() == n && forall|k: int| 0 <= k < cs.len() ==> satisfies(a, #[trigger] cs[k])
}

/// Every confirmed backbone literal holds in every model of `cs`.
pub open spec fn backbones_sound(values: Seq<VariableValue>, cs: Seq<Seq<(usize, bool)>>) -> bool {
    forall|i: int, a: Seq<bool>|
        #![trigger is_model(a, cs, values.len()), values[i]]
        0 <= i < values.len() && is_model(a, cs, values.len()) && values[i] is Backbone ==> a[i]
            == values[i]->Backbone_0
}

/// Every value recorded for a variable was seen in some model of `cs`.
pub open spec fn values_witnessed(values: Seq<VariableValue>, cs: Seq<Seq<(usize, bool)>>) -> bool {
    forall|i: int|
        0 <= i < values.len() ==> (#[trigger] values[i] == VariableValue::True || values[i]
            == VariableValue::Either ==> exists|a: Seq<bool>|
            is_model(a, cs, values.len()) && a[i]) && (values[i] == VariableValue::False
            || values[i] == VariableValue::Either ==> exists|a: Seq<bool>|
            is_model(a, cs, values.len()) && !a[i])
}

/// A model of the clauses with one more clause pushed is a model of the clauses.
pub proof fn lemma_model_of_push(a: Seq<bool>, cs: Seq<Seq<(usize, bool)>>, c: Seq<(usize, bool)>, n: nat)
    requires
        is_model(a, cs.push(c), n),
    ensures
        is_model(a, cs, n),
{
    assert forall|k: int| 0 <= k < cs.len() implies satisfies(a, #[trigger] cs[k]) by {
        assert(cs.push(c)[k] == cs[k]);
    }
}

/// Soundness of a refuted probe: when no model of `cs` satisfies the
/// hypothesis clause `[(c, !p)]` too, recording `c` as a backbone literal with value `p` keeps every
/// backbone literal true in every model.
pub proof fn lemma_refuted_probe_sound(
    values: Seq<VariableValue>,
    cs: Seq<Seq<(usize, bool)>>,
    c: usize,
    p: bool,
    hypothesis: Seq<(usize, bool)>,
)
    requires
        backbones_sound(values, cs),
        c < values.len(),
        hypothesis == seq![(c, !p)],
        forall|a: Seq<bool>| !#[trigger] is_model(a, cs.push(hypothesis), values.len()),
    ensures
        backbones_sound(values.update(c as int, VariableValue::Backbone(p)), cs),
{
    let nv = values.update(c as int, VariableValue::Backbone(p));
    assert forall|i: int, a: Seq<bool>|
        0 <= i < nv.len() && is_model(a, cs, nv.len()) && nv[i] is Backbone implies a[i]
        == nv[i]->Backbone_0 by {
        if i == c {
            if a[i] != p {
                let h = hypothesis;
                assert(a[h[0].0 as int] == h[0].1);
                assert(satisfies(a, h));
                assert forall|k: int| 0 <= k < cs.push(h).len() implies satisfies(
                    a,
                    #[trigger] cs.push(h)[k],
                ) by {
                    if k < cs.len() {
                        assert(cs.push(h)[k] == cs[k]);
                    }
                }
                assert(is_model(a, cs.push(h), values.len()));
            }
        } else {
            assert(nv[i] == values[i]);
        }
    }
}

/// Soundness of a satisfiable answer: merging a witness keeps every backbone
/// literal true in every model.
pub proof fn lemma_witness_sound(values: Seq<VariableValue>, cs: Seq<Seq<(usize, bool)>>, w: Seq<Option<bool>>)
    requires
        backbones_sound(values, cs),
        all_merge(values, w),
    ensures
        backbones_sound(merged_all(values, w), cs),
{
    lemma_witness_keeps_backbones(values, w);
    let m = merged_all(values, w);
    assert forall|i: int, a: Seq<bool>|
        0 <= i < m.len() && is_model(a, cs, m.len()) && m[i] is Backbone implies a[i]
        == m[i]->Backbone_0 by {
        assert(values[i] == m[i]);
    }
}

/// Completeness evidence: merging a witness that is a model `a` of `cs`
/// records only values seen in models, so a variable classified `Either` has
/// a model with it true and one with it false.
pub proof fn lemma_witness_evidence(values: Seq<VariableValue>, cs: Seq<Seq<(usize, bool)>>, a: Seq<bool>)
    requires
        values_witnessed(values, cs),
        is_model(a, cs, values.len()),
        all_merge(values, Seq::new(a.len(), |i: int| Some(a[i]))),
    ensures
        values_witnessed(merged_all(values, Seq::new(a.len(), |i: int| Some(a[i]))), cs),
{
    let w = Seq::new(a.len(), |i: int| Some(a[i]));
    let m = merged_all(values, w);
    assert forall|i: int| 0 <= i < m.len() implies (#[trigger] m[i] == VariableValue::True || m[i]
        == VariableValue::Either ==> exists|b: Seq<bool>| is_model(b, cs, m.len()) && b[i]) && (
    m[i] == VariableValue::False || m[i] == VariableValue::Either ==> exists|b: Seq<bool>|
        is_model(b, cs, m.len()) && !b[i]) by {
        assert(merge_at(values, w, i) is Some);
        assert(w[i] == Some(a[i]));
        if a[i] {
            assert(is_model(a, cs, m.len()) && a[i]);
        } else {
            assert(is_model(a, cs, m.len()) && !a[i]);
        }
    }
}

/// A refuted probe records a backbone literal, which claims no model, so the
/// recorded evidence stays valid.
pub proof fn lemma_refuted_probe_evidence(values: Seq<VariableValue>, cs: Seq<Seq<(usize, bool)>>, c: usize, p: bool)
    requires
        values_witnessed(values, cs),
        c < values.len(),
    ensures
        values_witnessed(values.update(c as int, VariableValue::Backbone(p)), cs),
{
    let nv = values.update(c as int, VariableValue::Backbone(p));
    assert forall|i: int| 0 <= i < nv.len() implies (#[trigger] nv[i] == VariableValue::True
        || nv[i] == VariableValue::Either ==> exists|b: Seq<bool>| is_model(b, cs, nv.len())
        && b[i]) && (nv[i] == VariableValue::False || nv[i] == VariableValue::Either
        ==> exists|b: Seq<bool>| is_model(b, cs, nv.len()) && !b[i]) by {
        if i != c {
            assert(nv[i] == values[i]);
        }
    }
}

/// Every variable up to `end` (exclusive) has been seen and is settled: a
/// backbone literal or seen with both values.
pub open spec fn settled_before(values: Seq<VariableValue>, end: int) -> bool {
    forall|j: int|
        0 <= j < end && j < values.len() ==> !is_candidate(#[trigger] values[j]) && values[j]
            != VariableValue::Unseen
}

/// A probe of candidate `c`, seen only with value `p`, settles it whatever the
/// answer: refuted, it becomes a backbone literal; answered by a witness that
/// satisfies the hypothesis `!p`, it becomes `Either`. Variables settled before
/// stay settled.
pub proof fn lemma_probe_settles(values: Seq<VariableValue>, c: int, p: bool, w: Seq<Option<bool>>)
    requires
        0 <= c < values.len(),
        settled_before(values, c),
        is_candidate(values[c]),
        p == (values[c] == VariableValue::True),
    ensures
        settled_before(values.update(c, VariableValue::Backbone(p)), c + 1),
        all_merge(values, w) && w[c] == Some(!p) ==> settled_before(merged_all(values, w), c + 1),
{
    if all_merge(values, w) && w[c] == Some(!p) {
        let m = merged_all(values, w);
        assert forall|j: int| 0 <= j < c + 1 && j < m.len() implies !is_candidate(
            #[trigger] m[j],
        ) && m[j] != VariableValue::Unseen by {
            assert(merge_at(values, w, j) is Some);
        }
    }
    let nv = values.update(c, VariableValue::Backbone(p));
    assert forall|j: int| 0 <= j < c + 1 && j < nv.len() implies !is_candidate(
        #[trigger] nv[j],
    ) && nv[j] != VariableValue::Unseen by {
        if j != c {
            assert(nv[j] == values[j]);
        }
    }
}

/// When the scan finds no candidate from `start` on and everything before
/// `start` is settled, every variable is a backbone literal or seen with both
/// values; with the recorded values witnessed by models, each variable not
/// reported as backbone takes both values in models of `cs`.
pub proof fn lemma_search_complete(values: Seq<VariableValue>, start: int, cs: Seq<Seq<(usize, bool)>>)
    requires
        0 <= start,
        settled_before(values, start),
        no_candidate_from(values, start),
        forall|j: int| 0 <= j < values.len() ==> #[trigger] values[j] != VariableValue::Unseen,
        values_witnessed(values, cs),
    ensures
        forall|j: int|
            0 <= j < values.len() ==> #[trigger] values[j] is Backbone || values[j]
                == VariableValue::Either,
        forall|j: int|
            0 <= j < values.len() && !(#[trigger] values[j] is Backbone) ==> (exists|a: Seq<bool>|
                is_model(a, cs, values.len()) && a[j]) && (exists|a: Seq<bool>|
                is_model(a, cs, values.len()) && !a[j]),
{
    assert forall|j: int| 0 <= j < values.len() implies #[trigger] values[j] is Backbone
        || values[j] == VariableValue::Either by {
        if j < start {
            assert(!is_candidate(values[j]));
        }
    }
}

/// Literals of a value line that is not the last: each token followed by a space.
pub open spec fn tokens_text(lits: Seq<int>) -> Seq<u8>
    decreases lits.len(),
{
    if lits.len() == 0 {
        seq![]
    } else {
        lit_bytes(lits[0]) + seq![32u8] + tokens_text(lits.drop_first())
    }
}

/// Value lines for `first`, each `v ` followed by its literals, then a last
/// value line listing `last` and the zero sentinel.
pub open spec fn value_lines(first: Seq<Seq<int>>, last: Seq<int>) -> Seq<u8>
    decreases first.len(),
{
    if first.len() == 0 {
        seq![118u8, 32] + value_body(last) + seq![10u8]
    } else {
        seq![118u8, 32] + tokens_text(first[0]) + seq![10u8] + value_lines(first.drop_first(), last)
    }
}

/// The literals of all value lines, in order.
pub open spec fn all_literals(first: Seq<Seq<int>>, last: Seq<int>) -> Seq<int>
    decreases first.len(),
{
    if first.len() == 0 {
        last
    } else {
        first[0] + all_literals(first.drop_first(), last)
    }
}

proof fn lemma_tokens_text_bytes(lits: Seq<int>)
    requires
        forall|i: int| 0 <= i < lits.len() ==> #[trigger] lits[i] != 0,
    ensures
        forall|q: int| 0 <= q < tokens_text(lits).len() ==> value_byte(#[trigger] tokens_text(lits)[q]),
    decreases lits.len(),
{
    if lits.len() > 0 {
        lemma_lit_bytes(lits[0]);
        lemma_tokens_text_bytes(lits.drop_first());
        let l = lit_bytes(lits[0]);
        let rest = tokens_text(lits.drop_first());
        assert forall|q: int| 0 <= q < tokens_text(lits).len() implies value_byte(
            #[trigger] tokens_text(lits)[q],
        ) by {
            if q < l.len() {
                assert(tokens_text(lits)[q] == l[q]);
            } else if q > l.len() {
                assert(tokens_text(lits)[q] == rest[q - l.len() - 1]);
            }
        }
    }
}

#[verifier::spinoff_prover]
proof fn lemma_scan_tokens_text(t: Seq<u8>, i: int, e: int, lits: Seq<int>, acc: Seq<int>)
    requires
        0 <= i <= e <= t.len(),
        t.subrange(i, e) == tokens_text(lits),
        forall|k: int| 0 <= k < lits.len() ==> #[trigger] lits[k] != 0 && i64::MIN < lits[k]
            <= i64::MAX,
    ensures
        scan_tokens(t, i, e, Some(acc)) == Some(acc + lits),
    decreases lits.len(),
{
    if lits.len() == 0 {
        assert(e == i);
        assert(acc + lits =~= acc);
    } else {
        let l = lits[0];
        let tok = lit_bytes(l);
        let len = tok.len() as int;
        lemma_lit_bytes(l);
        lemma_literal_round_trip(l);
        let body = tokens_text(lits);
        assert(body == tok + seq![32u8] + tokens_text(lits.drop_first()));
        assert forall|q: int| i <= q < i + len implies !is_ws(#[trigger] t[q]) by {
            assert(t[q] == t.subrange(i, e)[q - i]);
            assert(body[q - i] == tok[q - i]);
        }
        assert(t[i + len] == t.subrange(i, e)[len]);
        assert(body[len] == 32u8);
        lemma_token_end(t, i, i + len, e);
        assert(t.subrange(i, i + len) =~= tok);
        let rest = tokens_text(lits.drop_first());
        assert(e - i == len + 1 + rest.len());
        assert forall|q: int| 0 <= q < rest.len() implies #[trigger] t.subrange(i + len + 1, e)[q]
            == rest[q] by {
            assert(t.subrange(i + len + 1, e)[q] == t[i + len + 1 + q]);
            assert(t[i + len + 1 + q] == t.subrange(i, e)[len + 1 + q]);
            assert(body[len + 1 + q] == rest[q]);
        }
        assert(t.subrange(i + len + 1, e) =~= rest);
        lemma_scan_tokens_text(t, i + len + 1, e, lits.drop_first(), acc.push(l));
        assert(!is_ws(t[i]));
        assert(add_token(Some(acc), tok) == Some(acc.push(l)));
        assert(scan_tokens(t, i, e, Some(acc)) == scan_tokens(t, i + len, e, Some(acc.push(l))));
        assert(is_ws(t[i + len]));
        assert(scan_tokens(t, i + len, e, Some(acc.push(l))) == scan_tokens(
            t,
            i + len + 1,
            e,
            Some(acc.push(l)),
        ));
        assert(acc.push(l) + lits.drop_first() =~= acc + lits);
    }
}

proof fn lemma_agrees_concat(x: Seq<int>, y: Seq<int>, a: Seq<bool>)
    requires
        agrees(x, a),
        agrees(y, a),
    ensures
        agrees(x + y, a),
{
    assert forall|k: int| 0 <= k < (x + y).len() implies #[trigger] (x + y)[k] != 0 && -a.len()
        <= (x + y)[k] <= a.len() && ((x + y)[k] > 0) == a[var_of((x + y)[k])] by {
        if k < x.len() {
            assert((x + y)[k] == x[k]);
        } else {
            assert((x + y)[k] == y[k - x.len()]);
        }
    }
}

proof fn lemma_agrees_all(first: Seq<Seq<int>>, last: Seq<int>, a: Seq<bool>)
    requires
        forall|k: int| 0 <= k < first.len() ==> agrees(#[trigger] first[k], a),
        agrees(last, a),
    ensures
        agrees(all_literals(first, last), a),
    decreases first.len(),
{
    if first.len() > 0 {
        assert(agrees(first[0], a));
        assert forall|k: int| 0 <= k < first.drop_first().len() implies agrees(
            #[trigger] first.drop_first()[k],
            a,
        ) by {
            assert(first.drop_first()[k] == first[k + 1]);
        }
        lemma_agrees_all(first.drop_first(), last, a);
        lemma_agrees_concat(first[0], all_literals(first.drop_first(), last), a);
    }
}

proof fn lemma_agrees_range(lits: Seq<int>, a: Seq<bool>)
    requires
        agrees(lits, a),
        a.len() < i64::MAX,
    ensures
        forall|k: int| 0 <= k < lits.len() ==> #[trigger] lits[k] != 0 && i64::MIN < lits[k]
            <= i64::MAX,
{
    assert forall|k: int| 0 <= k < lits.len() implies #[trigger] lits[k] != 0 && i64::MIN
        < lits[k] <= i64::MAX by {
        assert(lits[k] != 0);
    }
}

#[verifier::spinoff_prover]
proof fn lemma_scan_value_lines(
    t: Seq<u8>,
    i: int,
    first: Seq<Seq<int>>,
    last: Seq<int>,
    a: Seq<bool>,
    acc: Seq<int>,
)
    requires
        0 <= i <= t.len(),
        a.len() < i64::MAX,
        t.subrange(i, t.len() as int) == value_lines(first, last),
        forall|k: int| 0 <= k < first.len() ==> agrees(#[trigger] first[k], a),
        agrees(last, a),
    ensures
        scan_lines(t, i, (Some(true), Some(acc))) == (
            Some(true),
            Some(acc + all_literals(first, last)),
        ),
    decreases first.len(),
{
    let n = t.len() as int;
    let rest = t.subrange(i, n);
    if first.len() == 0 {
        let body = value_body(last);
        lemma_agrees_range(last, a);
        lemma_value_body_bytes(last);
        assert(rest.len() == n - i);
        assert(rest == seq![118u8, 32] + body + seq![10u8]);
        assert((seq![118u8, 32] + body + seq![10u8]).len() == 3 + body.len());
        assert(n - i == 3 + body.len());
        assert forall|q: int| i <= q < n - 1 implies #[trigger] t[q] != 10 by {
            assert(t[q] == rest[q - i]);
            if q >= i + 2 {
                assert(rest[q - i] == body[q - i - 2]);
            }
        }
        assert(t[n - 1] == rest[n - 1 - i]);
        lemma_line_end(t, i, n - 1);
        assert(t[i] == rest[0]);
        assert forall|q: int| 0 <= q < body.len() implies #[trigger] t.subrange(i + 2, n - 1)[q]
            == body[q] by {
            assert(t.subrange(i + 2, n - 1)[q] == rest[q + 2]);
        }
        assert(t.subrange(i + 2, n - 1) =~= body);
        lemma_scan_body(t, i + 2, n - 1, last, acc);
        assert(apply_line(t, i, n - 1, (Some(true), Some(acc))) == (Some(true), Some(acc + last)));
        assert(line_end(t, i) == n - 1);
        assert(scan_lines(t, i, (Some(true), Some(acc))) == scan_lines(
            t,
            n,
            (Some(true), Some(acc + last)),
        ));
        assert(all_literals(first, last) == last);
    } else {
        let tt = tokens_text(first[0]);
        let e = i + 2 + tt.len();
        lemma_agrees_range(first[0], a);
        lemma_tokens_text_bytes(first[0]);
        let tail = value_lines(first.drop_first(), last);
        assert(rest == seq![118u8, 32] + tt + seq![10u8] + tail);
        assert forall|q: int| i <= q < e implies #[trigger] t[q] != 10 by {
            assert(t[q] == rest[q - i]);
            if q >= i + 2 {
                assert(rest[q - i] == tt[q - i - 2]);
            }
        }
        assert(t[e] == rest[e - i]);
        lemma_line_end(t, i, e);
        assert(t[i] == rest[0]);
        assert forall|q: int| 0 <= q < tt.len() implies #[trigger] t.subrange(i + 2, e)[q]
            == tt[q] by {
            assert(t.subrange(i + 2, e)[q] == rest[q + 2]);
        }
        assert(t.subrange(i + 2, e) =~= tt);
        lemma_scan_tokens_text(t, i + 2, e, first[0], acc);
        assert forall|q: int| 0 <= q < tail.len() implies #[trigger] t.subrange(e + 1, n)[q]
            == tail[q] by {
            assert(t.subrange(e + 1, n)[q] == rest[e + 1 - i + q]);
        }
        assert(t.subrange(e + 1, n) =~= tail);
        assert forall|k: int| 0 <= k < first.drop_first().len() implies agrees(
            #[trigger] first.drop_first()[k],
            a,
        ) by {
            assert(first.drop_first()[k] == first[k + 1]);
        }
        assert(agrees(first[0], a));
        lemma_scan_value_lines(t, e + 1, first.drop_first(), last, a, acc + first[0]);
        assert(acc + first[0] + all_literals(first.drop_first(), last) =~= acc + all_literals(
            first,
            last,
        ));
        assert(apply_line(t, i, e, (Some(true), Some(acc))) == (Some(true), Some(acc + first[0])));
        assert(e < n);
        assert(scan_lines(t, i, (Some(true), Some(acc))) == scan_lines(
            t,
            e + 1,
            (Some(true), Some(acc + first[0])),
        ));
    }
}

/// An oracle's answer for a known assignment `a` whose literals are spread
/// over several value lines, in any order, with the zero sentinel on the last
/// line only, reads back as exactly `a`.
#[verifier::spinoff_prover]
pub proof fn lemma_answer_lines(a: Seq<bool>, first: Seq<Seq<int>>, last: Seq<int>)
    requires
        a.len() < i64::MAX,
        a.len() < usize::MAX,
        forall|k: int| 0 <= k < first.len() ==> agrees(#[trigger] first[k], a),
        agrees(last, a),
        forall|i: int| 0 <= i < a.len() ==> #[trigger] names_var(all_literals(first, last), i),
    ensures
        answer_model(
            seq![115u8, 32, 83, 65, 84, 73, 83, 70, 73, 65, 66, 76, 69, 10] + value_lines(first, last),
            a.len(),
        ) == Ok::<Seq<Option<bool>>, crate::reader::AnswerError>(
            Seq::new(a.len(), |i: int| Some(a[i])),
        ),
{
    let status = seq![115u8, 32, 83, 65, 84, 73, 83, 70, 73, 65, 66, 76, 69, 10];
    let t = status + value_lines(first, last);
    let lits = all_literals(first, last);
    lemma_agrees_all(first, last, a);
    assert(lits.take(lits.len() as int) =~= lits);
    let pairs = lits.map_values(|x: int| literal_pair(x));
    let w = witness_values(a.len(), pairs);
    assert forall|v: int| 0 <= v < a.len() implies #[trigger] w[v] == Some(a[v]) by {
        lemma_last_value_agrees(lits, a, lits.len() as int, v);
        assert(names_var(lits, v));
    }
    assert(w =~= Seq::new(a.len(), |i: int| Some(a[i])));
    assert(known_ids(lits, a.len()));
    // the status line
    lemma_line_end(t, 0, 13);
    assert(t.subrange(0, 13)[0] == 115u8);
    assert(!has_unsat(t, 0, 13)) by {
        if has_unsat(t, 0, 13) {
            let k = choose|k: int| 0 <= k && k + 13 <= 13 && #[trigger] t.subrange(k, k + 13)
                == unsat_marker();
            assert(k == 0);
            assert(t.subrange(0, 13)[0] == unsat_marker()[0]);
        }
    }
    assert(apply_line(t, 0, 13, (None, Some(seq![]))) == (Some(true), Some(Seq::<int>::empty())));
    assert(scan_lines(t, 0, (None, Some(seq![]))) == scan_lines(
        t,
        14,
        (Some(true), Some(Seq::<int>::empty())),
    ));
    // the value lines
    assert(t.subrange(14, t.len() as int) =~= value_lines(first, last));
    lemma_scan_value_lines(t, 14, first, last, a, Seq::<int>::empty());
    assert(Seq::<int>::empty() + lits =~= lits);
    assert(read_outcome(t) == (true, Some(lits)));
}

/// A finished run's classification: sound backbone literals, and every other
/// variable settled as taking both values in models of `cs`.
pub open spec fn finished_run(values: Seq<VariableValue>, cs: Seq<Seq<(usize, bool)>>) -> bool {
    &&& backbones_sound(values, cs)
    &&& forall|j: int|
        0 <= j < values.len() && !(#[trigger] values[j] is Backbone) ==> (exists|a: Seq<bool>|
            is_model(a, cs, values.len()) && a[j]) && (exists|a: Seq<bool>|
            is_model(a, cs, values.len()) && !a[j])
}

/// Two finished runs on the same satisfiable clause set report the same
/// backbone, whatever witnesses they were given.
#[verifier::spinoff_prover]
pub proof fn lemma_runs_agree(
    v1: Seq<VariableValue>,
    v2: Seq<VariableValue>,
    cs: Seq<Seq<(usize, bool)>>,
    model: Seq<bool>,
)
    requires
        v1.len() == v2.len(),
        finished_run(v1, cs),
        finished_run(v2, cs),
        is_model(model, cs, v1.len()),
    ensures
        forall|i: int| 0 <= i < v1.len() ==> (#[trigger] v1[i] is Backbone <==> v2[i] is Backbone),
        forall|i: int| 0 <= i < v1.len() && #[trigger] v1[i] is Backbone ==> v1[i] == v2[i],
{
    assert forall|i: int| 0 <= i < v1.len() implies (#[trigger] v1[i] is Backbone <==> v2[i]
        is Backbone) && (v1[i] is Backbone ==> v1[i] == v2[i]) by {
        if v1[i] is Backbone && !(v2[i] is Backbone) {
            let p = v1[i]->Backbone_0;
            if p {
                let b = choose|b: Seq<bool>| is_model(b, cs, v2.len()) && !b[i];
                assert(is_model(b, cs, v1.len()));
            } else {
                let b = choose|b: Seq<bool>| is_model(b, cs, v2.len()) && b[i];
                assert(is_model(b, cs, v1.len()));
            }
        }
        if v2[i] is Backbone && !(v1[i] is Backbone) {
            let p = v2[i]->Backbone_0;
            if p {
                let b = choose|b: Seq<bool>| is_model(b, cs, v1.len()) && !b[i];
                assert(is_model(b, cs, v2.len()));
            } else {
                let b = choose|b: Seq<bool>| is_model(b, cs, v1.len()) && b[i];
                assert(is_model(b, cs, v2.len()));
            }
        }
        if v1[i] is Backbone && v2[i] is Backbone {
            assert(model[i] == v1[i]->Backbone_0);
            assert(is_model(model, cs, v2.len()));
            assert(model[i] == v2[i]->Backbone_0);
        }
    }
}

} // verus!

use vstd::prelude::*;

verus! {

/// Literals of a clause mention each variable at most once.
pub open spec fn distinct_vars(s: Seq<(usize, bool)>) -> bool {
    forall|i: int, j: int| 0 <= i < j < s.len() ==> s[i].0 != s[j].0
}

/// Whether some literal of `s` is about variable `v`.
pub open spec fn mentions(s: Seq<(usize, bool)>, v: usize) -> bool {
    exists|i: int| 0 <= i < s.len() && s[i].0 == v
}

/// The literal sequence after requiring variable `v` to have polarity `b`:
/// an existing literal on `v` is overwritten in place, otherwise one is appended.
pub open spec fn set_literal(s: Seq<(usize, bool)>, v: usize, b: bool) -> Seq<(usize, bool)> {
    if mentions(s, v) {
        let i = choose|i: int| 0 <= i < s.len() && s[i].0 == v;
        s.update(i, (v, b))
    } else {
        s.push((v, b))
    }
}

/// The clause forbidding `a` and `b` from both being true.
pub open spec fn pair_clause(a: usize, b: usize) -> Seq<(usize, bool)> {
    if a == b {
        seq![(a, false)]
    } else {
        seq![(a, false), (b, false)]
    }
}

/// The pairwise clauses for the entries of `vs` from index `i` on, each entry
/// paired with every later one, in order.
pub open spec fn pair_clauses_from(vs: Seq<usize>, i: int) -> Seq<Seq<(usize, bool)>>
    decreases vs.len() - i,
{
    if i >= vs.len() || i < 0 {
        seq![]
    } else {
        row(vs, i, i + 1) + pair_clauses_from(vs, i + 1)
    }
}

/// The pair clauses of entry `i` of `vs` with the entries from `j` on.
pub open spec fn row(vs: Seq<usize>, i: int, j: int) -> Seq<Seq<(usize, bool)>> {
    Seq::new((vs.len() - j) as nat, |k: int| pair_clause(vs[i], vs[j + k]))
}

/// A variable: a unique name and its dense id.
pub struct SatVariable {
    name: String,
    id: usize,
}

impl SatVariable {
    pub closed spec fn name_view(&self) -> Seq<char> {
        self.name@
    }

    pub closed spec fn id_view(&self) -> usize {
        self.id
    }

    pub fn name(&self) -> (r: &str)
        ensures
            r@ == self.name_view(),
    {
        self.name.as_str()
    }

    pub fn id(&self) -> (r: usize)
        ensures
            r == self.id_view(),
    {
        self.id
    }
}

/// A disjunction of literals, each a variable id with its required polarity.
pub struct CnfClause {
    values: Vec<(usize, bool)>,
}

impl CnfClause {
    /// The literals in the order in which they are written out.
    pub closed spec fn literals(&self) -> Seq<(usize, bool)> {
        self.values@
    }

    pub open spec fn wf(&self) -> bool {
        distinct_vars(self.literals())
    }

    pub fn new() -> (r: CnfClause)
        ensures
            r.wf(),
            r.literals() == Seq::<(usize, bool)>::empty(),
    {
        CnfClause { values: Vec::new() }
    }

    pub fn set(&mut self, variable_id: usize, value: bool)
        requires
            old(self).wf(),
        ensures
            final(self).wf(),
            final(self).literals() == set_literal(old(self).literals(), variable_id, value),
    {
        let n = self.values.len();
        let mut k: usize = 0;
        while k < n
            invariant
                n == self.values.len(),
                self.values@ == old(self).values@,
                distinct_vars(self.values@),
                k <= n,
                forall|j: int| 0 <= j < k ==> self.values@[j].0 != variable_id,
            decreases n - k,
        {
            if self.values[k].0 == variable_id {
                let ghost s = self.values@;
                assert(mentions(s, variable_id));
                self.values.set(k, (variable_id, value));
                proof {
                    let c = choose|i: int| 0 <= i < s.len() && s[i].0 == variable_id;
                    assert(s[k as int].0 == variable_id);
                    assert(c == k as int);
                    assert(self.values@ == s.update(c, (variable_id, value)));
                    assert(distinct_vars(self.values@));
                }
                return;
            }
            k = k + 1;
        }
        assert(!mentions(self.values@, variable_id));
        self.values.push((variable_id, value));
    }
}

/// A clause set over named variables with ids `0..n`, whose clauses form a stack.
pub struct CnfSat {
    variables: Vec<SatVariable>,
    clauses: Vec<CnfClause>,
}

impl CnfSat {
    /// Variable names, indexed by id.
    pub closed spec fn names(&self) -> Seq<Seq<char>> {
        self.variables@.map_values(|v: SatVariable| v.name@)
    }

    /// The clauses, oldest first, each as its literal sequence.
    pub closed spec fn clause_seq(&self) -> Seq<Seq<(usize, bool)>> {
        self.clauses@.map_values(|c: CnfClause| c.literals())
    }

    pub closed spec fn wf(&self) -> bool {
        &&& forall|i: int| 0 <= i < self.variables@.len() ==> self.variables@[i].id == i
        &&& forall|i: int, j: int|
            0 <= i < j < self.variables@.len() ==> self.variables@[i].name@
                != self.variables@[j].name@
        &&& forall|i: int| 0 <= i < self.clauses@.len() ==> valid_clause(
            self.clauses@[i].literals(),
            self.variables@.len(),
        )
    }

    pub fn new() -> (r: CnfSat)
        ensures
            r.wf(),
            r.names() == Seq::<Seq<char>>::empty(),
            r.clause_seq() == Seq::<Seq<(usize, bool)>>::empty(),
    {
        let r = CnfSat { variables: Vec::new(), clauses: Vec::new() };
        assert(r.names() =~= Seq::<Seq<char>>::empty());
        assert(r.clause_seq() =~= Seq::<Seq<(usize, bool)>>::empty());
        r
    }

    /// Declares a variable under a name not yet declared and returns its id,
    /// the next one; `None`, with nothing changed, when the name is taken.
    pub fn create_variable(&mut self, name: &str) -> (r: Option<usize>)
        requires
            old(self).wf(),
            old(self).names().len() < usize::MAX,
        ensures
            final(self).wf(),
            final(self).clause_seq() == old(self).clause_seq(),
            old(self).names().contains(name@) ==> r is None && final(self).names() == old(
                self,
            ).names(),
            !old(self).names().contains(name@) ==> r == Some(old(self).names().len() as usize)
                && final(self).names() == old(self).names().push(name@),
    {
        if self.lookup_variable(name).is_some() {
            return None;
        }
        Some(self.push_variable(name))
    }

    /// Declares a variable under a name known to be fresh; returns its id.
    pub(crate) fn push_variable(&mut self, name: &str) -> (r: usize)
        requires
            old(self).wf(),
            !old(self).names().contains(name@),
            old(self).names().len() < usize::MAX,
        ensures
            final(self).wf(),
            r == old(self).names().len(),
            final(self).names() == old(self).names().push(name@),
            final(self).clause_seq() == old(self).clause_seq(),
    {
        let ghost names = self.names();
        let id = self.variables.len();
        let variable = SatVariable { name: name.to_owned(), id };
        self.variables.push(variable);
        assert(self.names() =~= names.push(name@));
        assert forall|i: int, j: int|
            0 <= i < j < self.variables@.len() implies self.variables@[i].name@
                != self.variables@[j].name@ by {
            if j == self.variables@.len() - 1 {
                assert(names[i] == self.variables@[i].name@);
            }
        }
        id
    }

    /// The id of the variable called `name`, if one is declared.
    pub fn lookup_variable(&self, name: &str) -> (r: Option<usize>)
        requires
            self.wf(),
        ensures
            r matches Some(id) ==> id < self.names().len() && self.names()[id as int] == name@
                && forall|j: int|
                0 <= j < self.names().len() && #[trigger] self.names()[j] == name@ ==> j == id,
            r is None ==> !self.names().contains(name@),
    {
        let wanted = name.to_owned();
        let n = self.variables.len();
        let mut i: usize = 0;
        while i < n
            invariant
                n == self.variables@.len(),
                self.wf(),
                wanted@ == name@,
                i <= n,
                forall|j: int| 0 <= j < i ==> self.names()[j] != name@,
            decreases n - i,
        {
            if self.variables[i].name == wanted {
                assert(self.names()[i as int] == name@);
                assert forall|j: int|
                    0 <= j < self.names().len() && #[trigger] self.names()[j] == name@ implies j
                    == i by {
                    assert(self.names()[j] == self.variables@[j].name@);
                    assert(self.names()[i as int] == self.variables@[i as int].name@);
                }
                return Some(i);
            }
            i = i + 1;
        }
        None
    }

    /// The id of the variable called `name`, which must be declared.
    pub fn get_variable(&self, name: &str) -> (r: usize)
        requires
            self.wf(),
            self.names().contains(name@),
        ensures
            r < self.names().len(),
            self.names()[r as int] == name@,
            forall|j: int|
                0 <= j < self.names().len() && #[trigger] self.names()[j] == name@ ==> j == r,
    {
        match self.lookup_variable(name) {
            Some(id) => id,
            None => {
                proof {
                    let j = choose|j: int| 0 <= j < self.names().len() && self.names()[j] == name@;
                }
                0
            },
        }
    }

    /// The variable with id `id`, if there is one.
    pub fn get_variable_by_id(&self, id: usize) -> (r: Option<&SatVariable>)
        requires
            self.wf(),
        ensures
            id < self.names().len() <==> r is Some,
            r matches Some(v) ==> v.id_view() == id && v.name_view() == self.names()[id as int],
    {
        if id < self.variables.len() {
            Some(&self.variables[id])
        } else {
            None
        }
    }

    /// Pushes a clause on top of the stack.
    pub fn add_clause(&mut self, clause: CnfClause)
        requires
            old(self).wf(),
            valid_clause(clause.literals(), old(self).names().len()),
        ensures
            final(self).wf(),
            final(self).names() == old(self).names(),
            final(self).clause_seq() == old(self).clause_seq().push(clause.literals()),
    {
        let ghost cs = self.clause_seq();
        self.clauses.push(clause);
        assert(self.clause_seq() =~= cs.push(clause.literals()));
        assert(self.names() =~= old(self).names());
    }

    /// Takes the most recently added clause off the stack; `None` when there is none.
    pub fn pop_clause(&mut self) -> (r: Option<CnfClause>)
        requires
            old(self).wf(),
        ensures
            final(self).wf(),
            final(self).names() == old(self).names(),
            old(self).clause_seq().len() == 0 ==> r is None && final(self).clause_seq()
                == old(self).clause_seq(),
            old(self).clause_seq().len() > 0 ==> (r matches Some(c) && c.literals()
                == old(self).clause_seq().last() && final(self).clause_seq()
                == old(self).clause_seq().drop_last()),
    {
        let ghost cs = self.clause_seq();
        let r = self.clauses.pop();
        assert(self.names() =~= old(self).names());
        proof {
            if cs.len() > 0 {
                assert(self.clause_seq() =~= cs.drop_last());
            }
        }
        r
    }

    /// Adds the clause `v1 ∨ v2 ∨ ... ∨ vN` over the given variables, of which
    /// there is at least one.
    pub fn ensure_at_least_one_set(&mut self, variables: &[usize])
        requires
            old(self).wf(),
            variables@.len() > 0,
            forall|i: int| 0 <= i < variables@.len() ==> variables@[i] < old(self).names().len(),
        ensures
            final(self).wf(),
            final(self).names() == old(self).names(),
            final(self).clause_seq().len() == old(self).clause_seq().len() + 1,
            final(self).clause_seq().drop_last() == old(self).clause_seq(),
            distinct_vars(final(self).clause_seq().last()),
            forall|i: int|
                0 <= i < final(self).clause_seq().last().len()
                    ==> final(self).clause_seq().last()[i].1,
            forall|v: usize| mentions(final(self).clause_seq().last(), v) <==> variables@.contains(v),
    {
        let mut clause = CnfClause::new();
        let n = variables.len();
        let mut k: usize = 0;
        while k < n
            invariant
                n == variables@.len(),
                k <= n,
                clause.wf(),
                forall|i: int| 0 <= i < clause.literals().len() ==> clause.literals()[i].1,
                forall|v: usize| mentions(clause.literals(), v) <==> variables@.take(k as int).contains(v),
            decreases n - k,
        {
            let ghost before = clause.literals();
            let v = variables[k];
            clause.set(v, true);
            proof {
                let after = clause.literals();
                assert(variables@.take(k as int + 1) =~= variables@.take(k as int).push(v));
                if mentions(before, v) {
                    let c = choose|i: int| 0 <= i < before.len() && before[i].0 == v;
                    assert(after[c].0 == v);
                    assert forall|w: usize| mentions(after, w) <==> mentions(before, w) by {
                        if mentions(before, w) {
                            let j = choose|j: int| 0 <= j < before.len() && before[j].0 == w;
                            if j == c {
                                assert(after[c].0 == w);
                            } else {
                                assert(after[j].0 == w);
                            }
                        }
                        if mentions(after, w) {
                            let j = choose|j: int| 0 <= j < after.len() && after[j].0 == w;
                            if j == c {
                                assert(before[c].0 == w);
                            } else {
                                assert(before[j].0 == w);
                            }
                        }
                    }
                } else {
                    assert(after[before.len() as int].0 == v);
                    assert forall|w: usize| mentions(after, w) <==> (mentions(before, w) || w == v) by {
                        if mentions(before, w) {
                            let j = choose|j: int| 0 <= j < before.len() && before[j].0 == w;
                            assert(after[j].0 == w);
                        }
                        if mentions(after, w) && w != v {
                            let j = choose|j: int| 0 <= j < after.len() && after[j].0 == w;
                            assert(before[j].0 == w);
                        }
                    }
                }
                assert forall|w: usize| variables@.take(k as int + 1).contains(w) <==> (variables@.take(k as int).contains(w) || w == v) by {
                    if variables@.take(k as int + 1).contains(w) {
                        let j = choose|j: int| 0 <= j < k + 1 && #[trigger] variables@.take(k as int + 1)[j] == w;
                        if j < k {
                            assert(variables@.take(k as int)[j] == w);
                        }
                    }
                    if variables@.take(k as int).contains(w) {
                        let j = choose|j: int| 0 <= j < k && #[trigger] variables@.take(k as int)[j] == w;
                        assert(variables@.take(k as int + 1)[j] == w);
                    }
                    if w == v {
                        assert(variables@.take(k as int + 1)[k as int] == w);
                    }
                }
            }
            k = k + 1;
        }
        assert(variables@.take(n as int) =~= variables@);
        proof {
            assert(variables@.contains(variables@[0]));
            assert(mentions(clause.literals(), variables@[0]));
            assert forall|i: int| 0 <= i < clause.literals().len() implies clause.literals()[i].0 < self.names().len() by {
                let w = clause.literals()[i].0;
                assert(mentions(clause.literals(), w));
            }
        }
        self.add_clause(clause);
    }

    /// Adds `¬a ∨ ¬b` for every pair of positions `a` before `b` in `variables`,
    /// so that at most one of them can be true.
    pub fn ensure_max_one_set(&mut self, variables: &[usize])
        requires
            old(self).wf(),
            forall|i: int| 0 <= i < variables@.len() ==> variables@[i] < old(self).names().len(),
        ensures
            final(self).wf(),
            final(self).names() == old(self).names(),
            final(self).clause_seq() == old(self).clause_seq() + pair_clauses_from(variables@, 0),
    {
        let ghost vs = variables@;
        let ghost target = old(self).clause_seq() + pair_clauses_from(vs, 0);
        let n = variables.len();
        let mut i: usize = 0;
        assert(target =~= self.clause_seq() + pair_clauses_from(vs, 0));
        while i < n
            invariant
                n == vs.len(),
                vs == variables@,
                i <= n,
                self.wf(),
                self.names() == old(self).names(),
                forall|k: int| 0 <= k < vs.len() ==> vs[k] < self.names().len(),
                target == self.clause_seq() + pair_clauses_from(vs, i as int),
            decreases n - i,
        {
            let mut j: usize = i + 1;
            assert(pair_clauses_from(vs, i as int) =~= row(vs, i as int, j as int)
                + pair_clauses_from(vs, i + 1));
            while j < n
                invariant
                    n == vs.len(),
                    vs == variables@,
                    i < n,
                    i < j <= n,
                    self.wf(),
                    self.names() == old(self).names(),
                    forall|k: int| 0 <= k < vs.len() ==> vs[k] < self.names().len(),
                    target == self.clause_seq() + (row(vs, i as int, j as int) + pair_clauses_from(
                        vs,
                        i + 1,
                    )),
                decreases n - j,
            {
                let a = variables[i];
                let b = variables[j];
                let mut pair = CnfClause::new();
                pair.set(a, false);
                assert(pair.literals() =~= seq![(a, false)]);
                pair.set(b, false);
                proof {
                    if a == b {
                        let one = seq![(a, false)];
                        assert(one[0].0 == b);
                        assert(mentions(one, b));
                        let c = choose|c: int| 0 <= c < one.len() && one[c].0 == b;
                        assert(c == 0);
                        assert(pair.literals() =~= seq![(a, false)]);
                    } else {
                        assert(!mentions(seq![(a, false)], b));
                    }
                    assert(pair.literals() =~= pair_clause(a, b));
                }
                let ghost before = self.clause_seq();
                self.add_clause(pair);
                assert(row(vs, i as int, j as int) =~= seq![pair_clause(a, b)] + row(
                    vs,
                    i as int,
                    j + 1,
                ));
                assert(target =~= self.clause_seq() + (row(vs, i as int, j + 1) + pair_clauses_from(
                    vs,
                    i + 1,
                )));
                j = j + 1;
            }
            assert(row(vs, i as int, n as int) =~= Seq::<Seq<(usize, bool)>>::empty());
            assert(target =~= self.clause_seq() + pair_clauses_from(vs, i + 1));
            i = i + 1;
        }
    }

    /// The literals of clause `i`, oldest clause first.
    pub fn clause_literals(&self, i: usize) -> (r: &Vec<(usize, bool)>)
        requires
            self.wf(),
            i < self.clause_seq().len(),
        ensures
            r@ == self.clause_seq()[i as int],
            valid_clause(r@, self.names().len()),
            self.names().len() <= usize::MAX,
    {
        let nv = self.variables.len();
        assert(self.names().len() == nv);
        &self.clauses[i].values
    }

    pub fn variable_count(&self) -> (r: usize)
        ensures
            r == self.names().len(),
    {
        self.variables.len()
    }

    pub fn clause_count(&self) -> (r: usize)
        ensures
            r == self.clause_seq().len(),
    {
        self.clauses.len()
    }
}

/// Literals on distinct ids, each one of `n` declared variables.
pub open spec fn clause_in_range(s: Seq<(usize, bool)>, n: nat) -> bool {
    &&& distinct_vars(s)
    &&& forall|i: int| 0 <= i < s.len() ==> s[i].0 < n
}

/// A clause fit for a set of `n` variables: at least one literal, on distinct,
/// declared ids.
pub open spec fn valid_clause(s: Seq<(usize, bool)>, n: nat) -> bool {
    &&& s.len() > 0
    &&& clause_in_range(s, n)
}

} // verus!

verus! {

/// The value that witness `m` gives variable `v`: the last pair on `v` wins.
pub open spec fn last_value(m: Seq<(usize, bool)>, v: int) -> Option<bool>
    decreases m.len(),
{
    if m.len() == 0 {
        None
    } else if m.last().0 == v {
        Some(m.last().1)
    } else {
        last_value(m.drop_last(), v)
    }
}

/// The witness `m` over `n` variables, by id.
pub open spec fn witness_values(n: nat, m: Seq<(usize, bool)>) -> Seq<Option<bool>> {
    Seq::new(n, |v: int| last_value(m, v))
}

/// A satisfying assignment, by id and by name.
pub struct SatModel {
    names: Vec<String>,
    values: Vec<Option<bool>>,
}

impl SatModel {
    /// The value of each variable, by id; `None` where the witness is silent.
    pub closed spec fn values(&self) -> Seq<Option<bool>> {
        self.values@
    }

    /// The variable names, by id.
    pub closed spec fn names(&self) -> Seq<Seq<char>> {
        self.names@.map_values(|s: String| s@)
    }

    pub closed spec fn wf(&self) -> bool {
        &&& self.names@.len() == self.values@.len()
        &&& forall|i: int, j: int|
            0 <= i < j < self.names@.len() ==> self.names@[i]@ != self.names@[j]@
    }

    /// The model of witness `model`, which names only variables of `sat`.
    pub fn from_vec(sat: &CnfSat, model: &Vec<(usize, bool)>) -> (r: SatModel)
        requires
            sat.wf(),
            forall|k: int| 0 <= k < model@.len() ==> #[trigger] model@[k].0 < sat.names().len(),
        ensures
            r.wf(),
            r.names() == sat.names(),
            r.values() == witness_values(sat.names().len(), model@),
    {
        let n = sat.variables.len();
        let mut names: Vec<String> = Vec::new();
        let mut values: Vec<Option<bool>> = Vec::new();
        let mut v: usize = 0;
        while v < n
            invariant
                sat.wf(),
                n == sat.variables@.len(),
                v <= n,
                names@.len() == v,
                values@.len() == v,
                forall|i: int| 0 <= i < v ==> names@[i]@ == sat.variables@[i].name@,
                forall|i: int| 0 <= i < v ==> values@[i] == last_value(model@, i),
            decreases n - v,
        {
            names.push(sat.variables[v].name.clone());
            let m = model.len();
            let mut k: usize = m;
            let mut found: Option<bool> = None;
            assert(model@.take(m as int) =~= model@);
            while k > 0
                invariant
                    m == model@.len(),
                    k <= m,
                    last_value(model@, v as int) == (match found {
                        Some(b) => Some(b),
                        None => last_value(model@.take(k as int), v as int),
                    }),
                    found is Some ==> k == 0,
                decreases k,
            {
                let ghost t = model@.take(k as int);
                assert(t.drop_last() =~= model@.take(k - 1));
                let (id, value) = model[k - 1];
                if id == v {
                    found = Some(value);
                    k = 0;
                } else {
                    k = k - 1;
                }
            }
            proof {
                if found is None {
                    assert(model@.take(0) =~= Seq::<(usize, bool)>::empty());
                }
            }
            assert(model@.take(m as int) =~= model@);
            values.push(found);
            v = v + 1;
        }
        let r = SatModel { names, values };
        assert(r.names() =~= sat.names());
        assert(r.values() =~= witness_values(sat.names().len(), model@));
        r
    }

    /// The value of variable `id`, if the witness gives one.
    pub fn get_result_by_id(&self, id: &usize) -> (r: Option<bool>)
        ensures
            r == (if *id < self.values().len() { self.values()[*id as int] } else { None }),
    {
        if *id < self.values.len() {
            self.values[*id]
        } else {
            None
        }
    }

    /// The value of the variable called `name`, if it exists and the witness gives one.
    pub fn get_result_by_name(&self, name: &str) -> (r: Option<bool>)
        requires
            self.wf(),
        ensures
            forall|i: int|
                0 <= i < self.names().len() && self.names()[i] == name@ ==> r == self.values()[i],
            !self.names().contains(name@) ==> r is None,
    {
        let wanted = name.to_owned();
        let n = self.names.len();
        let mut i: usize = 0;
        while i < n
            invariant
                self.wf(),
                n == self.names@.len(),
                wanted@ == name@,
                i <= n,
                forall|j: int| 0 <= j < i ==> self.names()[j] != name@,
            decreases n - i,
        {
            if self.names[i] == wanted {
                assert(self.names()[i as int] == name@);
                return self.values[i];
            }
            i = i + 1;
        }
        None
    }
}

} // verus!

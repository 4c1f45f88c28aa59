use vstd::prelude::*;
use crate::cnf::{CnfSat, CnfClause, SatModel};

verus! {

/// What the witnesses seen so far say of one variable.
#[derive(PartialEq, Eq, Structural, Clone, Copy, Debug)]
pub enum VariableValue {
    /// No witness seen yet.
    Unseen,
    /// True in every witness seen.
    True,
    /// False in every witness seen.
    False,
    /// Seen with both values: not part of the backbone.
    Either,
    /// The opposite value was refuted: the variable always has this value.
    Backbone(bool),
}

/// Where the search stands.
#[derive(PartialEq, Eq, Structural, Clone, Copy, Debug)]
pub enum SearchState {
    /// The unmodified clause set is queried.
    FirstRun,
    /// Variable `candidate_index`, seen only with `candidate_value`, is queried
    /// with the opposite value forced.
    Searching { candidate_index: usize, candidate_value: bool },
}

/// The outcome of one oracle call, with the answer's text and the time it took.
pub enum EvaluationResult {
    Sat { dimacs: String, model: SatModel, time_micros: u64 },
    Unsat { dimacs: String, time_micros: u64 },
}

/// Why the search stops without a result.
#[derive(PartialEq, Eq, Structural, Clone, Copy, Debug)]
pub enum BackboneError {
    /// The clause set itself has no solution.
    UnsatisfiableInput,
    /// A witness gave no value for this variable.
    MissingVariable(usize),
    /// A witness contradicts a confirmed backbone literal of this variable.
    Inconsistent(usize),
}

/// The classification after observing `observed` in a fresh witness;
/// `None` when that contradicts a confirmed backbone literal.
pub open spec fn merge(prev: VariableValue, observed: bool) -> Option<VariableValue> {
    match prev {
        VariableValue::Unseen => Some(if observed { VariableValue::True } else { VariableValue::False }),
        VariableValue::Either => Some(VariableValue::Either),
        VariableValue::Backbone(v) => if v == observed { Some(prev) } else { None },
        VariableValue::True => Some(if observed { VariableValue::True } else { VariableValue::Either }),
        VariableValue::False => Some(if observed { VariableValue::Either } else { VariableValue::False }),
    }
}

/// A variable seen with one value only, not yet probed.
pub open spec fn is_candidate(v: VariableValue) -> bool {
    v == VariableValue::True || v == VariableValue::False
}

/// `i` is the first candidate at or after `start`.
pub open spec fn first_candidate_from(values: Seq<VariableValue>, start: int, i: int) -> bool {
    &&& start <= i < values.len()
    &&& is_candidate(values[i])
    &&& forall|j: int| start <= j < i ==> !is_candidate(values[j])
}

/// No candidate at or after `start`.
pub open spec fn no_candidate_from(values: Seq<VariableValue>, start: int) -> bool {
    forall|j: int| start <= j < values.len() ==> !is_candidate(values[j])
}

/// Merges one observed value into a classification.
pub fn merge_value(prev: VariableValue, observed: bool) -> (r: Option<VariableValue>)
    ensures
        r == merge(prev, observed),
{
    match prev {
        VariableValue::Unseen => Some(if observed { VariableValue::True } else { VariableValue::False }),
        VariableValue::Either => Some(VariableValue::Either),
        VariableValue::Backbone(v) => if v == observed {
            Some(prev)
        } else {
            None
        },
        VariableValue::True => Some(if observed { VariableValue::True } else { VariableValue::Either }),
        VariableValue::False => Some(if observed { VariableValue::Either } else { VariableValue::False }),
    }
}

/// The first variable at or after `current_index` seen with one value only,
/// with that value.
pub fn find_backbone_candidate(current_index: usize, values: &[VariableValue]) -> (r: Option<(usize, bool)>)
    ensures
        r matches Some((i, p)) ==> first_candidate_from(values@, current_index as int, i as int)
            && p == (values@[i as int] == VariableValue::True),
        r is None ==> no_candidate_from(values@, current_index as int),
{
    let n = values.len();
    let mut i: usize = current_index;
    while i < n
        invariant
            n == values@.len(),
            current_index <= i || n <= i,
            forall|j: int| current_index <= j < i && j < n ==> !is_candidate(values@[j]),
        decreases n - i,
    {
        match values[i] {
            VariableValue::True => return Some((i, true)),
            VariableValue::False => return Some((i, false)),
            _ => {},
        }
        i = i + 1;
    }
    None
}

} // verus!

verus! {

/// The value a witness gives variable `i`, if any.
pub open spec fn witness_at(w: Seq<Option<bool>>, i: int) -> Option<bool> {
    if 0 <= i < w.len() {
        w[i]
    } else {
        None
    }
}

/// The classification of variable `i` after the witness `w`, if it merges.
pub open spec fn merge_at(values: Seq<VariableValue>, w: Seq<Option<bool>>, i: int) -> Option<
    VariableValue,
> {
    match witness_at(w, i) {
        Some(b) => merge(values[i], b),
        None => None,
    }
}

/// Every variable's value in `w` merges.
pub open spec fn all_merge(values: Seq<VariableValue>, w: Seq<Option<bool>>) -> bool {
    forall|i: int| 0 <= i < values.len() ==> merge_at(values, w, i) is Some
}

/// The classification after merging every value of `w`.
pub open spec fn merged_all(values: Seq<VariableValue>, w: Seq<Option<bool>>) -> Seq<VariableValue> {
    Seq::new(values.len(), |i: int| merge_at(values, w, i)->Some_0)
}

/// Variable `i` is the first whose value in `w` does not merge.
pub open spec fn first_failure(values: Seq<VariableValue>, w: Seq<Option<bool>>, i: int) -> bool {
    &&& 0 <= i < values.len()
    &&& merge_at(values, w, i) is None
    &&& forall|j: int| 0 <= j < i ==> merge_at(values, w, j) is Some
}

/// The error for variable `i`, whose value in `w` does not merge.
pub open spec fn merge_error(w: Seq<Option<bool>>, i: int) -> BackboneError {
    if witness_at(w, i) is None {
        BackboneError::MissingVariable(i as usize)
    } else {
        BackboneError::Inconsistent(i as usize)
    }
}

/// The backbone literals among `values`, as signed 1-based ids, by ascending id.
pub open spec fn backbone_literals(values: Seq<VariableValue>) -> Seq<int>
    decreases values.len(),
{
    if values.len() == 0 {
        seq![]
    } else {
        let prev = backbone_literals(values.drop_last());
        match values.last() {
            VariableValue::Backbone(p) => prev.push(
                if p {
                    values.len() as int
                } else {
                    -(values.len() as int)
                },
            ),
            _ => prev,
        }
    }
}

/// The search for the backbone of a clause set over a fixed number of variables.
pub struct BackboneSearch {
    state: SearchState,
    assignments: Vec<VariableValue>,
}

impl BackboneSearch {
    pub closed spec fn state(&self) -> SearchState {
        self.state
    }

    /// The classification of each variable, by id.
    pub closed spec fn values(&self) -> Seq<VariableValue> {
        self.assignments@
    }

    pub open spec fn wf(&self) -> bool {
        match self.state() {
            SearchState::FirstRun => true,
            SearchState::Searching { candidate_index, .. } => candidate_index
                < self.values().len(),
        }
    }

    /// A search over `variable_count` variables, none seen yet.
    pub fn new(variable_count: usize) -> (r: BackboneSearch)
        ensures
            r.wf(),
            r.state() == SearchState::FirstRun,
            r.values() == Seq::new(variable_count as nat, |i: int| VariableValue::Unseen),
    {
        let mut assignments: Vec<VariableValue> = Vec::new();
        let mut i: usize = 0;
        while i < variable_count
            invariant
                i <= variable_count,
                assignments@ == Seq::new(i as nat, |k: int| VariableValue::Unseen),
            decreases variable_count - i,
        {
            assignments.push(VariableValue::Unseen);
            i = i + 1;
            assert(assignments@ =~= Seq::new(i as nat, |k: int| VariableValue::Unseen));
        }
        BackboneSearch { state: SearchState::FirstRun, assignments }
    }

    /// The current state.
    pub fn search_state(&self) -> (r: SearchState)
        ensures
            r == self.state(),
    {
        self.state
    }

    /// The current classification of variable `i`.
    pub fn value(&self, i: usize) -> (r: VariableValue)
        requires
            i < self.values().len(),
        ensures
            r == self.values()[i as int],
    {
        self.assignments[i]
    }

    /// The hypothesis literal of the current probe: the candidate with the
    /// value opposite to the one seen so far.
    pub fn hypothesis(&self) -> (r: Option<(usize, bool)>)
        ensures
            self.state() == SearchState::FirstRun ==> r is None,
            self.state() matches SearchState::Searching { candidate_index, candidate_value }
                ==> r == Some((candidate_index, !candidate_value)),
    {
        match self.state {
            SearchState::FirstRun => None,
            SearchState::Searching { candidate_index, candidate_value } => Some(
                (candidate_index, !candidate_value),
            ),
        }
    }

    /// Pushes the hypothesis clause, if any, onto `sat`; tells whether it did.
    pub fn begin_probe(&self, sat: &mut CnfSat) -> (r: bool)
        requires
            self.wf(),
            old(sat).wf(),
            self.values().len() == old(sat).names().len(),
        ensures
            final(sat).wf(),
            final(sat).names() == old(sat).names(),
            r == (self.state() != SearchState::FirstRun),
            !r ==> final(sat).clause_seq() == old(sat).clause_seq(),
            self.state() matches SearchState::Searching { candidate_index, candidate_value }
                ==> final(sat).clause_seq() == old(sat).clause_seq().push(
                seq![(candidate_index, !candidate_value)],
            ),
    {
        match self.hypothesis() {
            None => false,
            Some((index, value)) => {
                let mut clause = CnfClause::new();
                clause.set(index, value);
                assert(clause.literals() =~= seq![(index, value)]);
                sat.add_clause(clause);
                true
            },
        }
    }

    /// Takes the hypothesis clause, if any, off `sat` again.
    pub fn end_probe(&self, sat: &mut CnfSat)
        requires
            old(sat).wf(),
        ensures
            final(sat).wf(),
            final(sat).names() == old(sat).names(),
            self.state() == SearchState::FirstRun ==> final(sat).clause_seq() == old(
                sat,
            ).clause_seq(),
            self.state() != SearchState::FirstRun ==> final(sat).clause_seq() == (if old(
                sat,
            ).clause_seq().len() == 0 {
                old(sat).clause_seq()
            } else {
                old(sat).clause_seq().drop_last()
            }),
    {
        if self.state != SearchState::FirstRun {
            let _ = sat.pop_clause();
        }
    }

    /// Records the oracle's answer to the current query: `Some` witness when
    /// satisfiable, `None` when not.
    pub fn observe(&mut self, witness: Option<&SatModel>) -> (r: Result<(), BackboneError>)
        requires
            old(self).wf(),
        ensures
            final(self).wf(),
            final(self).state() == old(self).state(),
            witness is None && old(self).state() == SearchState::FirstRun ==> (r == Err::<
                (),
                BackboneError,
            >(BackboneError::UnsatisfiableInput) && final(self).values() == old(self).values()),
            witness is None ==> (old(self).state() matches SearchState::Searching {
                candidate_index,
                candidate_value,
            } ==> (r is Ok && final(self).values() == old(self).values().update(
                candidate_index as int,
                VariableValue::Backbone(candidate_value),
            ))),
            witness matches Some(m) ==> (r is Ok <==> all_merge(old(self).values(), m.values())),
            witness matches Some(m) ==> (r is Ok ==> final(self).values() == merged_all(
                old(self).values(),
                m.values(),
            )),
            witness matches Some(m) ==> (r matches Err(e) ==> exists|i: int|
                first_failure(old(self).values(), m.values(), i) && e == merge_error(
                    m.values(),
                    i,
                )),
            r is Err ==> final(self).values() == old(self).values(),
    {
        match witness {
            None => match self.state {
                SearchState::FirstRun => Err(BackboneError::UnsatisfiableInput),
                SearchState::Searching { candidate_index, candidate_value } => {
                    self.assignments.set(candidate_index, VariableValue::Backbone(candidate_value));
                    Ok(())
                },
            },
            Some(model) => {
                let ghost w = model.values();
                let ghost old_values = self.assignments@;
                let n = self.assignments.len();
                let mut merged: Vec<VariableValue> = Vec::new();
                let mut i: usize = 0;
                while i < n
                    invariant
                        n == old_values.len(),
                        self.assignments@ == old_values,
                        self.state == old(self).state,
                        old(self).wf(),
                        witness == Some(model),
                        w == model.values(),
                        i <= n,
                        merged@.len() == i,
                        forall|j: int| 0 <= j < i ==> merge_at(old_values, w, j) is Some,
                        forall|j: int|
                            0 <= j < i ==> merged@[j] == merge_at(old_values, w, j)->Some_0,
                    decreases n - i,
                {
                    match model.get_result_by_id(&i) {
                        None => {
                            assert(witness_at(w, i as int) is None);
                            assert(merge_at(old_values, w, i as int) is None);
                            assert(merge_error(w, i as int) == BackboneError::MissingVariable(i));
                            assert(first_failure(old_values, w, i as int));
                            let e = BackboneError::MissingVariable(i);
                            assert(exists|k: int|
                                first_failure(old_values, w, k) && e == merge_error(w, k));
                            assert(old(self).values() == old_values);
                            assert(witness->Some_0.values() == w);
                            return Err(e);
                        },
                        Some(b) => match merge_value(self.assignments[i], b) {
                            None => {
                                assert(witness_at(w, i as int) == Some(b));
                                assert(merge_at(old_values, w, i as int) is None);
                                assert(merge_error(w, i as int) == BackboneError::Inconsistent(i));
                                assert(first_failure(old_values, w, i as int));
                                let e = BackboneError::Inconsistent(i);
                                assert(exists|k: int|
                                    first_failure(old_values, w, k) && e == merge_error(w, k));
                                assert(old(self).values() == old_values);
                                assert(witness->Some_0.values() == w);
                                return Err(e);
                            },
                            Some(v) => merged.push(v),
                        },
                    }
                    i = i + 1;
                }
                proof {
                    assert(merged@ =~= merged_all(old_values, w));
                    if let SearchState::Searching { candidate_index, candidate_value } = self.state {
                        assert(merge_at(old_values, w, candidate_index as int) is Some);
                    }
                }
                self.assignments = merged;
                Ok(())
            },
        }
    }

    /// Moves to the next candidate after the last one probed (from the first
    /// variable after the first run); `false` when none is left.
    pub fn advance(&mut self) -> (r: bool)
        requires
            old(self).wf(),
        ensures
            final(self).wf(),
            final(self).values() == old(self).values(),
            ({
                let start = match old(self).state() {
                    SearchState::FirstRun => 0,
                    SearchState::Searching { candidate_index, .. } => candidate_index + 1,
                };
                &&& r ==> (final(self).state() matches SearchState::Searching {
                    candidate_index,
                    candidate_value,
                } && first_candidate_from(old(self).values(), start, candidate_index as int)
                    && candidate_value == (old(self).values()[candidate_index as int]
                    == VariableValue::True))
                &&& !r ==> no_candidate_from(old(self).values(), start) && final(self).state()
                    == old(self).state()
            }),
    {
        let start = match self.state {
            SearchState::FirstRun => 0,
            SearchState::Searching { candidate_index, .. } => {
                assert(candidate_index < self.assignments.len());
                candidate_index + 1
            },
        };
        match find_backbone_candidate(start, self.assignments.as_slice()) {
            None => false,
            Some((index, value)) => {
                self.state = SearchState::Searching { candidate_index: index, candidate_value: value };
                true
            },
        }
    }

    /// The backbone found: each confirmed literal as a signed 1-based id,
    /// positive for true, by ascending id.
    pub fn backbones(&self) -> (r: Vec<i64>)
        requires
            self.values().len() < i64::MAX,
        ensures
            r@.map_values(|x: i64| x as int) == backbone_literals(self.values()),
    {
        let n = self.assignments.len();
        let mut out: Vec<i64> = Vec::new();
        let mut i: usize = 0;
        while i < n
            invariant
                n == self.values().len(),
                n < i64::MAX,
                i <= n,
                out@.map_values(|x: i64| x as int) == backbone_literals(self.values().take(i as int)),
            decreases n - i,
        {
            let ghost prev = out@;
            let ghost t = self.values().take(i + 1);
            assert(t.drop_last() =~= self.values().take(i as int));
            match self.assignments[i] {
                VariableValue::Backbone(p) => {
                    let id = (i + 1) as i64;
                    out.push(if p { id } else { -id });
                    assert(out@.map_values(|x: i64| x as int) =~= prev.map_values(|x: i64| x as int).push(if p { (i + 1) as int } else { -((i + 1) as int) }));
                },
                _ => {},
            }
            i = i + 1;
        }
        assert(self.values().take(n as int) =~= self.values());
        out
    }
}

} // verus!

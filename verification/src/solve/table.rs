//! The hidden variables as they stand on one branch of a search.

use vstd::prelude::*;
use crate::decimal::{clamp, whole_part, Decimal};
use crate::model::{Change, ChangeKind, Condition, ConditionKind, Variable, VariableConfig};
use crate::solve::{outcome, Error, ErrorView};
use crate::utils::first_objection;

verus! {

/// The values of the hidden variables, by id.
///
/// A random variable has no value; it is known by its id alone.
pub struct Env {
    pub randoms: Set<Seq<char>>,
    pub normals: Map<Seq<char>, int>,
}

/// Whether no id is declared twice.
pub open spec fn distinct_ids(decls: Seq<Variable>) -> bool {
    forall|i: int, j: int| 0 <= i < j < decls.len() ==> decls[i].id@ != decls[j].id@
}

/// Whether the declaration at `j` repeats the id of an earlier one.
pub open spec fn repeats(decls: Seq<Variable>, j: int) -> bool {
    0 <= j < decls.len() && exists|i: int| 0 <= i < j && decls[i].id@ == #[trigger] decls[j].id@
}

/// Whether `i` is the place at which `id` is declared.
pub open spec fn is_slot(decls: Seq<Variable>, id: Seq<char>, i: int) -> bool {
    0 <= i < decls.len() && decls[i].id@ == id
}

/// Whether `id` is declared.
pub open spec fn declared(decls: Seq<Variable>, id: Seq<char>) -> bool {
    exists|i: int| is_slot(decls, id, i)
}

/// A place at which `id` is declared.
pub open spec fn slot_of(decls: Seq<Variable>, id: Seq<char>) -> int {
    choose|i: int| is_slot(decls, id, i)
}

/// The ids that are declared as random variables.
pub open spec fn random_ids(decls: Seq<Variable>) -> Set<Seq<char>> {
    Set::new(|id: Seq<char>| declared(decls, id) && decls[slot_of(decls, id)].config is Random)
}

/// Whether `id` is declared as a normal variable.
pub open spec fn is_normal(decls: Seq<Variable>, id: Seq<char>) -> bool {
    declared(decls, id) && decls[slot_of(decls, id)].config is Normal
}

/// The variables as they stand before any choice is made: every normal
/// variable at its default.
pub open spec fn initial_env(decls: Seq<Variable>) -> Env {
    Env {
        randoms: random_ids(decls),
        normals: Map::new(
            |id: Seq<char>| is_normal(decls, id),
            |id: Seq<char>| decls[slot_of(decls, id)].config->default@,
        ),
    }
}

/// Whether a comparison of kind `kind` holds between two whole numbers.
pub open spec fn holds(kind: ConditionKind, variable: int, threshold: int) -> bool {
    match kind {
        ConditionKind::Equal => variable == threshold,
        ConditionKind::NotEqual => variable != threshold,
        ConditionKind::Less => variable < threshold,
        ConditionKind::LessEqual => variable <= threshold,
        ConditionKind::Greater => variable > threshold,
        ConditionKind::GreaterEqual => variable >= threshold,
    }
}

/// Whether a condition holds.
///
/// A condition on a random variable always holds. One on a normal variable
/// compares the whole parts of the variable and of the threshold. One on an
/// id that is not declared is an error.
pub open spec fn check(env: Env, condition: Condition) -> Result<bool, ErrorView> {
    if env.randoms.contains(condition.id@) {
        Ok(true)
    } else if env.normals.contains_key(condition.id@) {
        Ok(
            holds(
                condition.kind,
                whole_part(env.normals[condition.id@]),
                whole_part(condition.value@),
            ),
        )
    } else {
        Err(ErrorView::VariableNotFound(condition.id@))
    }
}

/// Whether all of the conditions hold, taken in order up to the first that
/// does not hold or is in error.
pub open spec fn check_all(env: Env, conditions: Seq<Condition>) -> Result<bool, ErrorView> {
    first_objection(conditions.map_values(|c: Condition| check(env, c)))
}

/// The value of a variable that stood at `before`, after a change.
pub open spec fn changed(kind: ChangeKind, before: int, value: int) -> int {
    match kind {
        ChangeKind::Assign => value,
        ChangeKind::Add => clamp(before + value),
    }
}

/// The variables after a change.
///
/// A change to a random variable changes nothing. One to an id that is not
/// declared is an error.
pub open spec fn apply(env: Env, change: Change) -> Result<Env, ErrorView> {
    if env.randoms.contains(change.id@) {
        Ok(env)
    } else if env.normals.contains_key(change.id@) {
        Ok(
            Env {
                randoms: env.randoms,
                normals: env.normals.insert(
                    change.id@,
                    changed(change.kind, env.normals[change.id@], change.value@),
                ),
            },
        )
    } else {
        Err(ErrorView::VariableNotFound(change.id@))
    }
}

/// The variables after the changes, applied in order up to the first that is
/// in error.
pub open spec fn apply_all(env: Env, changes: Seq<Change>) -> Result<Env, ErrorView>
    decreases changes.len(),
{
    if changes.len() == 0 {
        Ok(env)
    } else {
        match apply(env, changes[0]) {
            Ok(next) => apply_all(next, changes.drop_first()),
            Err(e) => Err(e),
        }
    }
}

/// A condition on a random variable always holds, and a change to a random
/// variable changes nothing.
pub proof fn theorem_random_variables(env: Env, condition: Condition, change: Change)
    ensures
        env.randoms.contains(condition.id@) ==> check(env, condition) == Ok::<bool, ErrorView>(
            true,
        ),
        env.randoms.contains(change.id@) ==> apply(env, change) == Ok::<Env, ErrorView>(env),
{
}

/// The only error of conditions and changes is a variable that is not
/// declared.
pub proof fn lemma_only_variables_fail(env: Env, conditions: Seq<Condition>, changes: Seq<Change>)
    ensures
        check_all(env, conditions) matches Err(e) ==> e is VariableNotFound,
        apply_all(env, changes) matches Err(e) ==> e is VariableNotFound,
    decreases conditions.len() + changes.len(),
{
    if conditions.len() > 0 {
        let results = conditions.map_values(|c: Condition| check(env, c));
        let rest = conditions.drop_first();
        assert(results.drop_first() =~= rest.map_values(|c: Condition| check(env, c)));
        lemma_only_variables_fail(env, rest, changes);
    }
    if changes.len() > 0 {
        if let Ok(next) = apply(env, changes[0]) {
            lemma_only_variables_fail(next, Seq::empty(), changes.drop_first());
        }
    }
}

/// Where ids are distinct, an id is declared at one place only.
pub proof fn lemma_slot_unique(decls: Seq<Variable>, id: Seq<char>, i: int)
    requires
        distinct_ids(decls),
        is_slot(decls, id, i),
    ensures
        declared(decls, id),
        slot_of(decls, id) == i,
{
    let j = slot_of(decls, id);
    assert(is_slot(decls, id, j));
    if i < j {
        assert(decls[i].id@ != decls[j].id@);
    } else if j < i {
        assert(decls[j].id@ != decls[i].id@);
    }
}

/// The runtime table of hidden variables: the declarations, and the value of
/// each normal variable.
///
/// `values` holds one count of millionths per declaration, in the order of the
/// declarations. The entry of a random variable is never read.
#[derive(Debug)]
pub struct Variables<'a> {
    pub decls: &'a Vec<Variable>,
    pub values: Vec<i64>,
}

impl<'a> Variables<'a> {
    /// Whether the table fits its declarations, and no id is declared twice.
    pub open spec fn wf(&self) -> bool {
        &&& distinct_ids(self.decls@)
        &&& self.values@.len() == self.decls@.len()
    }

    /// The variables by id.
    pub open spec fn env(&self) -> Env {
        Env {
            randoms: random_ids(self.decls@),
            normals: Map::new(
                |id: Seq<char>| is_normal(self.decls@, id),
                |id: Seq<char>| self.values@[slot_of(self.decls@, id)] as int,
            ),
        }
    }

    /// Builds the table from the declarations, each normal variable at its
    /// default. Fails on the first declaration that repeats an earlier id.
    pub fn new(decls: &'a Vec<Variable>) -> (r: Result<Variables<'a>, Error>)
        ensures
            match r {
                Ok(table) => {
                    &&& distinct_ids(decls@)
                    &&& table.wf()
                    &&& table.decls == decls
                    &&& table.env() == initial_env(decls@)
                },
                Err(e) => exists|j: int|
                    {
                        &&& #[trigger] repeats(decls@, j)
                        &&& forall|k: int| 0 <= k < j ==> !repeats(decls@, k)
                        &&& e.deep_view() == ErrorView::RepeatVariable(decls@[j].id@)
                    },
            },
    {
        let mut values: Vec<i64> = Vec::new();
        let mut j: usize = 0;
        while j < decls.len()
            invariant
                j <= decls.len(),
                values@.len() == j,
                forall|k: int| 0 <= k < j ==> !repeats(decls@, k),
                forall|k: int|
                    0 <= k < j && decls@[k].config is Normal ==> values@[k]
                        == decls@[k].config->default@,
            decreases decls.len() - j,
        {
            let mut i: usize = 0;
            while i < j
                invariant
                    i <= j < decls.len(),
                    forall|k: int| 0 <= k < j ==> !repeats(decls@, k),
                    forall|k: int| 0 <= k < i ==> decls@[k].id@ != decls@[j as int].id@,
                decreases j - i,
            {
                if decls[i].id == decls[j].id {
                    assert(repeats(decls@, j as int));
                    return Err(Error::RepeatVariable(decls[j].id.clone()));
                }
                i = i + 1;
            }
            let value: i64 = match &decls[j].config {
                VariableConfig::Normal { default, .. } => default.units,
                VariableConfig::Random => 0,
            };
            values.push(value);
            j = j + 1;
        }
        let table = Variables { decls, values };
        proof {
            assert forall|a: int, b: int| 0 <= a < b < decls@.len() implies decls@[a].id@
                != decls@[b].id@ by {
                assert(!repeats(decls@, b));
            }
            assert forall|id: Seq<char>| is_normal(decls@, id) implies #[trigger] table.env().normals[id]
                == initial_env(decls@).normals[id] by {
                let s = slot_of(decls@, id);
                assert(is_slot(decls@, id, s));
            }
            assert(table.env().normals =~= initial_env(decls@).normals);
        }
        Ok(table)
    }

    /// The place at which `id` is declared, if it is.
    fn slot(&self, id: &String) -> (r: Option<usize>)
        requires
            self.wf(),
        ensures
            match r {
                Some(i) => is_slot(self.decls@, id@, i as int) && slot_of(self.decls@, id@) == i
                    && declared(self.decls@, id@),
                None => !declared(self.decls@, id@),
            },
    {
        let mut i: usize = 0;
        while i < self.decls.len()
            invariant
                i <= self.decls.len(),
                self.wf(),
                forall|k: int| 0 <= k < i ==> !is_slot(self.decls@, id@, k),
            decreases self.decls.len() - i,
        {
            if self.decls[i].id == *id {
                proof {
                    lemma_slot_unique(self.decls@, id@, i as int);
                }
                return Some(i);
            }
            i = i + 1;
        }
        None
    }

    /// Whether a condition holds of the variables.
    pub fn check(&self, condition: &Condition) -> (r: Result<bool, Error>)
        requires
            self.wf(),
        ensures
            outcome(r) == check(self.env(), *condition),
    {
        match self.slot(&condition.id) {
            None => Err(Error::VariableNotFound(condition.id.clone())),
            Some(i) => match &self.decls[i].config {
                VariableConfig::Random => Ok(true),
                VariableConfig::Normal { .. } => {
                    let variable: i64 = Decimal::from_units(self.values[i]).trunc();
                    let threshold: i64 = condition.value.trunc();
                    let verdict = match condition.kind {
                        ConditionKind::Equal => variable == threshold,
                        ConditionKind::NotEqual => variable != threshold,
                        ConditionKind::Less => variable < threshold,
                        ConditionKind::LessEqual => variable <= threshold,
                        ConditionKind::Greater => variable > threshold,
                        ConditionKind::GreaterEqual => variable >= threshold,
                    };
                    Ok(verdict)
                },
            },
        }
    }

    /// Whether all of the conditions hold; stops at the first that does not
    /// hold or is in error.
    pub fn check_all(&self, conditions: &Vec<Condition>) -> (r: Result<bool, Error>)
        requires
            self.wf(),
        ensures
            outcome(r) == check_all(self.env(), conditions@),
    {
        let ghost env = self.env();
        let ghost results = conditions@.map_values(|c: Condition| check(env, c));
        let mut i: usize = 0;
        assert(results.skip(0) =~= results);
        while i < conditions.len()
            invariant
                i <= conditions.len(),
                self.wf(),
                env == self.env(),
                results == conditions@.map_values(|c: Condition| check(env, c)),
                first_objection(results.skip(i as int)) == first_objection(results),
            decreases conditions.len() - i,
        {
            let verdict = self.check(&conditions[i]);
            proof {
                assert(results.skip(i as int)[0] == check(env, conditions@[i as int]));
                assert(results.skip(i as int).drop_first() =~= results.skip(i + 1));
            }
            match verdict {
                Ok(true) => {},
                other => {
                    assert(outcome(other) != Ok::<bool, ErrorView>(true));
                    return other;
                },
            }
            i = i + 1;
        }
        assert(results.skip(i as int).len() == 0);
        Ok(true)
    }

    /// Applies a change to the variables.
    pub fn change(&mut self, change: &Change) -> (r: Result<(), Error>)
        requires
            old(self).wf(),
        ensures
            final(self).wf(),
            final(self).decls == old(self).decls,
            match r {
                Ok(()) => apply(old(self).env(), *change) == Ok::<Env, ErrorView>(
                    final(self).env(),
                ),
                Err(e) => apply(old(self).env(), *change) == Err::<Env, ErrorView>(e.deep_view())
                    && *final(self) == *old(self),
            },
    {
        match self.slot(&change.id) {
            None => Err(Error::VariableNotFound(change.id.clone())),
            Some(i) => {
                match &self.decls[i].config {
                    VariableConfig::Random => {
                        assert(apply(self.env(), *change) == Ok::<Env, ErrorView>(self.env()));
                    },
                    VariableConfig::Normal { .. } => {
                        let ghost before = self.env();
                        let value: i64 = match change.kind {
                            ChangeKind::Assign => change.value.units,
                            ChangeKind::Add => Decimal::from_units(self.values[i]).saturating_add(
                                change.value,
                            ).units,
                        };
                        self.values.set(i, value);
                        proof {
                            let after = before.normals.insert(
                                change.id@,
                                changed(change.kind, before.normals[change.id@], change.value@),
                            );
                            assert forall|id: Seq<char>| is_normal(self.decls@, id) implies (
                            #[trigger] self.env().normals[id]) == after[id] by {
                                let s = slot_of(self.decls@, id);
                                assert(is_slot(self.decls@, id, s));
                                if s == i {
                                    assert(id == change.id@);
                                }
                            }
                            assert(self.env().normals =~= after);
                        }
                    },
                }
                Ok(())
            },
        }
    }

    /// Applies the changes in order; stops at the first that is in error.
    pub fn change_all(&mut self, changes: &Vec<Change>) -> (r: Result<(), Error>)
        requires
            old(self).wf(),
        ensures
            final(self).wf(),
            final(self).decls == old(self).decls,
            match r {
                Ok(()) => apply_all(old(self).env(), changes@) == Ok::<Env, ErrorView>(
                    final(self).env(),
                ),
                Err(e) => apply_all(old(self).env(), changes@) == Err::<Env, ErrorView>(
                    e.deep_view(),
                ),
            },
    {
        let ghost start = self.env();
        let mut i: usize = 0;
        assert(changes@.skip(0) =~= changes@);
        while i < changes.len()
            invariant
                i <= changes.len(),
                self.wf(),
                self.decls == old(self).decls,
                start == old(self).env(),
                apply_all(self.env(), changes@.skip(i as int)) == apply_all(start, changes@),
            decreases changes.len() - i,
        {
            let ghost env = self.env();
            let done = self.change(&changes[i]);
            proof {
                assert(changes@.skip(i as int)[0] == changes@[i as int]);
                assert(changes@.skip(i as int).drop_first() =~= changes@.skip(i + 1));
            }
            match done {
                Ok(()) => {},
                Err(e) => {
                    return Err(e);
                },
            }
            i = i + 1;
        }
        assert(changes@.skip(i as int).len() == 0);
        Ok(())
    }

    /// A copy of the table, for a branch of its own.
    pub fn branch(&self) -> (r: Variables<'a>)
        ensures
            r.decls == self.decls,
            r.values@ == self.values@,
    {
        let values = self.values.clone();
        assert(values@ =~= self.values@);
        Variables { decls: self.decls, values }
    }
}

} // verus!

//! What is generated for an aggregate: per state, its transitions, its lock
//! operation and the shape of its guard assembly.
use vstd::arithmetic::power2::pow2;
use vstd::prelude::*;

use crate::attribute::ConfigError;
use crate::field::{lock_method_of, return_type_of, Field, FieldAugment};
use crate::state::{
    active_of, any_active, complement_of, is_superset, lemma_root_free,
    lemma_active, state_ident, step_of, LockStep, State,
};
use crate::{ASYNC, RESULT};

verus! {

/// A transition: selecting `field` leads to the state named `target`.
#[derive(Debug, Clone)]
pub struct Transition {
    pub field: String,
    pub target: String,
}

/// One guard of a guard assembly: the resource's name and the value type its
/// guard dereferences to.
#[derive(Debug, Clone)]
pub struct GuardSlot {
    pub field: String,
    pub inner_type: String,
}

/// Everything generated for one state.
#[derive(Debug)]
pub struct StatePlan {
    /// The state's active set.
    pub selected: Vec<bool>,
    /// The state's identifier.
    pub ident: String,
    /// One transition per free resource, in declaration order.
    pub transitions: Vec<Transition>,
    /// One slot per active resource, in declaration order.
    pub guards: Vec<GuardSlot>,
    /// The acquisitions of the lock operation, in declaration order.
    pub steps: Vec<LockStep>,
    /// Whether the lock operation suspends.
    pub is_async: bool,
    /// Whether the lock operation returns a fallible result.
    pub is_result: bool,
}

/// Everything generated for one aggregate.
#[derive(Debug)]
pub struct LockerPlan {
    /// The builder's name.
    pub builder: String,
    /// The identifier of the root state, which the entry point hands out.
    pub empty: String,
    /// One plan per state of the lattice.
    pub states: Vec<StatePlan>,
}

/// Whether `t` is the transition from `sel` selecting position `p`.
pub open spec fn transition_of(agg: Seq<char>, sel: Seq<bool>, fields: Seq<Field>, p: int, t: Transition) -> bool {
    &&& t.field@ == fields[p].name@
    &&& t.target@ == state_ident(agg, sel.update(p, true), fields)
}

/// Whether `g` is the guard slot of the resource at position `p`.
pub open spec fn guard_of(fields: Seq<Field>, p: int, g: GuardSlot) -> bool {
    &&& g.field@ == fields[p].name@
    &&& return_type_of(fields[p]) == Ok::<Seq<char>, ConfigError>(g.inner_type@)
}

/// Whether `plan` is what is generated for the state `sel` of the aggregate
/// `agg` over the participating `fields`.
pub open spec fn plan_of(agg: Seq<char>, sel: Seq<bool>, fields: Seq<Field>, plan: StatePlan) -> bool {
    &&& plan.ident@ == state_ident(agg, sel, fields)
    &&& plan.transitions@.len() == complement_of(sel).len()
    &&& forall|j: int|
        0 <= j < plan.transitions@.len() ==> transition_of(
            agg,
            sel,
            fields,
            complement_of(sel)[j] as int,
            #[trigger] plan.transitions@[j],
        )
    &&& plan.guards@.len() == active_of(sel).len()
    &&& forall|j: int|
        0 <= j < plan.guards@.len() ==> guard_of(fields, active_of(sel)[j] as int, #[trigger] plan.guards@[j])
    &&& plan.steps@.len() == active_of(sel).len()
    &&& forall|j: int|
        0 <= j < plan.steps@.len() ==> step_of(fields, active_of(sel)[j] as int, #[trigger] plan.steps@[j])
    &&& plan.is_async == any_active(sel, fields, ASYNC@)
    &&& plan.is_result == any_active(sel, fields, RESULT@)
}

/// Whether every participating resource classifies without error.
pub open spec fn all_classified(fields: Seq<Field>) -> bool {
    forall|p: int|
        0 <= p < fields.len() ==> (#[trigger] return_type_of(fields[p])) is Ok && lock_method_of(fields[p]) is Ok
}

/// Whether `e` is an error of classifying some participating resource.
pub open spec fn classify_error(fields: Seq<Field>, e: ConfigError) -> bool {
    exists|p: int|
        0 <= p < fields.len() && ((#[trigger] return_type_of(fields[p])) == Err::<Seq<char>, ConfigError>(e)
            || (return_type_of(fields[p]) is Ok && lock_method_of(fields[p]) == Err::<Seq<char>, ConfigError>(e)))
}

/// Classifies every participating resource, stopping at the first error.
pub fn classify_all(fields: &Vec<Field>) -> (r: Result<(), ConfigError>)
    ensures
        match r {
            Ok(_) => all_classified(fields@),
            Err(e) => classify_error(fields@, e),
        },
{
    let mut i: usize = 0;
    while i < fields.len()
        invariant
            i <= fields@.len(),
            forall|p: int|
                0 <= p < i ==> (#[trigger] return_type_of(fields@[p])) is Ok && lock_method_of(fields@[p]) is Ok,
        decreases fields@.len() - i,
    {
        match fields[i].return_type() {
            Ok(_) => {},
            Err(e) => {
                assert(return_type_of(fields@[i as int]) == Err::<Seq<char>, ConfigError>(e));
                return Err(e);
            },
        }
        match fields[i].lock_method() {
            Ok(_) => {},
            Err(e) => {
                assert(return_type_of(fields@[i as int]) is Ok);
                return Err(e);
            },
        }
        i = i + 1;
    }
    Ok(())
}

/// The transitions leaving `state`, one per free resource in order.
pub fn transitions(state: &State, struct_ident: &str, fields: &Vec<Field>) -> (r: Vec<Transition>)
    requires
        fields@.len() == state.selected@.len(),
    ensures
        r@.len() == complement_of(state.selected@).len(),
        forall|j: int|
            0 <= j < r@.len() ==> transition_of(
                struct_ident@,
                state.selected@,
                fields@,
                complement_of(state.selected@)[j] as int,
                #[trigger] r@[j],
            ),
{
    let free = state.complements();
    let _n = state.selected.len();
    proof {
        crate::state::lemma_complement(state.selected@, state.selected@.len() as int);
    }
    let mut r: Vec<Transition> = Vec::new();
    let mut j: usize = 0;
    while j < free.len()
        invariant
            j <= free@.len(),
            free@ == complement_of(state.selected@),
            fields@.len() == state.selected@.len(),
            forall|q: int| 0 <= q < free@.len() ==> (#[trigger] free@[q]) < state.selected@.len(),
            r@.len() == j,
            forall|q: int|
                0 <= q < j ==> transition_of(
                    struct_ident@,
                    state.selected@,
                    fields@,
                    free@[q] as int,
                    #[trigger] r@[q],
                ),
        decreases free@.len() - j,
    {
        let p = free[j];
        let next = state.add_state(p);
        let target = next.ident(struct_ident, fields);
        r.push(Transition { field: fields[p].name.clone(), target });
        j = j + 1;
    }
    r
}

/// The guard slots of `state`, one per active resource in order.
pub fn guards(state: &State, fields: &Vec<Field>) -> (r: Vec<GuardSlot>)
    requires
        fields@.len() == state.selected@.len(),
        all_classified(fields@),
    ensures
        r@.len() == active_of(state.selected@).len(),
        forall|j: int| 0 <= j < r@.len() ==> guard_of(fields@, active_of(state.selected@)[j] as int, #[trigger] r@[j]),
{
    let act = state.active();
    let _n = state.selected.len();
    proof {
        lemma_active(state.selected@, state.selected@.len() as int);
    }
    let mut r: Vec<GuardSlot> = Vec::new();
    let mut j: usize = 0;
    while j < act.len()
        invariant
            j <= act@.len(),
            act@ == active_of(state.selected@),
            fields@.len() == state.selected@.len(),
            all_classified(fields@),
            forall|q: int| 0 <= q < act@.len() ==> (#[trigger] act@[q]) < state.selected@.len(),
            r@.len() == j,
            forall|q: int| 0 <= q < j ==> guard_of(fields@, act@[q] as int, #[trigger] r@[q]),
        decreases act@.len() - j,
    {
        let p = act[j];
        assert(act@[j as int] < state.selected@.len());
        let inner_type = match fields[p].return_type() {
            Ok(t) => t,
            Err(_) => {
                assert(return_type_of(fields@[p as int]) is Ok);
                String::new()
            },
        };
        r.push(GuardSlot { field: fields[p].name.clone(), inner_type });
        j = j + 1;
    }
    r
}

/// What is generated for `state` of the aggregate named `struct_ident`.
pub fn plan_state(state: &State, struct_ident: &str, fields: &Vec<Field>) -> (r: StatePlan)
    requires
        fields@.len() == state.selected@.len(),
        all_classified(fields@),
    ensures
        r.selected@ == state.selected@,
        plan_of(struct_ident@, state.selected@, fields@, r),
{
    let _n = state.selected.len();
    proof {
        lemma_active(state.selected@, state.selected@.len() as int);
    }
    let steps = match state.locked_fields(fields) {
        Ok(steps) => steps,
        Err(e) => {
            proof {
                let sel = state.selected@;
                let j = choose|j: int|
                    0 <= j < active_of(sel).len() && lock_method_of(
                        fields@[#[trigger] active_of(sel)[j] as int],
                    ) == Err::<Seq<char>, ConfigError>(e);
                let p = active_of(sel)[j] as int;
                assert(0 <= p < fields@.len());
                assert(return_type_of(fields@[p]) is Ok);
            }
            Vec::new()
        },
    };
    StatePlan {
        selected: state.copy().selected,
        ident: state.ident(struct_ident, fields),
        transitions: transitions(state, struct_ident, fields),
        guards: guards(state, fields),
        steps,
        is_async: state.is_async(fields),
        is_result: state.is_result(fields),
    }
}

/// What is generated for the aggregate named `struct_ident` whose
/// participating resources are `fields`, in declaration order: a plan for
/// each of the `2^k` states, or the first classification error.
pub fn generate_plan(struct_ident: &str, fields: &Vec<Field>) -> (r: Result<LockerPlan, ConfigError>)
    requires
        pow2(fields@.len()) <= usize::MAX,
    ensures
        match r {
            Ok(plan) => {
                &&& all_classified(fields@)
                &&& plan.builder@ == struct_ident@ + "Locker"@
                &&& plan.empty@ == state_ident(struct_ident@, Seq::new(fields@.len(), |i: int| false), fields@)
                &&& plan.states@.len() == pow2(fields@.len())
                &&& forall|j: int|
                    0 <= j < plan.states@.len() ==> (#[trigger] plan.states@[j]).selected@.len() == fields@.len()
                        && plan_of(struct_ident@, plan.states@[j].selected@, fields@, plan.states@[j])
                &&& forall|a: int, b: int|
                    0 <= a < b < plan.states@.len() ==> plan.states@[a].selected@ != plan.states@[b].selected@
                &&& forall|t: Seq<bool>|
                    #![trigger t.len()]
                    t.len() == fields@.len() ==> exists|j: int|
                        0 <= j < plan.states@.len() && (#[trigger] plan.states@[j].selected@) == t
            },
            Err(e) => classify_error(fields@, e),
        },
{
    classify_all(fields)?;
    let k = fields.len();
    let root = State::empty(k);
    let empty = root.ident(struct_ident, fields);
    let mut builder = String::from_str(struct_ident);
    builder.append("Locker");
    proof {
        lemma_root_free(k as nat);
    }
    let ghost root_sel = root.selected@;
    let lattice = root.into_substates();
    assert forall|t: Seq<bool>| t.len() == fields@.len() implies #[trigger] is_superset(t, root_sel) by {}
    let mut states: Vec<StatePlan> = Vec::new();
    let mut j: usize = 0;
    while j < lattice.len()
        invariant
            j <= lattice@.len(),
            lattice@.len() == pow2(k as nat),
            k == fields@.len(),
            root_sel == Seq::new(k as nat, |i: int| false),
            all_classified(fields@),
            forall|q: int| 0 <= q < lattice@.len() ==> is_superset(#[trigger] lattice@[q].selected@, root_sel),
            states@.len() == j,
            forall|q: int|
                0 <= q < j ==> (#[trigger] states@[q]).selected@ == lattice@[q].selected@ && plan_of(
                    struct_ident@,
                    lattice@[q].selected@,
                    fields@,
                    states@[q],
                ),
        decreases lattice@.len() - j,
    {
        assert(is_superset(lattice@[j as int].selected@, root_sel));
        states.push(plan_state(&lattice[j], struct_ident, fields));
        j = j + 1;
    }
    proof {
        assert forall|q: int| 0 <= q < states@.len() implies (#[trigger] states@[q]).selected@.len() == fields@.len() by {
            assert(is_superset(lattice@[q].selected@, root_sel));
        }
        assert forall|a: int, b: int| 0 <= a < b < states@.len() implies states@[a].selected@ != states@[b].selected@ by {
            assert(states@[a].selected@ == lattice@[a].selected@);
            assert(states@[b].selected@ == lattice@[b].selected@);
        }
        assert forall|t: Seq<bool>| #![trigger t.len()] t.len() == fields@.len() implies exists|q: int|
            0 <= q < states@.len() && (#[trigger] states@[q].selected@) == t by {
            assert(is_superset(t, root_sel));
            let q = choose|q: int| 0 <= q < lattice@.len() && (#[trigger] lattice@[q].selected@) == t;
            assert(states@[q].selected@ == lattice@[q].selected@);
        }
    }
    Ok(LockerPlan { builder, empty, states })
}

} // verus!

//! The state machine that a plan describes, and a builder that runs it.
//!
//! The generated builder keeps the state of every slot in its type, so that
//! a call without a matching operation is a type error. `Assembly` keeps the
//! same states in its values and answers such a call with a `Rejection`.

use crate::keys::{all_filled, is_key, Slot};
use crate::plan::{plans, BuilderPlan, PlanModel, SetterModel};
use crate::shape::{optional_flags, RecordModel};
use vstd::prelude::*;
use vstd::string::*;

verus! {

/// Why a call on a builder has no matching operation.
#[derive(Clone, Copy, Debug, PartialEq, Eq, Structural)]
pub enum Rejection {
    /// No setter has the given name.
    NoSetter,
    /// No finalize operation is defined for the builder's slot states.
    NoFinalize,
}

/// A builder under construction: the plan it follows and, for every slot,
/// the supplied value if there is one.
pub struct Assembly<'a, T> {
    plan: &'a BuilderPlan,
    values: Vec<Option<T>>,
}

/// The slot states of a list of values.
pub open spec fn states<T>(values: Seq<Option<T>>) -> Seq<Slot> {
    Seq::new(
        values.len(),
        |i: int|
            if values[i] is Some {
                Slot::Filled
            } else {
                Slot::Empty
            },
    )
}

/// The values after the setter of slot `target` was called with `value`.
pub open spec fn after_set<T>(values: Seq<Option<T>>, target: int, value: T) -> Seq<Option<T>> {
    values.update(target, Some(value))
}

/// The values after a sequence of setter calls, each given by its target
/// slot and the supplied value.
pub open spec fn after_calls<T>(values: Seq<Option<T>>, calls: Seq<(int, T)>) -> Seq<Option<T>>
    decreases calls.len(),
{
    if calls.len() == 0 {
        values
    } else {
        after_set(after_calls(values, calls.drop_last()), calls.last().0, calls.last().1)
    }
}

/// Every call targets one of `n` slots, and no two calls target the same.
pub open spec fn once_each<T>(calls: Seq<(int, T)>, n: nat) -> bool {
    &&& forall|k: int| 0 <= k < calls.len() ==> 0 <= (#[trigger] calls[k]).0 < n
    &&& forall|k: int, l: int|
        0 <= k < l < calls.len() ==> (#[trigger] calls[k]).0 != (#[trigger] calls[l]).0
}

/// Some setter is named `name`.
pub open spec fn has_setter(setters: Seq<SetterModel>, name: Seq<char>) -> bool {
    exists|i: int| 0 <= i < setters.len() && (#[trigger] setters[i]).name == name
}

/// The position of the first setter named `name`.
pub open spec fn first_setter(setters: Seq<SetterModel>, name: Seq<char>) -> int {
    choose|i: int|
        0 <= i < setters.len() && (#[trigger] setters[i]).name == name && forall|j: int|
            0 <= j < i ==> (#[trigger] setters[j]).name != name
}

/// Some finalize operation is defined for `state`.
pub open spec fn accepted(finals: Seq<Seq<Slot>>, state: Seq<Slot>) -> bool {
    exists|j: int| 0 <= j < finals.len() && #[trigger] finals[j] == state
}

impl<'a, T> View for Assembly<'a, T> {
    type V = Seq<Option<T>>;

    closed spec fn view(&self) -> Seq<Option<T>> {
        self.values@
    }
}

impl<'a, T> Assembly<'a, T> {
    /// The plan that the builder follows.
    pub closed spec fn plan(&self) -> BuilderPlan {
        *self.plan
    }

    /// The builder has one value slot for every slot of its plan, and the
    /// plan is consistent.
    pub closed spec fn wf(&self) -> bool {
        self.plan.wf() && self.values.len() == self.plan.slots.len()
    }

    /// The states of the builder's slots.
    pub fn state(&self) -> (r: Vec<Slot>)
        ensures
            r@ == states(self@),
    {
        let mut out: Vec<Slot> = Vec::new();
        let mut i: usize = 0;
        while i < self.values.len()
            invariant
                i <= self.values.len(),
                out@ == states(self.values@.take(i as int)),
            decreases self.values.len() - i,
        {
            if self.values[i].is_some() {
                out.push(Slot::Filled);
            } else {
                out.push(Slot::Empty);
            }
            i += 1;
            assert(out@ =~= states(self.values@.take(i as int)));
        }
        assert(self.values@.take(i as int) =~= self.values@);
        out
    }

    /// Calls the setter named `setter` with `value`. The slot that the
    /// setter targets then holds `value`, whether or not it held a value
    /// before, and every other slot is as it was.
    pub fn set(self, setter: &str, value: T) -> (r: Result<Self, Rejection>)
        requires
            self.wf(),
        ensures
            match r {
                Ok(b) => has_setter(self.plan()@.setters, setter@) && b.wf() && b.plan()
                    == self.plan() && b@ == after_set(
                    self@,
                    first_setter(self.plan()@.setters, setter@),
                    value,
                ),
                Err(e) => e == Rejection::NoSetter && !has_setter(self.plan()@.setters, setter@),
            },
    {
        let wanted = String::from_str(setter);
        let plan = self.plan;
        let mut values = self.values;
        let mut i: usize = 0;
        while i < plan.setters.len()
            invariant
                i <= plan.setters.len(),
                plan.wf(),
                *plan == self.plan(),
                values@ == self@,
                values.len() == plan.slots.len(),
                wanted@ == setter@,
                forall|j: int| 0 <= j < i ==> (#[trigger] plan@.setters[j]).name != setter@,
            decreases plan.setters.len() - i,
        {
            if plan.setters[i].name == wanted {
                proof {
                    let setters = plan@.setters;
                    assert(setters[i as int].name == setter@);
                    let first = first_setter(setters, setter@);
                    assert(first == i) by {
                        if first < i {
                            assert(setters[first].name != setter@);
                        }
                    }
                    assert(setters[i as int].target == i);
                }
                values.set(i, Some(value));
                return Ok(Assembly { plan, values });
            }
            i += 1;
        }
        Err(Rejection::NoSetter)
    }

    /// Finishes the record. There is a finalize operation for the builder's
    /// slot states or there is none; where there is one, the record holds
    /// the supplied value of every filled slot and the empty value for every
    /// empty one.
    pub fn build(self) -> (r: Result<Vec<Option<T>>, Rejection>)
        requires
            self.wf(),
        ensures
            match r {
                Ok(record) => accepted(self.plan()@.finals, states(self@)) && record@ == self@,
                Err(e) => e == Rejection::NoFinalize && !accepted(
                    self.plan()@.finals,
                    states(self@),
                ),
            },
    {
        let state = self.state();
        let mut j: usize = 0;
        while j < self.plan.finals.len()
            invariant
                j <= self.plan.finals.len(),
                state@ == states(self@),
                forall|l: int| 0 <= l < j ==> #[trigger] self.plan()@.finals[l] != state@,
            decreases self.plan.finals.len() - j,
        {
            if same_states(&self.plan.finals[j].states, &state) {
                assert(self.plan()@.finals[j as int] == state@);
                return Ok(self.values);
            }
            assert(self.plan()@.finals[j as int] != state@);
            j += 1;
        }
        Err(Rejection::NoFinalize)
    }
}

impl BuilderPlan {
    /// A builder in which no slot is filled.
    pub fn builder<T>(&self) -> (b: Assembly<'_, T>)
        requires
            self.wf(),
        ensures
            b.wf(),
            b.plan() == *self,
            b@ == Seq::new(self@.slots.len(), |i: int| None::<T>),
    {
        let mut values: Vec<Option<T>> = Vec::new();
        let mut i: usize = 0;
        while i < self.slots.len()
            invariant
                i <= self.slots.len(),
                values@ == Seq::new(i as nat, |i: int| None::<T>),
            decreases self.slots.len() - i,
        {
            values.push(None);
            i += 1;
            assert(values@ =~= Seq::new(i as nat, |i: int| None::<T>));
        }
        Assembly { plan: self, values }
    }
}

/// Whether two lists of slot states are the same.
fn same_states(a: &Vec<Slot>, b: &Vec<Slot>) -> (same: bool)
    ensures
        same == (a@ == b@),
{
    if a.len() != b.len() {
        return false;
    }
    let mut i: usize = 0;
    while i < a.len()
        invariant
            i <= a.len(),
            a.len() == b.len(),
            forall|j: int| 0 <= j < i ==> a[j] == b[j],
        decreases a.len() - i,
    {
        if a[i] != b[i] {
            return false;
        }
        i += 1;
    }
    assert(a@ =~= b@);
    true
}

/// Last write wins: after a setter was called with `first` and then with
/// `second`, its slot holds `second`, and the builder is as if only the
/// second call had been made.
pub proof fn lemma_last_write_wins<T>(values: Seq<Option<T>>, target: int, first: T, second: T)
    requires
        0 <= target < values.len(),
    ensures
        after_set(after_set(values, target, first), target, second)[target] == Some(second),
        after_set(after_set(values, target, first), target, second) == after_set(
            values,
            target,
            second,
        ),
{
    assert(after_set(after_set(values, target, first), target, second) =~= after_set(
        values,
        target,
        second,
    ));
}

/// After calls that target each slot at most once, a targeted slot holds the
/// value of its call and every other slot is as it was.
proof fn lemma_after_calls<T>(values: Seq<Option<T>>, calls: Seq<(int, T)>)
    requires
        once_each(calls, values.len()),
    ensures
        after_calls(values, calls).len() == values.len(),
        forall|k: int|
            0 <= k < calls.len() ==> after_calls(values, calls)[(#[trigger] calls[k]).0] == Some(
                calls[k].1,
            ),
        forall|i: int|
            0 <= i < values.len() && (forall|k: int|
                0 <= k < calls.len() ==> (#[trigger] calls[k]).0 != i) ==> #[trigger] after_calls(
                values,
                calls,
            )[i] == values[i],
    decreases calls.len(),
{
    if calls.len() > 0 {
        let earlier = calls.drop_last();
        assert forall|k: int| 0 <= k < earlier.len() implies #[trigger] earlier[k] == calls[k] by {}
        assert(once_each(earlier, values.len())) by {
            assert forall|k: int, l: int| 0 <= k < l < earlier.len() implies (#[trigger] earlier[k]).0
                != (#[trigger] earlier[l]).0 by {
                assert(calls[k].0 != calls[l].0);
            }
            assert forall|k: int| 0 <= k < earlier.len() implies 0 <= (#[trigger] earlier[k]).0
                < values.len() by {
                assert(0 <= calls[k].0 < values.len());
            }
        }
        lemma_after_calls(values, earlier);
        let done = after_calls(values, calls);
        let last = calls.len() - 1;
        assert forall|k: int| 0 <= k < calls.len() implies done[(#[trigger] calls[k]).0] == Some(
            calls[k].1,
        ) by {
            if k < last {
                assert(earlier[k] == calls[k]);
                assert(calls[k].0 != calls[last].0);
            }
        }
        assert forall|i: int|
            0 <= i < values.len() && (forall|k: int|
                0 <= k < calls.len() ==> (#[trigger] calls[k]).0 != i) implies #[trigger] done[i]
            == values[i] by {
            assert(calls[last].0 != i);
            assert forall|k: int| 0 <= k < earlier.len() implies (#[trigger] earlier[k]).0 != i by {
                assert(calls[k].0 != i);
            }
        }
    }
}

/// The order of setter calls is irrelevant: two sequences of calls that
/// target each slot at most once and hold the same calls leave the builder
/// with the same values, so that the finished records are the same field
/// for field.
pub proof fn lemma_order_irrelevant<T>(
    values: Seq<Option<T>>,
    one: Seq<(int, T)>,
    other: Seq<(int, T)>,
)
    requires
        once_each(one, values.len()),
        once_each(other, values.len()),
        forall|call: (int, T)| one.contains(call) <==> other.contains(call),
    ensures
        after_calls(values, one) == after_calls(values, other),
{
    lemma_after_calls(values, one);
    lemma_after_calls(values, other);
    let a = after_calls(values, one);
    let b = after_calls(values, other);
    assert forall|i: int| 0 <= i < values.len() implies a[i] == b[i] by {
        if exists|k: int| 0 <= k < one.len() && (#[trigger] one[k]).0 == i {
            let k = choose|k: int| 0 <= k < one.len() && (#[trigger] one[k]).0 == i;
            assert(one.contains(one[k]));
            assert(other.contains(one[k]));
            let l = choose|l: int| 0 <= l < other.len() && other[l] == one[k];
            assert(b[other[l].0] == Some(other[l].1));
        } else {
            assert forall|l: int| 0 <= l < other.len() implies (#[trigger] other[l]).0 != i by {
                if other[l].0 == i {
                    assert(other.contains(other[l]));
                    assert(one.contains(other[l]));
                    let k = choose|k: int| 0 <= k < one.len() && one[k] == other[l];
                    assert(one[k].0 == i);
                }
            }
        }
    }
    assert(a =~= b);
}

/// A builder in which a field is empty that must be supplied has no
/// finalize operation: in strict mode that is any field, otherwise any field
/// that is not optional.
pub proof fn lemma_incomplete_rejected(
    plan: PlanModel,
    def: RecordModel,
    state: Seq<Slot>,
    missing: int,
)
    requires
        plans(plan, def),
        0 <= missing < def.fields.len(),
        state.len() == def.fields.len(),
        state[missing] == Slot::Empty,
        def.strict || !def.fields[missing].optional,
    ensures
        !accepted(plan.finals, state),
{
    assert forall|j: int| 0 <= j < plan.finals.len() implies #[trigger] plan.finals[j] != state by {
        if def.strict {
            assert(plan.finals[j] == all_filled(def.fields.len()));
            assert(plan.finals[j][missing] == Slot::Filled);
        } else {
            assert(is_key(plan.finals[j], optional_flags(def.fields)));
            assert(plan.finals[j][missing] == Slot::Filled);
        }
    }
}

} // verus!

//! The plan of a builder: every declaration that is generated for a record.

use crate::keys::{
    all_filled, defaulted, generate_option_impls, is_key, is_relaxed_key, keys, keys_by_size,
    lemma_family_size, lemma_family_unique, lists_all_keys, lists_relaxed_keys, optional_count,
    optional_set, Finalize, Slot,
};
use crate::names::{
    builder_name, builder_of, capitalize, capitalized, marker_name, marker_of, setter_name,
    setter_of,
};
use crate::shape::{optional_flags, FieldModel, RecordDef, RecordModel};
use vstd::arithmetic::power2::pow2;
use vstd::prelude::*;

verus! {

/// The declarations that belong to one field: a member and a generic
/// parameter of the builder type, and the marker type that wraps a supplied
/// value.
#[derive(Clone, Debug, PartialEq, Eq)]
pub struct SlotDecl {
    /// The field's name, which is also the member's name.
    pub field: String,
    /// The generic parameter that holds the slot's state.
    pub param: String,
    /// The marker type of the filled slot.
    pub marker: String,
    /// The field's declared type, which the marker wraps.
    pub ty: String,
    pub optional: bool,
}

/// A setter. It is defined on every builder, whatever the states of its
/// slots, and returns a builder in which the target slot is filled with the
/// supplied value and every other slot is as it was.
#[derive(Clone, Debug, PartialEq, Eq)]
pub struct Setter {
    pub name: String,
    /// The position of the slot that the setter fills.
    pub target: usize,
}

/// Everything that is generated for one record.
#[derive(Clone, Debug, PartialEq, Eq)]
pub struct BuilderPlan {
    /// The record's name.
    pub record: String,
    /// The builder type's name.
    pub builder: String,
    pub slots: Vec<SlotDecl>,
    pub setters: Vec<Setter>,
    /// The finalize operations. The one that needs every slot filled is last.
    pub finals: Vec<Finalize>,
}

/// What a slot's declarations are, as a mathematical value.
pub struct SlotModel {
    pub field: Seq<char>,
    pub param: Seq<char>,
    pub marker: Seq<char>,
    pub ty: Seq<char>,
    pub optional: bool,
}

/// What a setter is, as a mathematical value.
pub struct SetterModel {
    pub name: Seq<char>,
    pub target: int,
}

/// What a plan is, as a mathematical value.
pub struct PlanModel {
    pub record: Seq<char>,
    pub builder: Seq<char>,
    pub slots: Seq<SlotModel>,
    pub setters: Seq<SetterModel>,
    /// The keys of the finalize operations.
    pub finals: Seq<Seq<Slot>>,
}

impl View for SlotDecl {
    type V = SlotModel;

    open spec fn view(&self) -> SlotModel {
        SlotModel {
            field: self.field@,
            param: self.param@,
            marker: self.marker@,
            ty: self.ty@,
            optional: self.optional,
        }
    }
}

impl View for Setter {
    type V = SetterModel;

    open spec fn view(&self) -> SetterModel {
        SetterModel { name: self.name@, target: self.target as int }
    }
}

impl View for BuilderPlan {
    type V = PlanModel;

    open spec fn view(&self) -> PlanModel {
        PlanModel {
            record: self.record@,
            builder: self.builder@,
            slots: slot_models(self.slots@),
            setters: setter_models(self.setters@),
            finals: keys(self.finals@),
        }
    }
}

/// The slots of a vector, as mathematical values.
pub open spec fn slot_models(slots: Seq<SlotDecl>) -> Seq<SlotModel> {
    Seq::new(slots.len(), |i: int| slots[i]@)
}

/// The setters of a vector, as mathematical values.
pub open spec fn setter_models(setters: Seq<Setter>) -> Seq<SetterModel> {
    Seq::new(setters.len(), |i: int| setters[i]@)
}

/// The key over `n` slots that leaves exactly the members of `subset` empty.
pub open spec fn key_leaving(subset: Set<int>, n: nat) -> Seq<Slot> {
    Seq::new(
        n,
        |i: int|
            if subset.contains(i) {
                Slot::Empty
            } else {
                Slot::Filled
            },
    )
}

/// The declarations of a field.
pub open spec fn slot_of(field: FieldModel) -> SlotModel {
    SlotModel {
        field: field.name,
        param: capitalized(field.name),
        marker: marker_of(capitalized(field.name)),
        ty: field.ty,
        optional: field.optional,
    }
}

/// Of each slot, whether its field is optional.
pub open spec fn slot_flags(slots: Seq<SlotModel>) -> Seq<bool> {
    Seq::new(slots.len(), |i: int| slots[i].optional)
}

/// The declarations of the fields, in order.
pub open spec fn slots_of(fields: Seq<FieldModel>) -> Seq<SlotModel> {
    Seq::new(fields.len(), |i: int| slot_of(fields[i]))
}

/// One setter per field, in order.
pub open spec fn setters_of(fields: Seq<FieldModel>) -> Seq<SetterModel> {
    Seq::new(fields.len(), |i: int| SetterModel { name: setter_of(fields[i].name), target: i })
}

/// `plan` is a plan of the record `def`: it has the record's slots and
/// setters; in strict mode its one finalize operation needs every slot
/// filled; otherwise its finalize operations are one for every key, those
/// that leave a slot empty by the number of slots that they leave empty, the
/// one that needs every slot filled last.
pub open spec fn plans(plan: PlanModel, def: RecordModel) -> bool {
    &&& plan.record == def.name
    &&& plan.builder == builder_of(def.name)
    &&& plan.slots == slots_of(def.fields)
    &&& plan.setters == setters_of(def.fields)
    &&& plan.finals.len() > 0
    &&& plan.finals.last() == all_filled(def.fields.len())
    &&& def.strict ==> plan.finals.len() == 1
    &&& !def.strict ==> lists_all_keys(plan.finals, optional_flags(def.fields))
    &&& keys_by_size(plan.finals.drop_last())
}

/// The record can be planned: in strict mode always, otherwise where it has
/// fewer optional fields than a `usize` has bits, so that its finalize
/// operations can be counted.
pub open spec fn plannable(def: RecordModel) -> bool {
    def.strict || optional_count(optional_flags(def.fields)) < usize::BITS
}

impl RecordDef {
    /// Whether the record can be planned.
    pub fn can_plan(&self) -> (r: bool)
        ensures
            r == plannable(self@),
    {
        if self.strict {
            return true;
        }
        let ghost optional = optional_flags(self@.fields);
        let mut count: usize = 0;
        let mut i: usize = 0;
        assert(optional.take(0) =~= Seq::empty());
        while i < self.fields.len()
            invariant
                i <= self.fields.len(),
                optional == optional_flags(self@.fields),
                count == optional_count(optional.take(i as int)),
                count <= i,
            decreases self.fields.len() - i,
        {
            proof {
                let longer = optional.take(i as int + 1);
                assert(longer.drop_last() =~= optional.take(i as int));
                assert(longer.last() == self.fields[i as int].optional);
            }
            if self.fields[i].optional {
                count += 1;
            }
            i += 1;
        }
        assert(optional.take(i as int) =~= optional);
        count < usize::BITS as usize
    }
}

impl BuilderPlan {
    /// The plan is consistent: one setter per slot, each filling its own
    /// slot, and every finalize operation has one state per slot and needs
    /// every slot filled whose field is not optional.
    pub open spec fn wf(&self) -> bool {
        &&& self@.setters.len() == self@.slots.len()
        &&& forall|i: int| 0 <= i < self@.setters.len() ==> (#[trigger] self@.setters[i]).target == i
        &&& forall|j: int|
            0 <= j < self@.finals.len() ==> is_key(
                #[trigger] self@.finals[j],
                slot_flags(self@.slots),
            )
    }
}

/// Adding the key that fills every slot to the relaxed family gives the
/// family of all keys.
proof fn lemma_complete_family(relaxed: Seq<Seq<Slot>>, optional: Seq<bool>)
    requires
        lists_relaxed_keys(relaxed, optional),
    ensures
        lists_all_keys(relaxed.push(all_filled(optional.len())), optional),
{
    let base = all_filled(optional.len());
    let family = relaxed.push(base);
    assert(is_key(base, optional));
    assert forall|j: int| 0 <= j < family.len() implies is_key(#[trigger] family[j], optional) by {
        if j < relaxed.len() {
            assert(is_relaxed_key(relaxed[j], optional));
        }
    }
    assert forall|key: Seq<Slot>| #[trigger] is_key(key, optional) implies exists|j: int|
        0 <= j < family.len() && #[trigger] family[j] == key by {
        if is_relaxed_key(key, optional) {
            let j = choose|j: int| 0 <= j < relaxed.len() && #[trigger] relaxed[j] == key;
            assert(family[j] == key);
        } else {
            assert(key =~= base);
            assert(family[relaxed.len() as int] == key);
        }
    }
    assert forall|i: int, j: int| 0 <= i < j < family.len() implies #[trigger] family[i]
        != #[trigger] family[j] by {
        if j == relaxed.len() {
            assert(is_relaxed_key(relaxed[i], optional));
        } else {
            assert(relaxed[i] != relaxed[j]);
        }
    }
}

/// There are as many optional fields as the set of optional fields has
/// members.
pub proof fn lemma_optional_count(optional: Seq<bool>)
    ensures
        optional_set(optional).finite(),
        optional_set(optional).len() == optional_count(optional),
    decreases optional.len(),
{
    if optional.len() == 0 {
        assert(optional_set(optional) =~= Set::<int>::empty());
    } else {
        let shorter = optional.drop_last();
        let last = optional.len() - 1;
        lemma_optional_count(shorter);
        if optional.last() {
            assert(optional_set(optional) =~= optional_set(shorter).insert(last));
        } else {
            assert(optional_set(optional) =~= optional_set(shorter));
        }
    }
}

/// Outside strict mode the finalize operations are one for every subset of
/// the optional fields, and no others: there are two to the power of the
/// number of optional fields, at least one; each leaves a subset of the
/// optional fields empty; for every subset of the optional fields there is
/// one that leaves exactly that subset empty, the empty subset included; and
/// no two leave the same subset empty.
pub proof fn lemma_finalize_family(plan: PlanModel, def: RecordModel)
    requires
        plans(plan, def),
        !def.strict,
    ensures
        plan.finals.len() == pow2(optional_set(optional_flags(def.fields)).len()),
        plan.finals.len() >= 1,
        forall|j: int|
            0 <= j < plan.finals.len() ==> (#[trigger] defaulted(plan.finals[j])).subset_of(
                optional_set(optional_flags(def.fields)),
            ),
        forall|subset: Set<int>| #[trigger]
            subset.subset_of(optional_set(optional_flags(def.fields))) ==> exists|j: int|
                0 <= j < plan.finals.len() && #[trigger] defaulted(plan.finals[j]) == subset,
        forall|i: int, j: int|
            0 <= i < j < plan.finals.len() ==> #[trigger] defaulted(plan.finals[i])
                != #[trigger] defaulted(plan.finals[j]),
{
    let optional = optional_flags(def.fields);
    let n = optional.len();
    lemma_optional_count(optional);
    lemma_family_size(plan.finals, optional);
    assert forall|j: int| 0 <= j < plan.finals.len() implies (#[trigger] defaulted(
        plan.finals[j],
    )).subset_of(optional_set(optional)) by {
        assert(is_key(plan.finals[j], optional));
    }
    assert forall|subset: Set<int>| #[trigger]
        subset.subset_of(optional_set(optional)) implies exists|j: int|
        0 <= j < plan.finals.len() && #[trigger] defaulted(plan.finals[j]) == subset by {
        let key = key_leaving(subset, n);
        assert(is_key(key, optional)) by {
            assert forall|i: int| 0 <= i < key.len() && key[i] == Slot::Empty implies optional[i] by {
                assert(optional_set(optional).contains(i));
            }
        }
        let j = choose|j: int| 0 <= j < plan.finals.len() && #[trigger] plan.finals[j] == key;
        assert(defaulted(plan.finals[j]) =~= subset) by {
            assert forall|i: int| subset.contains(i) implies defaulted(key).contains(i) by {
                assert(optional_set(optional).contains(i));
            }
        }
    }
    assert forall|i: int, j: int| 0 <= i < j < plan.finals.len() implies #[trigger] defaulted(
        plan.finals[i],
    ) != #[trigger] defaulted(plan.finals[j]) by {
        let a = plan.finals[i];
        let b = plan.finals[j];
        assert(is_key(a, optional) && is_key(b, optional));
        if defaulted(a) == defaulted(b) {
            assert forall|k: int| 0 <= k < n implies a[k] == b[k] by {
                assert(defaulted(a).contains(k) == defaulted(b).contains(k));
            }
            assert(a =~= b);
        }
    }
}

/// In strict mode there is exactly one finalize operation. It needs every
/// slot filled, those of optional fields included, and leaves none empty.
pub proof fn lemma_strict_family(plan: PlanModel, def: RecordModel)
    requires
        plans(plan, def),
        def.strict,
    ensures
        plan.finals.len() == 1,
        plan.finals[0] == all_filled(def.fields.len()),
        defaulted(plan.finals[0]) == Set::<int>::empty(),
{
    assert(defaulted(plan.finals[0]) =~= Set::<int>::empty());
}

/// A record has one plan: two plans of the same record are equal.
pub proof fn lemma_plan_unique(one: PlanModel, other: PlanModel, def: RecordModel)
    requires
        plans(one, def),
        plans(other, def),
    ensures
        one == other,
{
    let base = all_filled(def.fields.len());
    let head = one.finals.drop_last();
    let tail = other.finals.drop_last();
    assert(one.finals =~= head.push(base));
    assert(other.finals =~= tail.push(base));
    if def.strict {
        assert(head =~= tail);
    } else {
        let optional = optional_flags(def.fields);
        assert forall|key: Seq<Slot>|
            #![trigger head.contains(key)]
            #![trigger tail.contains(key)]
            head.contains(key) <==> tail.contains(key) by {
            if head.contains(key) {
                let p = choose|p: int| 0 <= p < head.len() && head[p] == key;
                assert(one.finals[p] == key);
                assert(one.finals[p] != one.finals[one.finals.len() - 1]);
                assert(is_key(one.finals[p], optional));
                let q = choose|q: int| 0 <= q < other.finals.len() && #[trigger] other.finals[q] == key;
                assert(tail[q] == key);
            }
            if tail.contains(key) {
                let p = choose|p: int| 0 <= p < tail.len() && tail[p] == key;
                assert(other.finals[p] == key);
                assert(other.finals[p] != other.finals[other.finals.len() - 1]);
                assert(is_key(other.finals[p], optional));
                let q = choose|q: int| 0 <= q < one.finals.len() && #[trigger] one.finals[q] == key;
                assert(head[q] == key);
            }
        }
        lemma_family_unique(head, tail);
    }
}

/// The key that needs every one of `n` slots filled.
fn base_key(n: usize) -> (r: Vec<Slot>)
    ensures
        r@ == all_filled(n as nat),
{
    let mut out: Vec<Slot> = Vec::new();
    let mut i: usize = 0;
    while i < n
        invariant
            i <= n,
            out@ == all_filled(i as nat),
        decreases n - i,
    {
        out.push(Slot::Filled);
        i += 1;
        assert(out@ =~= all_filled(i as nat));
    }
    out
}

/// Plans the builder of a record: a slot and a setter for every field, and
/// the finalize operations. In strict mode there is one finalize operation,
/// which needs every slot filled. Otherwise there is one for every subset of
/// the optional fields, which it leaves empty while it needs every other
/// slot filled: two to the power of the number of optional fields in all.
pub fn synthesize(def: &RecordDef) -> (plan: BuilderPlan)
    requires
        plannable(def@),
    ensures
        plans(plan@, def@),
        plan.wf(),
        !def.strict ==> plan@.finals.len() == pow2(optional_count(optional_flags(def@.fields))),
{
    let n = def.fields.len();
    let mut slots: Vec<SlotDecl> = Vec::new();
    let mut setters: Vec<Setter> = Vec::new();
    let mut flags: Vec<bool> = Vec::new();
    let mut i: usize = 0;
    while i < n
        invariant
            i <= n,
            n == def.fields.len(),
            slots.len() == i,
            setters.len() == i,
            flags.len() == i,
            forall|j: int| 0 <= j < i ==> (#[trigger] slots[j])@ == slot_of(def@.fields[j]),
            forall|j: int|
                0 <= j < i ==> (#[trigger] setters[j])@ == (SetterModel {
                    name: setter_of(def@.fields[j].name),
                    target: j,
                }),
            forall|j: int| 0 <= j < i ==> #[trigger] flags[j] == def@.fields[j].optional,
        decreases n - i,
    {
        let field = &def.fields[i];
        assert(def@.fields[i as int] == field@);
        let param = capitalize(field.name.as_str());
        let marker = marker_name(param.as_str());
        slots.push(
            SlotDecl {
                field: field.name.clone(),
                param,
                marker,
                ty: field.ty.clone(),
                optional: field.optional,
            },
        );
        setters.push(Setter { name: setter_name(field.name.as_str()), target: i });
        flags.push(field.optional);
        i += 1;
    }
    assert(flags@ =~= optional_flags(def@.fields));
    let mut finals = if def.strict {
        Vec::new()
    } else {
        generate_option_impls(&flags)
    };
    let ghost relaxed = keys(finals@);
    finals.push(Finalize { states: base_key(n) });
    let plan = BuilderPlan {
        record: def.name.clone(),
        builder: builder_name(def.name.as_str()),
        slots,
        setters,
        finals,
    };
    proof {
        let optional = optional_flags(def@.fields);
        assert(flags@ =~= optional);
        assert(plan@.slots =~= slots_of(def@.fields));
        assert(plan@.setters =~= setters_of(def@.fields));
        assert(plan@.finals =~= relaxed.push(all_filled(n as nat)));
        assert(plan@.finals.drop_last() =~= relaxed);
        assert(slot_flags(plan@.slots) =~= optional);
        assert(is_key(all_filled(n as nat), optional));
        if !def.strict {
            lemma_complete_family(relaxed, optional);
            lemma_family_size(plan@.finals, optional);
        } else {
            assert(relaxed =~= Seq::empty());
        }
    }
    plan
}

} // verus!

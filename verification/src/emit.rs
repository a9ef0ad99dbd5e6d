//! The text of the generated declarations.
//!
//! The declarations are bundled in one anonymous constant, so that the
//! marker types and the builder type cannot be named outside of it.

use crate::keys::{keys, Finalize, Slot};
use crate::plan::{slot_models, BuilderPlan, PlanModel, SlotDecl, SlotModel};
use vstd::prelude::*;
use vstd::string::*;

verus! {

/// The lists of the generated text, each with one element per slot.
#[derive(Clone, Copy, Debug, PartialEq, Eq, Structural)]
pub enum Part {
    /// The generic parameters of the builder type.
    Param,
    /// The members of the builder type.
    Member,
    /// The type arguments of the builder in which no slot is filled.
    UnitArg,
    /// The members of the builder in which no slot is filled.
    UnitInit,
    /// The type arguments of the builder that a setter returns.
    SetArg,
    /// The members of the builder that a setter returns.
    SetInit,
    /// The type arguments of the builder that a finalize operation is
    /// defined on.
    FinalArg,
    /// The fields of the record that a finalize operation returns.
    FinalInit,
}

/// The texts one after another.
pub open spec fn concat_all(texts: Seq<Seq<char>>) -> Seq<char>
    decreases texts.len(),
{
    if texts.len() == 0 {
        Seq::empty()
    } else {
        concat_all(texts.drop_last()) + texts.last()
    }
}

/// The state of slot `i` in `key`.
pub open spec fn state_at(key: Seq<Slot>, i: int) -> Slot {
    if 0 <= i < key.len() {
        key[i]
    } else {
        Slot::Filled
    }
}

/// The element of a list for one slot. `hit` says whether the slot is the
/// target of the setter, `state` is the slot's state in the key of the
/// finalize operation.
pub open spec fn part_text(part: Part, slot: SlotModel, hit: bool, state: Slot) -> Seq<char> {
    match part {
        Part::Param => slot.param + ", "@,
        Part::Member => slot.field + ": "@ + slot.param + ", "@,
        Part::UnitArg => "(), "@,
        Part::UnitInit => slot.field + ": (), "@,
        Part::SetArg => if hit {
            slot.marker + ", "@
        } else {
            slot.param + ", "@
        },
        Part::SetInit => if hit {
            slot.field + ": "@ + slot.marker + "(value), "@
        } else {
            slot.field + ": self."@ + slot.field + ", "@
        },
        Part::FinalArg => if state == Slot::Empty {
            "(), "@
        } else {
            slot.marker + ", "@
        },
        Part::FinalInit => if state == Slot::Empty {
            slot.field + ": None, "@
        } else {
            slot.field + ": self."@ + slot.field + ".0, "@
        },
    }
}

/// The elements of a list for the first `n` slots.
pub open spec fn part_texts(part: Part, slots: Seq<SlotModel>, target: int, key: Seq<Slot>, n: nat)
    -> Seq<Seq<char>> {
    Seq::new(n, |i: int| part_text(part, slots[i], i == target, state_at(key, i)))
}

/// A list of the generated text.
pub open spec fn list_text(part: Part, slots: Seq<SlotModel>, target: int, key: Seq<Slot>) -> Seq<
    char,
> {
    concat_all(part_texts(part, slots, target, key, slots.len()))
}

/// The declaration of a marker type.
pub open spec fn marker_text(slot: SlotModel) -> Seq<char> {
    "struct "@ + slot.marker + "("@ + slot.ty + ");\n"@
}

/// The declarations of the marker types of the first `n` slots.
pub open spec fn marker_texts(plan: PlanModel, n: nat) -> Seq<Seq<char>> {
    Seq::new(n, |i: int| marker_text(plan.slots[i]))
}

/// The declaration of the builder type.
pub open spec fn struct_text(plan: PlanModel) -> Seq<char> {
    "struct "@ + plan.builder + "<"@ + list_text(Part::Param, plan.slots, 0, Seq::empty()) + "> { "@
        + list_text(Part::Member, plan.slots, 0, Seq::empty()) + "}\n"@
}

/// The constructor of the builder in which no slot is filled.
pub open spec fn constructor_text(plan: PlanModel) -> Seq<char> {
    "impl "@ + plan.record + " { #[inline] fn builder() -> "@ + plan.builder + "<"@ + list_text(
        Part::UnitArg,
        plan.slots,
        0,
        Seq::empty(),
    ) + "> { "@ + plan.builder + " { "@ + list_text(Part::UnitInit, plan.slots, 0, Seq::empty())
        + "} } }\n"@
}

/// The setter at position `k` of the plan. It is generic in the state of
/// every slot, its target's included.
pub open spec fn setter_text(plan: PlanModel, k: int) -> Seq<char> {
    let target = plan.setters[k].target;
    "impl<"@ + list_text(Part::Param, plan.slots, 0, Seq::empty()) + "> "@ + plan.builder + "<"@
        + list_text(Part::Param, plan.slots, 0, Seq::empty()) + "> { #[inline] fn "@
        + plan.setters[k].name + "(self, value: "@ + plan.slots[target].ty + ") -> "@ + plan.builder
        + "<"@ + list_text(Part::SetArg, plan.slots, target, Seq::empty()) + "> { "@ + plan.builder
        + " { "@ + list_text(Part::SetInit, plan.slots, target, Seq::empty()) + "} } }\n"@
}

/// The first `n` setters of the plan.
pub open spec fn setter_texts(plan: PlanModel, n: nat) -> Seq<Seq<char>> {
    Seq::new(n, |k: int| setter_text(plan, k))
}

/// The finalize operation with the given key.
pub open spec fn finalize_text(plan: PlanModel, key: Seq<Slot>) -> Seq<char> {
    "impl "@ + plan.builder + "<"@ + list_text(Part::FinalArg, plan.slots, 0, key)
        + "> { #[inline] fn build(self) -> "@ + plan.record + " { "@ + plan.record + " { "@
        + list_text(Part::FinalInit, plan.slots, 0, key) + "} } }\n"@
}

/// The first `n` finalize operations of the plan.
pub open spec fn finalize_texts(plan: PlanModel, n: nat) -> Seq<Seq<char>> {
    Seq::new(n, |j: int| finalize_text(plan, plan.finals[j]))
}

/// The generated text of a plan: the marker types, the builder type, its
/// constructor, the setters and the finalize operations, in one anonymous
/// constant.
pub open spec fn rendered(plan: PlanModel) -> Seq<char> {
    "const _: () = {\n"@ + concat_all(marker_texts(plan, plan.slots.len())) + struct_text(plan)
        + constructor_text(plan) + concat_all(setter_texts(plan, plan.setters.len())) + concat_all(
        finalize_texts(plan, plan.finals.len()),
    ) + "};\n"@
}

fn render_part(part: Part, slot: &SlotDecl, hit: bool, state: Slot) -> (r: String)
    ensures
        r@ == part_text(part, slot@, hit, state),
{
    match part {
        Part::Param => slot.param.clone().concat(", "),
        Part::Member => slot.field.clone().concat(": ").concat(slot.param.as_str()).concat(", "),
        Part::UnitArg => String::from_str("(), "),
        Part::UnitInit => slot.field.clone().concat(": (), "),
        Part::SetArg => if hit {
            slot.marker.clone().concat(", ")
        } else {
            slot.param.clone().concat(", ")
        },
        Part::SetInit => if hit {
            slot.field.clone().concat(": ").concat(slot.marker.as_str()).concat("(value), ")
        } else {
            slot.field.clone().concat(": self.").concat(slot.field.as_str()).concat(", ")
        },
        Part::FinalArg => if state == Slot::Empty {
            String::from_str("(), ")
        } else {
            slot.marker.clone().concat(", ")
        },
        Part::FinalInit => if state == Slot::Empty {
            slot.field.clone().concat(": None, ")
        } else {
            slot.field.clone().concat(": self.").concat(slot.field.as_str()).concat(".0, ")
        },
    }
}

fn render_list(part: Part, slots: &Vec<SlotDecl>, target: usize, key: &Vec<Slot>) -> (r: String)
    ensures
        r@ == list_text(part, slot_models(slots@), target as int, key@),
{
    let mut out = String::new();
    let mut i: usize = 0;
    while i < slots.len()
        invariant
            i <= slots.len(),
            out@ == concat_all(
                part_texts(part, slot_models(slots@), target as int, key@, i as nat),
            ),
        decreases slots.len() - i,
    {
        let state = if i < key.len() {
            key[i]
        } else {
            Slot::Filled
        };
        let text = render_part(part, &slots[i], i == target, state);
        out.append(text.as_str());
        i += 1;
        proof {
            let texts = part_texts(part, slot_models(slots@), target as int, key@, i as nat);
            assert(texts.drop_last() =~= part_texts(
                part,
                slot_models(slots@),
                target as int,
                key@,
                (i - 1) as nat,
            ));
            assert(texts.last() == text@);
        }
    }
    out
}

fn render_markers(plan: &BuilderPlan) -> (r: String)
    ensures
        r@ == concat_all(marker_texts(plan@, plan@.slots.len())),
{
    let mut out = String::new();
    let mut i: usize = 0;
    while i < plan.slots.len()
        invariant
            i <= plan.slots.len(),
            out@ == concat_all(marker_texts(plan@, i as nat)),
        decreases plan.slots.len() - i,
    {
        let slot = &plan.slots[i];
        out.append("struct ");
        out.append(slot.marker.as_str());
        out.append("(");
        out.append(slot.ty.as_str());
        out.append(");\n");
        i += 1;
        proof {
            let texts = marker_texts(plan@, i as nat);
            assert(texts.drop_last() =~= marker_texts(plan@, (i - 1) as nat));
            assert(out@ =~= concat_all(texts.drop_last()) + texts.last());
        }
    }
    out
}

fn render_struct(plan: &BuilderPlan) -> (r: String)
    ensures
        r@ == struct_text(plan@),
{
    let none: Vec<Slot> = Vec::new();
    let params = render_list(Part::Param, &plan.slots, 0, &none);
    let members = render_list(Part::Member, &plan.slots, 0, &none);
    String::from_str("struct ").concat(plan.builder.as_str()).concat("<").concat(
        params.as_str(),
    ).concat("> { ").concat(members.as_str()).concat("}\n")
}

fn render_constructor(plan: &BuilderPlan) -> (r: String)
    ensures
        r@ == constructor_text(plan@),
{
    let none: Vec<Slot> = Vec::new();
    let args = render_list(Part::UnitArg, &plan.slots, 0, &none);
    let inits = render_list(Part::UnitInit, &plan.slots, 0, &none);
    String::from_str("impl ").concat(plan.record.as_str()).concat(
        " { #[inline] fn builder() -> ",
    ).concat(plan.builder.as_str()).concat("<").concat(args.as_str()).concat("> { ").concat(
        plan.builder.as_str(),
    ).concat(" { ").concat(inits.as_str()).concat("} } }\n")
}

fn render_setter(plan: &BuilderPlan, k: usize) -> (r: String)
    requires
        plan.wf(),
        k < plan.setters.len(),
    ensures
        r@ == setter_text(plan@, k as int),
{
    let none: Vec<Slot> = Vec::new();
    let setter = &plan.setters[k];
    let target = setter.target;
    assert(plan@.setters[k as int] == setter@);
    assert(target == k);
    assert(plan@.slots[target as int] == plan.slots[target as int]@);
    let params = render_list(Part::Param, &plan.slots, 0, &none);
    let args = render_list(Part::SetArg, &plan.slots, target, &none);
    let inits = render_list(Part::SetInit, &plan.slots, target, &none);
    String::from_str("impl<").concat(params.as_str()).concat("> ").concat(
        plan.builder.as_str(),
    ).concat("<").concat(params.as_str()).concat("> { #[inline] fn ").concat(
        setter.name.as_str(),
    ).concat("(self, value: ").concat(plan.slots[target].ty.as_str()).concat(") -> ").concat(
        plan.builder.as_str(),
    ).concat("<").concat(args.as_str()).concat("> { ").concat(plan.builder.as_str()).concat(
        " { ",
    ).concat(inits.as_str()).concat("} } }\n")
}

fn render_finalize(plan: &BuilderPlan, finalize: &Finalize) -> (r: String)
    ensures
        r@ == finalize_text(plan@, finalize@),
{
    let args = render_list(Part::FinalArg, &plan.slots, 0, &finalize.states);
    let inits = render_list(Part::FinalInit, &plan.slots, 0, &finalize.states);
    String::from_str("impl ").concat(plan.builder.as_str()).concat("<").concat(
        args.as_str(),
    ).concat("> { #[inline] fn build(self) -> ").concat(plan.record.as_str()).concat(
        " { ",
    ).concat(plan.record.as_str()).concat(" { ").concat(inits.as_str()).concat("} } }\n")
}

/// Writes out the declarations of a plan.
pub fn render(plan: &BuilderPlan) -> (r: String)
    requires
        plan.wf(),
    ensures
        r@ == rendered(plan@),
{
    let markers = render_markers(plan);
    let builder = render_struct(plan);
    let constructor = render_constructor(plan);
    let mut setters = String::new();
    let mut k: usize = 0;
    while k < plan.setters.len()
        invariant
            k <= plan.setters.len(),
            plan.wf(),
            setters@ == concat_all(setter_texts(plan@, k as nat)),
        decreases plan.setters.len() - k,
    {
        let text = render_setter(plan, k);
        setters.append(text.as_str());
        k += 1;
        proof {
            let texts = setter_texts(plan@, k as nat);
            assert(texts.drop_last() =~= setter_texts(plan@, (k - 1) as nat));
            assert(texts.last() == text@);
        }
    }
    let mut finals = String::new();
    let mut j: usize = 0;
    while j < plan.finals.len()
        invariant
            j <= plan.finals.len(),
            finals@ == concat_all(finalize_texts(plan@, j as nat)),
        decreases plan.finals.len() - j,
    {
        let text = render_finalize(plan, &plan.finals[j]);
        assert(plan@.finals[j as int] == plan.finals[j as int]@);
        finals.append(text.as_str());
        j += 1;
        proof {
            let texts = finalize_texts(plan@, j as nat);
            assert(texts.drop_last() =~= finalize_texts(plan@, (j - 1) as nat));
            assert(texts.last() == text@);
        }
    }
    String::from_str("const _: () = {\n").concat(markers.as_str()).concat(builder.as_str()).concat(
        constructor.as_str(),
    ).concat(setters.as_str()).concat(finals.as_str()).concat("};\n")
}

} // verus!

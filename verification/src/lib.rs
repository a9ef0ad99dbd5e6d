//! Type-state builders for plain records.
//!
//! Given the shape of a record (its field names and types) this crate plans
//! the family of declarations that make up a builder whose completeness the
//! compiler enforces through types: one marker type and one generic slot per
//! field, one setter per field, and one `build` operation for every accepted
//! combination of filled and empty slots.
//!
//! `shape` extracts a record definition from a declaration, `plan` plans the
//! declarations, `emit` writes them out, and `typestate` runs the state
//! machine that they describe.

use crate::emit::{render, rendered};
use crate::plan::{plannable, plans, synthesize, PlanModel};
use crate::shape::{extract, extraction, Declaration, Diagnostic, RecordDef, RecordModel};
use vstd::prelude::*;

pub mod emit;
pub mod keys;
pub mod names;
pub mod plan;
pub mod shape;
pub mod subsets;
pub mod typestate;

verus! {

/// Marker for builder types.
pub trait Builder {

}

impl<'a, T> Builder for crate::typestate::Assembly<'a, T> {

}

/// The text of the builder of a record: the declarations of the plan of the
/// record, written out.
pub fn derive_builder_for_struct(def: &RecordDef) -> (text: String)
    requires
        plannable(def@),
    ensures
        exists|plan: PlanModel| #[trigger] plans(plan, def@) && text@ == rendered(plan),
{
    let plan = synthesize(def);
    render(&plan)
}

/// What `derive_builder` needs of a declaration: if it is a record, its
/// finalize operations can be counted.
pub open spec fn derivable(decl: Declaration) -> bool {
    match extraction(decl) {
        Ok(def) => plannable(def),
        Err(_) => true,
    }
}

/// The text of the builder of a declaration, or the diagnostic that says why
/// there is none. Only records with named fields, with no directive but
/// `strict`, have a builder.
pub fn derive_builder(decl: &Declaration) -> (r: Result<String, Diagnostic>)
    requires
        derivable(*decl),
    ensures
        match r {
            Ok(text) => exists|def: RecordModel, plan: PlanModel|
                extraction(*decl) == Ok::<RecordModel, Diagnostic>(def) && #[trigger] plans(
                    plan,
                    def,
                ) && text@ == rendered(plan),
            Err(e) => extraction(*decl) == Err::<RecordModel, Diagnostic>(e),
        },
{
    match extract(decl) {
        Ok(def) => Ok(derive_builder_for_struct(&def)),
        Err(e) => Err(e),
    }
}

/// As `derive_builder`, for every declaration: `None` where the record has
/// too many optional fields for its finalize operations to be counted.
pub fn try_derive_builder(decl: &Declaration) -> (r: Option<Result<String, Diagnostic>>)
    ensures
        match r {
            Some(Ok(text)) => derivable(*decl) && exists|def: RecordModel, plan: PlanModel|
                extraction(*decl) == Ok::<RecordModel, Diagnostic>(def) && #[trigger] plans(
                    plan,
                    def,
                ) && text@ == rendered(plan),
            Some(Err(e)) => extraction(*decl) == Err::<RecordModel, Diagnostic>(e),
            None => !derivable(*decl),
        },
{
    match extract(decl) {
        Ok(def) => if def.can_plan() {
            Some(Ok(derive_builder_for_struct(&def)))
        } else {
            None
        },
        Err(e) => Some(Err(e)),
    }
}

} // verus!

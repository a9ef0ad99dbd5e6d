//! The shape of a record declaration, and its extraction.
//!
//! A declaration is described by plain values: its name, the names of the
//! directives attached to it, and its shape. Extraction turns a named-field
//! record into an ordered, name-keyed list of fields, and rejects every
//! other shape.

use vstd::prelude::*;
use vstd::string::*;

verus! {

/// A type expression as written in a declaration.
#[derive(Clone, Debug, PartialEq, Eq)]
pub struct TypeExpr {
    /// The expression as written.
    pub text: String,
    /// The segments of its path, without generic arguments; empty where the
    /// expression is not a path.
    pub path: Vec<String>,
    /// The number of type arguments applied to the path.
    pub type_args: usize,
}

/// A named field as declared.
#[derive(Clone, Debug, PartialEq, Eq)]
pub struct RawField {
    pub name: String,
    pub ty: TypeExpr,
}

/// The shape of a declaration.
#[derive(Clone, Debug, PartialEq, Eq)]
pub enum Shape {
    /// A record with named fields, in declaration order.
    Named(Vec<RawField>),
    /// A record with positional fields.
    Unnamed,
    /// A record without fields or braces.
    Unit,
    /// A type of variants.
    Enum,
    /// An untagged union.
    Union,
}

/// A declaration that a builder is asked for.
#[derive(Clone, Debug, PartialEq, Eq)]
pub struct Declaration {
    pub name: String,
    /// The names of the directives attached to the declaration.
    pub directives: Vec<String>,
    pub shape: Shape,
}

/// Why no builder is generated for a declaration.
#[derive(Clone, Copy, Debug, PartialEq, Eq, Structural)]
pub enum Diagnostic {
    /// The declaration is not a record.
    NotAStruct,
    /// The record's fields have no names.
    UnnamedFields,
    /// A directive other than `strict` is attached to the declaration.
    UnrecognizedDirective,
}

/// A field of a record.
#[derive(Clone, Debug, PartialEq, Eq)]
pub struct Field {
    pub name: String,
    /// The declared type, as written.
    pub ty: String,
    pub optional: bool,
}

/// A record definition: its fields, in order and with distinct names, and
/// the strict flag.
#[derive(Clone, Debug, PartialEq, Eq)]
pub struct RecordDef {
    pub name: String,
    pub fields: Vec<Field>,
    pub strict: bool,
}

/// What a field is, as a mathematical value.
pub struct FieldModel {
    pub name: Seq<char>,
    pub ty: Seq<char>,
    pub optional: bool,
}

/// What a record definition is, as a mathematical value.
pub struct RecordModel {
    pub name: Seq<char>,
    pub fields: Seq<FieldModel>,
    pub strict: bool,
}

impl View for Field {
    type V = FieldModel;

    open spec fn view(&self) -> FieldModel {
        FieldModel { name: self.name@, ty: self.ty@, optional: self.optional }
    }
}

impl View for RecordDef {
    type V = RecordModel;

    open spec fn view(&self) -> RecordModel {
        RecordModel { name: self.name@, fields: models(self.fields@), strict: self.strict }
    }
}

/// The fields of a vector, as mathematical values.
pub open spec fn models(fields: Seq<Field>) -> Seq<FieldModel> {
    Seq::new(fields.len(), |i: int| fields[i]@)
}

/// The optional flags of a list of fields.
pub open spec fn optional_flags(fields: Seq<FieldModel>) -> Seq<bool> {
    Seq::new(fields.len(), |i: int| fields[i].optional)
}

/// No two fields share a name.
pub open spec fn distinct_names(fields: Seq<FieldModel>) -> bool {
    forall|i: int, j: int|
        0 <= i < j < fields.len() ==> (#[trigger] fields[i]).name != (#[trigger] fields[j]).name
}

/// Some field of `fields` is named `name`.
pub open spec fn has_name(fields: Seq<FieldModel>, name: Seq<char>) -> bool {
    exists|i: int| 0 <= i < fields.len() && (#[trigger] fields[i]).name == name
}

/// The position of the first field named `name`.
pub open spec fn position(fields: Seq<FieldModel>, name: Seq<char>) -> int {
    choose|i: int|
        0 <= i < fields.len() && (#[trigger] fields[i]).name == name && forall|j: int|
            0 <= j < i ==> (#[trigger] fields[j]).name != name
}

/// A type is optional when it is written as the bare name `Option` applied
/// to exactly one type argument.
pub open spec fn is_optional_type(ty: TypeExpr) -> bool {
    ty.path.len() == 1 && ty.path[0]@ == "Option"@ && ty.type_args == 1
}

/// A declared field as a field of the record.
pub open spec fn declared(raw: RawField) -> FieldModel {
    FieldModel { name: raw.name@, ty: raw.ty.text@, optional: is_optional_type(raw.ty) }
}

/// The declared fields of a vector, as fields of the record.
pub open spec fn all_declared(raw: Seq<RawField>) -> Seq<FieldModel> {
    Seq::new(raw.len(), |i: int| declared(raw[i]))
}

/// Enters `field` into a name-keyed list: a field of the same name is
/// replaced where it stands, a new name goes to the end.
pub open spec fn enter(fields: Seq<FieldModel>, field: FieldModel) -> Seq<FieldModel> {
    if has_name(fields, field.name) {
        fields.update(position(fields, field.name), field)
    } else {
        fields.push(field)
    }
}

/// The name-keyed list that results from entering the declared fields in
/// declaration order.
pub open spec fn collapse(raw: Seq<FieldModel>) -> Seq<FieldModel>
    decreases raw.len(),
{
    if raw.len() == 0 {
        Seq::empty()
    } else {
        enter(collapse(raw.drop_last()), raw.last())
    }
}

/// No field after the one at `i` has its name.
pub open spec fn is_last_of_name(raw: Seq<FieldModel>, i: int) -> bool {
    forall|l: int| i < l < raw.len() ==> (#[trigger] raw[l]).name != raw[i].name
}

/// `field` is declared in `raw`, and no later field has its name.
pub open spec fn declares_last(raw: Seq<FieldModel>, field: FieldModel) -> bool {
    exists|i: int| 0 <= i < raw.len() && raw[i] == field && #[trigger] is_last_of_name(raw, i)
}

/// Every directive is the one recognized directive, `strict`.
pub open spec fn all_recognized(directives: Seq<String>) -> bool {
    forall|i: int| 0 <= i < directives.len() ==> (#[trigger] directives[i])@ == "strict"@
}

/// What extraction yields for a declaration.
pub open spec fn extraction(decl: Declaration) -> Result<RecordModel, Diagnostic> {
    match decl.shape {
        Shape::Enum | Shape::Union => Err(Diagnostic::NotAStruct),
        _ => if !all_recognized(decl.directives@) {
            Err(Diagnostic::UnrecognizedDirective)
        } else {
            match decl.shape {
                Shape::Named(raw) => Ok(
                    RecordModel {
                        name: decl.name@,
                        fields: collapse(all_declared(raw@)),
                        strict: decl.directives.len() > 0,
                    },
                ),
                _ => Err(Diagnostic::UnnamedFields),
            }
        },
    }
}

impl Diagnostic {
    /// The text of the diagnostic.
    pub open spec fn text(self) -> Seq<char> {
        match self {
            Diagnostic::NotAStruct => "Builder can only be derived for structs"@,
            Diagnostic::UnnamedFields => "Only named fields are supported"@,
            Diagnostic::UnrecognizedDirective => "Unrecognized directive, expected `strict`"@,
        }
    }

    /// The text of the diagnostic.
    pub fn message(&self) -> (r: String)
        ensures
            r@ == self.text(),
    {
        match self {
            Diagnostic::NotAStruct => String::from_str("Builder can only be derived for structs"),
            Diagnostic::UnnamedFields => String::from_str("Only named fields are supported"),
            Diagnostic::UnrecognizedDirective => String::from_str(
                "Unrecognized directive, expected `strict`",
            ),
        }
    }
}

impl TypeExpr {
    /// Whether a field of this type is optional.
    pub fn is_optional(&self) -> (r: bool)
        ensures
            r == is_optional_type(*self),
    {
        self.path.len() == 1 && self.type_args == 1 && self.path[0] == String::from_str("Option")
    }
}

/// Entering a field keeps the names distinct, keeps every name that was
/// there in its place, and makes the entered field the one of its name.
pub proof fn lemma_enter(fields: Seq<FieldModel>, field: FieldModel)
    requires
        distinct_names(fields),
    ensures
        distinct_names(enter(fields, field)),
        enter(fields, field).len() >= fields.len(),
        forall|i: int|
            0 <= i < fields.len() ==> (#[trigger] enter(fields, field)[i]).name == fields[i].name,
        forall|i: int|
            0 <= i < fields.len() && fields[i].name != field.name ==> #[trigger] enter(
                fields,
                field,
            )[i] == fields[i],
        exists|i: int|
            0 <= i < enter(fields, field).len() && #[trigger] enter(fields, field)[i] == field,
{
    let after = enter(fields, field);
    if has_name(fields, field.name) {
        let w = choose|i: int| 0 <= i < fields.len() && (#[trigger] fields[i]).name == field.name;
        assert forall|j: int| 0 <= j < w implies (#[trigger] fields[j]).name != field.name by {}
        let at = position(fields, field.name);
        assert(after[at] == field);
    } else {
        assert(after[fields.len() as int] == field);
        assert forall|i: int, j: int| 0 <= i < j < after.len() implies (#[trigger] after[i]).name
            != (#[trigger] after[j]).name by {
            if j == fields.len() {
                assert(fields[i].name != field.name);
            }
        }
    }
}

/// The collapsed list has distinct names, holds a field for every declared
/// name, and each of its fields is the last one declared under its name.
pub proof fn lemma_collapse(raw: Seq<FieldModel>)
    ensures
        distinct_names(collapse(raw)),
        collapse(raw).len() <= raw.len(),
        forall|i: int| 0 <= i < raw.len() ==> has_name(collapse(raw), (#[trigger] raw[i]).name),
        forall|j: int| 0 <= j < collapse(raw).len() ==> declares_last(raw, #[trigger] collapse(raw)[j]),
    decreases raw.len(),
{
    if raw.len() > 0 {
        let shorter = raw.drop_last();
        let before = collapse(shorter);
        let after = collapse(raw);
        lemma_collapse(shorter);
        lemma_enter(before, raw.last());
        assert forall|i: int| 0 <= i < raw.len() implies has_name(
            after,
            (#[trigger] raw[i]).name,
        ) by {
            if i < shorter.len() {
                assert(shorter[i] == raw[i]);
                let w = choose|w: int|
                    0 <= w < before.len() && (#[trigger] before[w]).name == shorter[i].name;
                assert(after[w].name == raw[i].name);
            } else {
                let w = choose|w: int| 0 <= w < after.len() && #[trigger] after[w] == raw.last();
                assert(after[w].name == raw[i].name);
            }
        }
        assert forall|j: int| 0 <= j < after.len() implies declares_last(raw, #[trigger] after[j]) by {
            let last = raw.len() - 1;
            if after[j] == raw.last() {
                assert(raw[last] == after[j] && is_last_of_name(raw, last));
            } else {
                let w = choose|w: int| 0 <= w < after.len() && #[trigger] after[w] == raw.last();
                assert(j < before.len() && after[j].name != raw.last().name) by {
                    if j >= before.len() {
                        assert(!has_name(before, raw.last().name));
                    } else if after[j].name == raw.last().name {
                        if w != j {
                            assert(after[w].name == after[j].name);
                        }
                    }
                }
                assert(before[j].name == after[j].name);
                assert(after[j] == before[j]);
                assert(declares_last(shorter, before[j]));
                let i = choose|i: int|
                    0 <= i < shorter.len() && shorter[i] == before[j] && #[trigger] is_last_of_name(
                        shorter,
                        i,
                    );
                assert(raw[i] == after[j]);
                assert(is_last_of_name(raw, i)) by {
                    assert forall|l: int| i < l < raw.len() implies (#[trigger] raw[l]).name
                        != raw[i].name by {
                        if l < shorter.len() {
                            assert(shorter[l] == raw[l]);
                        }
                    }
                }
            }
        }
    }
}

/// The position of the field named `name`, if there is one.
fn find_name(fields: &Vec<Field>, name: &String) -> (r: Option<usize>)
    ensures
        match r {
            Some(i) => i < fields.len() && i == position(models(fields@), name@) && has_name(
                models(fields@),
                name@,
            ),
            None => !has_name(models(fields@), name@),
        },
{
    let mut i: usize = 0;
    while i < fields.len()
        invariant
            i <= fields.len(),
            forall|j: int| 0 <= j < i ==> (#[trigger] models(fields@)[j]).name != name@,
        decreases fields.len() - i,
    {
        if fields[i].name == *name {
            proof {
                let m = models(fields@);
                assert(m[i as int].name == name@);
                let p = position(m, name@);
                assert(p == i) by {
                    if p < i {
                        assert(m[p].name != name@);
                    }
                }
            }
            return Some(i);
        }
        i += 1;
    }
    None
}

/// Whether `strict` is among the directives. Any other directive is an error.
pub fn detect_strict(directives: &Vec<String>) -> (r: Result<bool, Diagnostic>)
    ensures
        match r {
            Ok(strict) => all_recognized(directives@) && strict == (directives.len() > 0),
            Err(e) => !all_recognized(directives@) && e == Diagnostic::UnrecognizedDirective,
        },
{
    let recognized = String::from_str("strict");
    let mut i: usize = 0;
    while i < directives.len()
        invariant
            i <= directives.len(),
            recognized@ == "strict"@,
            forall|j: int| 0 <= j < i ==> (#[trigger] directives[j])@ == "strict"@,
        decreases directives.len() - i,
    {
        if directives[i] != recognized {
            return Err(Diagnostic::UnrecognizedDirective);
        }
        i += 1;
    }
    Ok(directives.len() > 0)
}

/// The fields of a record, keyed by name in order of first declaration. A
/// name declared more than once keeps its first place and its last type.
pub fn collect_fields(raw: &Vec<RawField>) -> (r: Vec<Field>)
    ensures
        models(r@) == collapse(all_declared(raw@)),
        distinct_names(models(r@)),
{
    let mut out: Vec<Field> = Vec::new();
    let mut i: usize = 0;
    assert(models(out@) =~= collapse(all_declared(raw@).take(0)));
    while i < raw.len()
        invariant
            i <= raw.len(),
            models(out@) == collapse(all_declared(raw@).take(i as int)),
            distinct_names(models(out@)),
        decreases raw.len() - i,
    {
        let field = Field {
            name: raw[i].name.clone(),
            ty: raw[i].ty.text.clone(),
            optional: raw[i].ty.is_optional(),
        };
        let ghost before = models(out@);
        let ghost entered = field@;
        proof {
            let prefix = all_declared(raw@).take(i as int + 1);
            assert(prefix.drop_last() =~= all_declared(raw@).take(i as int));
            assert(prefix.last() == entered);
            lemma_enter(before, entered);
        }
        match find_name(&out, &field.name) {
            Some(at) => {
                out.set(at, field);
                assert(models(out@) =~= before.update(at as int, entered));
            },
            None => {
                out.push(field);
                assert(models(out@) =~= before.push(entered));
            },
        }
        i += 1;
    }
    assert(all_declared(raw@).take(i as int) =~= all_declared(raw@));
    out
}

/// Extracts the record definition from a declaration, or says why there is
/// none. A declaration that is not a record is rejected first, then a
/// directive that is not recognized, then a record without named fields.
pub fn extract(decl: &Declaration) -> (r: Result<RecordDef, Diagnostic>)
    ensures
        match r {
            Ok(def) => extraction(*decl) == Ok::<RecordModel, Diagnostic>(def@) && distinct_names(
                def@.fields,
            ),
            Err(e) => extraction(*decl) == Err::<RecordModel, Diagnostic>(e),
        },
{
    match &decl.shape {
        Shape::Enum | Shape::Union => { return Err(Diagnostic::NotAStruct); },
        _ => {},
    }
    let strict = match detect_strict(&decl.directives) {
        Ok(strict) => strict,
        Err(e) => { return Err(e); },
    };
    match &decl.shape {
        Shape::Named(raw) => {
            let fields = collect_fields(raw);
            Ok(RecordDef { name: decl.name.clone(), fields, strict })
        },
        _ => Err(Diagnostic::UnnamedFields),
    }
}

} // verus!

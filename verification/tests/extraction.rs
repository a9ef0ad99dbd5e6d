use buco::names::{builder_name, capitalize, marker_name, setter_name};
use buco::plan::synthesize;
use buco::shape::{
    collect_fields, detect_strict, extract, Declaration, Diagnostic, Field, RawField, Shape,
    TypeExpr,
};

fn path_type(text: &str, path: &[&str], type_args: usize) -> TypeExpr {
    TypeExpr {
        text: text.to_string(),
        path: path.iter().map(|s| s.to_string()).collect(),
        type_args,
    }
}

fn raw(name: &str, ty: TypeExpr) -> RawField {
    RawField { name: name.to_string(), ty }
}

fn declaration(shape: Shape, directives: &[&str]) -> Declaration {
    Declaration {
        name: "Elements".to_string(),
        directives: directives.iter().map(|d| d.to_string()).collect(),
        shape,
    }
}

fn field(name: &str, ty: &str, optional: bool) -> Field {
    Field { name: name.to_string(), ty: ty.to_string(), optional }
}

#[test]
fn non_records_are_rejected() {
    assert_eq!(extract(&declaration(Shape::Enum, &[])), Err(Diagnostic::NotAStruct));
    assert_eq!(extract(&declaration(Shape::Union, &[])), Err(Diagnostic::NotAStruct));
    assert_eq!(extract(&declaration(Shape::Unnamed, &[])), Err(Diagnostic::UnnamedFields));
    assert_eq!(extract(&declaration(Shape::Unit, &[])), Err(Diagnostic::UnnamedFields));
    assert_eq!(buco::derive_builder(&declaration(Shape::Enum, &[])), Err(Diagnostic::NotAStruct));
    assert_eq!(
        buco::derive_builder(&declaration(Shape::Unnamed, &[])),
        Err(Diagnostic::UnnamedFields)
    );
}

#[test]
fn unrecognized_directive_is_rejected() {
    let named = Shape::Named(vec![raw("fire", path_type("u8", &["u8"], 0))]);
    assert_eq!(
        extract(&declaration(named.clone(), &["lenient"])),
        Err(Diagnostic::UnrecognizedDirective)
    );
    assert_eq!(
        extract(&declaration(named.clone(), &["strict", "Strict"])),
        Err(Diagnostic::UnrecognizedDirective)
    );
    assert_eq!(
        extract(&declaration(Shape::Unit, &["other"])),
        Err(Diagnostic::UnrecognizedDirective)
    );
    assert_eq!(extract(&declaration(Shape::Enum, &["other"])), Err(Diagnostic::NotAStruct));
}

#[test]
fn strict_is_detected() {
    assert_eq!(detect_strict(&vec![]), Ok(false));
    assert_eq!(detect_strict(&vec!["strict".to_string()]), Ok(true));
    assert_eq!(detect_strict(&vec!["strict".to_string(), "strict".to_string()]), Ok(true));
    assert_eq!(
        detect_strict(&vec!["strict".to_string(), "loose".to_string()]),
        Err(Diagnostic::UnrecognizedDirective)
    );
    assert_eq!(detect_strict(&vec!["".to_string()]), Err(Diagnostic::UnrecognizedDirective));
}

#[test]
fn record_is_extracted_in_order() {
    let named = Shape::Named(vec![
        raw("fire", path_type("u8", &["u8"], 0)),
        raw("earth", path_type("Option<u8>", &["Option"], 1)),
        raw("air", path_type("String", &["String"], 0)),
    ]);
    let def = extract(&declaration(named.clone(), &[])).unwrap();
    assert_eq!(def.name, "Elements");
    assert!(!def.strict);
    assert_eq!(
        def.fields,
        vec![
            field("fire", "u8", false),
            field("earth", "Option<u8>", true),
            field("air", "String", false)
        ]
    );
    assert!(extract(&declaration(named, &["strict"])).unwrap().strict);
}

#[test]
fn optional_is_the_bare_option_of_one_type() {
    assert!(path_type("Option<u8>", &["Option"], 1).is_optional());
    assert!(path_type("Option<Vec<(u8, u8)>>", &["Option"], 1).is_optional());
    assert!(!path_type("Option", &["Option"], 0).is_optional());
    assert!(!path_type("Option<u8, u8>", &["Option"], 2).is_optional());
    assert!(!path_type("Optional<u8>", &["Optional"], 1).is_optional());
    assert!(!path_type("option<u8>", &["option"], 1).is_optional());
    assert!(!path_type("Vec<u8>", &["Vec"], 1).is_optional());
    assert!(!path_type("std::option::Option<u8>", &["std", "option", "Option"], 1).is_optional());
    assert!(!path_type("&u8", &[], 0).is_optional());
    assert!(!path_type("u8", &["u8"], 0).is_optional());
}

#[test]
fn duplicate_names_collapse() {
    let fields = collect_fields(&vec![
        raw("a", path_type("u8", &["u8"], 0)),
        raw("b", path_type("u16", &["u16"], 0)),
        raw("a", path_type("Option<u8>", &["Option"], 1)),
        raw("c", path_type("u32", &["u32"], 0)),
        raw("b", path_type("u64", &["u64"], 0)),
    ]);
    assert_eq!(
        fields,
        vec![field("a", "Option<u8>", true), field("b", "u64", false), field("c", "u32", false)]
    );
}

#[test]
fn no_fields_are_collected_from_none() {
    assert_eq!(collect_fields(&vec![]), vec![]);
}

#[test]
fn diagnostics_have_texts() {
    assert_eq!(Diagnostic::NotAStruct.message(), "Builder can only be derived for structs");
    assert_eq!(Diagnostic::UnnamedFields.message(), "Only named fields are supported");
    assert_eq!(
        Diagnostic::UnrecognizedDirective.message(),
        "Unrecognized directive, expected `strict`"
    );
}

#[test]
fn names_follow_the_conventions() {
    assert_eq!(capitalize("fire"), "Fire");
    assert_eq!(capitalize("v1"), "V1");
    assert_eq!(capitalize("Fire"), "Fire");
    assert_eq!(capitalize("fIRE_x"), "FIRE_x");
    assert_eq!(capitalize("_fire"), "_fire");
    assert_eq!(capitalize("z"), "Z");
    assert_eq!(capitalize(""), "");
    assert_eq!(capitalize("\u{e9}t\u{e9}"), "\u{e9}t\u{e9}");
    assert_eq!(marker_name("Fire"), "FireField");
    assert_eq!(setter_name("fire"), "set_fire");
    assert_eq!(builder_name("Elements"), "ElementsBuilder");
}

#[test]
fn plan_names_every_declaration() {
    let def = extract(&declaration(
        Shape::Named(vec![
            raw("fire", path_type("u8", &["u8"], 0)),
            raw("earth", path_type("Option<u8>", &["Option"], 1)),
        ]),
        &[],
    ))
    .unwrap();
    let plan = synthesize(&def);
    assert_eq!(plan.record, "Elements");
    assert_eq!(plan.builder, "ElementsBuilder");
    assert_eq!(plan.slots.len(), 2);
    assert_eq!(plan.slots[0].field, "fire");
    assert_eq!(plan.slots[0].param, "Fire");
    assert_eq!(plan.slots[0].marker, "FireField");
    assert_eq!(plan.slots[0].ty, "u8");
    assert!(!plan.slots[0].optional);
    assert_eq!(plan.slots[1].field, "earth");
    assert_eq!(plan.slots[1].param, "Earth");
    assert_eq!(plan.slots[1].marker, "EarthField");
    assert_eq!(plan.slots[1].ty, "Option<u8>");
    assert!(plan.slots[1].optional);
    assert_eq!(plan.setters.len(), 2);
    assert_eq!(plan.setters[0].name, "set_fire");
    assert_eq!(plan.setters[0].target, 0);
    assert_eq!(plan.setters[1].name, "set_earth");
    assert_eq!(plan.setters[1].target, 1);
}

fn wide(strict: bool) -> Declaration {
    let fields = (0..usize::BITS as usize)
        .map(|i| raw(&format!("f{}", i), path_type("Option<u8>", &["Option"], 1)))
        .collect();
    declaration(Shape::Named(fields), if strict { &["strict"] } else { &[] })
}

#[test]
fn too_many_optional_fields_cannot_be_planned() {
    assert_eq!(buco::try_derive_builder(&wide(false)), None);
    assert!(!extract(&wide(false)).unwrap().can_plan());
}

#[test]
fn strict_records_can_always_be_planned() {
    let def = extract(&wide(true)).unwrap();
    assert!(def.can_plan());
    let plan = synthesize(&def);
    assert_eq!(plan.finals.len(), 1);
    assert_eq!(plan.slots.len(), usize::BITS as usize);
    assert!(matches!(buco::try_derive_builder(&wide(true)), Some(Ok(_))));
}

#[test]
fn required_fields_do_not_count() {
    let mut fields: Vec<RawField> =
        (0..100).map(|i| raw(&format!("r{}", i), path_type("u8", &["u8"], 0))).collect();
    fields.push(raw("o", path_type("Option<u8>", &["Option"], 1)));
    let decl = declaration(Shape::Named(fields), &[]);
    let def = extract(&decl).unwrap();
    assert!(def.can_plan());
    assert_eq!(synthesize(&def).finals.len(), 2);
}

#[test]
fn try_derive_builder_agrees_with_derive_builder() {
    let named = declaration(
        Shape::Named(vec![
            raw("fire", path_type("u8", &["u8"], 0)),
            raw("earth", path_type("Option<u8>", &["Option"], 1)),
        ]),
        &[],
    );
    assert_eq!(buco::try_derive_builder(&named), Some(buco::derive_builder(&named)));
    let variants = declaration(Shape::Enum, &[]);
    assert_eq!(buco::try_derive_builder(&variants), Some(Err(Diagnostic::NotAStruct)));
    let unknown = declaration(Shape::Unit, &["relaxed"]);
    assert_eq!(buco::try_derive_builder(&unknown), Some(Err(Diagnostic::UnrecognizedDirective)));
}

use buco::keys::Slot;
use buco::plan::{synthesize, BuilderPlan};
use buco::shape::{extract, Declaration, RawField, Shape, TypeExpr};
use buco::typestate::Rejection;

#[derive(Debug, Clone, PartialEq)]
enum Value {
    U8(u8),
    Text(String),
    F64(f64),
    Opt(Option<u8>),
}

fn plain(text: &str) -> TypeExpr {
    TypeExpr { text: text.to_string(), path: vec![text.to_string()], type_args: 0 }
}

fn option_of(inner: &str) -> TypeExpr {
    TypeExpr { text: format!("Option<{}>", inner), path: vec!["Option".to_string()], type_args: 1 }
}

fn record(name: &str, fields: Vec<(&str, TypeExpr)>, directives: Vec<&str>) -> Declaration {
    Declaration {
        name: name.to_string(),
        directives: directives.into_iter().map(|d| d.to_string()).collect(),
        shape: Shape::Named(
            fields.into_iter().map(|(n, ty)| RawField { name: n.to_string(), ty }).collect(),
        ),
    }
}

fn plan_of(decl: &Declaration) -> BuilderPlan {
    synthesize(&extract(decl).unwrap())
}

fn elements() -> Declaration {
    record(
        "Elements",
        vec![("fire", plain("u8")), ("water", plain("u8")), ("earth", plain("u8")), ("air", plain("u8"))],
        vec![],
    )
}

fn six_elements(directives: Vec<&str>) -> Declaration {
    record(
        "Elements",
        vec![
            ("fire", plain("u8")),
            ("water", plain("u8")),
            ("earth", option_of("u8")),
            ("air", plain("u8")),
            ("light", option_of("u8")),
            ("dark", plain("u8")),
        ],
        directives,
    )
}

#[test]
fn test_common_builder() {
    let decl = record(
        "Data",
        vec![("v1", plain("u8")), ("v2", plain("String")), ("v3", plain("f64"))],
        vec![],
    );
    let plan = plan_of(&decl);
    let data = plan
        .builder()
        .set("set_v1", Value::U8(1))
        .unwrap()
        .set("set_v2", Value::Text("hello".to_string()))
        .unwrap()
        .set("set_v3", Value::F64(1.414))
        .unwrap()
        .build()
        .unwrap();

    assert_eq!(data[0], Some(Value::U8(1)));
    assert_eq!(data[1], Some(Value::Text("hello".to_string())));
    assert_eq!(data[2], Some(Value::F64(1.414)));
}

#[test]
fn sanity_tests() {
    // A type of variants has no builder.
    let variants = Declaration { name: "Elements".to_string(), directives: vec![], shape: Shape::Enum };
    assert!(buco::derive_builder(&variants).is_err());

    // Nor has a union.
    let union = Declaration { name: "Elements".to_string(), directives: vec![], shape: Shape::Union };
    assert!(buco::derive_builder(&union).is_err());

    // A record has one, and with every field supplied it finalizes.
    assert!(buco::derive_builder(&elements()).is_ok());
    let plan = plan_of(&elements());
    let complete = plan
        .builder()
        .set("set_fire", 1u8)
        .unwrap()
        .set("set_water", 2)
        .unwrap()
        .set("set_earth", 3)
        .unwrap()
        .set("set_air", 4)
        .unwrap()
        .build();
    assert_eq!(complete, Ok(vec![Some(1), Some(2), Some(3), Some(4)]));

    // With a field missing it does not.
    let partial = plan.builder().set("set_fire", 1u8).unwrap().set("set_water", 2).unwrap().build();
    assert_eq!(partial, Err(Rejection::NoFinalize));

    // Setting a field twice is accepted, and the last value stays.
    let single = record("Elements", vec![("fire", plain("u8"))], vec![]);
    let plan = plan_of(&single);
    let twice = plan.builder().set("set_fire", 1u8).unwrap().set("set_fire", 2).unwrap().build();
    assert_eq!(twice, Ok(vec![Some(2)]));
}

#[test]
fn three_fields_have_one_finalize() {
    let decl = record(
        "Data",
        vec![("v1", plain("u8")), ("v2", plain("String")), ("v3", plain("f64"))],
        vec![],
    );
    let plan = plan_of(&decl);
    assert_eq!(plan.finals.len(), 1);
    assert_eq!(plan.finals[0].states, vec![Slot::Filled, Slot::Filled, Slot::Filled]);

    let without_v3 = plan
        .builder()
        .set("set_v1", Value::U8(1))
        .unwrap()
        .set("set_v2", Value::Text("hello".to_string()))
        .unwrap()
        .build();
    assert_eq!(without_v3, Err(Rejection::NoFinalize));
}

#[test]
fn optional_fields_may_stay_unset() {
    let plan = plan_of(&six_elements(vec![]));
    let built = plan
        .builder()
        .set("set_fire", Value::U8(1))
        .unwrap()
        .set("set_water", Value::U8(2))
        .unwrap()
        .set("set_air", Value::U8(4))
        .unwrap()
        .set("set_light", Value::Opt(Some(5)))
        .unwrap()
        .set("set_dark", Value::U8(6))
        .unwrap()
        .build()
        .unwrap();
    assert_eq!(
        built,
        vec![
            Some(Value::U8(1)),
            Some(Value::U8(2)),
            None,
            Some(Value::U8(4)),
            Some(Value::Opt(Some(5))),
            Some(Value::U8(6)),
        ]
    );
}

#[test]
fn both_optional_fields_may_stay_unset() {
    let plan = plan_of(&six_elements(vec![]));
    let built = plan
        .builder()
        .set("set_dark", 6u8)
        .unwrap()
        .set("set_air", 4)
        .unwrap()
        .set("set_water", 2)
        .unwrap()
        .set("set_fire", 1)
        .unwrap()
        .build();
    assert_eq!(built, Ok(vec![Some(1), Some(2), None, Some(4), None, Some(6)]));
}

#[test]
fn required_field_must_be_set() {
    let plan = plan_of(&six_elements(vec![]));
    let setters = ["set_fire", "set_water", "set_earth", "set_air", "set_light", "set_dark"];
    for missing in [0usize, 1, 3, 5] {
        let mut builder = plan.builder();
        for (i, setter) in setters.iter().enumerate() {
            if i != missing {
                builder = builder.set(setter, i as u8).unwrap();
            }
        }
        assert_eq!(builder.build(), Err(Rejection::NoFinalize));
    }
}

#[test]
fn strict_needs_optional_fields_too() {
    let decl = record("Elements", vec![("light", option_of("u8"))], vec!["strict"]);
    let plan = plan_of(&decl);
    assert_eq!(plan.finals.len(), 1);
    assert_eq!(plan.builder::<Value>().build(), Err(Rejection::NoFinalize));
    let built = plan.builder().set("set_light", Value::Opt(Some(5))).unwrap().build();
    assert_eq!(built, Ok(vec![Some(Value::Opt(Some(5)))]));
}

#[test]
fn strict_six_elements_need_every_field() {
    let plan = plan_of(&six_elements(vec!["strict"]));
    assert_eq!(plan.finals.len(), 1);
    let built = plan
        .builder()
        .set("set_fire", 1u8)
        .unwrap()
        .set("set_water", 2)
        .unwrap()
        .set("set_air", 4)
        .unwrap()
        .set("set_light", 5)
        .unwrap()
        .set("set_dark", 6)
        .unwrap()
        .build();
    assert_eq!(built, Err(Rejection::NoFinalize));
}

#[test]
fn last_write_wins() {
    let plan = plan_of(&elements());
    let builder = plan.builder().set("set_water", 10u8).unwrap().set("set_water", 20).unwrap();
    assert_eq!(builder.state(), vec![Slot::Empty, Slot::Filled, Slot::Empty, Slot::Empty]);
    let built = builder
        .set("set_fire", 1)
        .unwrap()
        .set("set_earth", 3)
        .unwrap()
        .set("set_air", 4)
        .unwrap()
        .build();
    assert_eq!(built, Ok(vec![Some(1), Some(20), Some(3), Some(4)]));
}

#[test]
fn order_of_setters_is_irrelevant() {
    let plan = plan_of(&elements());
    let calls = [("set_fire", 1u8), ("set_water", 2), ("set_earth", 3), ("set_air", 4)];
    let orders = [[0usize, 1, 2, 3], [3, 2, 1, 0], [2, 0, 3, 1], [1, 3, 0, 2]];
    for order in orders {
        let mut builder = plan.builder();
        for at in order {
            builder = builder.set(calls[at].0, calls[at].1).unwrap();
        }
        assert_eq!(builder.build(), Ok(vec![Some(1), Some(2), Some(3), Some(4)]));
    }
}

#[test]
fn unknown_setter_is_rejected() {
    let plan = plan_of(&elements());
    assert_eq!(plan.builder().set("set_ether", 1u8).err(), Some(Rejection::NoSetter));
    assert_eq!(plan.builder().set("fire", 1u8).err(), Some(Rejection::NoSetter));
}

#[test]
fn empty_record_finalizes_at_once() {
    let plan = plan_of(&record("Nothing", vec![], vec![]));
    assert_eq!(plan.slots.len(), 0);
    assert_eq!(plan.setters.len(), 0);
    assert_eq!(plan.finals.len(), 1);
    assert_eq!(plan.builder::<u8>().build(), Ok(vec![]));
}

#[test]
fn new_builder_has_every_slot_empty() {
    let plan = plan_of(&elements());
    assert_eq!(plan.builder::<u8>().state(), vec![Slot::Empty; 4]);
}

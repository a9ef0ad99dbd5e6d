use buco::emit::render;
use buco::plan::synthesize;
use buco::shape::{Declaration, Field, RawField, RecordDef, Shape, TypeExpr};

fn point(strict: bool) -> RecordDef {
    RecordDef {
        name: "P".to_string(),
        fields: vec![
            Field { name: "x".to_string(), ty: "u8".to_string(), optional: false },
            Field { name: "y".to_string(), ty: "Option<u8>".to_string(), optional: true },
        ],
        strict,
    }
}

const HEAD: &str = "const _: () = {\n\
struct XField(u8);\n\
struct YField(Option<u8>);\n\
struct PBuilder<X, Y, > { x: X, y: Y, }\n\
impl P { #[inline] fn builder() -> PBuilder<(), (), > { PBuilder { x: (), y: (), } } }\n\
impl<X, Y, > PBuilder<X, Y, > { #[inline] fn set_x(self, value: u8) -> PBuilder<XField, Y, > { PBuilder { x: XField(value), y: self.y, } } }\n\
impl<X, Y, > PBuilder<X, Y, > { #[inline] fn set_y(self, value: Option<u8>) -> PBuilder<X, YField, > { PBuilder { x: self.x, y: YField(value), } } }\n";

const RELAXED: &str =
    "impl PBuilder<XField, (), > { #[inline] fn build(self) -> P { P { x: self.x.0, y: None, } } }\n";

const BASE: &str = "impl PBuilder<XField, YField, > { #[inline] fn build(self) -> P { P { x: self.x.0, y: self.y.0, } } }\n";

#[test]
fn text_of_a_record_with_an_optional_field() {
    let text = buco::derive_builder_for_struct(&point(false));
    assert_eq!(text, format!("{}{}{}}};\n", HEAD, RELAXED, BASE));
    assert_eq!(render(&synthesize(&point(false))), text);
}

#[test]
fn text_of_a_strict_record() {
    let text = buco::derive_builder_for_struct(&point(true));
    assert_eq!(text, format!("{}{}}};\n", HEAD, BASE));
}

#[test]
fn text_of_an_empty_record() {
    let def = RecordDef { name: "E".to_string(), fields: vec![], strict: false };
    assert_eq!(
        buco::derive_builder_for_struct(&def),
        "const _: () = {\n\
struct EBuilder<> { }\n\
impl E { #[inline] fn builder() -> EBuilder<> { EBuilder { } } }\n\
impl EBuilder<> { #[inline] fn build(self) -> E { E { } } }\n\
};\n"
    );
}

#[test]
fn text_of_a_declaration() {
    let decl = Declaration {
        name: "P".to_string(),
        directives: vec!["strict".to_string()],
        shape: Shape::Named(vec![
            RawField {
                name: "x".to_string(),
                ty: TypeExpr { text: "u8".to_string(), path: vec!["u8".to_string()], type_args: 0 },
            },
            RawField {
                name: "y".to_string(),
                ty: TypeExpr {
                    text: "Option<u8>".to_string(),
                    path: vec!["Option".to_string()],
                    type_args: 1,
                },
            },
        ]),
    };
    assert_eq!(buco::derive_builder(&decl), Ok(format!("{}{}}};\n", HEAD, BASE)));
}

#[test]
fn text_is_a_token_stream() {
    let text = buco::derive_builder_for_struct(&point(false));
    let tokens: proc_macro2::TokenStream = text.parse().unwrap();
    assert!(!tokens.is_empty());
}

fn items_of(text: &str) -> Vec<syn::Item> {
    let file = syn::parse_file(text).unwrap();
    assert_eq!(file.items.len(), 1);
    let bundle = match &file.items[0] {
        syn::Item::Const(bundle) => bundle,
        _ => panic!("not a constant"),
    };
    let block = match &*bundle.expr {
        syn::Expr::Block(block) => &block.block,
        _ => panic!("not a block"),
    };
    block
        .stmts
        .iter()
        .map(|stmt| match stmt {
            syn::Stmt::Item(item) => item.clone(),
            _ => panic!("not an item"),
        })
        .collect()
}

#[test]
fn text_is_a_bundle_of_items() {
    let items = items_of(&buco::derive_builder_for_struct(&point(false)));
    let structs = items.iter().filter(|item| matches!(item, syn::Item::Struct(_))).count();
    let impls = items.iter().filter(|item| matches!(item, syn::Item::Impl(_))).count();
    assert_eq!(structs, 3);
    assert_eq!(impls, 5);
    assert_eq!(items.len(), 8);
}

#[test]
fn text_of_many_fields_is_a_bundle_of_items() {
    let fields = ["fire", "water", "earth", "air", "light", "dark"];
    let def = RecordDef {
        name: "Elements".to_string(),
        fields: fields
            .iter()
            .map(|name| Field {
                name: name.to_string(),
                ty: if *name == "earth" || *name == "light" {
                    "Option < u8 >".to_string()
                } else {
                    "u8".to_string()
                },
                optional: *name == "earth" || *name == "light",
            })
            .collect(),
        strict: false,
    };
    let items = items_of(&buco::derive_builder_for_struct(&def));
    assert_eq!(items.iter().filter(|item| matches!(item, syn::Item::Struct(_))).count(), 7);
    assert_eq!(items.iter().filter(|item| matches!(item, syn::Item::Impl(_))).count(), 11);
}

#[test]
fn text_of_an_empty_record_is_a_bundle_of_items() {
    let def = RecordDef { name: "E".to_string(), fields: vec![], strict: true };
    let items = items_of(&buco::derive_builder_for_struct(&def));
    assert_eq!(items.len(), 3);
}

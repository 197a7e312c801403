use qi_rust::document::{Schema, SchemaType};
use qi_rust::mapper::{parse_ref, parse_schema_type, SchemaError};
use qi_rust::model::{Model, ModelKind};
use qi_rust::text::{last_segment, least_entry, less_text, parse_small_numeral, text_eq};

fn typed(t: SchemaType, format: Option<&str>) -> Schema {
    Schema {
        ref_: None,
        type_: Some(t),
        items: None,
        format: format.map(|f| f.to_string()),
        properties: None,
    }
}

fn pointer(p: &str) -> Schema {
    Schema {
        ref_: Some(p.to_string()),
        type_: None,
        items: None,
        format: None,
        properties: None,
    }
}

fn kind_of(s: &Schema) -> ModelKind {
    parse_schema_type(s).unwrap().kind
}

#[test]
fn reference_maps_to_named_reference() {
    let m = parse_schema_type(&pointer("#/components/schemas/Widget")).unwrap();
    assert_eq!(m.kind, ModelKind::Reference);
    assert_eq!(m.name, Some("Widget".to_string()));
    assert!(m.properties.is_none());
    assert!(m.element.is_none());
}

#[test]
fn reference_wins_over_type() {
    let mut s = pointer("#/components/schemas/Widget");
    s.type_ = Some(SchemaType::Integer);
    assert_eq!(kind_of(&s), ModelKind::Reference);
}

#[test]
fn parse_ref_takes_last_segment() {
    assert_eq!(parse_ref(&"#/components/schemas/Widget".to_string()), "Widget");
    assert_eq!(parse_ref(&"Plain".to_string()), "Plain");
    assert_eq!(parse_ref(&"a/b/".to_string()), "");
    assert_eq!(last_segment("/x"), "x");
    assert_eq!(last_segment(""), "");
}

#[test]
fn decision_table() {
    let none = Schema { ref_: None, type_: None, items: None, format: None, properties: None };
    assert_eq!(kind_of(&none), ModelKind::Any);
    assert_eq!(kind_of(&typed(SchemaType::Boolean, None)), ModelKind::Boolean);
    assert_eq!(kind_of(&typed(SchemaType::Integer, None)), ModelKind::Int);
    assert_eq!(kind_of(&typed(SchemaType::Integer, Some("int32"))), ModelKind::Int32);
    assert_eq!(kind_of(&typed(SchemaType::Integer, Some("int64"))), ModelKind::Int64);
    assert_eq!(kind_of(&typed(SchemaType::Integer, Some("other"))), ModelKind::Int);
    assert_eq!(kind_of(&typed(SchemaType::Number, None)), ModelKind::Float32);
    assert_eq!(kind_of(&typed(SchemaType::Number, Some("float"))), ModelKind::Float32);
    assert_eq!(kind_of(&typed(SchemaType::Number, Some("double"))), ModelKind::Float64);
    assert_eq!(kind_of(&typed(SchemaType::String, None)), ModelKind::String);
    assert_eq!(kind_of(&typed(SchemaType::String, Some("byte"))), ModelKind::String);
    assert_eq!(kind_of(&typed(SchemaType::Object, None)), ModelKind::Struct);
}

#[test]
fn binary_string_is_byte_array() {
    let m = parse_schema_type(&typed(SchemaType::String, Some("binary"))).unwrap();
    assert_eq!(m.kind, ModelKind::Array);
    assert_eq!(m.element.unwrap().kind, ModelKind::Byte);
}

#[test]
fn array_recurses_into_items() {
    let mut s = typed(SchemaType::Array, None);
    s.items = Some(Box::new(typed(SchemaType::Integer, Some("int64"))));
    let m = parse_schema_type(&s).unwrap();
    assert_eq!(m.kind, ModelKind::Array);
    assert_eq!(m.element.unwrap().kind, ModelKind::Int64);
}

#[test]
fn array_without_items_fails() {
    let s = typed(SchemaType::Array, None);
    assert_eq!(parse_schema_type(&s).unwrap_err(), SchemaError::MissingItems);
    let mut obj = typed(SchemaType::Object, None);
    obj.properties = Some(vec![("list".to_string(), typed(SchemaType::Array, None))]);
    assert_eq!(parse_schema_type(&obj).unwrap_err(), SchemaError::MissingItems);
}

#[test]
fn object_keeps_property_order() {
    let mut s = typed(SchemaType::Object, None);
    s.properties = Some(vec![
        ("zeta".to_string(), typed(SchemaType::Boolean, None)),
        ("alpha".to_string(), typed(SchemaType::String, None)),
        ("mid".to_string(), pointer("#/components/schemas/Other")),
    ]);
    let m = parse_schema_type(&s).unwrap();
    let props = m.properties.unwrap();
    let names: Vec<&str> = props.iter().map(|(n, _)| n.as_str()).collect();
    assert_eq!(names, vec!["zeta", "alpha", "mid"]);
    assert_eq!(props[0].1.kind, ModelKind::Boolean);
    assert_eq!(props[1].1.kind, ModelKind::String);
    assert_eq!(props[2].1.name, Some("Other".to_string()));
}

#[test]
fn mapping_twice_gives_equal_models() {
    let mut s = typed(SchemaType::Object, None);
    let mut list = typed(SchemaType::Array, None);
    list.items = Some(Box::new(pointer("#/components/schemas/Item")));
    s.properties = Some(vec![
        ("b".to_string(), list),
        ("a".to_string(), typed(SchemaType::Number, Some("double"))),
    ]);
    let m1 = parse_schema_type(&s).unwrap();
    let m2 = parse_schema_type(&s).unwrap();
    assert_eq!(format!("{:?}", m1), format!("{:?}", m2));
    assert_eq!(format!("{:?}", m1), format!("{:?}", m1.duplicate()));
}

#[test]
fn model_kinds_simple_or_not() {
    assert!(ModelKind::Boolean.is_simple());
    assert!(ModelKind::Float64.is_simple());
    assert!(ModelKind::Date.is_simple());
    assert!(!ModelKind::Any.is_simple());
    assert!(!ModelKind::Struct.is_simple());
    assert!(!ModelKind::Reference.is_simple());
    assert!(!ModelKind::Mapping.is_simple());
}

#[test]
fn model_constructors() {
    let r = Model::reference("W".to_string());
    assert_eq!(r.kind, ModelKind::Reference);
    let a = Model::wrapping(ModelKind::Mapping, Model::primitive(ModelKind::Int32));
    assert_eq!(a.element.as_ref().unwrap().kind, ModelKind::Int32);
    let s = Model::structure(None);
    assert_eq!(s.kind, ModelKind::Struct);
    assert!(s.properties.is_none());
}

#[test]
fn text_helpers() {
    assert!(text_eq("path", "path"));
    assert!(!text_eq("path", "paths"));
    assert!(!text_eq("query", "queue"));
    assert_eq!(parse_small_numeral("200"), Some(200));
    assert_eq!(parse_small_numeral("0404"), Some(404));
    assert_eq!(parse_small_numeral("999"), Some(999));
    assert_eq!(parse_small_numeral("1000"), None);
    assert_eq!(parse_small_numeral("123456789012345678901234567890"), None);
    assert_eq!(parse_small_numeral("2xx"), None);
    assert_eq!(parse_small_numeral("default"), None);
    assert_eq!(parse_small_numeral(""), None);
}

#[test]
fn text_order_and_least_entry() {
    assert!(less_text("application/json", "text/plain"));
    assert!(less_text("app", "apple"));
    assert!(!less_text("apple", "app"));
    assert!(!less_text("same", "same"));
    assert!(less_text("", "a"));
    assert!(!less_text("b", "a"));
    let es = vec![("text/plain".to_string(), 1), ("application/xml".to_string(), 2), ("application/json".to_string(), 3), ("application/json".to_string(), 4)];
    assert_eq!(least_entry(&es), 2);
    assert_eq!(least_entry(&vec![("only".to_string(), 0)]), 0);
}

#[test]
fn repeated_property_keeps_last_model_in_first_place() {
    let mut s = typed(SchemaType::Object, None);
    s.properties = Some(vec![
        ("a".to_string(), typed(SchemaType::Boolean, None)),
        ("b".to_string(), typed(SchemaType::String, None)),
        ("a".to_string(), typed(SchemaType::Integer, Some("int32"))),
    ]);
    let props = parse_schema_type(&s).unwrap().properties.unwrap();
    assert_eq!(props.len(), 2);
    assert_eq!(props[0].0, "a");
    assert_eq!(props[0].1.kind, ModelKind::Int32);
    assert_eq!(props[1].0, "b");
}

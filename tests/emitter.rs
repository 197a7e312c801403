use qi_rust::document::{
    Components, MediaType, Method, Operation, Parameter, PathItem, RequestBody, Response, Schema,
    SchemaType, Spec,
};
use qi_rust::emitter::{ActixWebGenerator, EmitErrorKind, Generator};
use qi_rust::model::{Model, ModelKind};
use qi_rust::service::Service;

fn typed(t: SchemaType, format: Option<&str>) -> Schema {
    Schema { ref_: None, type_: Some(t), items: None, format: format.map(|f| f.to_string()), properties: None }
}

fn pointer(p: &str) -> Schema {
    Schema { ref_: Some(p.to_string()), type_: None, items: None, format: None, properties: None }
}

fn object(props: Vec<(&str, Schema)>) -> Schema {
    let mut s = typed(SchemaType::Object, None);
    s.properties = Some(props.into_iter().map(|(n, p)| (n.to_string(), p)).collect());
    s
}

fn param(name: &str, location: &str, schema: Schema) -> Parameter {
    Parameter {
        ref_: None,
        name: Some(name.to_string()),
        in_: Some(location.to_string()),
        required: Some(true),
        schema: Some(schema),
        style: None,
    }
}

fn media(schema: Schema) -> Vec<(String, MediaType)> {
    vec![("application/octet-stream".to_string(), MediaType { schema })]
}

fn operation(id: &str, params: Vec<Parameter>, body: Option<Schema>, responses: Vec<(&str, Option<Schema>)>) -> Operation {
    Operation {
        summary: None,
        description: None,
        operation_id: id.to_string(),
        parameters: Some(params),
        request_body: body.map(|s| RequestBody { content: media(s) }),
        responses: Some(
            responses
                .into_iter()
                .map(|(k, b)| (k.to_string(), Response { description: None, headers: None, content: b.map(media) }))
                .collect(),
        ),
    }
}

fn service(ops: Vec<(&str, Method, Operation)>, schemas: Vec<(&str, Schema)>) -> Service {
    let paths = ops
        .into_iter()
        .map(|(uri, method, op)| {
            (
                uri.to_string(),
                PathItem { summary: None, description: None, parameters: None, operations: vec![(method, op)] },
            )
        })
        .collect();
    Service::new(Spec {
        openapi: "3.0.3".to_string(),
        paths,
        components: Some(Components {
            schemas: Some(schemas.into_iter().map(|(n, s)| (n.to_string(), s)).collect()),
            responses: None,
            parameters: None,
            request_bodies: None,
            headers: None,
        }),
    })
    .unwrap()
}

fn emitter(srv: Service) -> ActixWebGenerator {
    ActixWebGenerator::new(Generator::new(srv))
}

fn bare(models: Vec<(&str, Model)>) -> Generator {
    Generator::new(Service {
        models: models.into_iter().map(|(n, m)| (n.to_string(), m)).collect(),
        parameters: vec![],
        operations: vec![],
        diagnostics: vec![],
        components_declared: true,
    })
}

fn get_widget() -> Service {
    service(
        vec![(
            "/widgets/{id}",
            Method::Get,
            operation(
                "GetWidget",
                vec![param("id", "path", typed(SchemaType::String, None))],
                None,
                vec![
                    ("200", Some(object(vec![("name", typed(SchemaType::String, None))]))),
                    ("404", Some(object(vec![("message", typed(SchemaType::String, None))]))),
                ],
            ),
        )],
        vec![],
    )
}

#[test]
fn get_widget_input_and_output() {
    let mut srv = get_widget();
    let op = srv.operations.pop().unwrap();
    assert_eq!(op.expect, vec![200]);
    let gen = emitter(srv);
    assert_eq!(gen.generate_input(op).unwrap(), "struct GetWidgetInput {\n  id: String,\n}\n");
    let op = get_widget().operations.pop().unwrap();
    assert_eq!(gen.generate_output(op).unwrap(), "struct GetWidgetOutput {\n  name: String,\n}\n");
}

#[test]
fn binary_body_is_a_byte_stream() {
    let mut srv = service(
        vec![(
            "/objects/{key}",
            Method::Put,
            operation(
                "PutObject",
                vec![param("key", "path", typed(SchemaType::String, None))],
                Some(typed(SchemaType::String, Some("binary"))),
                vec![],
            ),
        )],
        vec![],
    );
    let op = srv.operations.pop().unwrap();
    let text = emitter(srv).generate_input(op).unwrap();
    assert_eq!(text, "struct PutObjectInput {\n  key: String,\n  body: Box<dyn Iterator<Item = u8>>,\n}\n");
    assert!(!text.contains("body: String"));
}

#[test]
fn string_body_is_a_byte_stream() {
    let mut srv = service(
        vec![("/notes", Method::Post, operation("AddNote", vec![], Some(typed(SchemaType::String, None)), vec![]))],
        vec![],
    );
    let op = srv.operations.pop().unwrap();
    assert_eq!(
        emitter(srv).generate_input(op).unwrap(),
        "struct AddNoteInput {\n  body: Box<dyn Iterator<Item = u8>>,\n}\n"
    );
}

#[test]
fn struct_reference_field_is_nominal() {
    let mut srv = service(
        vec![(
            "/show",
            Method::Get,
            operation("Show", vec![param("widget", "query", pointer("#/components/schemas/Widget"))], None, vec![]),
        )],
        vec![("Widget", object(vec![("size", typed(SchemaType::Integer, None))]))],
    );
    let op = srv.operations.pop().unwrap();
    assert_eq!(op.input.query[0].model.kind, ModelKind::Reference);
    assert_eq!(op.input.query[0].model.name, Some("Widget".to_string()));
    let gen = emitter(srv);
    assert_eq!(gen.generate_input(op).unwrap(), "struct ShowInput {\n  widget: Widget,\n}\n");
    assert_eq!(gen.generate_structs().unwrap(), vec!["struct Widget {\n  size: isize,\n}\n".to_string()]);
}

#[test]
fn referenced_struct_body_is_flattened_after_parameters() {
    let mut srv = service(
        vec![(
            "/items/{id}",
            Method::Put,
            operation(
                "PutItem",
                vec![
                    param("limit", "query", typed(SchemaType::Integer, Some("int32"))),
                    param("id", "path", typed(SchemaType::Integer, Some("int64"))),
                    param("x-trace", "header", typed(SchemaType::String, None)),
                ],
                Some(pointer("#/components/schemas/Item")),
                vec![("201", Some(pointer("#/components/schemas/Item")))],
            ),
        )],
        vec![(
            "Item",
            object(vec![("size", typed(SchemaType::Integer, Some("int32"))), ("tags", {
                let mut a = typed(SchemaType::Array, None);
                a.items = Some(Box::new(typed(SchemaType::String, None)));
                a
            })]),
        )],
    );
    let op = srv.operations.pop().unwrap();
    let gen = emitter(srv);
    assert_eq!(
        gen.generate_input(op).unwrap(),
        "struct PutItemInput {\n  id: i64,\n  limit: i32,\n  x-trace: String,\n  size: i32,\n  tags: Vec<String>,\n}\n"
    );
}

#[test]
fn output_flattens_dereferenced_body() {
    let mut srv = service(
        vec![(
            "/items",
            Method::Post,
            operation("MakeItem", vec![], None, vec![("201", Some(pointer("#/components/schemas/Item")))]),
        )],
        vec![("Item", object(vec![("size", typed(SchemaType::Integer, Some("int32")))]))],
    );
    let op = srv.operations.pop().unwrap();
    assert_eq!(emitter(srv).generate_output(op).unwrap(), "struct MakeItemOutput {\n  size: i32,\n}\n");
}

fn count() -> Service {
    service(
        vec![(
            "/count",
            Method::Post,
            operation(
                "Count",
                vec![],
                Some(typed(SchemaType::Integer, Some("int64"))),
                vec![("200", Some(typed(SchemaType::Number, Some("double"))))],
            ),
        )],
        vec![],
    )
}

#[test]
fn non_struct_body_is_one_field() {
    let mut srv = count();
    let op = srv.operations.pop().unwrap();
    let gen = emitter(srv);
    assert_eq!(gen.generate_input(op).unwrap(), "struct CountInput {\n  body: i64,\n}\n");
    let op = count().operations.pop().unwrap();
    assert_eq!(gen.generate_output(op).unwrap(), "struct CountOutput {\n  body: f64,\n}\n");
}

#[test]
fn later_field_of_same_name_replaces_in_place() {
    let mut srv = service(
        vec![(
            "/w/{id}",
            Method::Patch,
            operation(
                "Touch",
                vec![param("id", "path", typed(SchemaType::String, None))],
                Some(object(vec![("note", typed(SchemaType::String, None)), ("id", typed(SchemaType::Integer, None))])),
                vec![],
            ),
        )],
        vec![],
    );
    let op = srv.operations.pop().unwrap();
    assert_eq!(emitter(srv).generate_input(op).unwrap(), "struct TouchInput {\n  id: isize,\n  note: String,\n}\n");
}

#[test]
fn type_rendering_table() {
    let g = bare(vec![
        ("Alias", Model::wrapping(ModelKind::Mapping, Model::primitive(ModelKind::Uint16))),
        ("Node", Model::structure(Some(vec![("next".to_string(), Model::reference("Node".to_string()))]))),
    ]);
    let cases = vec![
        (ModelKind::Any, "std::any::Any"),
        (ModelKind::Boolean, "bool"),
        (ModelKind::String, "String"),
        (ModelKind::Byte, "u8"),
        (ModelKind::Int, "isize"),
        (ModelKind::Int8, "i8"),
        (ModelKind::Int16, "i16"),
        (ModelKind::Int32, "i32"),
        (ModelKind::Int64, "i64"),
        (ModelKind::Uint, "usize"),
        (ModelKind::Uint8, "u8"),
        (ModelKind::Uint16, "u16"),
        (ModelKind::Uint32, "u32"),
        (ModelKind::Uint64, "u64"),
        (ModelKind::Float32, "f32"),
        (ModelKind::Float64, "f64"),
        (ModelKind::Date, "chrono::NaiveDate"),
        (ModelKind::Time, "chrono::NaiveTime"),
        (ModelKind::Datetime, "chrono::DateTime<chrono::Utc>"),
    ];
    for (k, t) in cases {
        assert_eq!(g.generate_type(&Model::primitive(k)).unwrap(), t);
    }
    let arr = Model::wrapping(ModelKind::Array, Model::reference("Alias".to_string()));
    assert_eq!(g.generate_type(&arr).unwrap(), "Vec<HashMap<String, u16>>");
    assert_eq!(g.generate_type(&Model::reference("Node".to_string())).unwrap(), "Node");
    let stream = Model::wrapping(ModelKind::Iterator, Model::primitive(ModelKind::Byte));
    assert_eq!(g.generate_type(&stream).unwrap(), "Box<dyn Iterator<Item = u8>>");
    assert_eq!(
        g.generate_struct(&"Node".to_string(), &g.srv.models[1].1).unwrap(),
        "struct Node {\n  next: Node,\n}\n"
    );
    assert_eq!(g.generate_struct(&"Empty".to_string(), &Model::structure(None)).unwrap(), "struct Empty {}");
    assert_eq!(g.generate_struct(&"None".to_string(), &Model::structure(Some(vec![]))).unwrap(), "struct None {\n}\n");
}

#[test]
fn rendering_errors() {
    let g = bare(vec![
        ("Loop", Model::wrapping(ModelKind::Array, Model::reference("Loop".to_string()))),
        ("Open", Model::primitive(ModelKind::Array)),
    ]);
    let e = g.generate_type(&Model::reference("Loop".to_string())).unwrap_err();
    assert_eq!((e.kind, e.detail.as_str()), (EmitErrorKind::RecursiveAlias, "Loop"));
    let e = g.generate_type(&Model::reference("Missing".to_string())).unwrap_err();
    assert_eq!((e.kind, e.detail.as_str()), (EmitErrorKind::UnresolvedReference, "Missing"));
    let e = g.generate_type(&Model::reference("Open".to_string())).unwrap_err();
    assert_eq!(e.kind, EmitErrorKind::MissingElement);
    let e = g.generate_type(&Model::structure(None)).unwrap_err();
    assert_eq!(e.kind, EmitErrorKind::InlineStruct);
    assert_eq!(g.generate_type(&Model::primitive(ModelKind::Enum)).unwrap_err().kind, EmitErrorKind::Unsupported);
    let e = g.generate_struct(&"X".to_string(), &Model::primitive(ModelKind::Int)).unwrap_err();
    assert_eq!((e.kind, e.detail.as_str()), (EmitErrorKind::NotStruct, "X"));
    let bad = Model::structure(Some(vec![("f".to_string(), Model::primitive(ModelKind::Enum))]));
    assert_eq!(g.generate_struct(&"Y".to_string(), &bad).unwrap_err().kind, EmitErrorKind::Unsupported);
}

#[test]
fn dispatch_has_one_rule_per_operation() {
    let srv = service(
        vec![
            ("/a", Method::Get, operation("ListA", vec![], None, vec![])),
            ("/b/{id}", Method::Delete, operation("DropB", vec![], None, vec![])),
        ],
        vec![],
    );
    assert_eq!(
        emitter(srv).generate_dispatch(),
        "App::new()\n  .service(\n    web::resource(\"/a\")\n      .route(web::route().guard(guard::Get()).to(ListA))\n  )\n  .service(\n    web::resource(\"/b/{id}\")\n      .route(web::route().guard(guard::Delete()).to(DropB))\n  )\n"
    );
    let empty = service(vec![], vec![]);
    assert_eq!(emitter(empty).generate_dispatch(), "App::new()\n");
}

#[test]
fn structs_are_rendered_in_namespace_order() {
    let srv = service(
        vec![],
        vec![
            ("B", object(vec![("a", pointer("#/components/schemas/A"))])),
            ("Id", typed(SchemaType::String, None)),
            ("A", object(vec![("id", pointer("#/components/schemas/Id"))])),
        ],
    );
    assert_eq!(
        emitter(srv).generate_structs().unwrap(),
        vec!["struct B {\n  a: A,\n}\n".to_string(), "struct A {\n  id: String,\n}\n".to_string()]
    );
}

#[test]
fn referenced_raw_body_is_a_byte_stream() {
    let mut srv = service(
        vec![(
            "/blobs",
            Method::Post,
            operation("PutBlob", vec![], Some(pointer("#/components/schemas/Blob")), vec![]),
        )],
        vec![("Blob", typed(SchemaType::String, Some("binary")))],
    );
    let op = srv.operations.pop().unwrap();
    assert_eq!(
        emitter(srv).generate_input(op).unwrap(),
        "struct PutBlobInput {\n  body: Box<dyn Iterator<Item = u8>>,\n}\n"
    );
}

use qi_rust::document::{
    Components, Header, MediaType, Method, Operation, Parameter, PathItem, RequestBody, Response,
    Schema, SchemaType, Spec,
};
use qi_rust::model::ModelKind;
use qi_rust::service::{DiagnosticKind, ErrorKind, Location, Service};

fn typed(t: SchemaType, format: Option<&str>) -> Schema {
    Schema { ref_: None, type_: Some(t), items: None, format: format.map(|f| f.to_string()), properties: None }
}

fn pointer(p: &str) -> Schema {
    Schema { ref_: Some(p.to_string()), type_: None, items: None, format: None, properties: None }
}

fn object(props: Vec<(&str, Schema)>) -> Schema {
    let mut s = typed(SchemaType::Object, None);
    s.properties = Some(props.into_iter().map(|(n, p)| (n.to_string(), p)).collect());
    s
}

fn param(name: &str, location: &str, schema: Schema, required: Option<bool>) -> Parameter {
    Parameter {
        ref_: None,
        name: Some(name.to_string()),
        in_: Some(location.to_string()),
        required,
        schema: Some(schema),
        style: None,
    }
}

fn param_ref(p: &str) -> Parameter {
    Parameter { ref_: Some(p.to_string()), name: None, in_: None, required: None, schema: None, style: None }
}

fn media(schema: Schema) -> Vec<(String, MediaType)> {
    vec![("application/json".to_string(), MediaType { schema })]
}

fn response(body: Option<Schema>) -> Response {
    Response { description: None, headers: None, content: body.map(media) }
}

fn operation(
    id: &str,
    params: Vec<Parameter>,
    body: Option<Schema>,
    responses: Vec<(&str, Response)>,
) -> Operation {
    Operation {
        summary: None,
        description: None,
        operation_id: id.to_string(),
        parameters: Some(params),
        request_body: body.map(|s| RequestBody { content: media(s) }),
        responses: Some(responses.into_iter().map(|(k, r)| (k.to_string(), r)).collect()),
    }
}

fn document(
    ops: Vec<(&str, Method, Operation)>,
    schemas: Vec<(&str, Schema)>,
    params: Vec<(&str, Parameter)>,
) -> Spec {
    let mut paths: Vec<(String, PathItem)> = Vec::new();
    for (uri, method, op) in ops {
        paths.push((
            uri.to_string(),
            PathItem { summary: None, description: None, parameters: None, operations: vec![(method, op)] },
        ));
    }
    Spec {
        openapi: "3.0.0".to_string(),
        paths,
        components: Some(Components {
            schemas: Some(schemas.into_iter().map(|(n, s)| (n.to_string(), s)).collect()),
            responses: None,
            parameters: Some(params.into_iter().map(|(n, p)| (n.to_string(), p)).collect()),
            request_bodies: None,
            headers: None,
        }),
    }
}

fn get_widget() -> Spec {
    document(
        vec![(
            "/widgets/{id}",
            Method::Get,
            operation(
                "GetWidget",
                vec![param("id", "path", typed(SchemaType::String, None), Some(true))],
                None,
                vec![
                    ("200", response(Some(object(vec![("name", typed(SchemaType::String, None))])))),
                    ("404", response(Some(object(vec![("message", typed(SchemaType::String, None))])))),
                ],
            ),
        )],
        vec![],
        vec![],
    )
}

#[test]
fn end_to_end_operation() {
    let srv = Service::new(get_widget()).unwrap();
    assert_eq!(srv.operations.len(), 1);
    let op = &srv.operations[0];
    assert_eq!(op.id, "GetWidget");
    assert_eq!(op.method, Method::Get);
    assert_eq!(op.uri, "/widgets/{id}");
    assert_eq!(op.expect, vec![200]);
    assert_eq!(op.input.path.len(), 1);
    assert_eq!(op.input.path[0].name, "id");
    assert_eq!(op.input.path[0].model.kind, ModelKind::String);
    assert!(op.input.path[0].mandatory);
    assert!(op.input.query.is_empty() && op.input.header.is_empty());
    assert!(op.input.body.is_none());
    assert_eq!(op.output.status_code, 200);
    let body = op.output.body.as_ref().unwrap();
    let props = body.properties.as_ref().unwrap();
    assert_eq!(props.len(), 1);
    assert_eq!(props[0].0, "name");
    assert_eq!(srv.diagnostics.len(), 1);
    assert_eq!(srv.diagnostics[0].kind, DiagnosticKind::IgnoredStatus);
    assert_eq!(srv.diagnostics[0].operation, "GetWidget");
    assert_eq!(srv.diagnostics[0].response, "404");
}

#[test]
fn responses_outside_success_range_are_ignored() {
    let spec = document(
        vec![(
            "/x",
            Method::Post,
            operation(
                "Make",
                vec![],
                None,
                vec![
                    ("099", response(None)),
                    ("100", response(None)),
                    ("201", response(Some(typed(SchemaType::Integer, None)))),
                    ("299", response(Some(typed(SchemaType::Boolean, None)))),
                    ("300", response(None)),
                    ("default", response(None)),
                    ("5XX", response(None)),
                ],
            ),
        )],
        vec![],
        vec![],
    );
    let srv = Service::new(spec).unwrap();
    let op = &srv.operations[0];
    assert_eq!(op.expect, vec![100, 201, 299]);
    assert_eq!(op.output.status_code, 100);
    assert!(op.output.body.is_none());
    let kinds: Vec<DiagnosticKind> = srv.diagnostics.iter().map(|d| d.kind).collect();
    assert_eq!(
        kinds,
        vec![
            DiagnosticKind::IgnoredStatus,
            DiagnosticKind::DuplicateOutput,
            DiagnosticKind::IgnoredStatus,
            DiagnosticKind::IgnoredDefault,
            DiagnosticKind::IgnoredStatus,
        ]
    );
    assert_eq!(srv.diagnostics[1].response, "299");
}

#[test]
fn operation_without_success_response_has_empty_output() {
    let spec = document(
        vec![("/x", Method::Delete, operation("Drop", vec![], None, vec![("400", response(None))]))],
        vec![],
        vec![],
    );
    let srv = Service::new(spec).unwrap();
    assert!(srv.operations[0].expect.is_empty());
    assert_eq!(srv.operations[0].output.status_code, 0);
    assert!(srv.operations[0].output.header.is_empty());
}

#[test]
fn parameters_are_placed_by_location() {
    let spec = document(
        vec![(
            "/items/{id}",
            Method::Put,
            operation(
                "PutItem",
                vec![
                    param("limit", "query", typed(SchemaType::Integer, Some("int32")), None),
                    param("id", "path", typed(SchemaType::Integer, Some("int64")), Some(true)),
                    param_ref("#/components/parameters/Trace"),
                ],
                Some(pointer("#/components/schemas/Item")),
                vec![],
            ),
        )],
        vec![("Item", object(vec![("size", typed(SchemaType::Integer, None))]))],
        vec![("Trace", param("x-trace", "header", typed(SchemaType::String, None), Some(false)))],
    );
    let srv = Service::new(spec).unwrap();
    let inp = &srv.operations[0].input;
    assert_eq!(inp.path[0].name, "id");
    assert_eq!(inp.path[0].model.kind, ModelKind::Int64);
    assert_eq!(inp.query[0].name, "limit");
    assert!(!inp.query[0].mandatory);
    assert_eq!(inp.header[0].name, "x-trace");
    let body = inp.body.as_ref().unwrap();
    assert_eq!(body.kind, ModelKind::Reference);
    assert_eq!(body.name, Some("Item".to_string()));
    assert_eq!(srv.parameters.len(), 1);
    assert_eq!(srv.parameters[0].1.location, Location::Header);
    assert_eq!(srv.models.len(), 1);
}

#[test]
fn response_headers_become_optional_parameters() {
    let mut r = response(None);
    r.headers = Some(vec![(
        "x-rate".to_string(),
        Header { description: None, schema: typed(SchemaType::Integer, None) },
    )]);
    let spec = document(vec![("/h", Method::Head, operation("Probe", vec![], None, vec![("204", r)]))], vec![], vec![]);
    let srv = Service::new(spec).unwrap();
    let out = &srv.operations[0].output;
    assert_eq!(out.status_code, 204);
    assert_eq!(out.header[0].name, "x-rate");
    assert!(!out.header[0].mandatory);
    assert_eq!(out.header[0].model.kind, ModelKind::Int);
}

#[test]
fn untyped_component_schema_is_left_out() {
    let untyped = || Schema { ref_: None, type_: None, items: None, format: None, properties: None };
    let spec = document(vec![], vec![("Free", untyped()), ("Id", typed(SchemaType::String, None))], vec![]);
    let srv = Service::new(spec).unwrap();
    assert_eq!(srv.models.len(), 1);
    assert_eq!(srv.models[0].0, "Id");

    let spec = document(
        vec![],
        vec![("Free", untyped()), ("Holder", object(vec![("any", pointer("#/components/schemas/Free"))]))],
        vec![],
    );
    let e = Service::new(spec).unwrap_err();
    assert_eq!(e.kind, ErrorKind::UnresolvedReference);
    assert_eq!(e.owner, "Holder");
    assert_eq!(e.detail, "#/components/schemas/Free");
}

#[test]
fn lowest_success_code_gives_output() {
    let spec = document(
        vec![(
            "/x",
            Method::Get,
            operation(
                "Pick",
                vec![],
                None,
                vec![
                    ("201", response(Some(typed(SchemaType::Integer, None)))),
                    ("200", response(Some(typed(SchemaType::Boolean, None)))),
                ],
            ),
        )],
        vec![],
        vec![],
    );
    let srv = Service::new(spec).unwrap();
    let op = &srv.operations[0];
    assert_eq!(op.expect, vec![201, 200]);
    assert_eq!(op.output.status_code, 200);
    assert_eq!(op.output.body.as_ref().unwrap().kind, ModelKind::Boolean);
    assert_eq!(srv.diagnostics.len(), 1);
    assert_eq!(srv.diagnostics[0].kind, DiagnosticKind::DuplicateOutput);
    assert_eq!(srv.diagnostics[0].response, "200");
}

#[test]
fn least_media_type_key_gives_body() {
    let mut op = operation("Post", vec![], None, vec![]);
    op.request_body = Some(RequestBody {
        content: vec![
            ("text/plain".to_string(), MediaType { schema: typed(SchemaType::String, None) }),
            ("application/json".to_string(), MediaType { schema: typed(SchemaType::Integer, None) }),
            ("application/xml".to_string(), MediaType { schema: typed(SchemaType::Boolean, None) }),
        ],
    });
    let mut r = response(None);
    r.content = Some(vec![
        ("text/plain".to_string(), MediaType { schema: typed(SchemaType::String, None) }),
        ("application/json".to_string(), MediaType { schema: typed(SchemaType::Number, None) }),
    ]);
    op.responses = Some(vec![("200".to_string(), r)]);
    let spec = document(vec![("/p", Method::Post, op)], vec![], vec![]);
    let srv = Service::new(spec).unwrap();
    assert_eq!(srv.operations[0].input.body.as_ref().unwrap().kind, ModelKind::Int);
    assert_eq!(srv.operations[0].output.body.as_ref().unwrap().kind, ModelKind::Float32);
}

#[test]
fn unresolved_parameter_pointer_fails() {
    let spec = document(
        vec![("/x", Method::Get, operation("Op", vec![param_ref("#/components/parameters/Nope")], None, vec![]))],
        vec![],
        vec![],
    );
    let e = Service::new(spec).unwrap_err();
    assert_eq!(e.kind, ErrorKind::UnresolvedReference);
    assert_eq!(e.owner, "Op");
    assert_eq!(e.detail, "#/components/parameters/Nope");
}

#[test]
fn unresolved_schema_reference_fails() {
    let spec = document(vec![], vec![("A", object(vec![("b", pointer("#/components/schemas/B"))]))], vec![]);
    let e = Service::new(spec).unwrap_err();
    assert_eq!(e.kind, ErrorKind::UnresolvedReference);
    assert_eq!(e.owner, "A");
    assert_eq!(e.detail, "#/components/schemas/B");
}

#[test]
fn unresolved_body_reference_fails() {
    let spec = document(
        vec![("/x", Method::Post, operation("Send", vec![], Some(pointer("#/components/schemas/Gone")), vec![]))],
        vec![],
        vec![],
    );
    let e = Service::new(spec).unwrap_err();
    assert_eq!(e.kind, ErrorKind::UnresolvedReference);
    assert_eq!(e.owner, "Send");
    assert_eq!(e.detail, "#/components/schemas/Gone");
}

#[test]
fn pointer_without_components_fails() {
    let mut spec = document(
        vec![("/x", Method::Get, operation("Op", vec![param_ref("#/components/parameters/P")], None, vec![]))],
        vec![],
        vec![],
    );
    spec.components = None;
    let e = Service::new(spec).unwrap_err();
    assert_eq!(e.kind, ErrorKind::MissingComponents);
    assert_eq!(e.owner, "Op");
}

#[test]
fn invalid_location_fails() {
    let spec = document(
        vec![("/x", Method::Get, operation("Op", vec![param("c", "cookie", typed(SchemaType::String, None), None)], None, vec![]))],
        vec![],
        vec![],
    );
    let e = Service::new(spec).unwrap_err();
    assert_eq!(e.kind, ErrorKind::InvalidLocation);
    assert_eq!(e.owner, "Op");
    assert_eq!(e.detail, "cookie");
}

#[test]
fn missing_fields_fail() {
    let mut p = param("q", "query", typed(SchemaType::String, None), None);
    p.name = None;
    let spec = document(vec![("/x", Method::Get, operation("NoName", vec![p], None, vec![]))], vec![], vec![]);
    let e = Service::new(spec).unwrap_err();
    assert_eq!((e.kind, e.detail.as_str()), (ErrorKind::MissingField, "name"));

    let list = typed(SchemaType::Array, None);
    let spec = document(vec![], vec![("List", list)], vec![]);
    let e = Service::new(spec).unwrap_err();
    assert_eq!((e.kind, e.owner.as_str(), e.detail.as_str()), (ErrorKind::MissingField, "List", "items"));

    let mut op = operation("Empty", vec![], None, vec![]);
    op.request_body = Some(RequestBody { content: vec![] });
    let spec = document(vec![("/x", Method::Post, op)], vec![], vec![]);
    let e = Service::new(spec).unwrap_err();
    assert_eq!((e.kind, e.detail.as_str()), (ErrorKind::MissingField, "content"));
}

#[test]
fn duplicate_component_name_fails() {
    let spec = document(
        vec![],
        vec![("W", typed(SchemaType::String, None)), ("W", typed(SchemaType::Boolean, None))],
        vec![],
    );
    let e = Service::new(spec).unwrap_err();
    assert_eq!(e.kind, ErrorKind::DuplicateName);
    assert_eq!(e.detail, "W");
}

#[test]
fn building_twice_gives_equal_services() {
    let a = Service::new(get_widget()).unwrap();
    let b = Service::new(get_widget()).unwrap();
    assert_eq!(format!("{:?}", a.operations), format!("{:?}", b.operations));
}

#[test]
fn inserted_not_found_response_changes_nothing() {
    let build = |with_404: bool| {
        let mut rs = vec![
            ("200", response(Some(object(vec![("name", typed(SchemaType::String, None))])))),
            ("201", response(None)),
        ];
        if with_404 {
            rs.insert(1, ("404", response(Some(typed(SchemaType::Boolean, None)))));
        }
        let spec = document(vec![("/w", Method::Get, operation("GetWidget", vec![], None, rs))], vec![], vec![]);
        Service::new(spec).unwrap()
    };
    let (a, b) = (build(false), build(true));
    assert_eq!(format!("{:?}", a.operations), format!("{:?}", b.operations));
    assert_eq!(b.operations[0].expect, vec![200, 201]);
    assert_eq!(b.diagnostics.len(), a.diagnostics.len() + 1);
}

//! The decoded interface document: the fields of the v3 dialect that the
//! pipeline reads. A mapping of the document is a sequence of entries in
//! document order.
use vstd::prelude::*;

verus! {

/// A decoded interface document.
#[derive(Debug)]
pub struct Spec {
    pub openapi: String,
    pub paths: Vec<(String, PathItem)>,
    pub components: Option<Components>,
}

/// An HTTP method.
#[derive(Clone, Copy, Debug, PartialEq, Eq, Structural, Hash, PartialOrd, Ord)]
pub enum Method {
    Get,
    Put,
    Post,
    Delete,
    Head,
    Patch,
    Options,
    Trace,
}

/// The operations declared under one URI.
#[derive(Debug)]
pub struct PathItem {
    pub summary: Option<String>,
    pub description: Option<String>,
    pub parameters: Option<Vec<Parameter>>,
    pub operations: Vec<(Method, Operation)>,
}

/// The named definitions that pointers refer to.
#[derive(Debug)]
pub struct Components {
    pub schemas: Option<Vec<(String, Schema)>>,
    pub responses: Option<Vec<(String, Response)>>,
    pub parameters: Option<Vec<(String, Parameter)>>,
    pub request_bodies: Option<Vec<(String, RequestBody)>>,
    pub headers: Option<Vec<(String, Header)>>,
}

/// The declared type of a schema.
#[derive(Clone, Copy, Debug, PartialEq, Eq, Structural)]
pub enum SchemaType {
    Boolean,
    Object,
    Array,
    Number,
    String,
    Integer,
}

/// A data shape: a pointer to another schema, or a type with its format,
/// item schema and properties.
#[derive(Debug)]
pub struct Schema {
    pub ref_: Option<String>,
    pub type_: Option<SchemaType>,
    pub items: Option<Box<Schema>>,
    pub format: Option<String>,
    pub properties: Option<Vec<(String, Schema)>>,
}

/// One response of an operation, keyed by its status code.
#[derive(Debug)]
pub struct Response {
    pub description: Option<String>,
    pub headers: Option<Vec<(String, Header)>>,
    pub content: Option<Vec<(String, MediaType)>>,
}

/// A parameter: a pointer to a component parameter, or a name, a location
/// and a schema.
#[derive(Debug)]
pub struct Parameter {
    pub ref_: Option<String>,
    pub name: Option<String>,
    pub in_: Option<String>,
    pub required: Option<bool>,
    pub schema: Option<Schema>,
    pub style: Option<String>,
}

/// A request body, by media type.
#[derive(Debug)]
pub struct RequestBody {
    pub content: Vec<(String, MediaType)>,
}

/// A response header.
#[derive(Debug)]
pub struct Header {
    pub description: Option<String>,
    pub schema: Schema,
}

/// An operation as the document declares it.
#[derive(Debug)]
pub struct Operation {
    pub summary: Option<String>,
    pub description: Option<String>,
    pub operation_id: String,
    pub parameters: Option<Vec<Parameter>>,
    pub request_body: Option<RequestBody>,
    pub responses: Option<Vec<(String, Response)>>,
}

/// The schema of one media type.
#[derive(Debug)]
pub struct MediaType {
    pub schema: Schema,
}

} // verus!

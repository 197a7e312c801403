//! The resolved compilation unit: component namespaces and operations.
use vstd::prelude::*;

use crate::document;
use crate::document::{Components, Method, Schema, Spec};
use crate::mapper::{
    first_unresolved_pointer, lemma_pointers_resolve, parse_schema_type, schema_model,
    unresolved_pointer,
};
use crate::model::{
    fields_view, find_entry, lemma_fields_view_index, lemma_position, lookup,
    position, unresolved_in, Model, ModelKind, ModelView,
};
use crate::text::{
    after_last_slash, keys_of, least_entry, least_key, parse_small_numeral, small_numeral, text_eq,
};

verus! {

/// Where a parameter is sent.
#[derive(Clone, Copy, Debug, PartialEq, Eq, Structural)]
pub enum Location {
    Path,
    Query,
    Header,
}

/// A resolved parameter.
#[derive(Debug)]
pub struct Parameter {
    pub name: String,
    pub model: Model,
    pub mandatory: bool,
}

/// What a `Parameter` denotes.
pub struct ParameterView {
    pub name: Seq<char>,
    pub model: ModelView,
    pub mandatory: bool,
}

impl View for Parameter {
    type V = ParameterView;

    open spec fn view(&self) -> ParameterView {
        ParameterView { name: self.name@, model: self.model@, mandatory: self.mandatory }
    }
}

impl Parameter {
    /// A deep copy.
    pub fn duplicate(&self) -> (r: Parameter)
        ensures
            r@ == self@,
    {
        Parameter {
            name: self.name.clone(),
            model: self.model.duplicate(),
            mandatory: self.mandatory,
        }
    }
}

/// A parameter of the components, with the location it declares.
#[derive(Debug)]
pub struct ComponentParameter {
    pub location: Location,
    pub parameter: Parameter,
}

impl View for ComponentParameter {
    type V = (Location, ParameterView);

    open spec fn view(&self) -> (Location, ParameterView) {
        (self.location, self.parameter@)
    }
}

/// The kind of a failure to build a service.
#[derive(Clone, Copy, Debug, PartialEq, Eq, Structural)]
pub enum ErrorKind {
    /// A pointer was used, but the document declares no components.
    MissingComponents,
    /// A field that the pipeline needs is absent; `detail` names it.
    MissingField,
    /// A pointer names nothing; `detail` is the pointer or the name.
    UnresolvedReference,
    /// A parameter location other than path, query or header.
    InvalidLocation,
    /// Two components of one namespace share a name.
    DuplicateName,
}

/// A failure to build a service. `owner` names the operation id or the
/// component where it happened.
#[derive(Debug)]
pub struct BuildError {
    pub kind: ErrorKind,
    pub owner: String,
    pub detail: String,
}

/// What a `BuildError` denotes.
pub struct BuildErrorView {
    pub kind: ErrorKind,
    pub owner: Seq<char>,
    pub detail: Seq<char>,
}

impl View for BuildError {
    type V = BuildErrorView;

    open spec fn view(&self) -> BuildErrorView {
        BuildErrorView { kind: self.kind, owner: self.owner@, detail: self.detail@ }
    }
}

pub open spec fn fault(kind: ErrorKind, owner: Seq<char>, detail: Seq<char>) -> BuildErrorView {
    BuildErrorView { kind, owner, detail }
}

fn build_error(kind: ErrorKind, owner: &str, detail: &str) -> (r: BuildError)
    ensures
        r@ == fault(kind, owner@, detail@),
{
    BuildError { kind, owner: owner.to_owned(), detail: detail.to_owned() }
}

/// The location a location string names.
pub open spec fn location_of(s: Seq<char>) -> Option<Location> {
    if s == "path"@ {
        Some(Location::Path)
    } else if s == "query"@ {
        Some(Location::Query)
    } else if s == "header"@ {
        Some(Location::Header)
    } else {
        None
    }
}

fn parse_location(s: &String) -> (r: Option<Location>)
    ensures
        r == location_of(s@),
{
    if text_eq(s.as_str(), "path") {
        Some(Location::Path)
    } else if text_eq(s.as_str(), "query") {
        Some(Location::Query)
    } else if text_eq(s.as_str(), "header") {
        Some(Location::Header)
    } else {
        None
    }
}

/// A parameter declared in place (not by pointer), as `owner` declares it:
/// its name, location and schema must be present, and its schema must map.
pub open spec fn declared_parameter(owner: Seq<char>, p: document::Parameter) -> Result<
    (Location, ParameterView),
    BuildErrorView,
> {
    match p.name {
        None => Err(fault(ErrorKind::MissingField, owner, "name"@)),
        Some(n) => match p.in_ {
            None => Err(fault(ErrorKind::MissingField, owner, "in"@)),
            Some(l) => match location_of(l@) {
                None => Err(fault(ErrorKind::InvalidLocation, owner, l@)),
                Some(loc) => match p.schema {
                    None => Err(fault(ErrorKind::MissingField, owner, "schema"@)),
                    Some(s) => match schema_model(s) {
                        None => Err(fault(ErrorKind::MissingField, owner, "items"@)),
                        Some(m) => Ok(
                            (
                                loc,
                                ParameterView {
                                    name: n@,
                                    model: m,
                                    mandatory: p.required == Some(true),
                                },
                            ),
                        ),
                    },
                },
            },
        },
    }
}

fn declare_parameter(owner: &str, p: &document::Parameter) -> (r: Result<
    (Location, Parameter),
    BuildError,
>)
    ensures
        match r {
            Ok((loc, q)) => declared_parameter(owner@, *p) == Ok::<
                (Location, ParameterView),
                BuildErrorView,
            >((loc, q@)),
            Err(e) => declared_parameter(owner@, *p) == Err::<
                (Location, ParameterView),
                BuildErrorView,
            >(e@),
        },
{
    let name = match &p.name {
        None => {
            return Err(build_error(ErrorKind::MissingField, owner, "name"));
        },
        Some(n) => n,
    };
    let location = match &p.in_ {
        None => {
            return Err(build_error(ErrorKind::MissingField, owner, "in"));
        },
        Some(l) => match parse_location(l) {
            None => {
                return Err(build_error(ErrorKind::InvalidLocation, owner, l.as_str()));
            },
            Some(loc) => loc,
        },
    };
    let schema = match &p.schema {
        None => {
            return Err(build_error(ErrorKind::MissingField, owner, "schema"));
        },
        Some(s) => s,
    };
    let model = match parse_schema_type(schema) {
        Err(_) => {
            return Err(build_error(ErrorKind::MissingField, owner, "items"));
        },
        Ok(m) => m,
    };
    let mandatory = match p.required {
        Some(b) => b,
        None => false,
    };
    Ok((location, Parameter { name: name.clone(), model, mandatory }))
}

/// The views of component parameter entries.
pub open spec fn params_view(ps: Seq<(String, ComponentParameter)>) -> Seq<
    (Seq<char>, (Location, ParameterView)),
> {
    ps.map_values(|e: (String, ComponentParameter)| (e.0@, e.1@))
}

/// Finding an entry by its name agrees with `position` on the views.
pub proof fn lemma_find<V, W>(
    es: Seq<(String, V)>,
    vs: Seq<(Seq<char>, W)>,
    name: Seq<char>,
    r: Option<usize>,
)
    requires
        vs.len() == es.len(),
        forall|j: int| 0 <= j < es.len() ==> #[trigger] vs[j].0 == es[j].0@,
        match r {
            Some(i) => i < es.len() && es[i as int].0@ == name && forall|j: int|
                0 <= j < i ==> es[j].0@ != name,
            None => forall|j: int| 0 <= j < es.len() ==> es[j].0@ != name,
        },
    ensures
        position(vs, name, 0) == match r {
            Some(i) => Some(i as int),
            None => None::<int>,
        },
{
    let k = match r {
        Some(i) => Some(i as int),
        None => None::<int>,
    };
    assert forall|j: int| 0 <= j < vs.len() && (k is None || j < k->0) implies vs[j].0 != name by {
        assert(vs[j].0 == es[j].0@);
    }
    if let Some(i) = r {
        assert(vs[i as int].0 == es[i as int].0@);
    }
    lemma_position(vs, name, 0, k);
}

/// The models of the component schemas from the `i`-th on, after `acc`.
/// A schema that maps to a value of any type (one with neither a pointer
/// nor a type) is left out of the namespace.
pub open spec fn component_models(
    sc: Seq<(String, Schema)>,
    i: int,
    acc: Seq<(Seq<char>, ModelView)>,
) -> Result<Seq<(Seq<char>, ModelView)>, BuildErrorView>
    decreases sc.len() - i,
{
    if i < 0 || i >= sc.len() {
        Ok(acc)
    } else {
        match schema_model(sc[i].1) {
            None => Err(fault(ErrorKind::MissingField, sc[i].0@, "items"@)),
            Some(m) => if m.kind == ModelKind::Any {
                component_models(sc, i + 1, acc)
            } else if lookup(acc, sc[i].0@) is Some {
                Err(fault(ErrorKind::DuplicateName, sc[i].0@, sc[i].0@))
            } else {
                component_models(sc, i + 1, acc.push((sc[i].0@, m)))
            },
        }
    }
}

/// The model namespace of a document.
pub open spec fn models_of(c: Option<Components>) -> Result<
    Seq<(Seq<char>, ModelView)>,
    BuildErrorView,
> {
    match c {
        Some(c) => match c.schemas {
            Some(sc) => component_models(sc@, 0, Seq::empty()),
            None => Ok(Seq::empty()),
        },
        None => Ok(Seq::empty()),
    }
}

/// The component parameters from the `i`-th on, after `acc`.
pub open spec fn component_params(
    models: Seq<(Seq<char>, ModelView)>,
    cp: Seq<(String, document::Parameter)>,
    i: int,
    acc: Seq<(Seq<char>, (Location, ParameterView))>,
) -> Result<Seq<(Seq<char>, (Location, ParameterView))>, BuildErrorView>
    decreases cp.len() - i,
{
    if i < 0 || i >= cp.len() {
        Ok(acc)
    } else {
        match declared_parameter(cp[i].0@, cp[i].1) {
            Err(e) => Err(e),
            Ok(v) => match param_pointer(models, cp[i].1) {
                Some(n) => Err(fault(ErrorKind::UnresolvedReference, cp[i].0@, n)),
                None => if lookup(acc, cp[i].0@) is Some {
                    Err(fault(ErrorKind::DuplicateName, cp[i].0@, cp[i].0@))
                } else {
                    component_params(models, cp, i + 1, acc.push((cp[i].0@, v)))
                },
            },
        }
    }
}

/// The first pointer, as written, of the parameter's schema that names no
/// model of `models`.
pub open spec fn param_pointer(models: Seq<(Seq<char>, ModelView)>, p: document::Parameter) -> Option<
    Seq<char>,
> {
    match p.schema {
        Some(s) => unresolved_pointer(models, s),
        None => None,
    }
}

/// The component schemas of a document.
pub open spec fn schemas_of(c: Option<Components>) -> Seq<(String, Schema)> {
    match c {
        Some(c) => match c.schemas {
            Some(sc) => sc@,
            None => Seq::empty(),
        },
        None => Seq::empty(),
    }
}

/// The first component schema from the `i`-th on with a pointer that names
/// no model of `ms`.
pub open spec fn check_schemas(
    ms: Seq<(Seq<char>, ModelView)>,
    sc: Seq<(String, Schema)>,
    i: int,
) -> Result<(), BuildErrorView>
    decreases sc.len() - i,
{
    if i < 0 || i >= sc.len() {
        Ok(())
    } else {
        match unresolved_pointer(ms, sc[i].1) {
            Some(n) => Err(fault(ErrorKind::UnresolvedReference, sc[i].0@, n)),
            None => check_schemas(ms, sc, i + 1),
        }
    }
}

/// The parameter namespace of a document, whose models may refer to the
/// named models `models`.
pub open spec fn params_of(c: Option<Components>, models: Seq<(Seq<char>, ModelView)>) -> Result<
    Seq<(Seq<char>, (Location, ParameterView))>,
    BuildErrorView,
> {
    match c {
        Some(c) => match c.parameters {
            Some(cp) => component_params(models, cp@, 0, Seq::empty()),
            None => Ok(Seq::empty()),
        },
        None => Ok(Seq::empty()),
    }
}

/// Builds the model namespace from the component schemas, leaving out
/// those that map to a value of any type.
pub fn format_models(components: &Option<Components>) -> (r: Result<
    Vec<(String, Model)>,
    BuildError,
>)
    ensures
        match r {
            Ok(ms) => models_of(*components) == Ok::<
                Seq<(Seq<char>, ModelView)>,
                BuildErrorView,
            >(fields_view(ms@)),
            Err(e) => models_of(*components) == Err::<
                Seq<(Seq<char>, ModelView)>,
                BuildErrorView,
            >(e@),
        },
{
    let mut ms: Vec<(String, Model)> = Vec::new();
    let sc = match components {
        Some(c) => match &c.schemas {
            Some(sc) => sc,
            None => {
                return Ok(ms);
            },
        },
        None => {
            return Ok(ms);
        },
    };
    let mut i: usize = 0;
    while i < sc.len()
        invariant
            i <= sc.len(),
            models_of(*components) == component_models(sc@, 0, Seq::empty()),
            component_models(sc@, 0, Seq::empty()) == component_models(
                sc@,
                i as int,
                fields_view(ms@),
            ),
        decreases sc.len() - i,
    {
        let name = &sc[i].0;
        match parse_schema_type(&sc[i].1) {
            Err(_) => {
                return Err(build_error(ErrorKind::MissingField, name.as_str(), "items"));
            },
            Ok(m) => {
                if m.kind != ModelKind::Any {
                    let found = find_entry(&ms, name.as_str());
                    proof {
                        lemma_fields_view_index(ms@);
                        lemma_find(ms@, fields_view(ms@), name@, found);
                    }
                    if found.is_some() {
                        return Err(build_error(ErrorKind::DuplicateName, name.as_str(), name.as_str()));
                    }
                    let ghost before = ms@;
                    ms.push((name.clone(), m));
                    assert(ms@.drop_last() =~= before);
                }
            },
        }
        i += 1;
    }
    Ok(ms)
}

/// Builds the parameter namespace from the component parameters, which are
/// never pointers themselves.
pub fn format_parameters(components: &Option<Components>, models: &Vec<(String, Model)>) -> (r: Result<
    Vec<(String, ComponentParameter)>,
    BuildError,
>)
    ensures
        match r {
            Ok(ps) => params_of(*components, fields_view(models@)) == Ok::<
                Seq<(Seq<char>, (Location, ParameterView))>,
                BuildErrorView,
            >(params_view(ps@)),
            Err(e) => params_of(*components, fields_view(models@)) == Err::<
                Seq<(Seq<char>, (Location, ParameterView))>,
                BuildErrorView,
            >(e@),
        },
{
    let mut ps: Vec<(String, ComponentParameter)> = Vec::new();
    assert(params_view(ps@) =~= Seq::empty());
    let cp = match components {
        Some(c) => match &c.parameters {
            Some(cp) => cp,
            None => {
                return Ok(ps);
            },
        },
        None => {
            return Ok(ps);
        },
    };
    let mut i: usize = 0;
    while i < cp.len()
        invariant
            i <= cp.len(),
            params_of(*components, fields_view(models@)) == component_params(
                fields_view(models@),
                cp@,
                0,
                Seq::empty(),
            ),
            component_params(fields_view(models@), cp@, 0, Seq::empty()) == component_params(
                fields_view(models@),
                cp@,
                i as int,
                params_view(ps@),
            ),
        decreases cp.len() - i,
    {
        let name = &cp[i].0;
        match declare_parameter(name.as_str(), &cp[i].1) {
            Err(e) => {
                return Err(e);
            },
            Ok((location, parameter)) => {
                if let Some(sch) = &cp[i].1.schema {
                    if let Some(n) = first_unresolved_pointer(models, sch) {
                        return Err(BuildError {
                            kind: ErrorKind::UnresolvedReference,
                            owner: name.clone(),
                            detail: n,
                        });
                    }
                }
                let found = find_entry(&ps, name.as_str());
                proof {
                    lemma_find(ps@, params_view(ps@), name@, found);
                }
                if found.is_some() {
                    return Err(build_error(ErrorKind::DuplicateName, name.as_str(), name.as_str()));
                }
                let ghost before = ps@;
                ps.push((name.clone(), ComponentParameter { location, parameter }));
                assert(params_view(ps@) =~= params_view(before).push(
                    (name@, (location, parameter@)),
                ));
            },
        }
        i += 1;
    }
    Ok(ps)
}

/// The namespaces that pointers are resolved in.
pub struct Namespaces {
    /// Whether the document declares components at all.
    pub declared: bool,
    pub models: Seq<(Seq<char>, ModelView)>,
    pub params: Seq<(Seq<char>, (Location, ParameterView))>,
}

/// One level of dereferencing: a reference becomes the model it names,
/// as `owner` uses it; any other model stays as it is.
pub open spec fn deref(ns: Namespaces, owner: Seq<char>, m: ModelView) -> Result<
    ModelView,
    BuildErrorView,
> {
    if m.kind == ModelKind::Reference {
        let name = match m.name {
            Some(n) => n,
            None => Seq::empty(),
        };
        if !ns.declared {
            Err(fault(ErrorKind::MissingComponents, owner, name))
        } else {
            match lookup(ns.models, name) {
                Some(t) => Ok(t),
                None => Err(fault(ErrorKind::UnresolvedReference, owner, name)),
            }
        }
    } else {
        Ok(m)
    }
}

/// The model of a schema that `owner` uses, all of whose pointers name
/// models; the first that does not is reported as written.
pub open spec fn schema_checked(ns: Namespaces, owner: Seq<char>, s: Schema) -> Result<
    ModelView,
    BuildErrorView,
> {
    match schema_model(s) {
        None => Err(fault(ErrorKind::MissingField, owner, "items"@)),
        Some(m) => match unresolved_pointer(ns.models, s) {
            Some(n) => Err(fault(ErrorKind::UnresolvedReference, owner, n)),
            None => Ok(m),
        },
    }
}

/// The model of a schema that `owner` uses, dereferenced one level.
pub open spec fn schema_deref(ns: Namespaces, owner: Seq<char>, s: Schema) -> Result<
    ModelView,
    BuildErrorView,
> {
    match schema_checked(ns, owner, s) {
        Err(e) => Err(e),
        Ok(m) => deref(ns, owner, m),
    }
}

/// A parameter of an operation: a pointer is resolved in the parameter
/// namespace; a parameter declared in place keeps the model of its schema,
/// references included, once they are known to resolve.
pub open spec fn resolved_parameter(
    ns: Namespaces,
    owner: Seq<char>,
    p: document::Parameter,
) -> Result<(Location, ParameterView), BuildErrorView> {
    match p.ref_ {
        Some(r) => if !ns.declared {
            Err(fault(ErrorKind::MissingComponents, owner, r@))
        } else {
            match lookup(ns.params, after_last_slash(r@)) {
                Some(e) => Ok(e),
                None => Err(fault(ErrorKind::UnresolvedReference, owner, r@)),
            }
        },
        None => match declared_parameter(owner, p) {
            Err(e) => Err(e),
            Ok((loc, pv)) => match param_pointer(ns.models, p) {
                Some(n) => Err(fault(ErrorKind::UnresolvedReference, owner, n)),
                None => Ok((loc, pv)),
            },
        },
    }
}

/// The body model of a request: that of its media type with the least key,
/// not dereferenced.
pub open spec fn request_body(
    ns: Namespaces,
    owner: Seq<char>,
    rb: Option<document::RequestBody>,
) -> Result<Option<ModelView>, BuildErrorView> {
    match rb {
        None => Ok(None),
        Some(b) => if b.content@.len() == 0 {
            Err(fault(ErrorKind::MissingField, owner, "content"@))
        } else {
            match schema_checked(ns, owner, b.content@[least_key(keys_of(b.content@))].1.schema) {
                Ok(m) => Ok(Some(m)),
                Err(e) => Err(e),
            }
        },
    }
}

/// The views of a sequence of parameters.
pub open spec fn param_views(ps: Seq<Parameter>) -> Seq<ParameterView> {
    ps.map_values(|p: Parameter| p@)
}

/// The response headers from the `i`-th on, after `acc`, as optional
/// parameters.
pub open spec fn response_headers(
    ns: Namespaces,
    owner: Seq<char>,
    hs: Seq<(String, document::Header)>,
    i: int,
    acc: Seq<ParameterView>,
) -> Result<Seq<ParameterView>, BuildErrorView>
    decreases hs.len() - i,
{
    if i < 0 || i >= hs.len() {
        Ok(acc)
    } else {
        match schema_deref(ns, owner, hs[i].1.schema) {
            Err(e) => Err(e),
            Ok(m) => response_headers(
                ns,
                owner,
                hs,
                i + 1,
                acc.push(ParameterView { name: hs[i].0@, model: m, mandatory: false }),
            ),
        }
    }
}

/// What a successful operation returns.
#[derive(Debug)]
pub struct Output {
    pub status_code: usize,
    pub header: Vec<Parameter>,
    pub body: Option<Model>,
}

/// What an `Output` denotes.
#[verifier::ext_equal]
pub struct OutputView {
    pub status_code: usize,
    pub header: Seq<ParameterView>,
    pub body: Option<ModelView>,
}

pub open spec fn optional_view(m: Option<Model>) -> Option<ModelView> {
    match m {
        Some(m) => Some(m@),
        None => None,
    }
}

impl View for Output {
    type V = OutputView;

    open spec fn view(&self) -> OutputView {
        OutputView {
            status_code: self.status_code,
            header: param_views(self.header@),
            body: optional_view(self.body),
        }
    }
}

/// The output a success response with status `code` describes: its headers
/// and the body of its media type with the least key, each dereferenced one
/// level.
pub open spec fn response_output(
    ns: Namespaces,
    owner: Seq<char>,
    code: usize,
    r: document::Response,
) -> Result<OutputView, BuildErrorView> {
    let headers = match r.headers {
        None => Ok(Seq::empty()),
        Some(hs) => response_headers(ns, owner, hs@, 0, Seq::empty()),
    };
    match headers {
        Err(e) => Err(e),
        Ok(h) => match r.content {
            Some(c) if c@.len() > 0 => match schema_deref(
                ns,
                owner,
                c@[least_key(keys_of(c@))].1.schema,
            ) {
                Err(e) => Err(e),
                Ok(m) => Ok(OutputView { status_code: code, header: h, body: Some(m) }),
            },
            _ => Ok(OutputView { status_code: code, header: h, body: None }),
        },
    }
}

/// The kind of a non-fatal anomaly met while building a service.
#[derive(Clone, Copy, Debug, PartialEq, Eq, Structural)]
pub enum DiagnosticKind {
    /// A `default` response, which is not surfaced.
    IgnoredDefault,
    /// A response whose key is not a success status code (100 to 299).
    IgnoredStatus,
    /// A success response with a body or headers after another that had
    /// them; only the one with the lowest status code gives the output.
    DuplicateOutput,
}

/// A non-fatal anomaly: its kind, the operation id and the response key.
#[derive(Debug)]
pub struct Diagnostic {
    pub kind: DiagnosticKind,
    pub operation: String,
    pub response: String,
}

/// What a `Diagnostic` denotes.
pub struct DiagnosticView {
    pub kind: DiagnosticKind,
    pub operation: Seq<char>,
    pub response: Seq<char>,
}

impl View for Diagnostic {
    type V = DiagnosticView;

    open spec fn view(&self) -> DiagnosticView {
        DiagnosticView { kind: self.kind, operation: self.operation@, response: self.response@ }
    }
}

pub open spec fn note(kind: DiagnosticKind, operation: Seq<char>, response: Seq<char>) -> DiagnosticView {
    DiagnosticView { kind, operation, response }
}

pub open spec fn note_views(ds: Seq<Diagnostic>) -> Seq<DiagnosticView> {
    ds.map_values(|d: Diagnostic| d@)
}

/// What an operation takes: its parameters by location, then its body.
#[derive(Debug)]
pub struct Input {
    pub path: Vec<Parameter>,
    pub query: Vec<Parameter>,
    pub header: Vec<Parameter>,
    pub body: Option<Model>,
}

/// What an `Input` denotes.
#[verifier::ext_equal]
pub struct InputView {
    pub path: Seq<ParameterView>,
    pub query: Seq<ParameterView>,
    pub header: Seq<ParameterView>,
    pub body: Option<ModelView>,
}

impl View for Input {
    type V = InputView;

    open spec fn view(&self) -> InputView {
        InputView {
            path: param_views(self.path@),
            query: param_views(self.query@),
            header: param_views(self.header@),
            body: optional_view(self.body),
        }
    }
}

/// A resolved operation.
#[derive(Debug)]
pub struct Operation {
    pub id: String,
    pub method: Method,
    pub uri: String,
    /// The success status codes it declares, in document order.
    pub expect: Vec<usize>,
    pub input: Input,
    pub output: Output,
}

/// What an `Operation` denotes.
#[verifier::ext_equal]
pub struct OperationView {
    pub id: Seq<char>,
    pub method: Method,
    pub uri: Seq<char>,
    pub expect: Seq<usize>,
    pub input: InputView,
    pub output: OutputView,
}

impl View for Operation {
    type V = OperationView;

    open spec fn view(&self) -> OperationView {
        OperationView {
            id: self.id@,
            method: self.method,
            uri: self.uri@,
            expect: self.expect@,
            input: self.input@,
            output: self.output@,
        }
    }
}

pub open spec fn operation_views(os: Seq<Operation>) -> Seq<OperationView> {
    os.map_values(|o: Operation| o@)
}

/// The status code a response key names, if it is a success code.
pub open spec fn success_code(key: Seq<char>) -> Option<usize> {
    match small_numeral(key) {
        Some(v) => if 100 <= v < 300 {
            Some(v as usize)
        } else {
            None
        },
        None => None,
    }
}

/// Whether a response declares a body or headers.
pub open spec fn carries_payload(r: document::Response) -> bool {
    ||| (r.headers matches Some(h) && h@.len() > 0)
    ||| (r.content matches Some(c) && c@.len() > 0)
}

/// What the responses of an operation give: its success codes, the output
/// of its success response with the lowest code, the anomalies met, and
/// whether a success response so far carried a body or headers.
#[verifier::ext_equal]
pub struct Outcome {
    pub expect: Seq<usize>,
    pub output: Option<OutputView>,
    pub notes: Seq<DiagnosticView>,
    pub payload_seen: bool,
}

/// `out` if it has a lower status code than `cur`, or there is no `cur`.
pub open spec fn replaced_output(cur: Option<OutputView>, out: OutputView) -> Option<OutputView> {
    match cur {
        None => Some(out),
        Some(o) => if out.status_code < o.status_code {
            Some(out)
        } else {
            cur
        },
    }
}

/// The responses from the `i`-th on, after `st`. A `default` response and a
/// key that is not a success code are skipped with a diagnostic; the
/// success response with the lowest code (the first of equal codes) gives
/// the output, and one that carries a body or headers after another that
/// did is reported.
pub open spec fn responses(
    ns: Namespaces,
    owner: Seq<char>,
    rs: Seq<(String, document::Response)>,
    i: int,
    st: Outcome,
) -> Result<Outcome, BuildErrorView>
    decreases rs.len() - i,
{
    if i < 0 || i >= rs.len() {
        Ok(st)
    } else {
        match response_step(ns, owner, rs[i], st) {
            Err(e) => Err(e),
            Ok(next) => responses(ns, owner, rs, i + 1, next),
        }
    }
}

/// One response, keyed, taken into `st`.
pub open spec fn response_step(
    ns: Namespaces,
    owner: Seq<char>,
    entry: (String, document::Response),
    st: Outcome,
) -> Result<Outcome, BuildErrorView> {
    let key = entry.0@;
    if key == "default"@ {
        Ok(
            Outcome {
                expect: st.expect,
                output: st.output,
                notes: st.notes.push(note(DiagnosticKind::IgnoredDefault, owner, key)),
                payload_seen: st.payload_seen,
            },
        )
    } else {
        match success_code(key) {
            None => Ok(
                Outcome {
                    expect: st.expect,
                    output: st.output,
                    notes: st.notes.push(note(DiagnosticKind::IgnoredStatus, owner, key)),
                    payload_seen: st.payload_seen,
                },
            ),
            Some(c) => match response_output(ns, owner, c, entry.1) {
                Err(e) => Err(e),
                Ok(out) => Ok(
                    Outcome {
                        expect: st.expect.push(c),
                        output: replaced_output(st.output, out),
                        notes: if st.payload_seen && carries_payload(entry.1) {
                            st.notes.push(note(DiagnosticKind::DuplicateOutput, owner, key))
                        } else {
                            st.notes
                        },
                        payload_seen: st.payload_seen || carries_payload(entry.1),
                    },
                ),
            },
        }
    }
}

/// The parameters from the `i`-th on, placed by location after `acc`.
pub open spec fn operation_params(
    ns: Namespaces,
    owner: Seq<char>,
    ps: Seq<document::Parameter>,
    i: int,
    acc: InputView,
) -> Result<InputView, BuildErrorView>
    decreases ps.len() - i,
{
    if i < 0 || i >= ps.len() {
        Ok(acc)
    } else {
        match resolved_parameter(ns, owner, ps[i]) {
            Err(e) => Err(e),
            Ok((loc, p)) => operation_params(
                ns,
                owner,
                ps,
                i + 1,
                match loc {
                    Location::Path => InputView { path: acc.path.push(p), ..acc },
                    Location::Query => InputView { query: acc.query.push(p), ..acc },
                    Location::Header => InputView { header: acc.header.push(p), ..acc },
                },
            ),
        }
    }
}

pub open spec fn no_input() -> InputView {
    InputView { path: Seq::empty(), query: Seq::empty(), header: Seq::empty(), body: None }
}

pub open spec fn no_outcome() -> Outcome {
    Outcome { expect: Seq::empty(), output: None, notes: Seq::empty(), payload_seen: false }
}

/// The output of an operation that has no success response.
pub open spec fn no_output() -> OutputView {
    OutputView { status_code: 0, header: Seq::empty(), body: None }
}

/// One operation of the document, with the anomalies met: parameters
/// first, then the request body, then the responses.
pub open spec fn built_operation(
    ns: Namespaces,
    uri: Seq<char>,
    method: Method,
    o: document::Operation,
) -> Result<(OperationView, Seq<DiagnosticView>), BuildErrorView> {
    let id = o.operation_id@;
    let params = match o.parameters {
        None => Ok(no_input()),
        Some(ps) => operation_params(ns, id, ps@, 0, no_input()),
    };
    match params {
        Err(e) => Err(e),
        Ok(inp) => match request_body(ns, id, o.request_body) {
            Err(e) => Err(e),
            Ok(b) => {
                let outcome = match o.responses {
                    None => Ok(no_outcome()),
                    Some(rs) => responses(ns, id, rs@, 0, no_outcome()),
                };
                match outcome {
                    Err(e) => Err(e),
                    Ok(out) => Ok(
                        (
                            OperationView {
                                id,
                                method,
                                uri,
                                expect: out.expect,
                                input: InputView { body: b, ..inp },
                                output: match out.output {
                                    Some(x) => x,
                                    None => no_output(),
                                },
                            },
                            out.notes,
                        ),
                    ),
                }
            },
        },
    }
}

/// The operations of one URI from the `j`-th on, after `acc`.
pub open spec fn item_operations(
    ns: Namespaces,
    uri: Seq<char>,
    os: Seq<(Method, document::Operation)>,
    j: int,
    acc: (Seq<OperationView>, Seq<DiagnosticView>),
) -> Result<(Seq<OperationView>, Seq<DiagnosticView>), BuildErrorView>
    decreases os.len() - j,
{
    if j < 0 || j >= os.len() {
        Ok(acc)
    } else {
        match built_operation(ns, uri, os[j].0, os[j].1) {
            Err(e) => Err(e),
            Ok((op, ds)) => item_operations(ns, uri, os, j + 1, (acc.0.push(op), acc.1 + ds)),
        }
    }
}

/// The operations of the URIs from the `i`-th on, after `acc`.
pub open spec fn path_operations(
    ns: Namespaces,
    paths: Seq<(String, document::PathItem)>,
    i: int,
    acc: (Seq<OperationView>, Seq<DiagnosticView>),
) -> Result<(Seq<OperationView>, Seq<DiagnosticView>), BuildErrorView>
    decreases paths.len() - i,
{
    if i < 0 || i >= paths.len() {
        Ok(acc)
    } else {
        match item_operations(ns, paths[i].0@, paths[i].1.operations@, 0, acc) {
            Err(e) => Err(e),
            Ok(a) => path_operations(ns, paths, i + 1, a),
        }
    }
}

/// What a `Service` denotes.
#[verifier::ext_equal]
pub struct ServiceView {
    pub declared: bool,
    pub models: Seq<(Seq<char>, ModelView)>,
    pub params: Seq<(Seq<char>, (Location, ParameterView))>,
    pub operations: Seq<OperationView>,
    pub notes: Seq<DiagnosticView>,
}

/// The service a document compiles to: the model namespace, whose
/// references must all resolve; the parameter namespace; then every
/// operation of every URI in document order. Every model that an operation
/// or a component parameter holds has its references resolved too.
pub open spec fn build(spec: Spec) -> Result<ServiceView, BuildErrorView> {
    match models_of(spec.components) {
        Err(e) => Err(e),
        Ok(ms) => match check_schemas(ms, schemas_of(spec.components), 0) {
            Err(e) => Err(e),
            Ok(_) => match params_of(spec.components, ms) {
            Err(e) => Err(e),
            Ok(ps) => {
                let ns = Namespaces { declared: spec.components is Some, models: ms, params: ps };
                match path_operations(ns, spec.paths@, 0, (Seq::empty(), Seq::empty())) {
                    Err(e) => Err(e),
                    Ok((ops, notes)) => Ok(
                        ServiceView {
                            declared: ns.declared,
                            models: ms,
                            params: ps,
                            operations: ops,
                            notes,
                        },
                    ),
                }
            },
        },
        },
    }
}

/// A document compiled: its namespaces, operations and diagnostics.
#[derive(Debug)]
pub struct Service {
    pub models: Vec<(String, Model)>,
    pub parameters: Vec<(String, ComponentParameter)>,
    pub operations: Vec<Operation>,
    pub diagnostics: Vec<Diagnostic>,
    /// Whether the document declares components.
    pub components_declared: bool,
}

impl View for Service {
    type V = ServiceView;

    open spec fn view(&self) -> ServiceView {
        ServiceView {
            declared: self.components_declared,
            models: fields_view(self.models@),
            params: params_view(self.parameters@),
            operations: operation_views(self.operations@),
            notes: note_views(self.diagnostics@),
        }
    }
}

impl Service {
    pub open spec fn namespaces(&self) -> Namespaces {
        Namespaces {
            declared: self.components_declared,
            models: fields_view(self.models@),
            params: params_view(self.parameters@),
        }
    }

    /// Dereferences `m` one level, as `owner` uses it.
    pub fn deref_model(&self, owner: &str, m: Model) -> (r: Result<Model, BuildError>)
        ensures
            match r {
                Ok(d) => deref(self.namespaces(), owner@, m@) == Ok::<ModelView, BuildErrorView>(
                    d@,
                ),
                Err(e) => deref(self.namespaces(), owner@, m@) == Err::<
                    ModelView,
                    BuildErrorView,
                >(e@),
            },
    {
        if m.kind != ModelKind::Reference {
            return Ok(m);
        }
        let name = match m.name {
            Some(n) => n,
            None => String::new(),
        };
        if !self.components_declared {
            return Err(BuildError { kind: ErrorKind::MissingComponents, owner: owner.to_owned(), detail: name });
        }
        let found = find_entry(&self.models, name.as_str());
        proof {
            lemma_fields_view_index(self.models@);
            lemma_find(self.models@, fields_view(self.models@), name@, found);
        }
        match found {
            Some(i) => Ok(self.models[i].1.duplicate()),
            None => Err(BuildError { kind: ErrorKind::UnresolvedReference, owner: owner.to_owned(), detail: name }),
        }
    }

    fn schema_checked(&self, owner: &str, s: &Schema) -> (r: Result<Model, BuildError>)
        ensures
            match r {
                Ok(d) => schema_checked(self.namespaces(), owner@, *s) == Ok::<
                    ModelView,
                    BuildErrorView,
                >(d@),
                Err(e) => schema_checked(self.namespaces(), owner@, *s) == Err::<
                    ModelView,
                    BuildErrorView,
                >(e@),
            },
    {
        match parse_schema_type(s) {
            Err(_) => Err(build_error(ErrorKind::MissingField, owner, "items")),
            Ok(m) => match first_unresolved_pointer(&self.models, s) {
                Some(n) => Err(BuildError {
                    kind: ErrorKind::UnresolvedReference,
                    owner: owner.to_owned(),
                    detail: n,
                }),
                None => Ok(m),
            },
        }
    }

    fn schema_deref(&self, owner: &str, s: &Schema) -> (r: Result<Model, BuildError>)
        ensures
            match r {
                Ok(d) => schema_deref(self.namespaces(), owner@, *s) == Ok::<
                    ModelView,
                    BuildErrorView,
                >(d@),
                Err(e) => schema_deref(self.namespaces(), owner@, *s) == Err::<
                    ModelView,
                    BuildErrorView,
                >(e@),
            },
    {
        match self.schema_checked(owner, s) {
            Err(e) => Err(e),
            Ok(m) => self.deref_model(owner, m),
        }
    }

    /// Resolves a parameter of the operation `owner`.
    pub fn parse_parameter(&self, owner: &str, param: &document::Parameter) -> (r: Result<
        (Location, Parameter),
        BuildError,
    >)
        ensures
            match r {
                Ok((loc, p)) => resolved_parameter(self.namespaces(), owner@, *param) == Ok::<
                    (Location, ParameterView),
                    BuildErrorView,
                >((loc, p@)),
                Err(e) => resolved_parameter(self.namespaces(), owner@, *param) == Err::<
                    (Location, ParameterView),
                    BuildErrorView,
                >(e@),
            },
    {
        match &param.ref_ {
            Some(r) => {
                if !self.components_declared {
                    return Err(build_error(ErrorKind::MissingComponents, owner, r.as_str()));
                }
                let name = crate::mapper::parse_ref(r);
                let found = find_entry(&self.parameters, name.as_str());
                proof {
                    lemma_find(self.parameters@, params_view(self.parameters@), name@, found);
                }
                match found {
                    Some(i) => {
                        let e = &self.parameters[i].1;
                        Ok((e.location, e.parameter.duplicate()))
                    },
                    None => Err(build_error(ErrorKind::UnresolvedReference, owner, r.as_str())),
                }
            },
            None => match declare_parameter(owner, param) {
                Err(e) => Err(e),
                Ok((loc, p)) => {
                    if let Some(sch) = &param.schema {
                        if let Some(n) = first_unresolved_pointer(&self.models, sch) {
                            return Err(BuildError {
                                kind: ErrorKind::UnresolvedReference,
                                owner: owner.to_owned(),
                                detail: n,
                            });
                        }
                    }
                    Ok((loc, p))
                },
            },
        }
    }

    fn request_body(&self, owner: &str, rb: &Option<document::RequestBody>) -> (r: Result<
        Option<Model>,
        BuildError,
    >)
        ensures
            match r {
                Ok(b) => request_body(self.namespaces(), owner@, *rb) == Ok::<
                    Option<ModelView>,
                    BuildErrorView,
                >(optional_view(b)),
                Err(e) => request_body(self.namespaces(), owner@, *rb) == Err::<
                    Option<ModelView>,
                    BuildErrorView,
                >(e@),
            },
    {
        match rb {
            None => Ok(None),
            Some(b) => {
                if b.content.len() == 0 {
                    return Err(build_error(ErrorKind::MissingField, owner, "content"));
                }
                let k = least_entry(&b.content);
                match self.schema_checked(owner, &b.content[k].1.schema) {
                    Ok(m) => Ok(Some(m)),
                    Err(e) => Err(e),
                }
            },
        }
    }

    fn response_output(&self, owner: &str, code: usize, resp: &document::Response) -> (r: Result<
        Output,
        BuildError,
    >)
        ensures
            match r {
                Ok(o) => response_output(self.namespaces(), owner@, code, *resp) == Ok::<
                    OutputView,
                    BuildErrorView,
                >(o@),
                Err(e) => response_output(self.namespaces(), owner@, code, *resp) == Err::<
                    OutputView,
                    BuildErrorView,
                >(e@),
            },
    {
        let mut header: Vec<Parameter> = Vec::new();
        assert(param_views(header@) =~= Seq::empty());
        if let Some(hs) = &resp.headers {
            let mut i: usize = 0;
            while i < hs.len()
                invariant
                    i <= hs.len(),
                    resp.headers == Some(*hs),
                    response_headers(self.namespaces(), owner@, hs@, 0, Seq::empty())
                        == response_headers(
                        self.namespaces(),
                        owner@,
                        hs@,
                        i as int,
                        param_views(header@),
                    ),
                decreases hs.len() - i,
            {
                match self.schema_deref(owner, &hs[i].1.schema) {
                    Err(e) => {
                        return Err(e);
                    },
                    Ok(m) => {
                        let ghost before = header@;
                        let p = Parameter { name: hs[i].0.clone(), model: m, mandatory: false };
                        header.push(p);
                        assert(param_views(header@) =~= param_views(before).push(p@));
                    },
                }
                i += 1;
            }
        }
        let body = match &resp.content {
            Some(c) => {
                if c.len() > 0 {
                    let k = least_entry(c);
                    match self.schema_deref(owner, &c[k].1.schema) {
                        Err(e) => {
                            return Err(e);
                        },
                        Ok(m) => Some(m),
                    }
                } else {
                    None
                }
            },
            None => None,
        };
        Ok(Output { status_code: code, header, body })
    }
}

pub open spec fn optional_output(o: Option<Output>) -> Option<OutputView> {
    match o {
        Some(o) => Some(o@),
        None => None,
    }
}

fn note_of(kind: DiagnosticKind, operation: &str, response: &String) -> (r: Diagnostic)
    ensures
        r@ == note(kind, operation@, response@),
{
    Diagnostic { kind, operation: operation.to_owned(), response: response.clone() }
}

/// Whether a response declares a body or headers.
fn has_payload(r: &document::Response) -> (b: bool)
    ensures
        b == carries_payload(*r),
{
    let h = match &r.headers {
        Some(h) => h.len() > 0,
        None => false,
    };
    let c = match &r.content {
        Some(c) => c.len() > 0,
        None => false,
    };
    h || c
}

impl Service {
    fn responses(&self, owner: &str, rs: &Vec<(String, document::Response)>) -> (r: Result<
        (Vec<usize>, Option<Output>, Vec<Diagnostic>),
        BuildError,
    >)
        ensures
            match r {
                Ok((expect, output, notes)) => responses(
                    self.namespaces(),
                    owner@,
                    rs@,
                    0,
                    no_outcome(),
                ) matches Ok(st) && st.expect == expect@ && st.output == optional_output(output)
                    && st.notes == note_views(notes@),
                Err(e) => responses(self.namespaces(), owner@, rs@, 0, no_outcome()) == Err::<
                    Outcome,
                    BuildErrorView,
                >(e@),
            },
    {
        let mut expect: Vec<usize> = Vec::new();
        let mut output: Option<Output> = None;
        let mut notes: Vec<Diagnostic> = Vec::new();
        let mut seen = false;
        assert(no_outcome() =~= Outcome {
            expect: expect@,
            output: optional_output(output),
            notes: note_views(notes@),
            payload_seen: seen,
        });
        let mut i: usize = 0;
        while i < rs.len()
            invariant
                i <= rs.len(),
                responses(self.namespaces(), owner@, rs@, 0, no_outcome()) == responses(
                    self.namespaces(),
                    owner@,
                    rs@,
                    i as int,
                    Outcome {
                        expect: expect@,
                        output: optional_output(output),
                        notes: note_views(notes@),
                        payload_seen: seen,
                    },
                ),
            decreases rs.len() - i,
        {
            let key = &rs[i].0;
            let ghost before = note_views(notes@);
            if text_eq(key.as_str(), "default") {
                let d = note_of(DiagnosticKind::IgnoredDefault, owner, key);
                notes.push(d);
                assert(note_views(notes@) =~= before.push(d@));
            } else {
                let code = match parse_small_numeral(key.as_str()) {
                    Some(v) => if 100 <= v && v < 300 {
                        Some(v)
                    } else {
                        None
                    },
                    None => None,
                };
                assert(code == success_code(key@));
                match code {
                    None => {
                        let d = note_of(DiagnosticKind::IgnoredStatus, owner, key);
                        notes.push(d);
                        assert(note_views(notes@) =~= before.push(d@));
                    },
                    Some(c) => {
                        let out = match self.response_output(owner, c, &rs[i].1) {
                            Err(e) => {
                                return Err(e);
                            },
                            Ok(out) => out,
                        };
                        expect.push(c);
                        let lower = match &output {
                            None => true,
                            Some(o) => c < o.status_code,
                        };
                        if lower {
                            output = Some(out);
                        }
                        let payload = has_payload(&rs[i].1);
                        if seen && payload {
                            let d = note_of(DiagnosticKind::DuplicateOutput, owner, key);
                            notes.push(d);
                            assert(note_views(notes@) =~= before.push(d@));
                        }
                        seen = seen || payload;
                    },
                }
            }
            i += 1;
        }
        Ok((expect, output, notes))
    }

    fn operation_params(&self, owner: &str, ps: &Vec<document::Parameter>) -> (r: Result<
        Input,
        BuildError,
    >)
        ensures
            match r {
                Ok(inp) => operation_params(self.namespaces(), owner@, ps@, 0, no_input()) == Ok::<
                    InputView,
                    BuildErrorView,
                >(inp@),
                Err(e) => operation_params(self.namespaces(), owner@, ps@, 0, no_input()) == Err::<
                    InputView,
                    BuildErrorView,
                >(e@),
            },
    {
        let mut inp = Input { path: Vec::new(), query: Vec::new(), header: Vec::new(), body: None };
        assert(inp@ =~= no_input());
        let mut i: usize = 0;
        while i < ps.len()
            invariant
                i <= ps.len(),
                inp.body is None,
                operation_params(self.namespaces(), owner@, ps@, 0, no_input()) == operation_params(
                    self.namespaces(),
                    owner@,
                    ps@,
                    i as int,
                    inp@,
                ),
            decreases ps.len() - i,
        {
            let ghost before = inp@;
            match self.parse_parameter(owner, &ps[i]) {
                Err(e) => {
                    return Err(e);
                },
                Ok((loc, p)) => {
                    let ghost pv = p@;
                    match loc {
                        Location::Path => {
                            inp.path.push(p);
                            assert(param_views(inp.path@) =~= before.path.push(pv));
                        },
                        Location::Query => {
                            inp.query.push(p);
                            assert(param_views(inp.query@) =~= before.query.push(pv));
                        },
                        Location::Header => {
                            inp.header.push(p);
                            assert(param_views(inp.header@) =~= before.header.push(pv));
                        },
                    }
                },
            }
            i += 1;
        }
        Ok(inp)
    }

    fn build_operation(&self, uri: &String, method: Method, o: &document::Operation) -> (r: Result<
        (Operation, Vec<Diagnostic>),
        BuildError,
    >)
        ensures
            match r {
                Ok((op, notes)) => built_operation(self.namespaces(), uri@, method, *o) == Ok::<
                    (OperationView, Seq<DiagnosticView>),
                    BuildErrorView,
                >((op@, note_views(notes@))),
                Err(e) => built_operation(self.namespaces(), uri@, method, *o) == Err::<
                    (OperationView, Seq<DiagnosticView>),
                    BuildErrorView,
                >(e@),
            },
    {
        let id = o.operation_id.as_str();
        let mut input = match &o.parameters {
            None => {
                let inp = Input { path: Vec::new(), query: Vec::new(), header: Vec::new(), body: None };
                assert(inp@ =~= no_input());
                inp
            },
            Some(ps) => match self.operation_params(id, ps) {
                Err(e) => {
                    return Err(e);
                },
                Ok(inp) => inp,
            },
        };
        let body = match self.request_body(id, &o.request_body) {
            Err(e) => {
                return Err(e);
            },
            Ok(b) => b,
        };
        input.body = body;
        let (expect, output, notes) = match &o.responses {
            None => {
                let e: Vec<usize> = Vec::new();
                let n: Vec<Diagnostic> = Vec::new();
                assert(no_outcome().notes =~= note_views(n@));
                (e, None, n)
            },
            Some(rs) => match self.responses(id, rs) {
                Err(e) => {
                    return Err(e);
                },
                Ok(x) => x,
            },
        };
        let output = match output {
            Some(out) => out,
            None => {
                let out = Output { status_code: 0, header: Vec::new(), body: None };
                assert(out@ =~= no_output());
                out
            },
        };
        let op = Operation { id: o.operation_id.clone(), method, uri: uri.clone(), expect, input, output };
        Ok((op, notes))
    }

    fn format_operations(&self, paths: &Vec<(String, document::PathItem)>) -> (r: Result<
        (Vec<Operation>, Vec<Diagnostic>),
        BuildError,
    >)
        ensures
            match r {
                Ok((ops, notes)) => path_operations(
                    self.namespaces(),
                    paths@,
                    0,
                    (Seq::empty(), Seq::empty()),
                ) == Ok::<(Seq<OperationView>, Seq<DiagnosticView>), BuildErrorView>(
                    (operation_views(ops@), note_views(notes@)),
                ),
                Err(e) => path_operations(
                    self.namespaces(),
                    paths@,
                    0,
                    (Seq::empty(), Seq::empty()),
                ) == Err::<(Seq<OperationView>, Seq<DiagnosticView>), BuildErrorView>(e@),
            },
    {
        let mut ops: Vec<Operation> = Vec::new();
        let mut notes: Vec<Diagnostic> = Vec::new();
        assert(operation_views(ops@) =~= Seq::empty());
        assert(note_views(notes@) =~= Seq::empty());
        let mut i: usize = 0;
        while i < paths.len()
            invariant
                i <= paths.len(),
                path_operations(self.namespaces(), paths@, 0, (Seq::empty(), Seq::empty()))
                    == path_operations(
                    self.namespaces(),
                    paths@,
                    i as int,
                    (operation_views(ops@), note_views(notes@)),
                ),
            decreases paths.len() - i,
        {
            let uri = &paths[i].0;
            let os = &paths[i].1.operations;
            let ghost start = (operation_views(ops@), note_views(notes@));
            let mut j: usize = 0;
            while j < os.len()
                invariant
                    i < paths.len(),
                    j <= os.len(),
                    uri == &paths@[i as int].0,
                    os == &paths@[i as int].1.operations,
                    path_operations(self.namespaces(), paths@, 0, (Seq::empty(), Seq::empty()))
                        == path_operations(self.namespaces(), paths@, i as int, start),
                    item_operations(self.namespaces(), uri@, os@, 0, start) == item_operations(
                        self.namespaces(),
                        uri@,
                        os@,
                        j as int,
                        (operation_views(ops@), note_views(notes@)),
                    ),
                decreases os.len() - j,
            {
                match self.build_operation(uri, os[j].0, &os[j].1) {
                    Err(e) => {
                        return Err(e);
                    },
                    Ok((op, ds)) => {
                        let ghost ov = operation_views(ops@);
                        let ghost nv = note_views(notes@);
                        let ghost opv = op@;
                        let ghost dv = note_views(ds@);
                        let mut ds = ds;
                        ops.push(op);
                        notes.append(&mut ds);
                        assert(operation_views(ops@) =~= ov.push(opv));
                        assert(note_views(notes@) =~= nv + dv);
                    },
                }
                j += 1;
            }
            i += 1;
        }
        Ok((ops, notes))
    }

    /// Compiles a document: builds the model namespace from its component
    /// schemas and checks its references, builds the parameter namespace,
    /// then every operation; fails at the first structural error.
    pub fn new(spec: Spec) -> (r: Result<Service, BuildError>)
        ensures
            match r {
                Ok(srv) => build(spec) == Ok::<ServiceView, BuildErrorView>(srv@),
                Err(e) => build(spec) == Err::<ServiceView, BuildErrorView>(e@),
            },
    {
        let models = match format_models(&spec.components) {
            Err(e) => {
                return Err(e);
            },
            Ok(ms) => ms,
        };
        if let Err(e) = check_schemas_exec(&models, &spec.components) {
            return Err(e);
        }
        let parameters = match format_parameters(&spec.components, &models) {
            Err(e) => {
                return Err(e);
            },
            Ok(ps) => ps,
        };
        let mut srv = Service {
            models,
            parameters,
            operations: Vec::new(),
            diagnostics: Vec::new(),
            components_declared: spec.components.is_some(),
        };
        match srv.format_operations(&spec.paths) {
            Err(e) => Err(e),
            Ok((ops, notes)) => {
                srv.operations = ops;
                srv.diagnostics = notes;
                Ok(srv)
            },
        }
    }
}

/// Checks that every pointer of the component schemas names a model.
fn check_schemas_exec(ms: &Vec<(String, Model)>, components: &Option<Components>) -> (r: Result<
    (),
    BuildError,
>)
    ensures
        match r {
            Ok(()) => check_schemas(fields_view(ms@), schemas_of(*components), 0) == Ok::<
                (),
                BuildErrorView,
            >(()),
            Err(e) => check_schemas(fields_view(ms@), schemas_of(*components), 0) == Err::<
                (),
                BuildErrorView,
            >(e@),
        },
{
    let sc = match components {
        Some(c) => match &c.schemas {
            Some(sc) => sc,
            None => {
                return Ok(());
            },
        },
        None => {
            return Ok(());
        },
    };
    let mut i: usize = 0;
    while i < sc.len()
        invariant
            i <= sc.len(),
            schemas_of(*components) == sc@,
            check_schemas(fields_view(ms@), sc@, 0) == check_schemas(fields_view(ms@), sc@, i as int),
        decreases sc.len() - i,
    {
        if let Some(n) = first_unresolved_pointer(ms, &sc[i].1) {
            return Err(BuildError { kind: ErrorKind::UnresolvedReference, owner: sc[i].0.clone(), detail: n });
        }
        i += 1;
    }
    Ok(())
}

/// Every reference in `m` names an entry of `ms`.
pub open spec fn resolves(ms: Seq<(Seq<char>, ModelView)>, m: ModelView) -> bool {
    unresolved_in(ms, m) is None
}

pub open spec fn params_resolve(ms: Seq<(Seq<char>, ModelView)>, ps: Seq<ParameterView>) -> bool {
    forall|i: int| 0 <= i < ps.len() ==> resolves(ms, (#[trigger] ps[i]).model)
}

pub open spec fn body_resolves(ms: Seq<(Seq<char>, ModelView)>, b: Option<ModelView>) -> bool {
    b matches Some(m) ==> resolves(ms, m)
}

pub open spec fn output_resolves(ms: Seq<(Seq<char>, ModelView)>, o: OutputView) -> bool {
    params_resolve(ms, o.header) && body_resolves(ms, o.body)
}

pub open spec fn input_resolves(ms: Seq<(Seq<char>, ModelView)>, i: InputView) -> bool {
    &&& params_resolve(ms, i.path)
    &&& params_resolve(ms, i.query)
    &&& params_resolve(ms, i.header)
    &&& body_resolves(ms, i.body)
}

pub open spec fn operation_resolves(ms: Seq<(Seq<char>, ModelView)>, op: OperationView) -> bool {
    input_resolves(ms, op.input) && output_resolves(ms, op.output)
}

pub open spec fn models_resolve(ms: Seq<(Seq<char>, ModelView)>) -> bool {
    forall|i: int| 0 <= i < ms.len() ==> resolves(ms, (#[trigger] ms[i]).1)
}

pub open spec fn entries_resolve(
    ms: Seq<(Seq<char>, ModelView)>,
    ps: Seq<(Seq<char>, (Location, ParameterView))>,
) -> bool {
    forall|i: int| 0 <= i < ps.len() ==> resolves(ms, (#[trigger] ps[i]).1.1.model)
}

pub open spec fn namespaces_resolve(ns: Namespaces) -> bool {
    models_resolve(ns.models) && entries_resolve(ns.models, ns.params)
}

proof fn lemma_check_schemas(ms: Seq<(Seq<char>, ModelView)>, sc: Seq<(String, Schema)>, i: int)
    requires
        0 <= i,
        check_schemas(ms, sc, i) is Ok,
    ensures
        forall|k: int| i <= k < sc.len() ==> unresolved_pointer(ms, (#[trigger] sc[k]).1) is None,
    decreases sc.len() - i,
{
    if i < sc.len() {
        lemma_check_schemas(ms, sc, i + 1);
    }
}

/// Each model of `ms` is the model of some schema of `sc`.
pub open spec fn mapped_from(ms: Seq<(Seq<char>, ModelView)>, sc: Seq<(String, Schema)>) -> bool {
    forall|j: int|
        0 <= j < ms.len() ==> exists|k: int|
            0 <= k < sc.len() && schema_model(sc[k].1) == Some((#[trigger] ms[j]).1)
}

proof fn lemma_component_models_origin(
    sc: Seq<(String, Schema)>,
    i: int,
    acc: Seq<(Seq<char>, ModelView)>,
)
    requires
        0 <= i,
        mapped_from(acc, sc),
    ensures
        component_models(sc, i, acc) matches Ok(r) ==> mapped_from(r, sc),
    decreases sc.len() - i,
{
    if i < sc.len() {
        if let Some(m) = schema_model(sc[i].1) {
            lemma_component_models_origin(sc, i + 1, acc);
            let next = acc.push((sc[i].0@, m));
            assert forall|j: int| 0 <= j < next.len() implies exists|k: int|
                0 <= k < sc.len() && schema_model(sc[k].1) == Some((#[trigger] next[j]).1) by {
                if j < acc.len() {
                    assert(next[j] == acc[j]);
                } else {
                    assert(schema_model(sc[i].1) == Some(next[j].1));
                }
            }
            lemma_component_models_origin(sc, i + 1, next);
        }
    }
}

proof fn lemma_component_params(
    models: Seq<(Seq<char>, ModelView)>,
    cp: Seq<(String, document::Parameter)>,
    i: int,
    acc: Seq<(Seq<char>, (Location, ParameterView))>,
)
    requires
        0 <= i,
        entries_resolve(models, acc),
    ensures
        component_params(models, cp, i, acc) matches Ok(r) ==> entries_resolve(models, r),
    decreases cp.len() - i,
{
    if i < cp.len() {
        if let Ok(v) = declared_parameter(cp[i].0@, cp[i].1) {
            lemma_pointers_resolve(models, cp[i].1.schema->Some_0);
            if param_pointer(models, cp[i].1) is None && lookup(acc, cp[i].0@) is None {
                let next = acc.push((cp[i].0@, v));
                assert forall|j: int| 0 <= j < next.len() implies resolves(
                    models,
                    (#[trigger] next[j]).1.1.model,
                ) by {
                    if j < acc.len() {
                        assert(next[j] == acc[j]);
                    }
                }
                lemma_component_params(models, cp, i + 1, next);
            }
        }
    }
}

proof fn lemma_deref_resolves(ns: Namespaces, owner: Seq<char>, m: ModelView)
    requires
        namespaces_resolve(ns),
        resolves(ns.models, m),
    ensures
        deref(ns, owner, m) matches Ok(d) ==> resolves(ns.models, d),
{
    let name = match m.name {
        Some(n) => n,
        None => Seq::empty(),
    };
    crate::model::lemma_position_at(ns.models, name, 0);
}

proof fn lemma_schema_deref_resolves(ns: Namespaces, owner: Seq<char>, s: Schema)
    requires
        namespaces_resolve(ns),
    ensures
        schema_deref(ns, owner, s) matches Ok(d) ==> resolves(ns.models, d),
        schema_checked(ns, owner, s) matches Ok(d) ==> resolves(ns.models, d),
{
    lemma_pointers_resolve(ns.models, s);
    if let Ok(m) = schema_checked(ns, owner, s) {
        lemma_deref_resolves(ns, owner, m);
    }
}

proof fn lemma_resolved_parameter(ns: Namespaces, owner: Seq<char>, p: document::Parameter)
    requires
        namespaces_resolve(ns),
    ensures
        resolved_parameter(ns, owner, p) matches Ok(e) ==> resolves(ns.models, e.1.model),
{
    if let Some(r) = p.ref_ {
        crate::model::lemma_position_at(ns.params, after_last_slash(r@), 0);
    } else if let Some(sch) = p.schema {
        lemma_pointers_resolve(ns.models, sch);
    }
}

proof fn lemma_operation_params(
    ns: Namespaces,
    owner: Seq<char>,
    ps: Seq<document::Parameter>,
    i: int,
    acc: InputView,
)
    requires
        0 <= i,
        namespaces_resolve(ns),
        input_resolves(ns.models, acc),
    ensures
        operation_params(ns, owner, ps, i, acc) matches Ok(r) ==> input_resolves(ns.models, r),
    decreases ps.len() - i,
{
    if i < ps.len() {
        lemma_resolved_parameter(ns, owner, ps[i]);
        if let Ok((loc, p)) = resolved_parameter(ns, owner, ps[i]) {
            let next = match loc {
                Location::Path => InputView { path: acc.path.push(p), ..acc },
                Location::Query => InputView { query: acc.query.push(p), ..acc },
                Location::Header => InputView { header: acc.header.push(p), ..acc },
            };
            lemma_push_param(ns.models, acc.path, p);
            lemma_push_param(ns.models, acc.query, p);
            lemma_push_param(ns.models, acc.header, p);
            lemma_operation_params(ns, owner, ps, i + 1, next);
        }
    }
}

proof fn lemma_push_param(ms: Seq<(Seq<char>, ModelView)>, ps: Seq<ParameterView>, p: ParameterView)
    requires
        params_resolve(ms, ps),
        resolves(ms, p.model),
    ensures
        params_resolve(ms, ps.push(p)),
{
    assert forall|j: int| 0 <= j < ps.push(p).len() implies resolves(
        ms,
        (#[trigger] ps.push(p)[j]).model,
    ) by {
        if j < ps.len() {
            assert(ps.push(p)[j] == ps[j]);
        }
    }
}

proof fn lemma_response_headers(
    ns: Namespaces,
    owner: Seq<char>,
    hs: Seq<(String, document::Header)>,
    i: int,
    acc: Seq<ParameterView>,
)
    requires
        0 <= i,
        namespaces_resolve(ns),
        params_resolve(ns.models, acc),
    ensures
        response_headers(ns, owner, hs, i, acc) matches Ok(r) ==> params_resolve(ns.models, r),
    decreases hs.len() - i,
{
    if i < hs.len() {
        lemma_schema_deref_resolves(ns, owner, hs[i].1.schema);
        if let Ok(m) = schema_deref(ns, owner, hs[i].1.schema) {
            let p = ParameterView { name: hs[i].0@, model: m, mandatory: false };
            lemma_push_param(ns.models, acc, p);
            lemma_response_headers(ns, owner, hs, i + 1, acc.push(p));
        }
    }
}

proof fn lemma_response_output(ns: Namespaces, owner: Seq<char>, code: usize, r: document::Response)
    requires
        namespaces_resolve(ns),
    ensures
        response_output(ns, owner, code, r) matches Ok(o) ==> output_resolves(ns.models, o),
{
    if let Some(hs) = r.headers {
        lemma_response_headers(ns, owner, hs@, 0, Seq::empty());
    }
    if let Some(c) = r.content {
        if c@.len() > 0 {
            lemma_schema_deref_resolves(ns, owner, c@[least_key(keys_of(c@))].1.schema);
        }
    }
}

proof fn lemma_responses(
    ns: Namespaces,
    owner: Seq<char>,
    rs: Seq<(String, document::Response)>,
    i: int,
    st: Outcome,
)
    requires
        0 <= i,
        namespaces_resolve(ns),
        st.output matches Some(o) ==> output_resolves(ns.models, o),
    ensures
        responses(ns, owner, rs, i, st) matches Ok(r) ==> (r.output matches Some(o)
            ==> output_resolves(ns.models, o)),
    decreases rs.len() - i,
{
    if i < rs.len() {
        if let Some(c) = success_code(rs[i].0@) {
            lemma_response_output(ns, owner, c, rs[i].1);
        }
        if let Ok(next) = response_step(ns, owner, rs[i], st) {
            lemma_responses(ns, owner, rs, i + 1, next);
        }
    }
}

proof fn lemma_built_operation(ns: Namespaces, uri: Seq<char>, method: Method, o: document::Operation)
    requires
        namespaces_resolve(ns),
    ensures
        built_operation(ns, uri, method, o) matches Ok(r) ==> operation_resolves(ns.models, r.0),
{
    let id = o.operation_id@;
    if let Some(ps) = o.parameters {
        lemma_operation_params(ns, id, ps@, 0, no_input());
    }
    if let Some(b) = o.request_body {
        if b.content@.len() > 0 {
            lemma_schema_deref_resolves(ns, id, b.content@[least_key(keys_of(b.content@))].1.schema);
        }
    }
    if let Some(rs) = o.responses {
        lemma_responses(ns, id, rs@, 0, no_outcome());
    }
}

proof fn lemma_item_operations(
    ns: Namespaces,
    uri: Seq<char>,
    os: Seq<(Method, document::Operation)>,
    j: int,
    acc: (Seq<OperationView>, Seq<DiagnosticView>),
)
    requires
        0 <= j,
        namespaces_resolve(ns),
        forall|k: int| 0 <= k < acc.0.len() ==> operation_resolves(ns.models, #[trigger] acc.0[k]),
    ensures
        item_operations(ns, uri, os, j, acc) matches Ok(r) ==> forall|k: int|
            0 <= k < r.0.len() ==> operation_resolves(ns.models, #[trigger] r.0[k]),
    decreases os.len() - j,
{
    if j < os.len() {
        lemma_built_operation(ns, uri, os[j].0, os[j].1);
        if let Ok((op, ds)) = built_operation(ns, uri, os[j].0, os[j].1) {
            let next = acc.0.push(op);
            assert forall|k: int| 0 <= k < next.len() implies operation_resolves(
                ns.models,
                #[trigger] next[k],
            ) by {
                if k < acc.0.len() {
                    assert(next[k] == acc.0[k]);
                }
            }
            lemma_item_operations(ns, uri, os, j + 1, (next, acc.1 + ds));
        }
    }
}

proof fn lemma_path_operations(
    ns: Namespaces,
    paths: Seq<(String, document::PathItem)>,
    i: int,
    acc: (Seq<OperationView>, Seq<DiagnosticView>),
)
    requires
        0 <= i,
        namespaces_resolve(ns),
        forall|k: int| 0 <= k < acc.0.len() ==> operation_resolves(ns.models, #[trigger] acc.0[k]),
    ensures
        path_operations(ns, paths, i, acc) matches Ok(r) ==> forall|k: int|
            0 <= k < r.0.len() ==> operation_resolves(ns.models, #[trigger] r.0[k]),
    decreases paths.len() - i,
{
    if i < paths.len() {
        lemma_item_operations(ns, paths[i].0@, paths[i].1.operations@, 0, acc);
        if let Ok(a) = item_operations(ns, paths[i].0@, paths[i].1.operations@, 0, acc) {
            lemma_path_operations(ns, paths, i + 1, a);
        }
    }
}

/// In a service built from a document, every reference names one of its
/// models: in the models themselves, in the component parameters, and in
/// every parameter, body and header of every operation.
pub proof fn lemma_built_references_resolve(spec: Spec)
    requires
        build(spec) is Ok,
    ensures
        ({
            let sv = build(spec)->Ok_0;
            &&& models_resolve(sv.models)
            &&& entries_resolve(sv.models, sv.params)
            &&& forall|k: int|
                0 <= k < sv.operations.len() ==> operation_resolves(
                    sv.models,
                    #[trigger] sv.operations[k],
                )
        }),
{
    let ms = models_of(spec.components)->Ok_0;
    let sc = schemas_of(spec.components);
    lemma_check_schemas(ms, sc, 0);
    lemma_component_models_origin(sc, 0, Seq::empty());
    assert forall|j: int| 0 <= j < ms.len() implies resolves(ms, (#[trigger] ms[j]).1) by {
        let k = choose|k: int| 0 <= k < sc.len() && schema_model(sc[k].1) == Some(ms[j].1);
        lemma_pointers_resolve(ms, sc[k].1);
        assert(unresolved_pointer(ms, sc[k].1) is None);
    }
    if let Some(c) = spec.components {
        if let Some(cp) = c.parameters {
            lemma_component_params(ms, cp@, 0, Seq::empty());
        }
    }
    let ps = params_of(spec.components, ms)->Ok_0;
    let ns = Namespaces { declared: spec.components is Some, models: ms, params: ps };
    lemma_path_operations(ns, spec.paths@, 0, (Seq::empty(), Seq::empty()));
}

/// Two outcomes that differ at most in their diagnostics.
pub open spec fn same_result(a: Outcome, b: Outcome) -> bool {
    a.expect == b.expect && a.output == b.output && a.payload_seen == b.payload_seen
}

proof fn lemma_same_step(
    ns: Namespaces,
    owner: Seq<char>,
    entry: (String, document::Response),
    st: Outcome,
    st2: Outcome,
)
    requires
        same_result(st, st2),
    ensures
        response_step(ns, owner, entry, st) is Ok <==> response_step(ns, owner, entry, st2) is Ok,
        response_step(ns, owner, entry, st) matches Ok(a) ==> same_result(
            a,
            response_step(ns, owner, entry, st2)->Ok_0,
        ),
{
}

proof fn lemma_same_suffix(
    ns: Namespaces,
    owner: Seq<char>,
    rs: Seq<(String, document::Response)>,
    rs2: Seq<(String, document::Response)>,
    i: int,
    i2: int,
    st: Outcome,
    st2: Outcome,
)
    requires
        0 <= i <= rs.len(),
        0 <= i2 <= rs2.len(),
        rs2.subrange(i2, rs2.len() as int) == rs.subrange(i, rs.len() as int),
        same_result(st, st2),
    ensures
        responses(ns, owner, rs, i, st) is Ok <==> responses(ns, owner, rs2, i2, st2) is Ok,
        responses(ns, owner, rs, i, st) matches Ok(a) ==> same_result(
            a,
            responses(ns, owner, rs2, i2, st2)->Ok_0,
        ),
    decreases rs.len() - i,
{
    let t = rs.subrange(i, rs.len() as int);
    let t2 = rs2.subrange(i2, rs2.len() as int);
    assert(t.len() == rs.len() - i);
    assert(t2.len() == rs2.len() - i2);
    if i < rs.len() {
        assert(t[0] == rs[i]);
        assert(t2[0] == rs2[i2]);
        lemma_same_step(ns, owner, rs[i], st, st2);
        if let Ok(n) = response_step(ns, owner, rs[i], st) {
            let n2 = response_step(ns, owner, rs[i], st2)->Ok_0;
            assert(rs2.subrange(i2 + 1, rs2.len() as int) =~= t2.drop_first());
            assert(rs.subrange(i + 1, rs.len() as int) =~= t.drop_first());
            lemma_same_suffix(ns, owner, rs, rs2, i + 1, i2 + 1, n, n2);
        }
    }
}

/// A response whose key is not a success code, inserted anywhere among the
/// responses of an operation, changes neither whether they build nor the
/// success codes nor the output: it adds only a diagnostic.
pub proof fn lemma_non_success_response_ignored(
    ns: Namespaces,
    owner: Seq<char>,
    rs: Seq<(String, document::Response)>,
    j: int,
    extra: (String, document::Response),
)
    requires
        0 <= j <= rs.len(),
        success_code(extra.0@) is None,
    ensures
        responses(ns, owner, rs.insert(j, extra), 0, no_outcome()) is Ok <==> responses(
            ns,
            owner,
            rs,
            0,
            no_outcome(),
        ) is Ok,
        responses(ns, owner, rs, 0, no_outcome()) matches Ok(a) ==> same_result(
            a,
            responses(ns, owner, rs.insert(j, extra), 0, no_outcome())->Ok_0,
        ),
{
    lemma_insert_prefix(ns, owner, rs, j, extra, 0, no_outcome(), no_outcome());
}

proof fn lemma_insert_prefix(
    ns: Namespaces,
    owner: Seq<char>,
    rs: Seq<(String, document::Response)>,
    j: int,
    extra: (String, document::Response),
    i: int,
    st: Outcome,
    st2: Outcome,
)
    requires
        0 <= i <= j <= rs.len(),
        success_code(extra.0@) is None,
        same_result(st, st2),
    ensures
        responses(ns, owner, rs, i, st) is Ok <==> responses(ns, owner, rs.insert(j, extra), i, st2)
            is Ok,
        responses(ns, owner, rs, i, st) matches Ok(a) ==> same_result(
            a,
            responses(ns, owner, rs.insert(j, extra), i, st2)->Ok_0,
        ),
    decreases j - i,
{
    let rs2 = rs.insert(j, extra);
    if i < j {
        assert(rs2[i] == rs[i]);
        lemma_same_step(ns, owner, rs[i], st, st2);
        if let Ok(n) = response_step(ns, owner, rs[i], st) {
            let n2 = response_step(ns, owner, rs[i], st2)->Ok_0;
            lemma_insert_prefix(ns, owner, rs, j, extra, i + 1, n, n2);
        }
    } else {
        assert(rs2[j] == extra);
        let st3 = response_step(ns, owner, extra, st2)->Ok_0;
        assert(same_result(st, st3));
        assert(rs2.subrange(j + 1, rs2.len() as int) =~= rs.subrange(j, rs.len() as int));
        lemma_same_suffix(ns, owner, rs, rs2, j, j + 1, st, st3);
    }
}

/// Two declarations of an operation that differ only in one more response,
/// whose key is not a success code (such as `404`), build to the same
/// operation, or both fail.
pub proof fn lemma_non_success_response_keeps_operation(
    ns: Namespaces,
    uri: Seq<char>,
    method: Method,
    o1: document::Operation,
    o2: document::Operation,
    j: int,
    extra: (String, document::Response),
)
    requires
        o1.operation_id == o2.operation_id,
        o1.parameters == o2.parameters,
        o1.request_body == o2.request_body,
        o1.responses matches Some(v1) && o2.responses matches Some(v2) && 0 <= j <= v1@.len()
            && v2@ == v1@.insert(j, extra),
        success_code(extra.0@) is None,
    ensures
        built_operation(ns, uri, method, o1) is Ok <==> built_operation(ns, uri, method, o2) is Ok,
        built_operation(ns, uri, method, o1) matches Ok(a) ==> a.0 == built_operation(
            ns,
            uri,
            method,
            o2,
        )->Ok_0.0,
{
    let v1 = o1.responses->Some_0;
    lemma_non_success_response_ignored(ns, o1.operation_id@, v1@, j, extra);
}

/// Two build results of operations that both fail, or both succeed with
/// the same operation.
pub open spec fn same_operation(
    a: Result<(OperationView, Seq<DiagnosticView>), BuildErrorView>,
    b: Result<(OperationView, Seq<DiagnosticView>), BuildErrorView>,
) -> bool {
    &&& (a is Ok <==> b is Ok)
    &&& (a matches Ok(x) ==> x.0 == b->Ok_0.0)
}

/// The operations of two URIs correspond one to one and build alike.
pub open spec fn items_alike(
    ns: Namespaces,
    uri: Seq<char>,
    os1: Seq<(Method, document::Operation)>,
    os2: Seq<(Method, document::Operation)>,
) -> bool {
    &&& os1.len() == os2.len()
    &&& forall|k: int|
        0 <= k < os1.len() ==> same_operation(
            #[trigger] built_operation(ns, uri, os1[k].0, os1[k].1),
            built_operation(ns, uri, os2[k].0, os2[k].1),
        )
}

proof fn lemma_items_alike(
    ns: Namespaces,
    uri: Seq<char>,
    os1: Seq<(Method, document::Operation)>,
    os2: Seq<(Method, document::Operation)>,
    j: int,
    acc1: (Seq<OperationView>, Seq<DiagnosticView>),
    acc2: (Seq<OperationView>, Seq<DiagnosticView>),
)
    requires
        0 <= j,
        items_alike(ns, uri, os1, os2),
        acc1.0 == acc2.0,
    ensures
        item_operations(ns, uri, os1, j, acc1) is Ok <==> item_operations(ns, uri, os2, j, acc2) is Ok,
        item_operations(ns, uri, os1, j, acc1) matches Ok(a) ==> a.0 == item_operations(
            ns,
            uri,
            os2,
            j,
            acc2,
        )->Ok_0.0,
    decreases os1.len() - j,
{
    if j < os1.len() {
        let b1 = built_operation(ns, uri, os1[j].0, os1[j].1);
        let b2 = built_operation(ns, uri, os2[j].0, os2[j].1);
        assert(same_operation(b1, b2));
        if let Ok((op, ds)) = b1 {
            let (op2, ds2) = b2->Ok_0;
            lemma_items_alike(ns, uri, os1, os2, j + 1, (acc1.0.push(op), acc1.1 + ds), (acc2.0.push(op2), acc2.1 + ds2));
        }
    }
}

/// Two path tables whose URIs correspond one to one and build alike.
pub open spec fn paths_alike(
    ns: Namespaces,
    paths1: Seq<(String, document::PathItem)>,
    paths2: Seq<(String, document::PathItem)>,
) -> bool {
    &&& paths1.len() == paths2.len()
    &&& forall|i: int|
        0 <= i < paths1.len() ==> (#[trigger] paths1[i]).0@ == paths2[i].0@ && items_alike(
            ns,
            paths1[i].0@,
            paths1[i].1.operations@,
            paths2[i].1.operations@,
        )
}

proof fn lemma_paths_alike(
    ns: Namespaces,
    paths1: Seq<(String, document::PathItem)>,
    paths2: Seq<(String, document::PathItem)>,
    i: int,
    acc1: (Seq<OperationView>, Seq<DiagnosticView>),
    acc2: (Seq<OperationView>, Seq<DiagnosticView>),
)
    requires
        0 <= i,
        paths_alike(ns, paths1, paths2),
        acc1.0 == acc2.0,
    ensures
        path_operations(ns, paths1, i, acc1) is Ok <==> path_operations(ns, paths2, i, acc2) is Ok,
        path_operations(ns, paths1, i, acc1) matches Ok(a) ==> a.0 == path_operations(
            ns,
            paths2,
            i,
            acc2,
        )->Ok_0.0,
    decreases paths1.len() - i,
{
    if i < paths1.len() {
        assert(paths1[i].0@ == paths2[i].0@);
        lemma_items_alike(ns, paths1[i].0@, paths1[i].1.operations@, paths2[i].1.operations@, 0, acc1, acc2);
        if let Ok(a1) = item_operations(ns, paths1[i].0@, paths1[i].1.operations@, 0, acc1) {
            let a2 = item_operations(ns, paths2[i].0@, paths2[i].1.operations@, 0, acc2)->Ok_0;
            lemma_paths_alike(ns, paths1, paths2, i + 1, a1, a2);
        }
    }
}

/// Two documents with the same components, whose path tables build alike
/// operation by operation, build to services with the same operations, or
/// both fail. With `lemma_non_success_response_keeps_operation`, this is the
/// case of two documents that differ only in one more response, keyed by a
/// code that is not a success (such as `404`), on one operation.
pub proof fn lemma_alike_documents_same_operations(s1: Spec, s2: Spec)
    requires
        s1.components == s2.components,
        ({
            let c = s1.components;
            let ns = Namespaces {
                declared: c is Some,
                models: models_of(c)->Ok_0,
                params: params_of(c, models_of(c)->Ok_0)->Ok_0,
            };
            paths_alike(ns, s1.paths@, s2.paths@)
        }),
    ensures
        build(s1) is Ok <==> build(s2) is Ok,
        build(s1) matches Ok(a) ==> a.operations == build(s2)->Ok_0.operations,
{
    let c = s1.components;
    let ms = models_of(c)->Ok_0;
    let ns = Namespaces { declared: c is Some, models: ms, params: params_of(c, ms)->Ok_0 };
    lemma_paths_alike(ns, s1.paths@, s2.paths@, 0, (Seq::empty(), Seq::empty()), (Seq::empty(), Seq::empty()));
}

} // verus!

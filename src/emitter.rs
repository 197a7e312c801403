//! Rendering of models and operations as Rust source for actix-web.
use vstd::prelude::*;

use crate::document::Method;
use crate::model::{
    fields_view, find_entry, lemma_fields_view_index, lookup, model_view, plain_view, position,
    put_field, put_field_exec, struct_view, wrap_view, Model, ModelKind, ModelView,
};
use crate::service::{
    lemma_find, operation_views, InputView, Operation, OperationView, OutputView, Parameter,
    ParameterView, Service,
};

verus! {

/// The kind of a failure to render.
#[derive(Clone, Copy, Debug, PartialEq, Eq, Structural)]
pub enum EmitErrorKind {
    /// An array, map or iterator without an element.
    MissingElement,
    /// An enum, a kind that is reserved and has no rendering.
    Unsupported,
    /// A struct in a field's type, where only a reference to a named struct
    /// can stand.
    InlineStruct,
    /// A reference to no model; `detail` is the name.
    UnresolvedReference,
    /// References that lead back to themselves through models that are not
    /// structs; `detail` is the name where expansion stopped.
    RecursiveAlias,
    /// A struct was asked of a model that is not one.
    NotStruct,
}

/// A failure to render.
#[derive(Debug)]
pub struct EmitError {
    pub kind: EmitErrorKind,
    pub detail: String,
}

/// What an `EmitError` denotes.
pub struct EmitErrorView {
    pub kind: EmitErrorKind,
    pub detail: Seq<char>,
}

impl View for EmitError {
    type V = EmitErrorView;

    open spec fn view(&self) -> EmitErrorView {
        EmitErrorView { kind: self.kind, detail: self.detail@ }
    }
}

pub open spec fn emit_fault(kind: EmitErrorKind, detail: Seq<char>) -> EmitErrorView {
    EmitErrorView { kind, detail }
}

fn emit_error(kind: EmitErrorKind, detail: &str) -> (r: EmitError)
    ensures
        r@ == emit_fault(kind, detail@),
{
    EmitError { kind, detail: detail.to_owned() }
}

fn bare_error(kind: EmitErrorKind) -> (r: EmitError)
    ensures
        r@ == emit_fault(kind, Seq::empty()),
{
    EmitError { kind, detail: String::new() }
}

/// The type name of a primitive kind.
pub open spec fn primitive_text(k: ModelKind) -> Option<Seq<char>> {
    match k {
        ModelKind::Any => Some("std::any::Any"@),
        ModelKind::Boolean => Some("bool"@),
        ModelKind::String => Some("String"@),
        ModelKind::Byte => Some("u8"@),
        ModelKind::Int => Some("isize"@),
        ModelKind::Int8 => Some("i8"@),
        ModelKind::Int16 => Some("i16"@),
        ModelKind::Int32 => Some("i32"@),
        ModelKind::Int64 => Some("i64"@),
        ModelKind::Uint => Some("usize"@),
        ModelKind::Uint8 => Some("u8"@),
        ModelKind::Uint16 => Some("u16"@),
        ModelKind::Uint32 => Some("u32"@),
        ModelKind::Uint64 => Some("u64"@),
        ModelKind::Float32 => Some("f32"@),
        ModelKind::Float64 => Some("f64"@),
        ModelKind::Date => Some("chrono::NaiveDate"@),
        ModelKind::Time => Some("chrono::NaiveTime"@),
        ModelKind::Datetime => Some("chrono::DateTime<chrono::Utc>"@),
        _ => None,
    }
}

fn primitive_name(k: ModelKind) -> (r: Option<&'static str>)
    ensures
        match r {
            Some(t) => primitive_text(k) == Some(t@),
            None => primitive_text(k) is None,
        },
{
    match k {
        ModelKind::Any => Some("std::any::Any"),
        ModelKind::Boolean => Some("bool"),
        ModelKind::String => Some("String"),
        ModelKind::Byte => Some("u8"),
        ModelKind::Int => Some("isize"),
        ModelKind::Int8 => Some("i8"),
        ModelKind::Int16 => Some("i16"),
        ModelKind::Int32 => Some("i32"),
        ModelKind::Int64 => Some("i64"),
        ModelKind::Uint => Some("usize"),
        ModelKind::Uint8 => Some("u8"),
        ModelKind::Uint16 => Some("u16"),
        ModelKind::Uint32 => Some("u32"),
        ModelKind::Uint64 => Some("u64"),
        ModelKind::Float32 => Some("f32"),
        ModelKind::Float64 => Some("f64"),
        ModelKind::Date => Some("chrono::NaiveDate"),
        ModelKind::Time => Some("chrono::NaiveTime"),
        ModelKind::Datetime => Some("chrono::DateTime<chrono::Utc>"),
        _ => None,
    }
}

/// The text `open` + `t` + `close`, or the failure.
pub open spec fn enclose(
    open: Seq<char>,
    t: Result<Seq<char>, EmitErrorView>,
    close: Seq<char>,
) -> Result<Seq<char>, EmitErrorView> {
    match t {
        Ok(t) => Ok(open + t + close),
        Err(e) => Err(e),
    }
}

/// The Rust type of a model, given the named models `ms`. A reference to a
/// struct is its name; a reference to anything else is the rendering of
/// what it names, which may be expanded `fuel` times in a row.
pub open spec fn type_text(ms: Seq<(Seq<char>, ModelView)>, m: ModelView, fuel: nat) -> Result<
    Seq<char>,
    EmitErrorView,
>
    decreases fuel, m,
{
    match primitive_text(m.kind) {
        Some(t) => Ok(t),
        None => match m.kind {
            ModelKind::Array | ModelKind::Mapping | ModelKind::Iterator => match m.element {
                None => Err(emit_fault(EmitErrorKind::MissingElement, Seq::empty())),
                Some(e) => {
                    let inner = type_text(ms, *e, fuel);
                    if m.kind == ModelKind::Array {
                        enclose("Vec<"@, inner, ">"@)
                    } else if m.kind == ModelKind::Mapping {
                        enclose("HashMap<String, "@, inner, ">"@)
                    } else {
                        enclose("Box<dyn Iterator<Item = "@, inner, ">>"@)
                    }
                },
            },
            ModelKind::Struct => Err(emit_fault(EmitErrorKind::InlineStruct, Seq::empty())),
            ModelKind::Reference => {
                let name = match m.name {
                    Some(n) => n,
                    None => Seq::empty(),
                };
                match lookup(ms, name) {
                    None => Err(emit_fault(EmitErrorKind::UnresolvedReference, name)),
                    Some(t) => if t.kind == ModelKind::Struct {
                        Ok(name)
                    } else if fuel == 0 {
                        Err(emit_fault(EmitErrorKind::RecursiveAlias, name))
                    } else {
                        type_text(ms, t, (fuel - 1) as nat)
                    },
                }
            },
            _ => Err(emit_fault(EmitErrorKind::Unsupported, Seq::empty())),
        },
    }
}

/// The rendering of a field's type: references through models that are not
/// structs may be expanded as many times in a row as there are models.
pub open spec fn field_type_text(ms: Seq<(Seq<char>, ModelView)>, m: ModelView) -> Result<
    Seq<char>,
    EmitErrorView,
> {
    type_text(ms, m, ms.len())
}

/// Renders a model's type and the structs that it references.
pub struct Generator {
    pub srv: Service,
}

fn concat3(open: &str, inner: String, close: &str) -> (r: String)
    ensures
        r@ == open@ + inner@ + close@,
{
    let mut s = open.to_owned();
    s.append(inner.as_str());
    s.append(close);
    s
}

impl Generator {
    pub open spec fn models(&self) -> Seq<(Seq<char>, ModelView)> {
        fields_view(self.srv.models@)
    }

    pub fn new(srv: Service) -> (r: Generator)
        ensures
            r.srv == srv,
    {
        Generator { srv }
    }

    fn render(&self, m: &Model, fuel: usize) -> (r: Result<String, EmitError>)
        ensures
            match r {
                Ok(t) => type_text(self.models(), m@, fuel as nat) == Ok::<
                    Seq<char>,
                    EmitErrorView,
                >(t@),
                Err(e) => type_text(self.models(), m@, fuel as nat) == Err::<
                    Seq<char>,
                    EmitErrorView,
                >(e@),
            },
        decreases fuel, m,
    {
        if let Some(t) = primitive_name(m.kind) {
            return Ok(t.to_owned());
        }
        match m.kind {
            ModelKind::Array | ModelKind::Mapping | ModelKind::Iterator => match &m.element {
                None => Err(bare_error(EmitErrorKind::MissingElement)),
                Some(e) => {
                    let inner = match self.render(e, fuel) {
                        Ok(t) => t,
                        Err(err) => {
                            return Err(err);
                        },
                    };
                    if m.kind == ModelKind::Array {
                        Ok(concat3("Vec<", inner, ">"))
                    } else if m.kind == ModelKind::Mapping {
                        Ok(concat3("HashMap<String, ", inner, ">"))
                    } else {
                        Ok(concat3("Box<dyn Iterator<Item = ", inner, ">>"))
                    }
                },
            },
            ModelKind::Struct => Err(bare_error(EmitErrorKind::InlineStruct)),
            ModelKind::Reference => {
                let owned: String = match &m.name {
                    Some(n) => n.clone(),
                    None => String::new(),
                };
                let name = owned.as_str();
                let found = find_entry(&self.srv.models, name);
                proof {
                    lemma_fields_view_index(self.srv.models@);
                    lemma_find(
                        self.srv.models@,
                        fields_view(self.srv.models@),
                        name@,
                        found,
                    );
                }
                match found {
                    None => Err(emit_error(EmitErrorKind::UnresolvedReference, name)),
                    Some(i) => {
                        let t = &self.srv.models[i].1;
                        if t.kind == ModelKind::Struct {
                            Ok(name.to_owned())
                        } else if fuel == 0 {
                            Err(emit_error(EmitErrorKind::RecursiveAlias, name))
                        } else {
                            self.render(t, fuel - 1)
                        }
                    },
                }
            },
            _ => Err(bare_error(EmitErrorKind::Unsupported)),
        }
    }

    /// The Rust type of a field of model `m`.
    pub fn generate_type(&self, m: &Model) -> (r: Result<String, EmitError>)
        ensures
            match r {
                Ok(t) => field_type_text(self.models(), m@) == Ok::<Seq<char>, EmitErrorView>(
                    t@,
                ),
                Err(e) => field_type_text(self.models(), m@) == Err::<
                    Seq<char>,
                    EmitErrorView,
                >(e@),
            },
    {
        proof {
            lemma_fields_view_index(self.srv.models@);
        }
        self.render(m, self.srv.models.len())
    }
}

/// The lines of the fields `ps[i..]`, after `acc`.
pub open spec fn fields_text(
    ms: Seq<(Seq<char>, ModelView)>,
    ps: Seq<(Seq<char>, ModelView)>,
    i: int,
    acc: Seq<char>,
) -> Result<Seq<char>, EmitErrorView>
    decreases ps.len() - i,
{
    if i < 0 || i >= ps.len() {
        Ok(acc)
    } else {
        match field_type_text(ms, ps[i].1) {
            Err(e) => Err(e),
            Ok(t) => fields_text(ms, ps, i + 1, acc + "  "@ + ps[i].0 + ": "@ + t + ",\n"@),
        }
    }
}

/// The declaration of struct `name` with the properties of `m`, one field
/// per line in order.
pub open spec fn struct_text(ms: Seq<(Seq<char>, ModelView)>, name: Seq<char>, m: ModelView) -> Result<
    Seq<char>,
    EmitErrorView,
> {
    if m.kind != ModelKind::Struct {
        Err(emit_fault(EmitErrorKind::NotStruct, name))
    } else {
        match m.properties {
            None => Ok("struct "@ + name + " {}"@),
            Some(ps) => match fields_text(ms, ps, 0, "struct "@ + name + " {\n"@) {
                Ok(t) => Ok(t + "}\n"@),
                Err(e) => Err(e),
            },
        }
    }
}

/// `fs` with one field per parameter of `ps[i..]`, in order.
pub open spec fn put_params(fs: Seq<(Seq<char>, ModelView)>, ps: Seq<ParameterView>, i: int) -> Seq<
    (Seq<char>, ModelView),
>
    decreases ps.len() - i,
{
    if i < 0 || i >= ps.len() {
        fs
    } else {
        put_params(put_field(fs, ps[i].name, ps[i].model), ps, i + 1)
    }
}

/// `fs` with the fields `es[i..]`, in order.
pub open spec fn put_fields(
    fs: Seq<(Seq<char>, ModelView)>,
    es: Seq<(Seq<char>, ModelView)>,
    i: int,
) -> Seq<(Seq<char>, ModelView)>
    decreases es.len() - i,
{
    if i < 0 || i >= es.len() {
        fs
    } else {
        put_fields(put_field(fs, es[i].0, es[i].1), es, i + 1)
    }
}

/// A body meant as a raw payload: a string, or an array of bytes.
pub open spec fn is_raw_payload(b: ModelView) -> bool {
    ||| b.kind == ModelKind::String
    ||| (b.kind == ModelKind::Array && (b.element matches Some(e) && e.kind == ModelKind::Byte))
}

/// A stream of bytes, read as it arrives.
pub open spec fn byte_stream() -> ModelView {
    wrap_view(ModelKind::Iterator, plain_view(ModelKind::Byte))
}

/// What a body stands for: the model a reference names, one level, or the
/// body itself.
pub open spec fn body_target(ms: Seq<(Seq<char>, ModelView)>, b: ModelView) -> ModelView {
    if b.kind == ModelKind::Reference {
        match lookup(
            ms,
            match b.name {
                Some(n) => n,
                None => Seq::empty(),
            },
        ) {
            Some(t) => t,
            None => b,
        }
    } else {
        b
    }
}

/// `fs` with the body, judged by what it stands for: a raw payload becomes
/// one `body` field holding a byte stream; a struct gives its properties;
/// anything else is one `body` field of the body's own model.
pub open spec fn put_body(
    ms: Seq<(Seq<char>, ModelView)>,
    fs: Seq<(Seq<char>, ModelView)>,
    body: Option<ModelView>,
) -> Seq<(Seq<char>, ModelView)> {
    match body {
        None => fs,
        Some(b) => {
            let t = body_target(ms, b);
            if is_raw_payload(t) {
                put_field(fs, "body"@, byte_stream())
            } else if t.kind == ModelKind::Struct {
                put_fields(
                    fs,
                    match t.properties {
                        Some(ps) => ps,
                        None => Seq::empty(),
                    },
                    0,
                )
            } else {
                put_field(fs, "body"@, b)
            }
        },
    }
}

/// The fields of an operation's input struct: path, query and header
/// parameters, then the body.
pub open spec fn input_fields(ms: Seq<(Seq<char>, ModelView)>, inp: InputView) -> Seq<
    (Seq<char>, ModelView),
> {
    put_body(
        ms,
        put_params(put_params(put_params(Seq::empty(), inp.path, 0), inp.query, 0), inp.header, 0),
        inp.body,
    )
}

/// The fields of an operation's output struct: header parameters, then the
/// body.
pub open spec fn output_fields(ms: Seq<(Seq<char>, ModelView)>, out: OutputView) -> Seq<
    (Seq<char>, ModelView),
> {
    put_body(ms, put_params(Seq::empty(), out.header, 0), out.body)
}

pub open spec fn input_text(ms: Seq<(Seq<char>, ModelView)>, op: OperationView) -> Result<
    Seq<char>,
    EmitErrorView,
> {
    struct_text(ms, op.id + "Input"@, struct_view(Some(input_fields(ms, op.input))))
}

pub open spec fn output_text(ms: Seq<(Seq<char>, ModelView)>, op: OperationView) -> Result<
    Seq<char>,
    EmitErrorView,
> {
    struct_text(ms, op.id + "Output"@, struct_view(Some(output_fields(ms, op.output))))
}

/// The name of a method's actix-web guard.
pub open spec fn method_text(m: Method) -> Seq<char> {
    match m {
        Method::Get => "Get"@,
        Method::Put => "Put"@,
        Method::Post => "Post"@,
        Method::Delete => "Delete"@,
        Method::Head => "Head"@,
        Method::Patch => "Patch"@,
        Method::Options => "Options"@,
        Method::Trace => "Trace"@,
    }
}

fn method_name(m: Method) -> (r: &'static str)
    ensures
        r@ == method_text(m),
{
    match m {
        Method::Get => "Get",
        Method::Put => "Put",
        Method::Post => "Post",
        Method::Delete => "Delete",
        Method::Head => "Head",
        Method::Patch => "Patch",
        Method::Options => "Options",
        Method::Trace => "Trace",
    }
}

/// The routing rule of one operation: its URI, guarded by its method, to
/// the handler named by its id.
pub open spec fn route_text(op: OperationView) -> Seq<char> {
    "  .service(\n    web::resource(\""@ + op.uri + "\")\n      .route(web::route().guard(guard::"@
        + method_text(op.method) + "()).to("@ + op.id + "))\n  )\n"@
}

/// The routing rules of `ops[i..]`, after `acc`.
pub open spec fn routes_text(ops: Seq<OperationView>, i: int, acc: Seq<char>) -> Seq<char>
    decreases ops.len() - i,
{
    if i < 0 || i >= ops.len() {
        acc
    } else {
        routes_text(ops, i + 1, acc + route_text(ops[i]))
    }
}

/// The application with one routing rule per operation.
pub open spec fn dispatch_text(ops: Seq<OperationView>) -> Seq<char> {
    routes_text(ops, 0, "App::new()\n"@)
}

/// The declarations of the named struct models `ms[i..]`, after `acc`.
pub open spec fn structs_text(
    ms: Seq<(Seq<char>, ModelView)>,
    i: int,
    acc: Seq<Seq<char>>,
) -> Result<Seq<Seq<char>>, EmitErrorView>
    decreases ms.len() - i,
{
    if i < 0 || i >= ms.len() {
        Ok(acc)
    } else if ms[i].1.kind != ModelKind::Struct {
        structs_text(ms, i + 1, acc)
    } else {
        match struct_text(ms, ms[i].0, ms[i].1) {
            Err(e) => Err(e),
            Ok(t) => structs_text(ms, i + 1, acc.push(t)),
        }
    }
}

pub open spec fn text_views(v: Seq<String>) -> Seq<Seq<char>> {
    v.map_values(|s: String| s@)
}

fn put_params_exec(fs: &mut Vec<(String, Model)>, ps: &Vec<Parameter>)
    ensures
        fields_view(final(fs)@) == put_params(
            fields_view(old(fs)@),
            crate::service::param_views(ps@),
            0,
        ),
{
    let ghost pv = crate::service::param_views(ps@);
    let mut i: usize = 0;
    while i < ps.len()
        invariant
            i <= ps.len(),
            pv == crate::service::param_views(ps@),
            put_params(fields_view(old(fs)@), pv, 0) == put_params(fields_view(fs@), pv, i as int),
        decreases ps.len() - i,
    {
        assert(pv[i as int] == ps@[i as int]@);
        put_field_exec(fs, ps[i].name.clone(), ps[i].model.duplicate());
        i += 1;
    }
}

fn put_fields_exec(fs: &mut Vec<(String, Model)>, es: &Vec<(String, Model)>)
    ensures
        fields_view(final(fs)@) == put_fields(fields_view(old(fs)@), fields_view(es@), 0),
{
    let ghost ev = fields_view(es@);
    proof {
        lemma_fields_view_index(es@);
    }
    let mut i: usize = 0;
    while i < es.len()
        invariant
            i <= es.len(),
            ev == fields_view(es@),
            ev.len() == es.len(),
            forall|j: int| 0 <= j < es.len() ==> #[trigger] ev[j] == (es@[j].0@, es@[j].1@),
            put_fields(fields_view(old(fs)@), ev, 0) == put_fields(fields_view(fs@), ev, i as int),
        decreases es.len() - i,
    {
        assert(ev[i as int] == (es@[i as int].0@, es@[i as int].1@));
        put_field_exec(fs, es[i].0.clone(), es[i].1.duplicate());
        i += 1;
    }
}

/// Appends `t` to `s`.
fn push_text(s: &mut String, t: &str)
    ensures
        final(s)@ == old(s)@ + t@,
{
    s.append(t);
}

impl Generator {
    /// The declaration of struct `name` with the properties of `m`.
    pub fn generate_struct(&self, name: &String, m: &Model) -> (r: Result<String, EmitError>)
        ensures
            match r {
                Ok(t) => struct_text(self.models(), name@, m@) == Ok::<Seq<char>, EmitErrorView>(
                    t@,
                ),
                Err(e) => struct_text(self.models(), name@, m@) == Err::<
                    Seq<char>,
                    EmitErrorView,
                >(e@),
            },
    {
        if m.kind != ModelKind::Struct {
            return Err(emit_error(EmitErrorKind::NotStruct, name.as_str()));
        }
        let mut s = "struct ".to_owned();
        push_text(&mut s, name.as_str());
        match &m.properties {
            None => {
                push_text(&mut s, " {}");
                Ok(s)
            },
            Some(ps) => {
                push_text(&mut s, " {\n");
                let ghost psv = fields_view(ps@);
                proof {
                    lemma_fields_view_index(ps@);
                }
                let mut i: usize = 0;
                while i < ps.len()
                    invariant
                        i <= ps.len(),
                        psv == fields_view(ps@),
                        m@.properties == Some(psv),
                        m.kind == ModelKind::Struct,
                        psv.len() == ps.len(),
                        forall|j: int| 0 <= j < ps.len() ==> #[trigger] psv[j] == (ps@[j].0@, ps@[j].1@),
                        fields_text(self.models(), psv, 0, "struct "@ + name@ + " {\n"@)
                            == fields_text(self.models(), psv, i as int, s@),
                    decreases ps.len() - i,
                {
                    assert(psv[i as int] == (ps@[i as int].0@, ps@[i as int].1@));
                    let t = match self.generate_type(&ps[i].1) {
                        Ok(t) => t,
                        Err(e) => {
                            return Err(e);
                        },
                    };
                    push_text(&mut s, "  ");
                    push_text(&mut s, ps[i].0.as_str());
                    push_text(&mut s, ": ");
                    push_text(&mut s, t.as_str());
                    push_text(&mut s, ",\n");
                    i += 1;
                }
                push_text(&mut s, "}\n");
                Ok(s)
            },
        }
    }

    fn put_body(&self, fs: &mut Vec<(String, Model)>, body: &Option<Model>)
        ensures
            fields_view(final(fs)@) == put_body(
                self.models(),
                fields_view(old(fs)@),
                crate::service::optional_view(*body),
            ),
    {
        let b = match body {
            None => {
                return;
            },
            Some(b) => b,
        };
        let mut target: &Model = b;
        if b.kind == ModelKind::Reference {
            let owned: String = match &b.name {
                Some(n) => n.clone(),
                None => String::new(),
            };
            let found = find_entry(&self.srv.models, owned.as_str());
            proof {
                lemma_fields_view_index(self.srv.models@);
                lemma_find(self.srv.models@, fields_view(self.srv.models@), owned@, found);
            }
            if let Some(i) = found {
                target = &self.srv.models[i].1;
            }
        }
        assert(target@ == body_target(self.models(), b@));
        let byte_element = match &target.element {
            Some(e) => {
                assert(target@.element == Some(Box::new(model_view(**e))));
                e.kind == ModelKind::Byte
            },
            None => false,
        };
        let raw = target.kind == ModelKind::String || (target.kind == ModelKind::Array
            && byte_element);
        assert(raw == is_raw_payload(target@));
        if raw {
            let stream = Model::wrapping(ModelKind::Iterator, Model::primitive(ModelKind::Byte));
            put_field_exec(fs, "body".to_owned(), stream);
        } else if target.kind == ModelKind::Struct {
            match &target.properties {
                Some(ps) => put_fields_exec(fs, ps),
                None => {
                    assert(put_fields(fields_view(fs@), Seq::empty(), 0) == fields_view(fs@));
                },
            }
        } else {
            put_field_exec(fs, "body".to_owned(), b.duplicate());
        }
    }
}

/// Renders the types of one service for actix-web.
pub struct ActixWebGenerator {
    pub g: Generator,
}

impl ActixWebGenerator {
    pub fn new(g: Generator) -> (r: ActixWebGenerator)
        ensures
            r.g == g,
    {
        ActixWebGenerator { g }
    }

    /// The declaration of every named struct model, in namespace order.
    pub fn generate_structs(&self) -> (r: Result<Vec<String>, EmitError>)
        ensures
            match r {
                Ok(v) => structs_text(self.g.models(), 0, Seq::empty()) == Ok::<
                    Seq<Seq<char>>,
                    EmitErrorView,
                >(text_views(v@)),
                Err(e) => structs_text(self.g.models(), 0, Seq::empty()) == Err::<
                    Seq<Seq<char>>,
                    EmitErrorView,
                >(e@),
            },
    {
        let ms = &self.g.srv.models;
        let ghost msv = self.g.models();
        proof {
            lemma_fields_view_index(ms@);
        }
        let mut out: Vec<String> = Vec::new();
        assert(text_views(out@) =~= Seq::empty());
        let mut i: usize = 0;
        while i < ms.len()
            invariant
                i <= ms.len(),
                ms == &self.g.srv.models,
                msv == self.g.models(),
                msv.len() == ms.len(),
                forall|j: int| 0 <= j < ms.len() ==> #[trigger] msv[j] == (ms@[j].0@, ms@[j].1@),
                structs_text(msv, 0, Seq::empty()) == structs_text(msv, i as int, text_views(out@)),
            decreases ms.len() - i,
        {
            assert(msv[i as int] == (ms@[i as int].0@, ms@[i as int].1@));
            if ms[i].1.kind == ModelKind::Struct {
                match self.g.generate_struct(&ms[i].0, &ms[i].1) {
                    Err(e) => {
                        return Err(e);
                    },
                    Ok(t) => {
                        let ghost before = text_views(out@);
                        let ghost tv = t@;
                        out.push(t);
                        assert(text_views(out@) =~= before.push(tv));
                    },
                }
            }
            i += 1;
        }
        Ok(out)
    }

    /// The input struct of an operation, named after its id.
    pub fn generate_input(&self, op: Operation) -> (r: Result<String, EmitError>)
        ensures
            match r {
                Ok(t) => input_text(self.g.models(), op@) == Ok::<Seq<char>, EmitErrorView>(t@),
                Err(e) => input_text(self.g.models(), op@) == Err::<Seq<char>, EmitErrorView>(e@),
            },
    {
        let mut fs: Vec<(String, Model)> = Vec::new();
        assert(fields_view(fs@) =~= Seq::empty());
        put_params_exec(&mut fs, &op.input.path);
        put_params_exec(&mut fs, &op.input.query);
        put_params_exec(&mut fs, &op.input.header);
        self.g.put_body(&mut fs, &op.input.body);
        let mut name = op.id;
        push_text(&mut name, "Input");
        let model = Model::structure(Some(fs));
        self.g.generate_struct(&name, &model)
    }

    /// The output struct of an operation, named after its id.
    pub fn generate_output(&self, op: Operation) -> (r: Result<String, EmitError>)
        ensures
            match r {
                Ok(t) => output_text(self.g.models(), op@) == Ok::<Seq<char>, EmitErrorView>(t@),
                Err(e) => output_text(self.g.models(), op@) == Err::<Seq<char>, EmitErrorView>(e@),
            },
    {
        let mut fs: Vec<(String, Model)> = Vec::new();
        assert(fields_view(fs@) =~= Seq::empty());
        put_params_exec(&mut fs, &op.output.header);
        self.g.put_body(&mut fs, &op.output.body);
        let mut name = op.id;
        push_text(&mut name, "Output");
        let model = Model::structure(Some(fs));
        self.g.generate_struct(&name, &model)
    }

    /// The application, with one routing rule per operation of the service.
    pub fn generate_dispatch(&self) -> (r: String)
        ensures
            r@ == dispatch_text(operation_views(self.g.srv.operations@)),
    {
        let ops = &self.g.srv.operations;
        let ghost ov = operation_views(ops@);
        let mut s = "App::new()\n".to_owned();
        let mut i: usize = 0;
        while i < ops.len()
            invariant
                i <= ops.len(),
                ops == &self.g.srv.operations,
                ov == operation_views(ops@),
                dispatch_text(ov) == routes_text(ov, i as int, s@),
            decreases ops.len() - i,
        {
            let op = &ops[i];
            assert(ov[i as int] == op@);
            let ghost before = s@;
            push_text(&mut s, "  .service(\n    web::resource(\"");
            push_text(&mut s, op.uri.as_str());
            push_text(&mut s, "\")\n      .route(web::route().guard(guard::");
            push_text(&mut s, method_name(op.method));
            push_text(&mut s, "()).to(");
            push_text(&mut s, op.id.as_str());
            push_text(&mut s, "))\n  )\n");
            assert(s@ =~= before + route_text(op@));
            i += 1;
        }
        s
    }
}

/// A reference to a model that is a struct is rendered as the struct's
/// name: the struct's fields are not inlined.
pub proof fn lemma_struct_reference_by_name(ms: Seq<(Seq<char>, ModelView)>, name: Seq<char>)
    requires
        lookup(ms, name) matches Some(t) && t.kind == ModelKind::Struct,
    ensures
        field_type_text(ms, crate::model::reference_view(name)) == Ok::<Seq<char>, EmitErrorView>(
            name,
        ),
{
}

proof fn lemma_put_field_holds(fs: Seq<(Seq<char>, ModelView)>, name: Seq<char>, m: ModelView)
    ensures
        put_field(fs, name, m).contains((name, m)),
{
    crate::model::lemma_position_at(fs, name, 0);
    match position(fs, name, 0) {
        Some(k) => {
            assert(put_field(fs, name, m)[k] == (name, m));
        },
        None => {
            assert(put_field(fs, name, m)[fs.len() as int] == (name, m));
        },
    }
}

/// A request body meant as a raw payload (a string, or an array of bytes,
/// such as a binary string schema gives), in place or through one
/// reference, appears in the input struct as a `body` field holding a byte
/// stream.
pub proof fn lemma_raw_body_is_stream(ms: Seq<(Seq<char>, ModelView)>, inp: InputView)
    requires
        inp.body matches Some(b) && is_raw_payload(body_target(ms, b)),
    ensures
        input_fields(ms, inp).contains(("body"@, byte_stream())),
{
    let fs = put_params(put_params(put_params(Seq::empty(), inp.path, 0), inp.query, 0), inp.header, 0);
    lemma_put_field_holds(fs, "body"@, byte_stream());
}

/// `t` holds `part` as a contiguous piece.
pub open spec fn holds_text(t: Seq<char>, part: Seq<char>) -> bool {
    exists|a: Seq<char>, b: Seq<char>| t == a + part + b
}

/// The line that declares field `name` of type `ty`.
pub open spec fn field_line(name: Seq<char>, ty: Seq<char>) -> Seq<char> {
    "  "@ + name + ": "@ + ty + ",\n"@
}

proof fn lemma_fields_text_extends(
    ms: Seq<(Seq<char>, ModelView)>,
    ps: Seq<(Seq<char>, ModelView)>,
    i: int,
    acc: Seq<char>,
)
    ensures
        fields_text(ms, ps, i, acc) matches Ok(t) ==> exists|rest: Seq<char>| t == acc + rest,
    decreases ps.len() - i,
{
    if !(i < 0 || i >= ps.len()) {
        if let Ok(ty) = field_type_text(ms, ps[i].1) {
            let next = acc + "  "@ + ps[i].0 + ": "@ + ty + ",\n"@;
            lemma_fields_text_extends(ms, ps, i + 1, next);
            if let Ok(t) = fields_text(ms, ps, i + 1, next) {
                let rest = choose|rest: Seq<char>| t == next + rest;
                assert(t =~= acc + (field_line(ps[i].0, ty) + rest));
            }
        }
    } else {
        assert(acc =~= acc + Seq::<char>::empty());
    }
}

proof fn lemma_fields_text_at(
    ms: Seq<(Seq<char>, ModelView)>,
    ps: Seq<(Seq<char>, ModelView)>,
    i: int,
    acc: Seq<char>,
    k: int,
)
    requires
        0 <= i <= k < ps.len(),
    ensures
        fields_text(ms, ps, i, acc) matches Ok(t) ==> (field_type_text(ms, ps[k].1) matches Ok(
            ty,
        ) && holds_text(t, field_line(ps[k].0, ty))),
    decreases k - i,
{
    if let Ok(ty) = field_type_text(ms, ps[i].1) {
        let next = acc + "  "@ + ps[i].0 + ": "@ + ty + ",\n"@;
        if i < k {
            lemma_fields_text_at(ms, ps, i + 1, next, k);
        } else {
            lemma_fields_text_extends(ms, ps, i + 1, next);
            if let Ok(t) = fields_text(ms, ps, i + 1, next) {
                let rest = choose|rest: Seq<char>| t == next + rest;
                assert(t =~= acc + field_line(ps[i].0, ty) + rest);
            }
        }
    }
}

/// In the declaration of a struct, each field is one line of its own:
/// whatever the other fields, the `k`-th property `f` of type text `ty`
/// appears as `  f: ty,`.
pub proof fn lemma_struct_field_line(
    ms: Seq<(Seq<char>, ModelView)>,
    name: Seq<char>,
    m: ModelView,
    k: int,
)
    requires
        m.properties matches Some(ps) && 0 <= k < ps.len(),
    ensures
        struct_text(ms, name, m) matches Ok(t) ==> (field_type_text(
            ms,
            m.properties->Some_0[k].1,
        ) matches Ok(ty) && holds_text(t, field_line(m.properties->Some_0[k].0, ty))),
{
    let ps = m.properties->Some_0;
    let head = "struct "@ + name + " {\n"@;
    lemma_fields_text_at(ms, ps, 0, head, k);
    if let Ok(t) = struct_text(ms, name, m) {
        let t0 = fields_text(ms, ps, 0, head)->Ok_0;
        let ty = field_type_text(ms, ps[k].1)->Ok_0;
        let line = field_line(ps[k].0, ty);
        let (a, b) = choose|a: Seq<char>, b: Seq<char>| t0 == a + line + b;
        assert(t =~= a + line + (b + "}\n"@));
    }
}

/// A field whose model is a reference to a struct model is declared by the
/// struct's name, `  f: W,`, whatever the other fields of the struct.
pub proof fn lemma_reference_field_line(
    ms: Seq<(Seq<char>, ModelView)>,
    name: Seq<char>,
    m: ModelView,
    k: int,
    w: Seq<char>,
)
    requires
        m.properties matches Some(ps) && 0 <= k < ps.len() && ps[k].1
            == crate::model::reference_view(w),
        lookup(ms, w) matches Some(t) && t.kind == ModelKind::Struct,
    ensures
        struct_text(ms, name, m) matches Ok(t) ==> holds_text(
            t,
            field_line(m.properties->Some_0[k].0, w),
        ),
{
    lemma_struct_reference_by_name(ms, w);
    lemma_struct_field_line(ms, name, m, k);
}

proof fn lemma_put_field_keeps(
    fs: Seq<(Seq<char>, ModelView)>,
    name: Seq<char>,
    m: ModelView,
    e: (Seq<char>, ModelView),
)
    requires
        fs.contains(e),
        e.0 != name,
    ensures
        put_field(fs, name, m).contains(e),
{
    crate::model::lemma_position_at(fs, name, 0);
    let k = choose|k: int| 0 <= k < fs.len() && fs[k] == e;
    assert(put_field(fs, name, m)[k] == e);
}

proof fn lemma_put_params_keep(
    fs: Seq<(Seq<char>, ModelView)>,
    ps: Seq<ParameterView>,
    i: int,
    e: (Seq<char>, ModelView),
)
    requires
        0 <= i,
        fs.contains(e),
        forall|k: int| i <= k < ps.len() ==> (#[trigger] ps[k]).name != e.0,
    ensures
        put_params(fs, ps, i).contains(e),
    decreases ps.len() - i,
{
    if i < ps.len() {
        lemma_put_field_keeps(fs, ps[i].name, ps[i].model, e);
        lemma_put_params_keep(put_field(fs, ps[i].name, ps[i].model), ps, i + 1, e);
    }
}

proof fn lemma_put_params_place(
    fs: Seq<(Seq<char>, ModelView)>,
    ps: Seq<ParameterView>,
    i: int,
    q: int,
)
    requires
        0 <= i <= q < ps.len(),
        forall|k: int| q < k < ps.len() ==> (#[trigger] ps[k]).name != ps[q].name,
    ensures
        put_params(fs, ps, i).contains((ps[q].name, ps[q].model)),
    decreases q - i,
{
    let next = put_field(fs, ps[i].name, ps[i].model);
    if i < q {
        lemma_put_params_place(next, ps, i + 1, q);
    } else {
        lemma_put_field_holds(fs, ps[i].name, ps[i].model);
        lemma_put_params_keep(next, ps, i + 1, (ps[q].name, ps[q].model));
    }
}

proof fn lemma_put_fields_keep(
    fs: Seq<(Seq<char>, ModelView)>,
    es: Seq<(Seq<char>, ModelView)>,
    i: int,
    e: (Seq<char>, ModelView),
)
    requires
        0 <= i,
        fs.contains(e),
        forall|k: int| i <= k < es.len() ==> (#[trigger] es[k]).0 != e.0,
    ensures
        put_fields(fs, es, i).contains(e),
    decreases es.len() - i,
{
    if i < es.len() {
        lemma_put_field_keeps(fs, es[i].0, es[i].1, e);
        lemma_put_fields_keep(put_field(fs, es[i].0, es[i].1), es, i + 1, e);
    }
}

/// The names of the fields that a body adds to a struct.
pub open spec fn body_names(ms: Seq<(Seq<char>, ModelView)>, body: Option<ModelView>) -> Seq<
    Seq<char>,
> {
    match body {
        None => Seq::empty(),
        Some(b) => {
            let t = body_target(ms, b);
            if !is_raw_payload(t) && t.kind == ModelKind::Struct {
                match t.properties {
                    Some(ps) => ps.map_values(|e: (Seq<char>, ModelView)| e.0),
                    None => Seq::empty(),
                }
            } else {
                seq!["body"@]
            }
        },
    }
}

proof fn lemma_put_body_keeps(
    ms: Seq<(Seq<char>, ModelView)>,
    fs: Seq<(Seq<char>, ModelView)>,
    body: Option<ModelView>,
    e: (Seq<char>, ModelView),
)
    requires
        fs.contains(e),
        !body_names(ms, body).contains(e.0),
    ensures
        put_body(ms, fs, body).contains(e),
{
    if let Some(b) = body {
        let t = body_target(ms, b);
        if !is_raw_payload(t) && t.kind == ModelKind::Struct {
            let ps = match t.properties {
                Some(ps) => ps,
                None => Seq::empty(),
            };
            let names = body_names(ms, body);
            assert forall|k: int| 0 <= k < ps.len() implies (#[trigger] ps[k]).0 != e.0 by {
                assert(names[k] == ps[k].0);
            }
            lemma_put_fields_keep(fs, ps, 0, e);
        } else {
            assert(seq!["body"@][0] == "body"@);
            lemma_put_field_keeps(
                fs,
                "body"@,
                if is_raw_payload(t) {
                    byte_stream()
                } else {
                    b
                },
                e,
            );
        }
    }
}

/// No parameter of `ps` from the `i`-th on is named `name`.
pub open spec fn names_differ(ps: Seq<ParameterView>, i: int, name: Seq<char>) -> bool {
    forall|k: int| i <= k < ps.len() ==> (#[trigger] ps[k]).name != name
}

/// A parameter of an operation's input that no later field of the input
/// struct renames, whose model is a reference to a struct model `w`, is
/// declared as `  f: W,` in the input struct, by the struct's name and
/// whatever the other fields. `loc` and `q` say where the parameter stands;
/// parameters are placed path, then query, then header, then the body.
pub proof fn lemma_input_reference_line(
    ms: Seq<(Seq<char>, ModelView)>,
    op: OperationView,
    loc: crate::service::Location,
    q: int,
    w: Seq<char>,
)
    requires
        ({
            let ps = match loc {
                crate::service::Location::Path => op.input.path,
                crate::service::Location::Query => op.input.query,
                crate::service::Location::Header => op.input.header,
            };
            &&& 0 <= q < ps.len()
            &&& ps[q].model == crate::model::reference_view(w)
            &&& names_differ(ps, q + 1, ps[q].name)
            &&& (loc is Path ==> names_differ(op.input.query, 0, ps[q].name))
            &&& (!(loc is Header) ==> names_differ(op.input.header, 0, ps[q].name))
            &&& !body_names(ms, op.input.body).contains(ps[q].name)
        }),
        lookup(ms, w) matches Some(t) && t.kind == ModelKind::Struct,
    ensures
        input_text(ms, op) matches Ok(t) ==> holds_text(
            t,
            field_line(
                (match loc {
                    crate::service::Location::Path => op.input.path,
                    crate::service::Location::Query => op.input.query,
                    crate::service::Location::Header => op.input.header,
                })[q].name,
                w,
            ),
        ),
{
    let inp = op.input;
    let ps = match loc {
        crate::service::Location::Path => inp.path,
        crate::service::Location::Query => inp.query,
        crate::service::Location::Header => inp.header,
    };
    let e = (ps[q].name, ps[q].model);
    let f0 = put_params(Seq::empty(), inp.path, 0);
    let f1 = put_params(f0, inp.query, 0);
    let f2 = put_params(f1, inp.header, 0);
    match loc {
        crate::service::Location::Path => {
            lemma_put_params_place(Seq::empty(), inp.path, 0, q);
            lemma_put_params_keep(f0, inp.query, 0, e);
            lemma_put_params_keep(f1, inp.header, 0, e);
        },
        crate::service::Location::Query => {
            lemma_put_params_place(f0, inp.query, 0, q);
            lemma_put_params_keep(f1, inp.header, 0, e);
        },
        crate::service::Location::Header => {
            lemma_put_params_place(f1, inp.header, 0, q);
        },
    }
    lemma_put_body_keeps(ms, f2, inp.body, e);
    let fields = input_fields(ms, inp);
    let k = choose|k: int| 0 <= k < fields.len() && fields[k] == e;
    lemma_reference_field_line(ms, op.id + "Input"@, struct_view(Some(fields)), k, w);
}

} // verus!

//! The intermediate representation of data shapes.
use vstd::prelude::*;

verus! {

/// The kind of a model node.
#[derive(Clone, Copy, Debug, PartialEq, Eq, Structural)]
pub enum ModelKind {
    /// A value of any type.
    Any,
    Boolean,
    /// A UTF-8 string.
    String,
    Byte,
    Date,
    Time,
    Datetime,
    Int,
    Int8,
    Int16,
    Int32,
    Int64,
    Uint,
    Uint8,
    Uint16,
    Uint32,
    Uint64,
    Float32,
    Float64,
    Array,
    /// A map keyed by strings.
    Mapping,
    Enum,
    Struct,
    Iterator,
    Reference,
}

/// Whether a kind is a primitive: neither composite, nor a reference, nor
/// a value of any type.
pub open spec fn simple_kind(k: ModelKind) -> bool {
    match k {
        ModelKind::Any
        | ModelKind::Array
        | ModelKind::Mapping
        | ModelKind::Enum
        | ModelKind::Struct
        | ModelKind::Iterator
        | ModelKind::Reference => false,
        _ => true,
    }
}

impl ModelKind {
    pub fn is_simple(&self) -> (r: bool)
        ensures
            r == simple_kind(*self),
    {
        match self {
            ModelKind::Any
            | ModelKind::Array
            | ModelKind::Mapping
            | ModelKind::Enum
            | ModelKind::Struct
            | ModelKind::Iterator
            | ModelKind::Reference => false,
            _ => true,
        }
    }
}

/// A node of the intermediate representation. `name` is set on a
/// reference, `properties` on a struct (in declaration order), `element` on
/// an array, a map or an iterator.
#[derive(Debug)]
pub struct Model {
    pub kind: ModelKind,
    pub name: Option<String>,
    pub properties: Option<Vec<(String, Model)>>,
    pub element: Option<Box<Model>>,
}

/// What a `Model` denotes.
#[verifier::ext_equal]
pub struct ModelView {
    pub kind: ModelKind,
    pub name: Option<Seq<char>>,
    pub properties: Option<Seq<(Seq<char>, ModelView)>>,
    pub element: Option<Box<ModelView>>,
}

pub open spec fn model_view(m: Model) -> ModelView
    decreases m,
{
    ModelView {
        kind: m.kind,
        name: match m.name {
            Some(n) => Some(n@),
            None => None,
        },
        properties: match m.properties {
            Some(ps) => Some(fields_view(ps@)),
            None => None,
        },
        element: match m.element {
            Some(e) => Some(Box::new(model_view(*e))),
            None => None,
        },
    }
}

pub open spec fn fields_view(ps: Seq<(String, Model)>) -> Seq<(Seq<char>, ModelView)>
    decreases ps,
{
    if ps.len() == 0 {
        Seq::empty()
    } else {
        fields_view(ps.drop_last()).push((ps.last().0@, model_view(ps.last().1)))
    }
}

impl View for Model {
    type V = ModelView;

    open spec fn view(&self) -> ModelView {
        model_view(*self)
    }
}

/// A node with no name, properties or element.
pub open spec fn plain_view(kind: ModelKind) -> ModelView {
    ModelView { kind, name: None, properties: None, element: None }
}

/// A node of `kind` that holds `element`.
pub open spec fn wrap_view(kind: ModelKind, element: ModelView) -> ModelView {
    ModelView { kind, name: None, properties: None, element: Some(Box::new(element)) }
}

/// A struct node with the given properties.
pub open spec fn struct_view(properties: Option<Seq<(Seq<char>, ModelView)>>) -> ModelView {
    ModelView { kind: ModelKind::Struct, name: None, properties, element: None }
}

/// A reference to the model named `name`.
pub open spec fn reference_view(name: Seq<char>) -> ModelView {
    ModelView { kind: ModelKind::Reference, name: Some(name), properties: None, element: None }
}

pub proof fn lemma_fields_view_take(ps: Seq<(String, Model)>, i: int)
    requires
        0 <= i < ps.len(),
    ensures
        fields_view(ps.take(i + 1)) == fields_view(ps.take(i)).push(
            (ps[i].0@, model_view(ps[i].1)),
        ),
{
    assert(ps.take(i + 1).drop_last() =~= ps.take(i));
}

/// A copy of `ps`, property by property.
pub fn copy_fields(ps: &Vec<(String, Model)>) -> (r: Vec<(String, Model)>)
    ensures
        fields_view(r@) == fields_view(ps@),
    decreases ps,
{
    let mut r: Vec<(String, Model)> = Vec::new();
    let mut i: usize = 0;
    while i < ps.len()
        invariant
            i <= ps.len(),
            fields_view(r@) == fields_view(ps@.take(i as int)),
        decreases ps.len() - i,
    {
        proof {
            lemma_fields_view_take(ps@, i as int);
        }
        let ghost before = r@;
        let entry = (ps[i].0.clone(), ps[i].1.duplicate());
        r.push(entry);
        assert(r@.drop_last() =~= before);
        i += 1;
    }
    assert(ps@.take(ps.len() as int) =~= ps@);
    r
}

impl Model {
    pub fn primitive(kind: ModelKind) -> (r: Model)
        ensures
            r@ == plain_view(kind),
    {
        Model { kind, name: None, properties: None, element: None }
    }

    /// A node of `kind` (an array, a map or an iterator) holding `element`.
    pub fn wrapping(kind: ModelKind, element: Model) -> (r: Model)
        ensures
            r@ == wrap_view(kind, element@),
    {
        Model { kind, name: None, properties: None, element: Some(Box::new(element)) }
    }

    pub fn reference(name: String) -> (r: Model)
        ensures
            r@ == reference_view(name@),
    {
        Model { kind: ModelKind::Reference, name: Some(name), properties: None, element: None }
    }

    pub fn structure(properties: Option<Vec<(String, Model)>>) -> (r: Model)
        ensures
            r@ == struct_view(
                match properties {
                    Some(ps) => Some(fields_view(ps@)),
                    None => None,
                },
            ),
    {
        Model { kind: ModelKind::Struct, name: None, properties, element: None }
    }

    /// A deep copy.
    pub fn duplicate(&self) -> (r: Model)
        ensures
            r@ == self@,
        decreases self,
    {
        let name = match &self.name {
            Some(n) => Some(n.clone()),
            None => None,
        };
        let properties = match &self.properties {
            Some(ps) => Some(copy_fields(ps)),
            None => None,
        };
        let element = match &self.element {
            Some(e) => Some(Box::new(e.duplicate())),
            None => None,
        };
        Model { kind: self.kind, name, properties, element }
    }
}

/// The position of the entry named `name` at or after `i`, if any.
pub open spec fn position<V>(es: Seq<(Seq<char>, V)>, name: Seq<char>, i: int) -> Option<int>
    decreases es.len() - i,
{
    if i < 0 || i >= es.len() {
        None
    } else if es[i].0 == name {
        Some(i)
    } else {
        position(es, name, i + 1)
    }
}

/// The value of the first entry named `name`, if any.
pub open spec fn lookup<V>(es: Seq<(Seq<char>, V)>, name: Seq<char>) -> Option<V> {
    match position(es, name, 0) {
        Some(i) => Some(es[i].1),
        None => None,
    }
}

pub proof fn lemma_fields_view_index(ps: Seq<(String, Model)>)
    ensures
        fields_view(ps).len() == ps.len(),
        forall|j: int|
            0 <= j < ps.len() ==> #[trigger] fields_view(ps)[j] == (ps[j].0@, model_view(ps[j].1)),
    decreases ps.len(),
{
    if ps.len() > 0 {
        lemma_fields_view_index(ps.drop_last());
    }
}

/// The position of the first entry of `es` named `name`.
pub fn find_entry<V>(es: &Vec<(String, V)>, name: &str) -> (r: Option<usize>)
    ensures
        match r {
            Some(i) => i < es.len() && es@[i as int].0@ == name@ && forall|j: int|
                0 <= j < i ==> es@[j].0@ != name@,
            None => forall|j: int| 0 <= j < es.len() ==> es@[j].0@ != name@,
        },
{
    let mut i: usize = 0;
    while i < es.len()
        invariant
            i <= es.len(),
            forall|j: int| 0 <= j < i ==> es@[j].0@ != name@,
        decreases es.len() - i,
    {
        if crate::text::text_eq(es[i].0.as_str(), name) {
            return Some(i);
        }
        i += 1;
    }
    None
}

/// `position` finds the first entry whose name matches.
pub proof fn lemma_position<V>(es: Seq<(Seq<char>, V)>, name: Seq<char>, i: int, k: Option<int>)
    requires
        0 <= i <= es.len(),
        forall|j: int| i <= j < es.len() && (k is None || j < k->0) ==> es[j].0 != name,
        k matches Some(kk) ==> i <= kk < es.len() && es[kk].0 == name,
    ensures
        position(es, name, i) == k,
    decreases es.len() - i,
{
    if i < es.len() {
        if es[i].0 != name {
            lemma_position(es, name, i + 1, k);
        }
    }
}

/// The name of the first reference in `m` (the node itself, then its
/// properties in order, then its element) that names no entry of `ms`.
pub open spec fn unresolved_in(ms: Seq<(Seq<char>, ModelView)>, m: ModelView) -> Option<Seq<char>>
    decreases m,
{
    let own = if m.kind == ModelKind::Reference {
        let n = match m.name {
            Some(n) => n,
            None => Seq::empty(),
        };
        if lookup(ms, n) is None {
            Some(n)
        } else {
            None
        }
    } else {
        None
    };
    if own is Some {
        own
    } else {
        let in_props = match m.properties {
            Some(ps) => unresolved_in_fields(ms, ps),
            None => None,
        };
        if in_props is Some {
            in_props
        } else {
            match m.element {
                Some(e) => unresolved_in(ms, *e),
                None => None,
            }
        }
    }
}

/// The first unresolved reference in the models of `ps`, in order.
pub open spec fn unresolved_in_fields(
    ms: Seq<(Seq<char>, ModelView)>,
    ps: Seq<(Seq<char>, ModelView)>,
) -> Option<Seq<char>>
    decreases ps,
{
    if ps.len() == 0 {
        None
    } else {
        match unresolved_in_fields(ms, ps.drop_last()) {
            Some(n) => Some(n),
            None => unresolved_in(ms, ps.last().1),
        }
    }
}

pub open spec fn optional_text(s: Option<String>) -> Option<Seq<char>> {
    match s {
        Some(s) => Some(s@),
        None => None,
    }
}

/// A position that `position` finds holds an entry of that name.
pub proof fn lemma_position_at<V>(es: Seq<(Seq<char>, V)>, name: Seq<char>, i: int)
    ensures
        position(es, name, i) matches Some(k) ==> 0 <= i <= k < es.len() && es[k].0 == name,
    decreases es.len() - i,
{
    if 0 <= i < es.len() && es[i].0 != name {
        lemma_position_at(es, name, i + 1);
    }
}

/// `fs` with field `name` of model `m`: a field of that name already there
/// takes the new model in its place; otherwise the field comes last.
pub open spec fn put_field(fs: Seq<(Seq<char>, ModelView)>, name: Seq<char>, m: ModelView) -> Seq<
    (Seq<char>, ModelView),
> {
    match position(fs, name, 0) {
        Some(k) => fs.update(k, (name, m)),
        None => fs.push((name, m)),
    }
}

/// Replaces or appends field `name`.
pub fn put_field_exec(fs: &mut Vec<(String, Model)>, name: String, m: Model)
    ensures
        fields_view(final(fs)@) == put_field(fields_view(old(fs)@), name@, m@),
{
    let found = find_entry(fs, name.as_str());
    proof {
        lemma_fields_view_index(fs@);
        lemma_find_fields(fs@, name@, found);
    }
    let ghost nv = name@;
    let ghost mv = m@;
    match found {
        Some(k) => {
            fs[k] = (name, m);
            proof {
                lemma_fields_view_index(fs@);
                lemma_fields_view_index(old(fs)@);
                assert(fields_view(fs@) =~= fields_view(old(fs)@).update(k as int, (nv, mv)));
            }
        },
        None => {
            fs.push((name, m));
            assert(fs@.drop_last() =~= old(fs)@);
        },
    }
}

/// Finding a model by its name agrees with `position` on the views.
proof fn lemma_find_fields(es: Seq<(String, Model)>, name: Seq<char>, r: Option<usize>)
    requires
        match r {
            Some(i) => i < es.len() && es[i as int].0@ == name && forall|j: int|
                0 <= j < i ==> es[j].0@ != name,
            None => forall|j: int| 0 <= j < es.len() ==> es[j].0@ != name,
        },
    ensures
        position(fields_view(es), name, 0) == match r {
            Some(i) => Some(i as int),
            None => None::<int>,
        },
{
    lemma_fields_view_index(es);
    let vs = fields_view(es);
    let k = match r {
        Some(i) => Some(i as int),
        None => None::<int>,
    };
    assert forall|j: int| 0 <= j < vs.len() && (k is None || j < k->0) implies vs[j].0 != name by {
        assert(vs[j].0 == es[j].0@);
    }
    if let Some(i) = r {
        assert(vs[i as int].0 == es[i as int].0@);
    }
    lemma_position(vs, name, 0, k);
}

/// No reference is unresolved among fields exactly when none is in any of
/// them.
pub proof fn lemma_unresolved_fields_all(
    ms: Seq<(Seq<char>, ModelView)>,
    fs: Seq<(Seq<char>, ModelView)>,
)
    ensures
        unresolved_in_fields(ms, fs) is None <==> forall|i: int|
            0 <= i < fs.len() ==> unresolved_in(ms, (#[trigger] fs[i]).1) is None,
    decreases fs.len(),
{
    if fs.len() > 0 {
        lemma_unresolved_fields_all(ms, fs.drop_last());
        assert forall|i: int| 0 <= i < fs.len() - 1 implies #[trigger] fs.drop_last()[i] == fs[i] by {}
        if unresolved_in_fields(ms, fs) is None {
            assert forall|i: int| 0 <= i < fs.len() implies unresolved_in(ms, (#[trigger] fs[i]).1)
                is None by {
                if i < fs.len() - 1 {
                    assert(fs.drop_last()[i] == fs[i]);
                }
            }
        }
        if forall|i: int| 0 <= i < fs.len() ==> unresolved_in(ms, (#[trigger] fs[i]).1) is None {
            assert forall|i: int| 0 <= i < fs.drop_last().len() implies unresolved_in(
                ms,
                (#[trigger] fs.drop_last()[i]).1,
            ) is None by {
                assert(fs.drop_last()[i] == fs[i]);
            }
            assert(unresolved_in(ms, fs[fs.len() - 1].1) is None);
        }
    }
}

} // verus!

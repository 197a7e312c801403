//! Mapping of schema nodes to models.
use vstd::prelude::*;

use crate::document::{Schema, SchemaType};
use crate::model::{
    fields_view, find_entry, lemma_fields_view_index, lemma_position, lookup, optional_text,
    lemma_unresolved_fields_all, plain_view, position, put_field, put_field_exec, reference_view,
    struct_view, unresolved_in, unresolved_in_fields, wrap_view, Model, ModelKind, ModelView,
};
use crate::text::{after_last_slash, last_segment, text_eq};

verus! {

/// Why a schema has no model.
#[derive(Clone, Copy, Debug, PartialEq, Eq, Structural)]
pub enum SchemaError {
    /// An array schema declares no item schema.
    MissingItems,
}

/// The name a pointer designates: its last `/`-delimited segment.
pub fn parse_ref(s: &String) -> (r: String)
    ensures
        r@ == after_last_slash(s@),
{
    last_segment(s.as_str())
}

/// Whether `format` is present and equal to `name`.
pub open spec fn format_is(format: Option<String>, name: Seq<char>) -> bool {
    format matches Some(f) && f@ == name
}

/// The model of a schema, or `None` where an array in it declares no item
/// schema. A pointer becomes a reference by name and is not followed.
pub open spec fn schema_model(s: Schema) -> Option<ModelView>
    decreases s,
{
    match s.ref_ {
        Some(r) => Some(reference_view(after_last_slash(r@))),
        None => match s.type_ {
            None => Some(plain_view(ModelKind::Any)),
            Some(SchemaType::Boolean) => Some(plain_view(ModelKind::Boolean)),
            Some(SchemaType::Object) => match s.properties {
                None => Some(struct_view(None)),
                Some(ps) => match schema_fields(ps@) {
                    Some(fs) => Some(struct_view(Some(fs))),
                    None => None,
                },
            },
            Some(SchemaType::Array) => match s.items {
                None => None,
                Some(it) => match schema_model(*it) {
                    Some(e) => Some(wrap_view(ModelKind::Array, e)),
                    None => None,
                },
            },
            Some(SchemaType::Number) => Some(
                plain_view(
                    if format_is(s.format, "double"@) {
                        ModelKind::Float64
                    } else {
                        ModelKind::Float32
                    },
                ),
            ),
            Some(SchemaType::String) => if format_is(s.format, "binary"@) {
                Some(wrap_view(ModelKind::Array, plain_view(ModelKind::Byte)))
            } else {
                Some(plain_view(ModelKind::String))
            },
            Some(SchemaType::Integer) => Some(
                plain_view(
                    if format_is(s.format, "int32"@) {
                        ModelKind::Int32
                    } else if format_is(s.format, "int64"@) {
                        ModelKind::Int64
                    } else {
                        ModelKind::Int
                    },
                ),
            ),
        },
    }
}

/// The models of named property schemas, in order, or `None` where one of
/// them has none. A name given twice keeps its first place and the model of
/// its last schema.
pub open spec fn schema_fields(ps: Seq<(String, Schema)>) -> Option<Seq<(Seq<char>, ModelView)>>
    decreases ps,
{
    if ps.len() == 0 {
        Some(Seq::empty())
    } else {
        match (schema_fields(ps.drop_last()), schema_model(ps.last().1)) {
            (Some(fs), Some(m)) => Some(put_field(fs, ps.last().0@, m)),
            _ => None,
        }
    }
}

/// `r` is what mapping `s` gives.
pub open spec fn maps_to(s: Schema, r: Result<Model, SchemaError>) -> bool {
    match r {
        Ok(m) => schema_model(s) == Some(m@),
        Err(e) => schema_model(s) is None && e == SchemaError::MissingItems,
    }
}

fn format_matches(format: &Option<String>, name: &str) -> (r: bool)
    ensures
        r == format_is(*format, name@),
{
    match format {
        Some(f) => text_eq(f.as_str(), name),
        None => false,
    }
}

proof fn lemma_schema_fields_take(ps: Seq<(String, Schema)>, i: int)
    requires
        0 <= i < ps.len(),
    ensures
        schema_fields(ps.take(i + 1)) == match (
            schema_fields(ps.take(i)),
            schema_model(ps[i].1),
        ) {
            (Some(fs), Some(m)) => Some(put_field(fs, ps[i].0@, m)),
            _ => None::<Seq<(Seq<char>, ModelView)>>,
        },
{
    assert(ps.take(i + 1).drop_last() =~= ps.take(i));
}

/// `schema_fields` fails on a sequence whose prefix fails.
proof fn lemma_schema_fields_prefix(ps: Seq<(String, Schema)>, i: int)
    requires
        0 <= i <= ps.len(),
        schema_fields(ps.take(i)) is None,
    ensures
        schema_fields(ps) is None,
    decreases ps.len() - i,
{
    if i < ps.len() {
        lemma_schema_fields_take(ps, i);
        lemma_schema_fields_prefix(ps, i + 1);
    } else {
        assert(ps.take(i) =~= ps);
    }
}

fn parse_fields(ps: &Vec<(String, Schema)>) -> (r: Result<Vec<(String, Model)>, SchemaError>)
    ensures
        match r {
            Ok(fs) => schema_fields(ps@) == Some(fields_view(fs@)),
            Err(e) => schema_fields(ps@) is None && e == SchemaError::MissingItems,
        },
    decreases ps,
{
    let mut fs: Vec<(String, Model)> = Vec::new();
    let mut i: usize = 0;
    while i < ps.len()
        invariant
            i <= ps.len(),
            schema_fields(ps@.take(i as int)) == Some(fields_view(fs@)),
        decreases ps.len() - i,
    {
        proof {
            lemma_schema_fields_take(ps@, i as int);
        }
        let m = parse_schema_type(&ps[i].1);
        match m {
            Ok(m) => {
                put_field_exec(&mut fs, ps[i].0.clone(), m);
            },
            Err(e) => {
                proof {
                    lemma_schema_fields_prefix(ps@, i + 1);
                }
                return Err(e);
            },
        }
        i += 1;
    }
    assert(ps@.take(ps.len() as int) =~= ps@);
    Ok(fs)
}

/// The model of a schema, following the decision table on its type and
/// format; an array without an item schema fails.
pub fn parse_schema_type(schema: &Schema) -> (r: Result<Model, SchemaError>)
    ensures
        maps_to(*schema, r),
    decreases schema,
{
    if let Some(r) = &schema.ref_ {
        return Ok(Model::reference(parse_ref(r)));
    }
    match &schema.type_ {
        None => Ok(Model::primitive(ModelKind::Any)),
        Some(SchemaType::Boolean) => Ok(Model::primitive(ModelKind::Boolean)),
        Some(SchemaType::Object) => match &schema.properties {
            None => Ok(Model::structure(None)),
            Some(ps) => match parse_fields(ps) {
                Ok(fs) => Ok(Model::structure(Some(fs))),
                Err(e) => Err(e),
            },
        },
        Some(SchemaType::Array) => match &schema.items {
            None => Err(SchemaError::MissingItems),
            Some(items) => match parse_schema_type(items) {
                Ok(e) => Ok(Model::wrapping(ModelKind::Array, e)),
                Err(e) => Err(e),
            },
        },
        Some(SchemaType::Number) => {
            if format_matches(&schema.format, "double") {
                Ok(Model::primitive(ModelKind::Float64))
            } else {
                Ok(Model::primitive(ModelKind::Float32))
            }
        },
        Some(SchemaType::String) => {
            if format_matches(&schema.format, "binary") {
                Ok(Model::wrapping(ModelKind::Array, Model::primitive(ModelKind::Byte)))
            } else {
                Ok(Model::primitive(ModelKind::String))
            }
        },
        Some(SchemaType::Integer) => {
            if format_matches(&schema.format, "int32") {
                Ok(Model::primitive(ModelKind::Int32))
            } else if format_matches(&schema.format, "int64") {
                Ok(Model::primitive(ModelKind::Int64))
            } else {
                Ok(Model::primitive(ModelKind::Int))
            }
        },
    }
}

/// Mapping depends on the schema alone: two results that mapping the same
/// schema may give are structurally equal.
pub proof fn lemma_mapping_repeatable(
    s: Schema,
    r1: Result<Model, SchemaError>,
    r2: Result<Model, SchemaError>,
)
    requires
        maps_to(s, r1),
        maps_to(s, r2),
    ensures
        r1 is Ok <==> r2 is Ok,
        r1 matches Ok(m1) ==> (r2 matches Ok(m2) && m1@ == m2@),
{
}

/// The first pointer in `s`, as written, whose name (its last segment)
/// names no entry of `ms`. Only what mapping follows is searched: the
/// pointer itself, the properties of an object in order, the items of an
/// array.
pub open spec fn unresolved_pointer(ms: Seq<(Seq<char>, ModelView)>, s: Schema) -> Option<
    Seq<char>,
>
    decreases s,
{
    match s.ref_ {
        Some(r) => if lookup(ms, after_last_slash(r@)) is None {
            Some(r@)
        } else {
            None
        },
        None => match s.type_ {
            Some(SchemaType::Object) => match s.properties {
                Some(ps) => unresolved_pointer_fields(ms, ps@),
                None => None,
            },
            Some(SchemaType::Array) => match s.items {
                Some(it) => unresolved_pointer(ms, *it),
                None => None,
            },
            _ => None,
        },
    }
}

/// The first unresolved pointer in the property schemas `ps`, in order.
pub open spec fn unresolved_pointer_fields(
    ms: Seq<(Seq<char>, ModelView)>,
    ps: Seq<(String, Schema)>,
) -> Option<Seq<char>>
    decreases ps,
{
    if ps.len() == 0 {
        None
    } else {
        match unresolved_pointer_fields(ms, ps.drop_last()) {
            Some(n) => Some(n),
            None => unresolved_pointer(ms, ps.last().1),
        }
    }
}

proof fn lemma_pointer_prefix(ms: Seq<(Seq<char>, ModelView)>, ps: Seq<(String, Schema)>, i: int)
    requires
        0 <= i <= ps.len(),
        unresolved_pointer_fields(ms, ps.take(i)) is Some,
    ensures
        unresolved_pointer_fields(ms, ps) == unresolved_pointer_fields(ms, ps.take(i)),
    decreases ps.len() - i,
{
    if i < ps.len() {
        assert(ps.take(i + 1).drop_last() =~= ps.take(i));
        lemma_pointer_prefix(ms, ps, i + 1);
    } else {
        assert(ps.take(i) =~= ps);
    }
}

/// The first pointer in `s`, as written, that names no model of `ms`.
pub fn first_unresolved_pointer(ms: &Vec<(String, Model)>, s: &Schema) -> (r: Option<String>)
    ensures
        optional_text(r) == unresolved_pointer(fields_view(ms@), *s),
    decreases s,
{
    if let Some(p) = &s.ref_ {
        let name = parse_ref(p);
        let found = find_entry(ms, name.as_str());
        proof {
            lemma_fields_view_index(ms@);
            let vs = fields_view(ms@);
            let k = match found {
                Some(i) => Some(i as int),
                None => None::<int>,
            };
            assert forall|j: int| 0 <= j < vs.len() && (k is None || j < k->0) implies vs[j].0
                != name@ by {
                assert(vs[j].0 == ms@[j].0@);
            }
            if let Some(i) = found {
                assert(vs[i as int].0 == ms@[i as int].0@);
            }
            lemma_position(vs, name@, 0, k);
        }
        if found.is_none() {
            return Some(p.clone());
        }
        return None;
    }
    match &s.type_ {
        Some(SchemaType::Object) => match &s.properties {
            Some(ps) => {
                let mut i: usize = 0;
                while i < ps.len()
                    invariant
                        i <= ps.len(),
                        s.ref_ is None,
                        s.type_ == Some(SchemaType::Object),
                        s.properties == Some(*ps),
                        unresolved_pointer_fields(fields_view(ms@), ps@.take(i as int)) is None,
                    decreases ps.len() - i,
                {
                    assert(ps@.take(i + 1).drop_last() =~= ps@.take(i as int));
                    let r = first_unresolved_pointer(ms, &ps[i].1);
                    if r.is_some() {
                        proof {
                            lemma_pointer_prefix(fields_view(ms@), ps@, i + 1);
                        }
                        return r;
                    }
                    i += 1;
                }
                assert(ps@.take(ps.len() as int) =~= ps@);
                None
            },
            None => None,
        },
        Some(SchemaType::Array) => match &s.items {
            Some(it) => first_unresolved_pointer(ms, it),
            None => None,
        },
        _ => None,
    }
}

/// A schema whose pointers all name models maps to a model whose references
/// all name models.
pub proof fn lemma_pointers_resolve(ms: Seq<(Seq<char>, ModelView)>, s: Schema)
    ensures
        unresolved_pointer(ms, s) is None ==> (schema_model(s) matches Some(m) ==> unresolved_in(
            ms,
            m,
        ) is None),
    decreases s,
{
    if s.ref_ is None {
        match s.type_ {
            Some(SchemaType::Object) => {
                if let Some(ps) = s.properties {
                    lemma_pointers_resolve_fields(ms, ps@);
                }
            },
            Some(SchemaType::Array) => {
                if let Some(it) = s.items {
                    lemma_pointers_resolve(ms, *it);
                }
            },
            Some(SchemaType::String) => {
                let b = plain_view(ModelKind::Byte);
                assert(unresolved_in(ms, b) is None);
            },
            _ => {},
        }
    }
}

proof fn lemma_pointers_resolve_fields(ms: Seq<(Seq<char>, ModelView)>, ps: Seq<(String, Schema)>)
    ensures
        unresolved_pointer_fields(ms, ps) is None ==> (schema_fields(ps) matches Some(fs)
            ==> unresolved_in_fields(ms, fs) is None),
    decreases ps,
{
    if ps.len() > 0 {
        lemma_pointers_resolve_fields(ms, ps.drop_last());
        lemma_pointers_resolve(ms, ps.last().1);
        if let Some(fs) = schema_fields(ps) {
            if unresolved_pointer_fields(ms, ps) is None {
                let prev = schema_fields(ps.drop_last())->Some_0;
                let m = schema_model(ps.last().1)->Some_0;
                lemma_unresolved_fields_all(ms, prev);
                lemma_unresolved_fields_all(ms, fs);
                crate::model::lemma_position_at(prev, ps.last().0@, 0);
                assert forall|i: int| 0 <= i < fs.len() implies unresolved_in(
                    ms,
                    (#[trigger] fs[i]).1,
                ) is None by {
                    if i < prev.len() && fs[i] != (ps.last().0@, m) {
                        assert(fs[i] == prev[i]);
                    }
                }
            }
        }
    }
}

} // verus!

use vstd::prelude::*;
use vstd::string::StringExecFns;
use crate::layout::{Layout, LayoutKind};

verus! {

/// A description of a native type, as far as the wire format cares: the
/// fixed-width numeric and boolean types, text, homogeneous sequences, and
/// nested records with named fields in declaration order. Schema derivation
/// maps such a description to the [`Layout`] of the type's binary encoding.
pub enum TypeDesc {
    Boolean,
    UInt8,
    UInt16,
    UInt32,
    UInt64,
    Int8,
    Int16,
    Int32,
    Int64,
    Float32,
    Float64,
    Text,
    Sequence(Box<TypeDesc>),
    Record(String, Vec<(String, TypeDesc)>),
}

/// How a type descriptor maps to a layout labelled `name`: primitives map
/// 1:1 to the matching kind, text to `String`, a sequence to an `Array`
/// whose single child is the element's layout named `unnamed`, and a record
/// to a `Struct` whose children are its fields' layouts in declaration
/// order. A record's layout carries the record's own name, not the label of
/// the field it sits under.
pub open spec fn derives_to(t: TypeDesc, name: Seq<char>, l: Layout) -> bool
    decreases t,
{
    match t {
        TypeDesc::Sequence(elem) => {
            &&& l.name@ == name
            &&& l.kind == LayoutKind::Array
            &&& match l.fields {
                Some(fs) => fs@.len() == 1 && derives_to(*elem, "unnamed"@, fs@[0]),
                None => false,
            }
        },
        TypeDesc::Record(rec_name, fields) => {
            &&& l.name@ == rec_name@
            &&& l.kind == LayoutKind::Struct
            &&& match l.fields {
                Some(fs) => fs@.len() == fields@.len() && (forall|i: int|
                    0 <= i < fs@.len() ==> derives_to(
                        fields@[i].1,
                        fields@[i].0@,
                        #[trigger] fs@[i],
                    )),
                None => false,
            }
        },
        _ => l.name@ == name && l.kind == leaf_kind(t) && l.fields is None,
    }
}

/// The layout kind a non-composite type descriptor maps to.
pub open spec fn leaf_kind(t: TypeDesc) -> LayoutKind {
    match t {
        TypeDesc::Boolean => LayoutKind::Bool,
        TypeDesc::UInt8 => LayoutKind::U8,
        TypeDesc::UInt16 => LayoutKind::U16,
        TypeDesc::UInt32 => LayoutKind::U32,
        TypeDesc::UInt64 => LayoutKind::U64,
        TypeDesc::Int8 => LayoutKind::I8,
        TypeDesc::Int16 => LayoutKind::I16,
        TypeDesc::Int32 => LayoutKind::I32,
        TypeDesc::Int64 => LayoutKind::I64,
        TypeDesc::Float32 => LayoutKind::F32,
        TypeDesc::Float64 => LayoutKind::F64,
        TypeDesc::Text => LayoutKind::String,
        TypeDesc::Sequence(_) => LayoutKind::Array,
        TypeDesc::Record(_, _) => LayoutKind::Struct,
    }
}

/// The name the derived layout of a field carries: the field's own name,
/// except that a record-typed field's layout carries the record's name.
pub open spec fn label_of(t: TypeDesc, name: Seq<char>) -> Seq<char> {
    match t {
        TypeDesc::Record(rec_name, _) => rec_name@,
        _ => name,
    }
}

/// A descriptor whose records all have pairwise-distinct field labels (see
/// [`label_of`]: for a record-typed field the record's name stands in for
/// the field's), so that the derived struct layouts have unambiguous field
/// names.
pub open spec fn desc_well_formed(t: TypeDesc) -> bool
    decreases t,
{
    match t {
        TypeDesc::Sequence(elem) => desc_well_formed(*elem),
        TypeDesc::Record(_, fields) => {
            &&& (forall|i: int|
                0 <= i < fields@.len() ==> desc_well_formed((#[trigger] fields@[i]).1))
            &&& (forall|i: int, j: int|
                0 <= i < j < fields@.len() ==> label_of(
                    (#[trigger] fields@[i]).1,
                    fields@[i].0@,
                ) != label_of((#[trigger] fields@[j]).1, fields@[j].0@))
        },
        _ => true,
    }
}

/// A derived layout carries its descriptor's label.
proof fn lemma_label(t: TypeDesc, name: Seq<char>, l: Layout)
    requires
        derives_to(t, name, l),
    ensures
        l.name@ == label_of(t, name),
{
}

/// A primitive or string layout node labelled `name`.
fn leaf_layout(name: &str, kind: LayoutKind) -> (r: Layout)
    ensures
        r.name@ == name@,
        r.kind == kind,
        r.fields is None,
{
    Layout { name: String::from_str(name), kind, fields: None }
}

/// Derives the layout of the binary encoding of a value whose type `desc`
/// describes, labelled `name`; the label matters only when the layout sits
/// under a struct field. A well-formed descriptor yields a well-formed
/// layout.
pub fn derive_layout(desc: &TypeDesc, name: &str) -> (r: Layout)
    ensures
        derives_to(*desc, name@, r),
        desc_well_formed(*desc) ==> r.well_formed(),
    decreases *desc,
{
    match desc {
        TypeDesc::Boolean => leaf_layout(name, LayoutKind::Bool),
        TypeDesc::UInt8 => leaf_layout(name, LayoutKind::U8),
        TypeDesc::UInt16 => leaf_layout(name, LayoutKind::U16),
        TypeDesc::UInt32 => leaf_layout(name, LayoutKind::U32),
        TypeDesc::UInt64 => leaf_layout(name, LayoutKind::U64),
        TypeDesc::Int8 => leaf_layout(name, LayoutKind::I8),
        TypeDesc::Int16 => leaf_layout(name, LayoutKind::I16),
        TypeDesc::Int32 => leaf_layout(name, LayoutKind::I32),
        TypeDesc::Int64 => leaf_layout(name, LayoutKind::I64),
        TypeDesc::Float32 => leaf_layout(name, LayoutKind::F32),
        TypeDesc::Float64 => leaf_layout(name, LayoutKind::F64),
        TypeDesc::Text => leaf_layout(name, LayoutKind::String),
        TypeDesc::Sequence(elem) => {
            proof {
                assert(decreases_to!(*desc => desc->Sequence_0));
            }
            let child = derive_layout(elem, "unnamed");
            Layout {
                name: String::from_str(name),
                kind: LayoutKind::Array,
                fields: Some(vec![child]),
            }
        },
        TypeDesc::Record(rec_name, fields) => {
            let mut children: Vec<Layout> = Vec::new();
            let n = fields.len();
            for i in 0..n
                invariant
                    n == fields@.len(),
                    children@.len() == i,
                    desc matches TypeDesc::Record(_, flds) && flds == fields,
                    forall|j: int|
                        0 <= j < i ==> derives_to(
                            fields@[j].1,
                            fields@[j].0@,
                            #[trigger] children@[j],
                        ),
                    forall|j: int|
                        0 <= j < i ==> (desc_well_formed(fields@[j].1) ==> (
                        #[trigger] children@[j]).well_formed()),
            {
                proof {
                    assert(decreases_to!(*desc => desc->Record_1));
                    assert(decreases_to!(desc->Record_1 => desc->Record_1@));
                    assert(decreases_to!(desc->Record_1@ => desc->Record_1@[i as int]));
                    assert(decreases_to!(desc->Record_1@[i as int] => desc->Record_1@[
                        i as int
                    ].1));
                    assert(desc->Record_1@[i as int] == fields@[i as int]);
                }
                let child = derive_layout(&fields[i].1, fields[i].0.as_str());
                children.push(child);
            }
            let r = Layout {
                name: rec_name.clone(),
                kind: LayoutKind::Struct,
                fields: Some(children),
            };
            proof {
                if desc_well_formed(*desc) {
                    assert forall|j: int|
                        0 <= j < r.fields->Some_0@.len() implies (
                    #[trigger] r.fields->Some_0@[j]).well_formed() by {
                        assert(desc_well_formed(fields@[j].1));
                    }
                    assert forall|a: int, b: int|
                        0 <= a < b < r.fields->Some_0@.len() implies (
                    #[trigger] r.fields->Some_0@[a]).name@ != (
                    #[trigger] r.fields->Some_0@[b]).name@ by {
                        lemma_label(fields@[a].1, fields@[a].0@, children@[a]);
                        lemma_label(fields@[b].1, fields@[b].0@, children@[b]);
                        assert(label_of(fields@[a].1, fields@[a].0@) != label_of(
                            fields@[b].1,
                            fields@[b].0@,
                        ));
                    }
                }
            }
            r
        },
    }
}

} // verus!

//! The field-metadata model: what a configuration schema looks like.
//!
//! A schema is a sequence of field descriptors; a nested field carries its
//! own sub-schema whose field paths are already prefixed with the parent
//! path, so every descriptor's dotted path addresses it from the root.

use vstd::prelude::*;

use crate::text::push_char;

verus! {

broadcast use vstd::std_specs::vec::group_vec_axioms;

/// The shape of a field's declared type, as far as the sources care.
#[derive(Debug, Clone, Copy, PartialEq, Eq, Structural)]
pub enum TypeTag {
    /// A boolean, which the command line treats as a switch.
    Boolean,
    /// Any other primitive scalar.
    Primitive,
    /// An optional wrapper around another type.
    Optional,
    /// A sequence, which the command line treats as an appending flag.
    Sequence,
    /// A nested configuration struct.
    Nested,
    /// Anything else.
    Other,
}

/// The classification of one field, as the schema provider derives it from
/// the declared type and the field's attributes.
#[derive(Debug, Clone, Copy, PartialEq, Eq, Structural)]
pub struct FieldAnalysis {
    pub skip: bool,
    pub required: bool,
    pub has_default: bool,
    pub nested: bool,
}

/// Classify a field. A field is required exactly when its declared type is
/// not an optional wrapper; a declared default does not change requiredness,
/// it only keeps the field out of the missing-required set.
pub fn analyze_field(is_optional: bool, skip: bool, has_default: bool, nested: bool) -> (r:
    FieldAnalysis)
    ensures
        r.required == !is_optional,
        r.skip == skip,
        r.has_default == has_default,
        r.nested == nested,
{
    FieldAnalysis { skip, required: !is_optional, has_default, nested }
}

/// Metadata of one configuration field.
#[derive(Debug)]
pub struct FieldMeta {
    /// The field's identifier.
    pub name: String,
    /// The dotted path addressing the field from the schema root.
    pub path: String,
    /// The shape of the declared type.
    pub ty: TypeTag,
    /// Whether the declared type is not an optional wrapper.
    pub required: bool,
    /// Whether the field must never be sourced from environment or CLI.
    pub skip: bool,
    /// Whether the schema declares a default value for the field.
    pub has_default: bool,
    /// Whether the field holds a nested configuration struct.
    pub nested: bool,
    /// The sub-schema of a nested field.
    pub sub: Option<ConfigMeta>,
}

/// Metadata of one configuration schema.
#[derive(Debug)]
pub struct ConfigMeta {
    /// The schema's identifier.
    pub name: String,
    /// The schema's fields, in declaration order.
    pub fields: Vec<FieldMeta>,
}

/// The model of a field descriptor.
pub struct SpecField {
    pub name: Seq<char>,
    pub path: Seq<char>,
    pub ty: TypeTag,
    pub required: bool,
    pub skip: bool,
    pub has_default: bool,
    pub nested: bool,
    pub sub: Option<SpecMeta>,
}

/// The model of a schema.
pub struct SpecMeta {
    pub name: Seq<char>,
    pub fields: Seq<SpecField>,
}

pub open spec fn field_view(f: FieldMeta) -> SpecField
    decreases f,
{
    SpecField {
        name: f.name@,
        path: f.path@,
        ty: f.ty,
        required: f.required,
        skip: f.skip,
        has_default: f.has_default,
        nested: f.nested,
        sub: match f.sub {
            None => None,
            Some(m) => Some(meta_view(m)),
        },
    }
}

pub open spec fn meta_view(m: ConfigMeta) -> SpecMeta
    decreases m,
{
    SpecMeta { name: m.name@, fields: fields_view(m.fields@) }
}

pub open spec fn fields_view(fs: Seq<FieldMeta>) -> Seq<SpecField>
    decreases fs,
{
    if fs.len() == 0 {
        Seq::empty()
    } else {
        seq![field_view(fs[0])] + fields_view(fs.drop_first())
    }
}

impl View for FieldMeta {
    type V = SpecField;

    open spec fn view(&self) -> SpecField {
        field_view(*self)
    }
}

impl View for ConfigMeta {
    type V = SpecMeta;

    open spec fn view(&self) -> SpecMeta {
        meta_view(*self)
    }
}

/// The element-wise characterization of `fields_view`.
pub broadcast proof fn lemma_fields_view_index(fs: Seq<FieldMeta>)
    ensures
        (#[trigger] fields_view(fs)).len() == fs.len(),
        forall|i: int| 0 <= i < fs.len() ==> fields_view(fs)[i] == field_view(fs[i]),
    decreases fs,
{
    if fs.len() > 0 {
        lemma_fields_view_index(fs.drop_first());
        assert(forall|j: int| 1 <= j < fs.len() ==> #[trigger] fs[j] == fs.drop_first()[j - 1]);
    }
}

/// A field's path, prefixed by a parent path and a dot, applied through the
/// whole subtree.
pub open spec fn spec_prefix_field(f: SpecField, parent: Seq<char>) -> SpecField
    decreases f,
{
    SpecField {
        name: f.name,
        path: parent + seq!['.'] + f.path,
        ty: f.ty,
        required: f.required,
        skip: f.skip,
        has_default: f.has_default,
        nested: f.nested,
        sub: match f.sub {
            None => None,
            Some(m) => Some(spec_prefix_meta(m, parent)),
        },
    }
}

pub open spec fn spec_prefix_meta(m: SpecMeta, parent: Seq<char>) -> SpecMeta
    decreases m,
{
    SpecMeta { name: m.name, fields: spec_prefix_fields(m.fields, parent) }
}

pub open spec fn spec_prefix_fields(fs: Seq<SpecField>, parent: Seq<char>) -> Seq<SpecField>
    decreases fs,
{
    if fs.len() == 0 {
        Seq::empty()
    } else {
        seq![spec_prefix_field(fs[0], parent)] + spec_prefix_fields(fs.drop_first(), parent)
    }
}

/// The element-wise characterization of `spec_prefix_fields`.
pub broadcast proof fn lemma_prefix_fields_index(fs: Seq<SpecField>, parent: Seq<char>)
    ensures
        (#[trigger] spec_prefix_fields(fs, parent)).len() == fs.len(),
        forall|i: int| 0 <= i < fs.len() ==> spec_prefix_fields(fs, parent)[i] == spec_prefix_field(
            fs[i],
            parent,
        ),
    decreases fs,
{
    if fs.len() > 0 {
        lemma_prefix_fields_index(fs.drop_first(), parent);
        assert(forall|j: int| 1 <= j < fs.len() ==> #[trigger] fs[j] == fs.drop_first()[j - 1]);
    }
}

/// One field with its whole subtree's paths prefixed.
fn prefix_field(f: &FieldMeta, parent: &str) -> (r: FieldMeta)
    ensures
        field_view(r) == spec_prefix_field(field_view(*f), parent@),
    decreases *f,
{
    let mut p = parent.to_owned();
    push_char(&mut p, '.');
    p.append(f.path.as_str());
    let sub: Option<ConfigMeta> = match &f.sub {
        None => None,
        Some(m) => {
            proof {
                assert(decreases_to!(*f => (*f).sub));
                assert(decreases_to!((*f).sub => (*f).sub->0));
                assert(decreases_to!((*f).sub->0 => (*f).sub->0.fields));
            }
            Some(
                ConfigMeta {
                    name: m.name.clone(),
                    fields: correct_paths(&m.fields, parent),
                },
            )
        },
    };
    FieldMeta {
        name: f.name.clone(),
        path: p,
        ty: f.ty,
        required: f.required,
        skip: f.skip,
        has_default: f.has_default,
        nested: f.nested,
        sub,
    }
}

/// Every field of the list, with the whole subtree's paths prefixed by
/// `parent` and a dot: how a sub-schema's fields are embedded into the
/// parent schema.
pub fn correct_paths(fields: &Vec<FieldMeta>, parent: &str) -> (r: Vec<FieldMeta>)
    ensures
        fields_view(r@) == spec_prefix_fields(fields_view(fields@), parent@),
    decreases *fields,
{
    let mut out: Vec<FieldMeta> = Vec::new();
    let mut i: usize = 0;
    while i < fields.len()
        invariant
            i <= fields@.len(),
            out@.len() == i,
            forall|j: int| 0 <= j < i ==> field_view(#[trigger] out@[j]) == spec_prefix_field(
                field_view(fields@[j]),
                parent@,
            ),
        decreases fields@.len() - i,
    {
        proof {
            assert(decreases_to!(*fields => fields@));
            assert(decreases_to!(fields@ => fields@[i as int]));
        }
        let pf = prefix_field(&fields[i], parent);
        out.push(pf);
        i = i + 1;
    }
    proof {
        lemma_fields_view_index(out@);
        lemma_fields_view_index(fields@);
        lemma_prefix_fields_index(fields_view(fields@), parent@);
        assert(fields_view(out@) =~= spec_prefix_fields(fields_view(fields@), parent@));
    }
    out
}

} // verus!

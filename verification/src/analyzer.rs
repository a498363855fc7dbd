//! The required-field analysis: which dotted paths are required, not
//! skipped, not defaulted, and still absent from (or null in) the partially
//! merged tree. The command line demands exactly these paths.

use vstd::prelude::*;

use crate::meta::ConfigMeta;
use crate::meta::FieldMeta;
use crate::meta::SpecField;
use crate::meta::field_view;
use crate::meta::fields_view;
use crate::meta::lemma_fields_view_index;
use crate::paths::absent_or_null;
use crate::paths::get_nested_value;
use crate::value::SpecValue;
use crate::value::Value;
use crate::value::lemma_value_view_variant;

verus! {

broadcast use vstd::std_specs::vec::group_vec_axioms;

/// The missing-required paths one field contributes: nothing when skipped, a
/// nested field delegates to its sub-schema, and a leaf contributes its path
/// exactly when it is required, has no default, and is absent or null.
pub open spec fn spec_missing_field(f: SpecField, tree: SpecValue) -> Seq<Seq<char>>
    decreases f,
{
    if f.skip {
        Seq::empty()
    } else if f.nested {
        match f.sub {
            Some(m) => spec_missing(m.fields, tree),
            None => Seq::empty(),
        }
    } else if f.required && !f.has_default && absent_or_null(tree, f.path) {
        seq![f.path]
    } else {
        Seq::empty()
    }
}

/// The missing-required paths of a field list, in field order.
pub open spec fn spec_missing(fs: Seq<SpecField>, tree: SpecValue) -> Seq<Seq<char>>
    decreases fs,
{
    if fs.len() == 0 {
        Seq::empty()
    } else {
        spec_missing_field(fs[0], tree) + spec_missing(fs.drop_first(), tree)
    }
}

/// `spec_missing` of a field list extended at the end.
proof fn lemma_spec_missing_snoc(fs: Seq<SpecField>, f: SpecField, tree: SpecValue)
    ensures
        spec_missing(fs.push(f), tree) == spec_missing(fs, tree) + spec_missing_field(f, tree),
    decreases fs,
{
    if fs.len() == 0 {
        assert(fs.push(f).drop_first() =~= fs);
        assert(spec_missing(fs.push(f), tree) =~= spec_missing(fs, tree) + spec_missing_field(
            f,
            tree,
        ));
    } else {
        assert(fs.push(f).drop_first() =~= fs.drop_first().push(f));
        lemma_spec_missing_snoc(fs.drop_first(), f, tree);
        assert(fs.push(f)[0] == fs[0]);
        assert(spec_missing(fs.push(f), tree) =~= spec_missing(fs, tree) + spec_missing_field(
            f,
            tree,
        ));
    }
}

/// The missing paths one field contributes, as the analysis computes them.
fn missing_in_field(f: &FieldMeta, tree: &Value) -> (r: Vec<String>)
    ensures
        r.deep_view() == spec_missing_field(field_view(*f), tree@),
    decreases *f,
{
    if f.skip {
        let r: Vec<String> = Vec::new();
        proof {
            assert(r.deep_view() =~= spec_missing_field(field_view(*f), tree@));
        }
        r
    } else if f.nested {
        match &f.sub {
            Some(m) => {
                proof {
                    assert(decreases_to!(*f => (*f).sub));
                    assert(decreases_to!((*f).sub => (*f).sub->0));
                    assert(decreases_to!((*f).sub->0 => (*f).sub->0.fields));
                }
                missing_in_fields(&m.fields, tree)
            },
            None => {
                let r: Vec<String> = Vec::new();
                proof {
                    assert(r.deep_view() =~= spec_missing_field(field_view(*f), tree@));
                }
                r
            },
        }
    } else if f.required && !f.has_default {
        let gone: bool = match get_nested_value(tree, f.path.as_str()) {
            None => true,
            Some(v) => match v {
                Value::Null => true,
                _ => {
                    proof {
                        lemma_value_view_variant(*v);
                    }
                    false
                },
            },
        };
        if gone {
            let mut r: Vec<String> = Vec::new();
            r.push(f.path.clone());
            proof {
                assert(r.deep_view() =~= spec_missing_field(field_view(*f), tree@));
            }
            r
        } else {
            let r: Vec<String> = Vec::new();
            proof {
                assert(r.deep_view() =~= spec_missing_field(field_view(*f), tree@));
            }
            r
        }
    } else {
        let r: Vec<String> = Vec::new();
        proof {
            assert(r.deep_view() =~= spec_missing_field(field_view(*f), tree@));
        }
        r
    }
}

/// The missing paths of a whole field list.
fn missing_in_fields(fields: &Vec<FieldMeta>, tree: &Value) -> (r: Vec<String>)
    ensures
        r.deep_view() == spec_missing(fields_view(fields@), tree@),
    decreases *fields,
{
    let mut out: Vec<String> = Vec::new();
    let mut i: usize = 0;
    proof {
        lemma_fields_view_index(fields@);
    }
    while i < fields.len()
        invariant
            i <= fields@.len(),
            fields_view(fields@).len() == fields@.len(),
            forall|j: int| 0 <= j < fields@.len() ==> fields_view(fields@)[j] == field_view(
                fields@[j],
            ),
            out.deep_view() == spec_missing(fields_view(fields@).subrange(0, i as int), tree@),
        decreases fields@.len() - i,
    {
        proof {
            assert(decreases_to!(*fields => fields@));
            assert(decreases_to!(fields@ => fields@[i as int]));
        }
        let part = missing_in_field(&fields[i], tree);
        let ghost fsv = fields_view(fields@);
        proof {
            assert(fsv.subrange(0, i + 1) =~= fsv.subrange(0, i as int).push(fsv[i as int]));
            lemma_spec_missing_snoc(fsv.subrange(0, i as int), fsv[i as int], tree@);
        }
        let ghost out_before = out.deep_view();
        proof {
            assert(out.deep_view() =~= out_before + part.deep_view().subrange(0, 0));
        }
        let mut k: usize = 0;
        while k < part.len()
            invariant
                k <= part@.len(),
                part.deep_view().len() == part@.len(),
                out.deep_view() == out_before + part.deep_view().subrange(0, k as int),
            decreases part@.len() - k,
        {
            let ghost prev_dv = out.deep_view();
            let item = part[k].clone();
            proof {
                assert(item@ == part.deep_view()[k as int]);
            }
            out.push(item);
            proof {
                assert(out.deep_view().len() == prev_dv.len() + 1);
                assert(forall|l: int|
                    0 <= l < prev_dv.len() ==> #[trigger] out.deep_view()[l] == prev_dv[l]);
                assert(out.deep_view()[prev_dv.len() as int] == part.deep_view()[k as int]);
                assert(out.deep_view() =~= out_before + part.deep_view().subrange(0, k + 1));
            }
            k = k + 1;
        }
        proof {
            assert(part.deep_view().subrange(0, part@.len() as int) =~= part.deep_view());
            assert(out.deep_view() =~= spec_missing(fsv.subrange(0, i + 1), tree@));
        }
        i = i + 1;
    }
    proof {
        assert(fields_view(fields@).subrange(0, fields@.len() as int) =~= fields_view(fields@));
    }
    out
}

/// The set of dotted paths that are required, not skipped, not defaulted,
/// and absent or null in the tree, in schema order.
pub fn find_missing_required_fields(meta: &ConfigMeta, tree: &Value) -> (r: Vec<String>)
    ensures
        r.deep_view() == spec_missing(meta@.fields, tree@),
{
    missing_in_fields(&meta.fields, tree)
}

/// Whether the analysis can reach `g` from `f`: nothing under a skipped
/// field is reached, a nested field hands over to its sub-schema, and a
/// plain field reaches only itself.
pub open spec fn field_reaches(f: SpecField, g: SpecField) -> bool
    decreases f,
{
    if f.skip {
        false
    } else if f.nested {
        match f.sub {
            Some(m) => fields_reach(m.fields, g),
            None => false,
        }
    } else {
        f == g
    }
}

/// Whether the analysis can reach `g` from any field of the list.
pub open spec fn fields_reach(fs: Seq<SpecField>, g: SpecField) -> bool
    decreases fs,
{
    if fs.len() == 0 {
        false
    } else {
        field_reaches(fs[0], g) || fields_reach(fs.drop_first(), g)
    }
}

/// Membership in a concatenation.
proof fn lemma_contains_concat(a: Seq<Seq<char>>, b: Seq<Seq<char>>, x: Seq<char>)
    ensures
        (a + b).contains(x) <==> a.contains(x) || b.contains(x),
{
    if a.contains(x) {
        let i = choose|i: int| 0 <= i < a.len() && a[i] == x;
        assert((a + b)[i] == x);
    }
    if b.contains(x) {
        let i = choose|i: int| 0 <= i < b.len() && b[i] == x;
        assert((a + b)[a.len() + i] == x);
    }
    if (a + b).contains(x) {
        let i = choose|i: int| 0 <= i < (a + b).len() && (a + b)[i] == x;
        if i < a.len() {
            assert(a[i] == x);
        } else {
            assert(b[i - a.len()] == x);
        }
    }
}

/// Law: what the missing-required set holds. A path is reported exactly when
/// the analysis reaches a field bearing it that is required, carries no
/// default, is not skipped, and is absent from or null in the tree.
pub proof fn lemma_missing_characterized(fs: Seq<SpecField>, tree: SpecValue, p: Seq<char>)
    ensures
        spec_missing(fs, tree).contains(p) <==> exists|g: SpecField|
            fields_reach(fs, g) && g.path == p && g.required && !g.has_default && absent_or_null(
                tree,
                p,
            ),
    decreases fs,
{
    if fs.len() == 0 {
    } else {
        lemma_missing_field_characterized(fs[0], tree, p);
        lemma_missing_characterized(fs.drop_first(), tree, p);
        lemma_contains_concat(spec_missing_field(fs[0], tree), spec_missing(
            fs.drop_first(),
            tree,
        ), p);
        if spec_missing(fs, tree).contains(p) {
            if spec_missing_field(fs[0], tree).contains(p) {
                let g = choose|g: SpecField|
                    field_reaches(fs[0], g) && g.path == p && g.required && !g.has_default
                        && absent_or_null(tree, p);
                assert(fields_reach(fs, g));
            } else {
                let g = choose|g: SpecField|
                    fields_reach(fs.drop_first(), g) && g.path == p && g.required
                        && !g.has_default && absent_or_null(tree, p);
                assert(fields_reach(fs, g));
            }
        }
        if exists|g: SpecField|
            fields_reach(fs, g) && g.path == p && g.required && !g.has_default && absent_or_null(
                tree,
                p,
            ) {
            let g = choose|g: SpecField|
                fields_reach(fs, g) && g.path == p && g.required && !g.has_default
                    && absent_or_null(tree, p);
            if field_reaches(fs[0], g) {
                assert(exists|h: SpecField|
                    field_reaches(fs[0], h) && h.path == p && h.required && !h.has_default
                        && absent_or_null(tree, p));
            } else {
                assert(fields_reach(fs.drop_first(), g));
                assert(exists|h: SpecField|
                    fields_reach(fs.drop_first(), h) && h.path == p && h.required
                        && !h.has_default && absent_or_null(tree, p));
            }
            assert(spec_missing(fs, tree).contains(p));
        }
    }
}

/// Law: what one field contributes, characterized through reachability.
pub proof fn lemma_missing_field_characterized(f: SpecField, tree: SpecValue, p: Seq<char>)
    ensures
        spec_missing_field(f, tree).contains(p) <==> exists|g: SpecField|
            field_reaches(f, g) && g.path == p && g.required && !g.has_default && absent_or_null(
                tree,
                p,
            ),
    decreases f,
{
    if f.skip {
    } else if f.nested {
        match f.sub {
            Some(m) => {
                lemma_missing_characterized(m.fields, tree, p);
                if spec_missing_field(f, tree).contains(p) {
                    let g = choose|g: SpecField|
                        fields_reach(m.fields, g) && g.path == p && g.required && !g.has_default
                            && absent_or_null(tree, p);
                    assert(field_reaches(f, g));
                    assert(exists|h: SpecField|
                        field_reaches(f, h) && h.path == p && h.required && !h.has_default
                            && absent_or_null(tree, p));
                }
                if exists|g: SpecField|
                    field_reaches(f, g) && g.path == p && g.required && !g.has_default
                        && absent_or_null(tree, p) {
                    let g = choose|g: SpecField|
                        field_reaches(f, g) && g.path == p && g.required && !g.has_default
                            && absent_or_null(tree, p);
                    assert(fields_reach(m.fields, g));
                    assert(exists|h: SpecField|
                        fields_reach(m.fields, h) && h.path == p && h.required && !h.has_default
                            && absent_or_null(tree, p));
                }
            },
            None => {},
        }
    } else {
        if f.required && !f.has_default && absent_or_null(tree, f.path) {
            assert(spec_missing_field(f, tree) == seq![f.path]);
            assert(spec_missing_field(f, tree)[0] == f.path);
            if p == f.path {
                assert(field_reaches(f, f));
                assert(spec_missing_field(f, tree).contains(p));
                assert(exists|g: SpecField|
                    field_reaches(f, g) && g.path == p && g.required && !g.has_default
                        && absent_or_null(tree, p));
            } else {
                assert(!spec_missing_field(f, tree).contains(p));
            }
        } else {
            assert(spec_missing_field(f, tree).len() == 0);
        }
        if exists|g: SpecField|
            field_reaches(f, g) && g.path == p && g.required && !g.has_default && absent_or_null(
                tree,
                p,
            ) {
            let g = choose|g: SpecField|
                field_reaches(f, g) && g.path == p && g.required && !g.has_default
                    && absent_or_null(tree, p);
            assert(g == f);
            assert(spec_missing_field(f, tree) == seq![f.path]);
            assert(spec_missing_field(f, tree)[0] == p);
            assert(spec_missing_field(f, tree).contains(p));
        }
    }
}

/// A field the analysis reaches is itself neither skipped nor nested.
pub proof fn lemma_reached_is_plain(fs: Seq<SpecField>, g: SpecField)
    requires
        fields_reach(fs, g),
    ensures
        !g.skip,
        !g.nested,
    decreases fs,
{
    if fs.len() > 0 {
        if field_reaches(fs[0], g) {
            lemma_field_reached_is_plain(fs[0], g);
        } else {
            lemma_reached_is_plain(fs.drop_first(), g);
        }
    }
}

proof fn lemma_field_reached_is_plain(f: SpecField, g: SpecField)
    requires
        field_reaches(f, g),
    ensures
        !g.skip,
        !g.nested,
    decreases f,
{
    if !f.skip && f.nested {
        match f.sub {
            Some(m) => {
                lemma_reached_is_plain(m.fields, g);
            },
            None => {},
        }
    }
}

/// Law: a field with a declared default is never reported missing. The
/// hypothesis that no other reachable field bears the same path is the
/// schema invariant: dotted paths are globally unique.
pub proof fn lemma_default_never_missing(fs: Seq<SpecField>, tree: SpecValue, g: SpecField)
    requires
        g.has_default,
        forall|h: SpecField|
            fields_reach(fs, h) && (#[trigger] h.path) == g.path ==> h == g,
    ensures
        !spec_missing(fs, tree).contains(g.path),
{
    lemma_missing_characterized(fs, tree, g.path);
    if spec_missing(fs, tree).contains(g.path) {
        let h = choose|h: SpecField|
            fields_reach(fs, h) && h.path == g.path && h.required && !h.has_default
                && absent_or_null(tree, g.path);
        assert(h == g);
    }
}

/// Law: a skipped field is never reported missing, under the same
/// unique-path schema invariant.
pub proof fn lemma_skip_never_missing(fs: Seq<SpecField>, tree: SpecValue, g: SpecField)
    requires
        g.skip,
        forall|h: SpecField|
            fields_reach(fs, h) && (#[trigger] h.path) == g.path ==> h == g,
    ensures
        !spec_missing(fs, tree).contains(g.path),
{
    lemma_missing_characterized(fs, tree, g.path);
    if spec_missing(fs, tree).contains(g.path) {
        let h = choose|h: SpecField|
            fields_reach(fs, h) && h.path == g.path && h.required && !h.has_default
                && absent_or_null(tree, g.path);
        assert(h == g);
        lemma_reached_is_plain(fs, h);
    }
}

/// Law: an optional field is never reported missing, under the same
/// unique-path schema invariant.
pub proof fn lemma_optional_never_missing(fs: Seq<SpecField>, tree: SpecValue, g: SpecField)
    requires
        !g.required,
        forall|h: SpecField|
            fields_reach(fs, h) && (#[trigger] h.path) == g.path ==> h == g,
    ensures
        !spec_missing(fs, tree).contains(g.path),
{
    lemma_missing_characterized(fs, tree, g.path);
    if spec_missing(fs, tree).contains(g.path) {
        let h = choose|h: SpecField|
            fields_reach(fs, h) && h.path == g.path && h.required && !h.has_default
                && absent_or_null(tree, g.path);
        assert(h == g);
    }
}

} // verus!

//! The environment layer: which variables to consult for a schema, and the
//! value tree built from the ones that are set.
//!
//! Reading the process environment is the application's job; the library
//! computes the exact variable names and turns the values handed back into a
//! tree, so the mapping itself is verified.

use vstd::prelude::*;

use crate::merge::lemma_spec_merge_wf;
use crate::merge::merge;
use crate::merge::spec_merge;
use crate::meta::ConfigMeta;
use crate::meta::FieldMeta;
use crate::meta::SpecField;
use crate::meta::field_view;
use crate::meta::fields_view;
use crate::meta::lemma_fields_view_index;
use crate::paths::leaf_tree;
use crate::paths::lemma_leaf_tree_wf;
use crate::paths::spec_leaf_tree;
use crate::scalar::parse_scalar;
use crate::scalar::spec_parse_scalar;
use crate::text::env_var_name;
use crate::text::spec_env_var_name;
use crate::text::split_on;
use crate::value::SpecValue;
use crate::value::Value;
use crate::value::value_wf;

verus! {

broadcast use vstd::std_specs::vec::group_vec_axioms;

/// One variable the environment layer consults: the field's dotted path and
/// the variable's name.
#[derive(Debug)]
pub struct EnvRequest {
    pub path: String,
    pub var: String,
}

impl View for EnvRequest {
    type V = (Seq<char>, Seq<char>);

    open spec fn view(&self) -> (Seq<char>, Seq<char>) {
        (self.path@, self.var@)
    }
}

/// The models of a request list.
pub open spec fn requests_view(rs: Seq<EnvRequest>) -> Seq<(Seq<char>, Seq<char>)> {
    rs.map_values(|e: EnvRequest| e@)
}

/// The element-wise characterization of `requests_view`.
pub broadcast proof fn lemma_requests_view_index(rs: Seq<EnvRequest>)
    ensures
        (#[trigger] requests_view(rs)).len() == rs.len(),
        forall|i: int| 0 <= i < rs.len() ==> requests_view(rs)[i] == rs[i]@,
{
}

/// `requests_view` of a list extended by one request.
proof fn lemma_requests_view_push(rs: Seq<EnvRequest>, e: EnvRequest)
    ensures
        requests_view(rs.push(e)) == requests_view(rs).push(e@),
{
    assert(requests_view(rs.push(e)) =~= requests_view(rs).push(e@));
}

/// The requests one field contributes: none when skipped, a nested field
/// delegates to its sub-schema, and a leaf asks for its path's variable.
pub open spec fn spec_env_requests_field(f: SpecField, prefix: Option<Seq<char>>) -> Seq<
    (Seq<char>, Seq<char>),
>
    decreases f,
{
    if f.skip {
        Seq::empty()
    } else if f.nested {
        match f.sub {
            Some(m) => spec_env_requests(m.fields, prefix),
            None => Seq::empty(),
        }
    } else {
        seq![(f.path, spec_env_var_name(prefix, f.path))]
    }
}

/// The requests of a field list, in field order.
pub open spec fn spec_env_requests(fs: Seq<SpecField>, prefix: Option<Seq<char>>) -> Seq<
    (Seq<char>, Seq<char>),
>
    decreases fs,
{
    if fs.len() == 0 {
        Seq::empty()
    } else {
        spec_env_requests_field(fs[0], prefix) + spec_env_requests(fs.drop_first(), prefix)
    }
}

/// `spec_env_requests` of a field list extended at the end.
proof fn lemma_env_requests_snoc(fs: Seq<SpecField>, f: SpecField, prefix: Option<Seq<char>>)
    ensures
        spec_env_requests(fs.push(f), prefix) == spec_env_requests(fs, prefix)
            + spec_env_requests_field(f, prefix),
    decreases fs,
{
    if fs.len() == 0 {
        assert(fs.push(f).drop_first() =~= fs);
        assert(spec_env_requests(fs.push(f), prefix) =~= spec_env_requests(fs, prefix)
            + spec_env_requests_field(f, prefix));
    } else {
        assert(fs.push(f).drop_first() =~= fs.drop_first().push(f));
        lemma_env_requests_snoc(fs.drop_first(), f, prefix);
        assert(fs.push(f)[0] == fs[0]);
        assert(spec_env_requests(fs.push(f), prefix) =~= spec_env_requests(fs, prefix)
            + spec_env_requests_field(f, prefix));
    }
}

fn env_requests_in_field(f: &FieldMeta, prefix: Option<&str>) -> (r: Vec<EnvRequest>)
    ensures
        requests_view(r@) == spec_env_requests_field(
            field_view(*f),
            match prefix {
                None => None,
                Some(p) => Some(p@),
            },
        ),
    decreases *f,
{
    let ghost pv: Option<Seq<char>> = match prefix {
        None => None,
        Some(p) => Some(p@),
    };
    if f.skip {
        let r: Vec<EnvRequest> = Vec::new();
        proof {
            broadcast use lemma_requests_view_index;

            assert(requests_view(r@) =~= spec_env_requests_field(
                field_view(*f),
                pv,
            ));
        }
        r
    } else if f.nested {
        match &f.sub {
            Some(m) => {
                proof {
                    assert(decreases_to!(*f => (*f).sub));
                    assert(decreases_to!((*f).sub => (*f).sub->0));
                    assert(decreases_to!((*f).sub->0 => (*f).sub->0.fields));
                }
                env_requests_in_fields(&m.fields, prefix)
            },
            None => {
                let r: Vec<EnvRequest> = Vec::new();
                proof {
                    broadcast use lemma_requests_view_index;

                    assert(requests_view(r@) =~= spec_env_requests_field(
                        field_view(*f),
                        pv,
                    ));
                }
                r
            },
        }
    } else {
        let var = env_var_name(prefix, f.path.as_str());
        let mut r: Vec<EnvRequest> = Vec::new();
        r.push(EnvRequest { path: f.path.clone(), var });
        proof {
            broadcast use lemma_requests_view_index;

            assert(requests_view(r@) =~= spec_env_requests_field(
                field_view(*f),
                pv,
            ));
        }
        r
    }
}

#[verifier::loop_isolation(false)]
fn env_requests_in_fields(fields: &Vec<FieldMeta>, prefix: Option<&str>) -> (r: Vec<EnvRequest>)
    ensures
        requests_view(r@) == spec_env_requests(
            fields_view(fields@),
            match prefix {
                None => None,
                Some(p) => Some(p@),
            },
        ),
    decreases *fields,
{
    let ghost pv: Option<Seq<char>> = match prefix {
        None => None,
        Some(p) => Some(p@),
    };
    let mut out: Vec<EnvRequest> = Vec::new();
    let mut i: usize = 0;
    proof {
        broadcast use lemma_requests_view_index;

        lemma_fields_view_index(fields@);
        assert(requests_view(out@) =~= spec_env_requests(
            fields_view(fields@).subrange(0, 0),
            pv,
        ));
    }
    while i < fields.len()
        invariant
            i <= fields@.len(),
            fields_view(fields@).len() == fields@.len(),
            forall|j: int| 0 <= j < fields@.len() ==> fields_view(fields@)[j] == field_view(
                fields@[j],
            ),
            requests_view(out@) == spec_env_requests(
                fields_view(fields@).subrange(0, i as int),
                pv,
            ),
        decreases fields@.len() - i,
    {
        proof {
            assert(decreases_to!(*fields => fields@));
            assert(decreases_to!(fields@ => fields@[i as int]));
        }
        let part = env_requests_in_field(&fields[i], prefix);
        let ghost fsv = fields_view(fields@);
        proof {
            assert(fsv.subrange(0, i + 1) =~= fsv.subrange(0, i as int).push(fsv[i as int]));
            lemma_env_requests_snoc(fsv.subrange(0, i as int), fsv[i as int], pv);
        }
        let ghost out_before = requests_view(out@);
        let ghost part_v = requests_view(part@);
        proof {
            broadcast use lemma_requests_view_index;

            assert(requests_view(out@) =~= out_before + part_v.subrange(0, 0));
        }
        let mut k: usize = 0;
        while k < part.len()
            invariant
                k <= part@.len(),
                part_v == requests_view(part@),
                part_v.len() == part@.len(),
                requests_view(out@) == out_before + part_v.subrange(0, k as int),
            decreases part@.len() - k,
        {
            let ghost prev_rs = out@;
            let e = &part[k];
            out.push(EnvRequest { path: e.path.clone(), var: e.var.clone() });
            proof {
                broadcast use lemma_requests_view_index;

                let tail = out@[out@.len() - 1];
                assert(out@ == prev_rs.push(tail));
                assert(tail@ == part_v[k as int]);
                lemma_requests_view_push(prev_rs, tail);
                assert(requests_view(out@) == (out_before + part_v.subrange(0, k as int)).push(
                    part_v[k as int],
                ));
                assert((out_before + part_v.subrange(0, k as int)).push(part_v[k as int])
                    =~= out_before + part_v.subrange(0, k as int).push(part_v[k as int]));
                assert(part_v.subrange(0, k as int).push(part_v[k as int]) =~= part_v.subrange(
                    0,
                    k + 1,
                ));
                assert(requests_view(out@) == out_before + part_v.subrange(0, k + 1));
            }
            k = k + 1;
        }
        proof {
            broadcast use lemma_requests_view_index;

            assert(part_v.subrange(0, part@.len() as int) =~= part_v);
            assert(requests_view(out@) == out_before + part_v);
            assert(fsv[i as int] == field_view(fields@[i as int]));
            assert(part_v == requests_view(part@));
            assert(requests_view(part@) == spec_env_requests_field(
                field_view(fields@[i as int]),
                pv,
            ));
            assert(part_v == spec_env_requests_field(fsv[i as int], pv));
            assert(requests_view(out@) == spec_env_requests(
                fsv.subrange(0, i + 1),
                pv,
            ));
        }
        i = i + 1;
    }
    proof {
        assert(fields_view(fields@).subrange(0, fields@.len() as int) =~= fields_view(fields@));
    }
    out
}

/// Every variable the environment layer consults for the schema, with the
/// field path it feeds, in schema order.
pub fn env_requests(meta: &ConfigMeta, prefix: Option<&str>) -> (r: Vec<EnvRequest>)
    ensures
        requests_view(r@) == spec_env_requests(
            meta@.fields,
            match prefix {
                None => None,
                Some(p) => Some(p@),
            },
        ),
{
    env_requests_in_fields(&meta.fields, prefix)
}

/// The tree the found environment variables contribute: each value parsed by
/// the shared scalar rule, bound at the field's exploded path, merged left
/// to right over an empty object.
pub open spec fn spec_env_tree(pairs: Seq<(Seq<char>, Seq<char>)>) -> SpecValue
    decreases pairs.len(),
{
    if pairs.len() == 0 {
        SpecValue::Object(Seq::empty())
    } else {
        spec_merge(
            spec_env_tree(pairs.drop_last()),
            spec_leaf_tree(
                split_on(pairs.last().0, '.'),
                spec_parse_scalar(pairs.last().1),
            ),
        )
    }
}

/// Build the environment layer's tree from the variables that were set,
/// handed over as (dotted path, raw value) pairs. The result is always a
/// well-formed tree.
#[verifier::loop_isolation(false)]
pub fn env_tree(found: &Vec<(String, String)>) -> (r: Value)
    ensures
        r@ == spec_env_tree(found.deep_view()),
        value_wf(r@),
{
    let ghost all = found.deep_view();
    let mut acc = Value::Object(Vec::new());
    let mut i: usize = 0;
    proof {
        assert(acc@ == spec_env_tree(all.subrange(0, 0)));
        assert(value_wf(acc@));
    }
    while i < found.len()
        invariant
            all == found.deep_view(),
            all.len() == found@.len(),
            forall|j: int| 0 <= j < found@.len() ==> all[j] == (found@[j].0@, found@[j].1@),
            i <= found@.len(),
            acc@ == spec_env_tree(all.subrange(0, i as int)),
            value_wf(acc@),
        decreases found@.len() - i,
    {
        let (path, raw) = &found[i];
        let leaf = parse_scalar(raw.as_str());
        let contribution = leaf_tree(path.as_str(), leaf);
        proof {
            lemma_leaf_tree_wf(crate::text::split_on(path@, '.'), leaf@);
            lemma_spec_merge_wf(acc@, contribution@);
        }
        let merged = merge(&acc, &contribution);
        proof {
            let pre = all.subrange(0, i as int);
            assert(all.subrange(0, i + 1).drop_last() =~= pre);
            assert(all.subrange(0, i + 1).last() == all[i as int]);
        }
        acc = merged;
        i = i + 1;
    }
    proof {
        assert(all.subrange(0, all.len() as int) =~= all);
    }
    acc
}

} // verus!

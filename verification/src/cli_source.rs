//! The command-line layer: the flag schema synthesized from the field
//! metadata, with requiredness taken from the live missing-required set, and
//! the value tree built from the matches the argument-syntax engine hands
//! back.
//!
//! Parsing the actual argument strings is the engine's job (and the
//! application's); the flag schema construction, the requiredness decision
//! and the conversion of raw matches into a tree are verified.

use vstd::prelude::*;

use crate::analyzer::find_missing_required_fields;
use crate::analyzer::spec_missing;
use crate::merge::lemma_spec_merge_wf;
use crate::merge::merge;
use crate::merge::spec_merge;
use crate::meta::ConfigMeta;
use crate::meta::FieldMeta;
use crate::meta::SpecField;
use crate::meta::TypeTag;
use crate::meta::field_view;
use crate::meta::fields_view;
use crate::meta::lemma_fields_view_index;
use crate::paths::leaf_tree;
use crate::paths::lemma_leaf_tree_wf;
use crate::paths::spec_leaf_tree;
use crate::scalar::parse_scalar;
use crate::scalar::spec_parse_scalar;
use crate::text::kebab_name;
use crate::text::spec_kebab;
use crate::text::split_on;
use crate::value::SpecValue;
use crate::value::Value;
use crate::value::list_view;
use crate::value::list_wf;
use crate::value::value_view;
use crate::value::lemma_list_view_index;
use crate::value::lemma_list_wf_index;
use crate::value::value_wf;

verus! {

broadcast use vstd::std_specs::vec::group_vec_axioms;

/// One long-form command-line flag derived from a field.
#[derive(Debug)]
pub struct FlagSpec {
    /// The dotted path of the field the flag feeds.
    pub path: String,
    /// The flag's long name: the kebab-cased field name.
    pub long: String,
    /// Whether the command line must supply the flag.
    pub required: bool,
    /// Whether the flag is a boolean switch: presence means true.
    pub switch: bool,
    /// Whether the flag may repeat, accumulating into a sequence.
    pub multiple: bool,
}

/// The model of a flag.
pub struct SpecFlag {
    pub path: Seq<char>,
    pub long: Seq<char>,
    pub required: bool,
    pub switch: bool,
    pub multiple: bool,
}

impl View for FlagSpec {
    type V = SpecFlag;

    open spec fn view(&self) -> SpecFlag {
        SpecFlag {
            path: self.path@,
            long: self.long@,
            required: self.required,
            switch: self.switch,
            multiple: self.multiple,
        }
    }
}

/// The models of a flag list.
pub open spec fn flags_view(fs: Seq<FlagSpec>) -> Seq<SpecFlag> {
    fs.map_values(|f: FlagSpec| f@)
}

/// The element-wise characterization of `flags_view`.
pub broadcast proof fn lemma_flags_view_index(fs: Seq<FlagSpec>)
    ensures
        (#[trigger] flags_view(fs)).len() == fs.len(),
        forall|i: int| 0 <= i < fs.len() ==> flags_view(fs)[i] == fs[i]@,
{
}

/// `flags_view` of a list extended by one flag.
proof fn lemma_flags_view_push(fs: Seq<FlagSpec>, f: FlagSpec)
    ensures
        flags_view(fs.push(f)) == flags_view(fs).push(f@),
{
    assert(flags_view(fs.push(f)) =~= flags_view(fs).push(f@));
}

/// The flag one leaf field yields: its long name is the kebab-cased field
/// name, it is mandatory exactly when the field's path is in the
/// missing-required set, booleans become switches, and sequences become
/// appending flags.
pub open spec fn spec_flag_of_field(f: SpecField, missing: Seq<Seq<char>>) -> SpecFlag {
    SpecFlag {
        path: f.path,
        long: spec_kebab(f.name),
        required: missing.contains(f.path),
        switch: f.ty == TypeTag::Boolean,
        multiple: f.ty == TypeTag::Sequence,
    }
}

/// The flags one field contributes: none when skipped, a nested field
/// delegates to its sub-schema, and a leaf yields one flag.
pub open spec fn spec_flag_specs_field(f: SpecField, missing: Seq<Seq<char>>) -> Seq<SpecFlag>
    decreases f,
{
    if f.skip {
        Seq::empty()
    } else if f.nested {
        match f.sub {
            Some(m) => spec_flag_specs(m.fields, missing),
            None => Seq::empty(),
        }
    } else {
        seq![spec_flag_of_field(f, missing)]
    }
}

/// The flags of a field list, in field order.
pub open spec fn spec_flag_specs(fs: Seq<SpecField>, missing: Seq<Seq<char>>) -> Seq<SpecFlag>
    decreases fs,
{
    if fs.len() == 0 {
        Seq::empty()
    } else {
        spec_flag_specs_field(fs[0], missing) + spec_flag_specs(fs.drop_first(), missing)
    }
}

/// `spec_flag_specs` of a field list extended at the end.
proof fn lemma_flag_specs_snoc(fs: Seq<SpecField>, f: SpecField, missing: Seq<Seq<char>>)
    ensures
        spec_flag_specs(fs.push(f), missing) == spec_flag_specs(fs, missing)
            + spec_flag_specs_field(f, missing),
    decreases fs,
{
    if fs.len() == 0 {
        assert(fs.push(f).drop_first() =~= fs);
        assert(spec_flag_specs(fs.push(f), missing) =~= spec_flag_specs(fs, missing)
            + spec_flag_specs_field(f, missing));
    } else {
        assert(fs.push(f).drop_first() =~= fs.drop_first().push(f));
        lemma_flag_specs_snoc(fs.drop_first(), f, missing);
        assert(fs.push(f)[0] == fs[0]);
        assert(spec_flag_specs(fs.push(f), missing) =~= spec_flag_specs(fs, missing)
            + spec_flag_specs_field(f, missing));
    }
}

/// Whether the missing-required list holds this path.
#[verifier::loop_isolation(false)]
fn contains_path(missing: &Vec<String>, path: &String) -> (r: bool)
    ensures
        r == missing.deep_view().contains(path@),
{
    let mut i: usize = 0;
    while i < missing.len()
        invariant
            i <= missing@.len(),
            forall|j: int| 0 <= j < i ==> missing.deep_view()[j] != path@,
        decreases missing@.len() - i,
    {
        if missing[i] == *path {
            proof {
                assert(missing.deep_view()[i as int] == path@);
            }
            return true;
        }
        i = i + 1;
    }
    proof {
        if missing.deep_view().contains(path@) {
            let j = choose|j: int|
                0 <= j < missing.deep_view().len() && missing.deep_view()[j] == path@;
        }
    }
    false
}

#[verifier::loop_isolation(false)]
fn flags_in_field(f: &FieldMeta, missing: &Vec<String>) -> (r: Vec<FlagSpec>)
    ensures
        flags_view(r@) == spec_flag_specs_field(field_view(*f), missing.deep_view()),
    decreases *f,
{
    let ghost mv = missing.deep_view();
    if f.skip {
        let r: Vec<FlagSpec> = Vec::new();
        proof {
            broadcast use lemma_flags_view_index;

            assert(flags_view(r@) =~= spec_flag_specs_field(field_view(*f), mv));
        }
        r
    } else if f.nested {
        match &f.sub {
            Some(m) => {
                proof {
                    assert(decreases_to!(*f => (*f).sub));
                    assert(decreases_to!((*f).sub => (*f).sub->0));
                    assert(decreases_to!((*f).sub->0 => (*f).sub->0.fields));
                }
                flags_in_fields(&m.fields, missing)
            },
            None => {
                let r: Vec<FlagSpec> = Vec::new();
                proof {
                    broadcast use lemma_flags_view_index;

                    assert(flags_view(r@) =~= spec_flag_specs_field(field_view(*f), mv));
                }
                r
            },
        }
    } else {
        let required = contains_path(missing, &f.path);
        let is_switch = f.ty == TypeTag::Boolean;
        let is_multiple = f.ty == TypeTag::Sequence;
        let flag = FlagSpec {
            path: f.path.clone(),
            long: kebab_name(f.name.as_str()),
            required,
            switch: is_switch,
            multiple: is_multiple,
        };
        let mut r: Vec<FlagSpec> = Vec::new();
        r.push(flag);
        proof {
            broadcast use lemma_flags_view_index;

            assert(r@[0]@ == spec_flag_of_field(field_view(*f), mv));
            assert(flags_view(r@) =~= spec_flag_specs_field(field_view(*f), mv));
        }
        r
    }
}

#[verifier::loop_isolation(false)]
fn flags_in_fields(fields: &Vec<FieldMeta>, missing: &Vec<String>) -> (r: Vec<FlagSpec>)
    ensures
        flags_view(r@) == spec_flag_specs(fields_view(fields@), missing.deep_view()),
    decreases *fields,
{
    let ghost mv = missing.deep_view();
    let mut out: Vec<FlagSpec> = Vec::new();
    let mut i: usize = 0;
    proof {
        lemma_fields_view_index(fields@);
        assert(flags_view(out@) =~= spec_flag_specs(fields_view(fields@).subrange(0, 0), mv));
    }
    while i < fields.len()
        invariant
            i <= fields@.len(),
            flags_view(out@) == spec_flag_specs(fields_view(fields@).subrange(0, i as int), mv),
        decreases fields@.len() - i,
    {
        proof {
            assert(decreases_to!(*fields => fields@));
            assert(decreases_to!(fields@ => fields@[i as int]));
        }
        let part = flags_in_field(&fields[i], missing);
        let ghost fsv = fields_view(fields@);
        let ghost out_before = flags_view(out@);
        let ghost part_v = flags_view(part@);
        proof {
            assert(fsv.subrange(0, i + 1) =~= fsv.subrange(0, i as int).push(fsv[i as int]));
            lemma_flag_specs_snoc(fsv.subrange(0, i as int), fsv[i as int], mv);
            broadcast use lemma_flags_view_index;

        }
        let mut k: usize = 0;
        while k < part.len()
            invariant
                k <= part@.len(),
                flags_view(out@) == out_before + part_v.subrange(0, k as int),
            decreases part@.len() - k,
        {
            let ghost prev_fs = out@;
            let e = &part[k];
            out.push(
                FlagSpec {
                    path: e.path.clone(),
                    long: e.long.clone(),
                    required: e.required,
                    switch: e.switch,
                    multiple: e.multiple,
                },
            );
            proof {
                broadcast use lemma_flags_view_index;

                let tail = out@[out@.len() - 1];
                assert(out@ == prev_fs.push(tail));
                assert(tail@ == part_v[k as int]);
                lemma_flags_view_push(prev_fs, tail);
                assert((out_before + part_v.subrange(0, k as int)).push(part_v[k as int])
                    =~= out_before + part_v.subrange(0, k as int).push(part_v[k as int]));
                assert(part_v.subrange(0, k as int).push(part_v[k as int]) =~= part_v.subrange(
                    0,
                    k + 1,
                ));
                assert(flags_view(out@) == out_before + part_v.subrange(0, k + 1));
            }
            k = k + 1;
        }
        proof {
            broadcast use lemma_flags_view_index;

            assert(part_v.subrange(0, part@.len() as int) =~= part_v);
            assert(flags_view(out@) == spec_flag_specs(fsv.subrange(0, i + 1), mv));
        }
        i = i + 1;
    }
    proof {
        assert(fields_view(fields@).subrange(0, fields@.len() as int) =~= fields_view(fields@));
    }
    out
}

/// The flag schema for one load: every non-skipped leaf field becomes a
/// long-form flag, mandatory exactly when the required-field analysis finds
/// its path missing from the tree merged so far.
pub fn build_flag_specs(meta: &ConfigMeta, tree: &Value) -> (r: Vec<FlagSpec>)
    ensures
        flags_view(r@) == spec_flag_specs(
            meta@.fields,
            spec_missing(meta@.fields, tree@),
        ),
{
    let missing = find_missing_required_fields(meta, tree);
    flags_in_fields(&meta.fields, &missing)
}

/// First flag with the given long name, if any.
pub open spec fn find_flag(flags: Seq<SpecFlag>, long: Seq<char>) -> Option<SpecFlag>
    decreases flags,
{
    if flags.len() == 0 {
        None
    } else if flags[0].long == long {
        Some(flags[0])
    } else {
        find_flag(flags.drop_first(), long)
    }
}

/// `find_flag` returns the first match.
proof fn lemma_find_flag_at_first(flags: Seq<SpecFlag>, long: Seq<char>, i: int)
    requires
        0 <= i < flags.len(),
        flags[i].long == long,
        forall|j: int| 0 <= j < i ==> (#[trigger] flags[j]).long != long,
    ensures
        find_flag(flags, long) == Some(flags[i]),
    decreases flags,
{
    if i > 0 {
        assert(forall|j: int| 0 <= j < flags.drop_first().len() ==> #[trigger] flags.drop_first()[j]
            == flags[j + 1]);
        lemma_find_flag_at_first(flags.drop_first(), long, i - 1);
    }
}

/// Without a match, `find_flag` finds nothing.
proof fn lemma_find_flag_none(flags: Seq<SpecFlag>, long: Seq<char>)
    requires
        forall|j: int| 0 <= j < flags.len() ==> (#[trigger] flags[j]).long != long,
    ensures
        find_flag(flags, long) is None,
    decreases flags,
{
    if flags.len() > 0 {
        assert(forall|j: int| 0 <= j < flags.drop_first().len() ==> #[trigger] flags.drop_first()[j]
            == flags[j + 1]);
        lemma_find_flag_none(flags.drop_first(), long);
    }
}

/// Index of the first flag with the given long name, if any.
#[verifier::loop_isolation(false)]
fn find_flag_index(flags: &Vec<FlagSpec>, long: &String) -> (r: Option<usize>)
    ensures
        match r {
            Some(i) => i < flags@.len() && find_flag(flags_view(flags@), long@) == Some(
                flags@[i as int]@,
            ),
            None => find_flag(flags_view(flags@), long@) is None,
        },
{
    proof {
        broadcast use lemma_flags_view_index;

    }
    let mut i: usize = 0;
    while i < flags.len()
        invariant
            i <= flags@.len(),
            forall|j: int| 0 <= j < i ==> (#[trigger] flags_view(flags@)[j]).long != long@,
        decreases flags@.len() - i,
    {
        if flags[i].long == *long {
            proof {
                lemma_find_flag_at_first(flags_view(flags@), long@, i as int);
            }
            return Some(i);
        }
        i = i + 1;
    }
    proof {
        lemma_find_flag_none(flags_view(flags@), long@);
    }
    None
}

/// The leaf value one matched flag contributes: a switch is simply true, an
/// appending flag collects every occurrence, parsed, into a list, and any
/// other flag takes its last occurrence, parsed; a non-switch flag without
/// occurrences contributes nothing.
pub open spec fn spec_cli_leaf(fl: SpecFlag, values: Seq<Seq<char>>) -> Option<SpecValue> {
    if fl.switch {
        Some(SpecValue::Bool(true))
    } else if fl.multiple {
        Some(SpecValue::List(values.map_values(|v: Seq<char>| spec_parse_scalar(v))))
    } else if values.len() > 0 {
        Some(spec_parse_scalar(values.last()))
    } else {
        None
    }
}

/// The tree the command-line matches contribute: each match is resolved
/// against the flag schema by its long name (an unknown name contributes
/// nothing), its leaf value is bound at the flag's exploded path, and the
/// results are merged left to right over an empty object.
pub open spec fn spec_cli_tree(
    flags: Seq<SpecFlag>,
    ms: Seq<(Seq<char>, Seq<Seq<char>>)>,
) -> SpecValue
    decreases ms.len(),
{
    if ms.len() == 0 {
        SpecValue::Object(Seq::empty())
    } else {
        let acc = spec_cli_tree(flags, ms.drop_last());
        match find_flag(flags, ms.last().0) {
            None => acc,
            Some(fl) => match spec_cli_leaf(fl, ms.last().1) {
                None => acc,
                Some(leaf) => spec_merge(
                    acc,
                    spec_leaf_tree(split_on(fl.path, '.'), leaf),
                ),
            },
        }
    }
}

/// Build the command-line layer's tree from the raw matches the engine
/// hands back, as (long name, occurrences) pairs in match order. The result
/// is always a well-formed tree.
#[verifier::loop_isolation(false)]
pub fn cli_tree(flags: &Vec<FlagSpec>, matched: &Vec<(String, Vec<String>)>) -> (r: Value)
    ensures
        r@ == spec_cli_tree(flags_view(flags@), matched.deep_view()),
        value_wf(r@),
{
    let ghost fv = flags_view(flags@);
    let ghost mv = matched.deep_view();
    let mut acc = Value::Object(Vec::new());
    let mut i: usize = 0;
    proof {
        assert(acc@ == spec_cli_tree(fv, mv.subrange(0, 0)));
        assert(value_wf(acc@));
    }
    while i < matched.len()
        invariant
            i <= matched@.len(),
            acc@ == spec_cli_tree(fv, mv.subrange(0, i as int)),
            value_wf(acc@),
        decreases matched@.len() - i,
    {
        let (long, values) = &matched[i];
        proof {
            assert(mv.len() == matched@.len());
            assert(mv[i as int] == (matched@[i as int].0@, matched@[i as int].1.deep_view()));
            assert(mv.subrange(0, i + 1).drop_last() =~= mv.subrange(0, i as int));
            assert(mv.subrange(0, i + 1).last() == mv[i as int]);
        }
        match find_flag_index(flags, long) {
            None => {},
            Some(fi) => {
                let flag = &flags[fi];
                let leaf: Option<Value> = if flag.switch {
                    Some(Value::Bool(true))
                } else if flag.multiple {
                    let mut items: Vec<Value> = Vec::new();
                    let mut k: usize = 0;
                    while k < values.len()
                        invariant
                            k <= values@.len(),
                            items@.len() == k,
                            forall|l: int| 0 <= l < k ==> items@[l]@ == spec_parse_scalar(
                                values@[l]@,
                            ),
                            forall|l: int| 0 <= l < k ==> value_wf(value_view(
                                #[trigger] items@[l],
                            )),
                        decreases values@.len() - k,
                    {
                        items.push(parse_scalar(values[k].as_str()));
                        k = k + 1;
                    }
                    proof {
                        lemma_list_view_index(items@);
                        assert(list_view(items@) =~= values.deep_view().map_values(
                            |v: Seq<char>| spec_parse_scalar(v),
                        ));
                        broadcast use lemma_list_wf_index;

                        assert(forall|l: int|
                            0 <= l < items@.len() ==> value_wf(value_view(#[trigger] items@[l])));
                        assert(forall|l: int|
                            0 <= l < list_view(items@).len() ==> value_wf(
                                #[trigger] list_view(items@)[l],
                            ));
                        assert(list_wf(list_view(items@)));
                        assert(value_wf(Value::List(items)@));
                    }
                    Some(Value::List(items))
                } else if values.len() > 0 {
                    let last = &values[values.len() - 1];
                    proof {
                        assert(values.deep_view().last() == values@[values@.len() - 1]@);
                    }
                    Some(parse_scalar(last.as_str()))
                } else {
                    None
                };
                match leaf {
                    None => {},
                    Some(leaf_val) => {
                        proof {
                            lemma_leaf_tree_wf(split_on(flag.path@, '.'), leaf_val@);
                        }
                        let contribution = leaf_tree(flag.path.as_str(), leaf_val);
                        proof {
                            lemma_spec_merge_wf(acc@, contribution@);
                        }
                        let merged = merge(&acc, &contribution);
                        acc = merged;
                    },
                }
            },
        }
        i = i + 1;
    }
    proof {
        assert(mv.subrange(0, mv.len() as int) =~= mv);
    }
    acc
}

} // verus!

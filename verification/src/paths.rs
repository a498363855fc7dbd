//! Dotted-path navigation and construction of value trees.

use vstd::prelude::*;

use crate::text::split_on;
use crate::text::split_path;
use crate::value::SpecValue;
use crate::value::Value;
use crate::value::entries_get;
use crate::value::entries_view;
use crate::value::lemma_entries_get_at_first;
use crate::value::lemma_entries_get_index;
use crate::value::lemma_entries_view_index;
use crate::value::lemma_value_view_variant;
use crate::value::obj_find;
use crate::value::entries_wf;
use crate::value::value_view;
use crate::value::value_wf;

verus! {

broadcast use vstd::std_specs::vec::group_vec_axioms;

/// Following path segments through nested objects: nothing is found as soon
/// as an intermediate node is absent or not an object.
pub open spec fn lookup_path(tree: SpecValue, segs: Seq<Seq<char>>) -> Option<SpecValue>
    decreases segs.len(),
{
    if segs.len() == 0 {
        Some(tree)
    } else {
        match tree {
            SpecValue::Object(es) => match entries_get(es, segs[0]) {
                Some(child) => lookup_path(child, segs.drop_first()),
                None => None,
            },
            _ => None,
        }
    }
}

/// Whether a dotted path is absent from the tree or bound to null: the test
/// the required-field analysis applies.
pub open spec fn absent_or_null(tree: SpecValue, path: Seq<char>) -> bool {
    match lookup_path(tree, split_on(path, '.')) {
        None => true,
        Some(v) => v is Null,
    }
}

/// The value under a dotted path, if every intermediate node is an object
/// binding the next segment.
pub fn get_nested_value<'a>(tree: &'a Value, path: &str) -> (r: Option<&'a Value>)
    ensures
        match r {
            Some(v) => lookup_path(tree@, split_on(path@, '.')) == Some(v@),
            None => lookup_path(tree@, split_on(path@, '.')) is None,
        },
{
    let segs = split_path(path);
    let ghost all = segs.deep_view();
    let mut cur: &Value = tree;
    let mut i: usize = 0;
    proof {
        assert(all.subrange(0, all.len() as int) =~= all);
    }
    while i < segs.len()
        invariant
            all == segs.deep_view(),
            all == split_on(path@, '.'),
            all.len() == segs@.len(),
            forall|j: int| 0 <= j < segs@.len() ==> all[j] == segs@[j]@,
            i <= segs@.len(),
            lookup_path(tree@, all) == lookup_path(cur@, all.subrange(i as int, all.len() as int)),
        decreases segs@.len() - i,
    {
        let ghost rest = all.subrange(i as int, all.len() as int);
        proof {
            assert(rest[0] == all[i as int]);
            assert(rest.drop_first() =~= all.subrange(i + 1, all.len() as int));
        }
        match cur {
            Value::Object(es) => {
                proof {
                    lemma_entries_view_index(es@);
                }
                match obj_find(es, &segs[i]) {
                    Some(j) => {
                        proof {
                            lemma_entries_get_at_first(entries_view(es@), all[i as int], j as int);
                        }
                        cur = &es[j].1;
                    },
                    None => {
                        proof {
                            lemma_entries_get_index(entries_view(es@), all[i as int]);
                        }
                        return None;
                    },
                }
            },
            _ => {
                proof {
                    lemma_value_view_variant(*cur);
                }
                return None;
            },
        }
        i = i + 1;
    }
    proof {
        assert(all.subrange(i as int, all.len() as int).len() == 0);
    }
    Some(cur)
}

/// The tree that binds one dotted path to one leaf: each segment becomes a
/// one-entry object around the next.
pub open spec fn spec_leaf_tree(segs: Seq<Seq<char>>, leaf: SpecValue) -> SpecValue
    decreases segs.len(),
{
    if segs.len() == 0 {
        leaf
    } else {
        SpecValue::Object(seq![(segs[0], spec_leaf_tree(segs.drop_first(), leaf))])
    }
}

/// A one-path tree is well-formed whenever its leaf is.
pub proof fn lemma_leaf_tree_wf(segs: Seq<Seq<char>>, leaf: SpecValue)
    requires
        value_wf(leaf),
    ensures
        value_wf(spec_leaf_tree(segs, leaf)),
    decreases segs.len(),
{
    if segs.len() > 0 {
        lemma_leaf_tree_wf(segs.drop_first(), leaf);
        let es = seq![(segs[0], spec_leaf_tree(segs.drop_first(), leaf))];
        assert(entries_wf(es) == (value_wf(es.first().1) && entries_wf(es.drop_first())));
        assert(es.drop_first() =~= Seq::<(Seq<char>, SpecValue)>::empty());
    }
}

/// Build the tree that binds `path` (exploded at dots) to `leaf`.
pub fn leaf_tree(path: &str, leaf: Value) -> (r: Value)
    ensures
        r@ == spec_leaf_tree(split_on(path@, '.'), leaf@),
{
    let ghost leaf0 = leaf@;
    let segs = split_path(path);
    let ghost all = segs.deep_view();
    let mut cur = leaf;
    let mut i: usize = segs.len();
    while i > 0
        invariant
            all == segs.deep_view(),
            all == split_on(path@, '.'),
            all.len() == segs@.len(),
            forall|j: int| 0 <= j < segs@.len() ==> all[j] == segs@[j]@,
            i <= segs@.len(),
            cur@ == spec_leaf_tree(all.subrange(i as int, all.len() as int), leaf0),
        decreases i,
    {
        i = i - 1;
        let ghost rest = all.subrange(i as int, all.len() as int);
        let mut entries: Vec<(String, Value)> = Vec::new();
        entries.push((segs[i].clone(), cur));
        proof {
            assert(rest[0] == all[i as int]);
            assert(rest.drop_first() =~= all.subrange(i + 1, all.len() as int));
            lemma_entries_view_index(entries@);
            assert(entries_view(entries@) =~= seq![
                (all[i as int], spec_leaf_tree(rest.drop_first(), leaf0)),
            ]);
        }
        cur = Value::Object(entries);
    }
    proof {
        assert(all.subrange(0, all.len() as int) =~= all);
    }
    cur
}

} // verus!

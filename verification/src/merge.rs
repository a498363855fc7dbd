//! Deterministic deep merge of two value trees with overlay-wins semantics.
//!
//! When both sides are objects the merge recurses key by key; in every other
//! case the overlay value replaces the base value outright. Keys present only
//! in the overlay are appended after the base's keys, in overlay order.

use vstd::prelude::*;

use crate::value::SpecEntries;
use crate::value::SpecValue;
use crate::value::Value;
use crate::value::deep_copy;
use crate::value::entries_get;
use crate::value::entries_view;
use crate::value::has_key;
use crate::value::lemma_entries_get_at_first;
use crate::value::lemma_entries_get_index;
use crate::value::lemma_entries_view_index;
use crate::value::lemma_value_view_variant;
use crate::value::entries_wf;
use crate::value::obj_find;
use crate::value::unique_keys;
use crate::value::value_wf;
use crate::value::value_view;

verus! {

broadcast use vstd::std_specs::vec::group_vec_axioms;

/// The merge of two value models: objects merge entry-wise, anything else is
/// replaced by the overlay.
pub open spec fn spec_merge(base: SpecValue, overlay: SpecValue) -> SpecValue
    decreases base,
{
    if base is Object && overlay is Object {
        SpecValue::Object(
            merged_base(base->Object_0, overlay->Object_0) + only_new(
                overlay->Object_0,
                base->Object_0,
            ),
        )
    } else {
        overlay
    }
}

/// The base entries after the overlay has been applied to each of them.
pub open spec fn merged_base(bs: SpecEntries, os: SpecEntries) -> SpecEntries
    decreases bs,
{
    if bs.len() == 0 {
        Seq::empty()
    } else {
        seq![merged_entry(bs[0], os)] + merged_base(bs.drop_first(), os)
    }
}

/// One base entry after the overlay has been applied: if the overlay also
/// binds the key, the two values are merged, which replaces the base value
/// unless both are objects.
pub open spec fn merged_entry(e: (Seq<char>, SpecValue), os: SpecEntries) -> (Seq<char>, SpecValue)
    decreases e,
{
    match entries_get(os, e.0) {
        None => e,
        Some(ov) => (e.0, spec_merge(e.1, ov)),
    }
}

/// The overlay entries whose keys the base does not bind, in overlay order.
pub open spec fn only_new(os: SpecEntries, bs: SpecEntries) -> SpecEntries
    decreases os,
{
    if os.len() == 0 {
        Seq::empty()
    } else if has_key(bs, os[0].0) {
        only_new(os.drop_first(), bs)
    } else {
        seq![os[0]] + only_new(os.drop_first(), bs)
    }
}

/// Element-wise characterization of `merged_base`.
pub broadcast proof fn lemma_merged_base_index(bs: SpecEntries, os: SpecEntries)
    ensures
        (#[trigger] merged_base(bs, os)).len() == bs.len(),
        forall|i: int| 0 <= i < bs.len() ==> merged_base(bs, os)[i] == merged_entry(bs[i], os),
    decreases bs,
{
    if bs.len() > 0 {
        lemma_merged_base_index(bs.drop_first(), os);
        assert(forall|j: int| 1 <= j < bs.len() ==> #[trigger] bs[j] == bs.drop_first()[j - 1]);
    }
}

/// `only_new` grows by one entry exactly when the appended key is new.
pub proof fn lemma_only_new_snoc(os: SpecEntries, e: (Seq<char>, SpecValue), bs: SpecEntries)
    ensures
        only_new(os.push(e), bs) == only_new(os, bs) + (if has_key(bs, e.0) {
            Seq::<(Seq<char>, SpecValue)>::empty()
        } else {
            seq![e]
        }),
    decreases os,
{
    if os.len() == 0 {
        let p = os.push(e);
        assert(p.len() == 1);
        assert(p[0] == e);
        assert(p.drop_first() =~= Seq::<(Seq<char>, SpecValue)>::empty());
        assert(only_new(p.drop_first(), bs) == Seq::<(Seq<char>, SpecValue)>::empty());
        assert(only_new(os, bs) == Seq::<(Seq<char>, SpecValue)>::empty());
        if has_key(bs, e.0) {
            assert(only_new(p, bs) == only_new(p.drop_first(), bs));
            assert(only_new(p, bs) =~= only_new(os, bs) + Seq::<(Seq<char>, SpecValue)>::empty());
        } else {
            assert(only_new(p, bs) == seq![p[0]] + only_new(p.drop_first(), bs));
            assert(only_new(p, bs) =~= only_new(os, bs) + seq![e]);
        }
    } else {
        assert(os.push(e).drop_first() =~= os.drop_first().push(e));
        lemma_only_new_snoc(os.drop_first(), e, bs);
        if has_key(bs, os[0].0) {
        } else {
            if has_key(bs, e.0) {
                assert(only_new(os.push(e), bs) =~= only_new(os, bs) + Seq::<(
                    Seq<char>,
                    SpecValue,
                )>::empty());
            } else {
                assert(only_new(os.push(e), bs) =~= only_new(os, bs) + seq![e]);
            }
        }
    }
}

/// Looking a key up in a concatenation searches the left part first.
pub proof fn lemma_entries_get_concat(a: SpecEntries, b: SpecEntries, k: Seq<char>)
    ensures
        entries_get(a + b, k) == if has_key(a, k) {
            entries_get(a, k)
        } else {
            entries_get(b, k)
        },
    decreases a,
{
    if a.len() == 0 {
        assert(a + b =~= b);
    } else {
        assert((a + b).drop_first() =~= a.drop_first() + b);
        lemma_entries_get_concat(a.drop_first(), b, k);
    }
}

/// What `merged_base` binds: exactly the base's keys, each bound to the
/// merged entry's value.
pub proof fn lemma_merged_base_get(bs: SpecEntries, os: SpecEntries, k: Seq<char>)
    ensures
        entries_get(merged_base(bs, os), k) == match entries_get(bs, k) {
            None => None::<SpecValue>,
            Some(bv) => Some(merged_entry((k, bv), os).1),
        },
    decreases bs,
{
    if bs.len() > 0 {
        lemma_merged_base_get(bs.drop_first(), os, k);
        assert(merged_base(bs, os)[0] == merged_entry(bs[0], os));
        assert(merged_entry(bs[0], os).0 == bs[0].0);
        assert(merged_base(bs, os).drop_first() =~= merged_base(bs.drop_first(), os));
        if bs[0].0 == k {
            assert(bs[0] == (k, bs[0].1));
            assert(entries_get(merged_base(bs, os), k) == Some(merged_entry(bs[0], os).1));
        }
    }
}

/// The keys that `only_new` binds are the overlay keys the base lacks, bound
/// to the overlay values.
pub proof fn lemma_only_new_get(os: SpecEntries, bs: SpecEntries, k: Seq<char>)
    ensures
        !has_key(bs, k) ==> entries_get(only_new(os, bs), k) == entries_get(os, k),
        has_key(bs, k) ==> entries_get(only_new(os, bs), k) is None,
    decreases os,
{
    if os.len() > 0 {
        lemma_only_new_get(os.drop_first(), bs, k);
        if !has_key(bs, os[0].0) {
            assert(only_new(os, bs).drop_first() =~= only_new(os.drop_first(), bs));
        }
    }
}

/// The lookup law of the merge: a key present in both sides is bound to the
/// merge of the two values (so the overlay wins unless both are objects), a
/// key present in one side keeps that side's value, and no other key is
/// bound.
pub proof fn lemma_merge_entries_get(bs: SpecEntries, os: SpecEntries, k: Seq<char>)
    ensures
        entries_get(merged_base(bs, os) + only_new(os, bs), k) == match (
            entries_get(bs, k),
            entries_get(os, k),
        ) {
            (None, None) => None::<SpecValue>,
            (Some(bv), None) => Some(bv),
            (None, Some(ov)) => Some(ov),
            (Some(bv), Some(ov)) => Some(spec_merge(bv, ov)),
        },
{
    lemma_entries_get_concat(merged_base(bs, os), only_new(os, bs), k);
    lemma_merged_base_get(bs, os, k);
    lemma_only_new_get(os, bs, k);
}

/// Merging with an empty overlay leaves every base entry unchanged.
proof fn lemma_merged_base_empty(bs: SpecEntries)
    ensures
        merged_base(bs, Seq::empty()) == bs,
    decreases bs,
{
    if bs.len() > 0 {
        lemma_merged_base_empty(bs.drop_first());
        assert(merged_entry(bs[0], Seq::empty()) == bs[0]);
        assert(merged_base(bs, Seq::empty()) =~= bs);
    }
}

/// Every overlay entry is new relative to an empty base.
proof fn lemma_only_new_empty_base(os: SpecEntries)
    ensures
        only_new(os, Seq::empty()) == os,
    decreases os,
{
    if os.len() > 0 {
        lemma_only_new_empty_base(os.drop_first());
        assert(only_new(os, Seq::empty()) =~= os);
    }
}

/// Law: the keys of a merged object are the union of the two sides' keys.
pub proof fn lemma_merge_keys(a: SpecValue, b: SpecValue, k: Seq<char>)
    requires
        a is Object,
        b is Object,
    ensures
        spec_merge(a, b) is Object,
        has_key(spec_merge(a, b)->Object_0, k) <==> has_key(a->Object_0, k) || has_key(
            b->Object_0,
            k,
        ),
{
    lemma_merge_entries_get(a->Object_0, b->Object_0, k);
}

/// Law: what a merged object binds each key to. A key both sides bind is
/// bound to the merge of the two values — so the merge recurses exactly when
/// both values are objects, and the overlay's value wins otherwise — while a
/// key that only one side binds keeps that side's value.
pub proof fn lemma_merge_lookup(a: SpecValue, b: SpecValue, k: Seq<char>)
    requires
        a is Object,
        b is Object,
    ensures
        entries_get(spec_merge(a, b)->Object_0, k) == match (
            entries_get(a->Object_0, k),
            entries_get(b->Object_0, k),
        ) {
            (None, None) => None::<SpecValue>,
            (Some(bv), None) => Some(bv),
            (None, Some(ov)) => Some(ov),
            (Some(bv), Some(ov)) => Some(spec_merge(bv, ov)),
        },
{
    lemma_merge_entries_get(a->Object_0, b->Object_0, k);
}

/// Law: when either side is not an object, the overlay replaces the base
/// outright.
pub proof fn lemma_merge_overlay_wins(a: SpecValue, b: SpecValue)
    requires
        !(a is Object) || !(b is Object),
    ensures
        spec_merge(a, b) == b,
{
}

/// Law: an empty object overlay is a right identity on objects.
pub proof fn lemma_merge_empty_overlay(a: SpecValue)
    requires
        a is Object,
    ensures
        spec_merge(a, SpecValue::Object(Seq::empty())) == a,
{
    lemma_merged_base_empty(a->Object_0);
    assert(merged_base(a->Object_0, Seq::empty()) + only_new(Seq::empty(), a->Object_0)
        =~= a->Object_0);
}

/// Law: an empty object base is a left identity on every value.
pub proof fn lemma_merge_empty_base(b: SpecValue)
    ensures
        spec_merge(SpecValue::Object(Seq::empty()), b) == b,
{
    if b is Object {
        lemma_only_new_empty_base(b->Object_0);
        assert(merged_base(Seq::empty(), b->Object_0) + only_new(b->Object_0, Seq::empty())
            =~= b->Object_0);
    }
}

/// Law: the merge is not commutative. Whenever the two sides bind a common
/// key to different values of which at least one is not an object, the two
/// merge orders disagree.
pub proof fn lemma_merge_not_commutative(a: SpecValue, b: SpecValue, k: Seq<char>)
    requires
        a is Object,
        b is Object,
        entries_get(a->Object_0, k) is Some,
        entries_get(b->Object_0, k) is Some,
        entries_get(a->Object_0, k)->0 != entries_get(b->Object_0, k)->0,
        !(entries_get(a->Object_0, k)->0 is Object) || !(entries_get(b->Object_0, k)->0 is Object),
    ensures
        spec_merge(a, b) != spec_merge(b, a),
{
    let va = entries_get(a->Object_0, k)->0;
    let vb = entries_get(b->Object_0, k)->0;
    lemma_merge_lookup(a, b, k);
    lemma_merge_lookup(b, a, k);
    assert(spec_merge(va, vb) == vb);
    assert(spec_merge(vb, va) == va);
    assert(entries_get(spec_merge(a, b)->Object_0, k) == Some(vb));
    assert(entries_get(spec_merge(b, a)->Object_0, k) == Some(va));
}

/// `merged_base` keeps exactly the base's keys, in order.
proof fn lemma_merged_base_keys(bs: SpecEntries, os: SpecEntries)
    ensures
        merged_base(bs, os).len() == bs.len(),
        forall|i: int| 0 <= i < bs.len() ==> (#[trigger] merged_base(bs, os)[i]).0 == bs[i].0,
{
    lemma_merged_base_index(bs, os);
    assert forall|i: int| 0 <= i < bs.len() implies (#[trigger] merged_base(bs, os)[i]).0
        == bs[i].0 by {
        assert(merged_base(bs, os)[i] == merged_entry(bs[i], os));
    }
}

/// Every `only_new` entry is one of the overlay's entries, with a key the
/// base does not bind.
proof fn lemma_only_new_elements(os: SpecEntries, bs: SpecEntries)
    ensures
        forall|i: int| 0 <= i < only_new(os, bs).len() ==> (exists|j: int|
            0 <= j < os.len() && #[trigger] only_new(os, bs)[i] == os[j]) && !has_key(
            bs,
            only_new(os, bs)[i].0,
        ),
    decreases os,
{
    if os.len() > 0 {
        lemma_only_new_elements(os.drop_first(), bs);
        let rest = only_new(os.drop_first(), bs);
        assert(forall|j: int| 0 <= j < os.drop_first().len() ==> #[trigger] os.drop_first()[j]
            == os[j + 1]);
        if !has_key(bs, os[0].0) {
            assert(only_new(os, bs) == seq![os[0]] + rest);
            assert forall|i: int| 0 <= i < only_new(os, bs).len() implies (exists|j: int|
                0 <= j < os.len() && #[trigger] only_new(os, bs)[i] == os[j]) && !has_key(
                bs,
                only_new(os, bs)[i].0,
            ) by {
                if i == 0 {
                    assert(only_new(os, bs)[0] == os[0]);
                } else {
                    assert(only_new(os, bs)[i] == rest[i - 1]);
                    let j0 = choose|j: int|
                        0 <= j < os.drop_first().len() && #[trigger] rest[i - 1]
                            == os.drop_first()[j];
                    assert(only_new(os, bs)[i] == os[j0 + 1]);
                }
            }
        } else {
            assert forall|i: int| 0 <= i < only_new(os, bs).len() implies (exists|j: int|
                0 <= j < os.len() && #[trigger] only_new(os, bs)[i] == os[j]) && !has_key(
                bs,
                only_new(os, bs)[i].0,
            ) by {
                assert(only_new(os, bs)[i] == rest[i]);
                let j0 = choose|j: int|
                    0 <= j < os.drop_first().len() && #[trigger] rest[i] == os.drop_first()[j];
                assert(only_new(os, bs)[i] == os[j0 + 1]);
            }
        }
    }
}

/// `only_new` keeps the overlay's key uniqueness.
proof fn lemma_only_new_unique(os: SpecEntries, bs: SpecEntries)
    requires
        unique_keys(os),
    ensures
        unique_keys(only_new(os, bs)),
    decreases os,
{
    if os.len() > 0 {
        assert(forall|j: int| 0 <= j < os.drop_first().len() ==> #[trigger] os.drop_first()[j]
            == os[j + 1]);
        assert(unique_keys(os.drop_first()));
        lemma_only_new_unique(os.drop_first(), bs);
        let rest = only_new(os.drop_first(), bs);
        if !has_key(bs, os[0].0) {
            lemma_only_new_elements(os.drop_first(), bs);
            assert forall|j: int| 0 <= j < rest.len() implies (#[trigger] rest[j]).0 != os[0].0 by {
                let j0 = choose|l: int|
                    0 <= l < os.drop_first().len() && #[trigger] rest[j] == os.drop_first()[l];
                assert(rest[j] == os[j0 + 1]);
            }
            assert(only_new(os, bs) == seq![os[0]] + rest);
            assert(unique_keys(only_new(os, bs)));
        }
    }
}

/// Law: the merge of two well-formed trees is well-formed: every object
/// node of the result still has unique keys.
pub proof fn lemma_spec_merge_wf(a: SpecValue, b: SpecValue)
    requires
        value_wf(a),
        value_wf(b),
    ensures
        value_wf(spec_merge(a, b)),
    decreases a,
{
    broadcast use crate::value::lemma_entries_wf_index;

    if a is Object && b is Object {
        let bs = a->Object_0;
        let os = b->Object_0;
        let mpart = merged_base(bs, os);
        let npart = only_new(os, bs);
        assert(unique_keys(bs) && entries_wf(bs));
        assert(unique_keys(os) && entries_wf(os));
        lemma_merged_base_index(bs, os);
        lemma_merged_base_keys(bs, os);
        lemma_only_new_unique(os, bs);
        lemma_only_new_elements(os, bs);
        assert forall|i: int, j: int| 0 <= i < j < (mpart + npart).len() implies (mpart + npart)[i].0
            != (mpart + npart)[j].0 by {
            if j < mpart.len() {
                assert((mpart + npart)[i].0 == bs[i].0 && (mpart + npart)[j].0 == bs[j].0);
            } else if i >= mpart.len() {
                assert((mpart + npart)[i] == npart[i - mpart.len()]);
                assert((mpart + npart)[j] == npart[j - mpart.len()]);
            } else {
                assert((mpart + npart)[i].0 == bs[i].0);
                assert((mpart + npart)[j] == npart[j - mpart.len()]);
                assert(!has_key(bs, npart[j - mpart.len()].0));
                if bs[i].0 == npart[j - mpart.len()].0 {
                    lemma_entries_get_index(bs, bs[i].0);
                    assert(has_key(bs, bs[i].0));
                }
            }
        }
        assert(unique_keys(mpart + npart));
        assert forall|i: int| 0 <= i < (mpart + npart).len() implies value_wf(
            (#[trigger] (mpart + npart)[i]).1,
        ) by {
            if i < mpart.len() {
                assert((mpart + npart)[i] == merged_entry(bs[i], os));
                assert(value_wf(bs[i].1));
                match entries_get(os, bs[i].0) {
                    None => {},
                    Some(ov) => {
                        crate::value::lemma_entries_get_wf(os, bs[i].0);
                        assert(decreases_to!(a => a->Object_0));
                        assert(decreases_to!(a->Object_0 => a->Object_0[i]));
                        assert(decreases_to!(a->Object_0[i] => a->Object_0[i].1));
                        lemma_spec_merge_wf(bs[i].1, ov);
                    },
                }
            } else {
                let e = npart[i - mpart.len()];
                let j0 = choose|j: int| 0 <= j < os.len() && #[trigger] npart[i - mpart.len()]
                    == os[j];
                assert(value_wf(os[j0].1));
            }
        }
        assert(entries_wf(mpart + npart));
        assert(spec_merge(a, b) == SpecValue::Object(mpart + npart));
    }
}

/// Deep merge, with the overlay taking priority.
pub fn merge(base: &Value, overlay: &Value) -> (r: Value)
    ensures
        r@ == spec_merge(base@, overlay@),
    decreases *base,
{
    match (base, overlay) {
        (Value::Object(bes), Value::Object(oes)) => {
            let ghost bsv = entries_view(bes@);
            let ghost osv = entries_view(oes@);
            proof {
                lemma_entries_view_index(bes@);
                lemma_entries_view_index(oes@);
            }
            let mut out: Vec<(String, Value)> = Vec::new();
            let mut i: usize = 0;
            while i < bes.len()
                invariant
                    *base is Object,
                    *bes == (*base)->Object_0,
                    *overlay is Object,
                    *oes == (*overlay)->Object_0,
                    bsv == entries_view(bes@),
                    osv == entries_view(oes@),
                    bsv.len() == bes@.len(),
                    forall|j: int| 0 <= j < bes@.len() ==> bsv[j] == (
                        bes@[j].0@,
                        value_view(bes@[j].1),
                    ),
                    osv.len() == oes@.len(),
                    forall|j: int| 0 <= j < oes@.len() ==> osv[j] == (
                        oes@[j].0@,
                        value_view(oes@[j].1),
                    ),
                    i <= bes@.len(),
                    out@.len() == i,
                    forall|j: int| 0 <= j < i ==> (#[trigger] out@[j]).0@ == bsv[j].0 && value_view(
                        out@[j].1,
                    ) == merged_entry(bsv[j], osv).1,
                decreases bes@.len() - i,
            {
                let (k, bv) = &bes[i];
                match obj_find(oes, k) {
                    Some(j) => {
                        proof {
                            assert(decreases_to!(*base => (*base)->Object_0));
                            assert(decreases_to!((*base)->Object_0 => (*base)->Object_0[i as int]));
                            assert(decreases_to!((*base)->Object_0[i as int] => (*base)->Object_0[i as int].1));
                            lemma_entries_get_at_first(osv, k@, j as int);
                        }
                        let merged = merge(bv, &oes[j].1);
                        out.push((k.clone(), merged));
                    },
                    None => {
                        proof {
                            lemma_entries_get_index(osv, k@);
                            assert(entries_get(osv, k@) is None);
                        }
                        out.push((k.clone(), deep_copy(bv)));
                    },
                }
                i = i + 1;
            }
            proof {
                lemma_merged_base_index(bsv, osv);
                lemma_entries_view_index(out@);
                assert(entries_view(out@) =~= merged_base(bsv, osv));
            }
            let ghost first_len = out@.len();
            let mut j: usize = 0;
            while j < oes.len()
                invariant
                    *base is Object,
                    *bes == (*base)->Object_0,
                    *overlay is Object,
                    *oes == (*overlay)->Object_0,
                    bsv == entries_view(bes@),
                    osv == entries_view(oes@),
                    bsv.len() == bes@.len(),
                    forall|l: int| 0 <= l < bes@.len() ==> bsv[l] == (
                        bes@[l].0@,
                        value_view(bes@[l].1),
                    ),
                    osv.len() == oes@.len(),
                    forall|l: int| 0 <= l < oes@.len() ==> osv[l] == (
                        oes@[l].0@,
                        value_view(oes@[l].1),
                    ),
                    j <= oes@.len(),
                    entries_view(out@) == merged_base(bsv, osv) + only_new(
                        osv.subrange(0, j as int),
                        bsv,
                    ),
                decreases oes@.len() - j,
            {
                let (k, ov) = &oes[j];
                let ghost prefix = osv.subrange(0, j as int);
                proof {
                    assert(osv.subrange(0, j + 1) =~= prefix.push(osv[j as int]));
                    lemma_only_new_snoc(prefix, osv[j as int], bsv);
                }
                match obj_find(bes, k) {
                    Some(jb) => {
                        proof {
                            assert(bsv[jb as int].0 == k@);
                            lemma_entries_get_index(bsv, k@);
                            assert(has_key(bsv, k@));
                            assert(osv[j as int].0 == k@);
                            assert(only_new(osv.subrange(0, j + 1), bsv) =~= only_new(
                                prefix,
                                bsv,
                            ));
                        }
                    },
                    None => {
                        proof {
                            lemma_entries_get_index(bsv, k@);
                            assert(!has_key(bsv, k@));
                            assert(osv[j as int].0 == k@);
                        }
                        let ghost prev_out = out@;
                        let cloned = (k.clone(), deep_copy(ov));
                        proof {
                            assert((cloned.0@, value_view(cloned.1)) == osv[j as int]);
                        }
                        out.push(cloned);
                        proof {
                            let a = merged_base(bsv, osv);
                            let b = only_new(prefix, bsv);
                            let target = a + only_new(osv.subrange(0, j + 1), bsv);
                            assert(only_new(osv.subrange(0, j + 1), bsv) == b + seq![osv[j as int]]);
                            lemma_merged_base_index(bsv, osv);
                            lemma_entries_view_index(prev_out);
                            lemma_entries_view_index(out@);
                            assert(entries_view(prev_out) == a + b);
                            assert(out@.len() == prev_out.len() + 1);
                            assert(prev_out.len() == a.len() + b.len());
                            assert(forall|l: int| 0 <= l < prev_out.len() ==> out@[l] == #[trigger] prev_out[l]);
                            assert(forall|l: int|
                                0 <= l < prev_out.len() ==> #[trigger] entries_view(out@)[l]
                                    == entries_view(prev_out)[l]);
                            assert(entries_view(out@)[prev_out.len() as int] == osv[j as int]);
                            assert(forall|l: int|
                                0 <= l < target.len() ==> #[trigger] target[l] == entries_view(
                                    out@,
                                )[l]);
                            assert(entries_view(out@) =~= target);
                        }
                    },
                }
                j = j + 1;
            }
            proof {
                assert(osv.subrange(0, oes@.len() as int) =~= osv);
            }
            Value::Object(out)
        },
        _ => {
            proof {
                lemma_value_view_variant(*base);
                lemma_value_view_variant(*overlay);
            }
            deep_copy(overlay)
        },
    }
}

} // verus!

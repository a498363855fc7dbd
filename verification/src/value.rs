//! The semi-structured configuration value tree and its mathematical model.
//!
//! Every configuration source (file, environment, command line) is reduced to
//! a `Value` before the sources are merged; the merged tree is what validation
//! sees and what the final typed decoding consumes.

use vstd::prelude::*;

verus! {

broadcast use vstd::std_specs::vec::group_vec_axioms;

/// A semi-structured configuration value.
#[derive(Debug)]
pub enum Value {
    Null,
    Bool(bool),
    Int(i64),
    /// A non-integer number, kept as its decimal text.
    Float(String),
    Text(String),
    List(Vec<Value>),
    /// Ordered key/value entries; well-formed objects have unique keys.
    Object(Vec<(String, Value)>),
}

/// The mathematical model of a `Value`: strings become sequences of
/// characters, vectors become sequences.
pub enum SpecValue {
    Null,
    Bool(bool),
    Int(i64),
    Float(Seq<char>),
    Text(Seq<char>),
    List(Seq<SpecValue>),
    Object(Seq<(Seq<char>, SpecValue)>),
}

/// The model of one object node: ordered key/value pairs.
pub type SpecEntries = Seq<(Seq<char>, SpecValue)>;

pub open spec fn value_view(v: Value) -> SpecValue
    decreases v,
{
    match v {
        Value::Null => SpecValue::Null,
        Value::Bool(b) => SpecValue::Bool(b),
        Value::Int(i) => SpecValue::Int(i),
        Value::Float(t) => SpecValue::Float(t@),
        Value::Text(s) => SpecValue::Text(s@),
        Value::List(items) => SpecValue::List(list_view(items@)),
        Value::Object(entries) => SpecValue::Object(entries_view(entries@)),
    }
}

pub open spec fn list_view(items: Seq<Value>) -> Seq<SpecValue>
    decreases items,
{
    if items.len() == 0 {
        Seq::empty()
    } else {
        seq![value_view(items.first())] + list_view(items.drop_first())
    }
}

pub open spec fn entries_view(entries: Seq<(String, Value)>) -> SpecEntries
    decreases entries,
{
    if entries.len() == 0 {
        Seq::empty()
    } else {
        seq![(entries.first().0@, value_view(entries.first().1))] + entries_view(
            entries.drop_first(),
        )
    }
}

impl View for Value {
    type V = SpecValue;

    open spec fn view(&self) -> SpecValue {
        value_view(*self)
    }
}

impl DeepView for Value {
    type V = SpecValue;

    open spec fn deep_view(&self) -> SpecValue {
        value_view(*self)
    }
}

/// The element-wise characterization of `list_view`.
pub broadcast proof fn lemma_list_view_index(items: Seq<Value>)
    ensures
        (#[trigger] list_view(items)).len() == items.len(),
        forall|i: int| 0 <= i < items.len() ==> list_view(items)[i] == value_view(items[i]),
    decreases items,
{
    if items.len() > 0 {
        lemma_list_view_index(items.drop_first());
    }
}

/// The element-wise characterization of `entries_view`.
pub broadcast proof fn lemma_entries_view_index(entries: Seq<(String, Value)>)
    ensures
        (#[trigger] entries_view(entries)).len() == entries.len(),
        forall|i: int| 0 <= i < entries.len() ==> entries_view(entries)[i] == (
            entries[i].0@,
            value_view(entries[i].1),
        ),
    decreases entries,
{
    if entries.len() > 0 {
        lemma_entries_view_index(entries.drop_first());
    }
}

/// First-match lookup among the entries of an object node.
pub open spec fn entries_get(es: SpecEntries, k: Seq<char>) -> Option<SpecValue>
    decreases es,
{
    if es.len() == 0 {
        None
    } else if es.first().0 == k {
        Some(es.first().1)
    } else {
        entries_get(es.drop_first(), k)
    }
}

/// Whether an object node binds the key `k`.
pub open spec fn has_key(es: SpecEntries, k: Seq<char>) -> bool {
    entries_get(es, k) is Some
}

/// No two entries of the node bind the same key.
pub open spec fn unique_keys(es: SpecEntries) -> bool {
    forall|i: int, j: int| 0 <= i < j < es.len() ==> es[i].0 != es[j].0
}

/// Every object node of the tree has unique keys.
pub open spec fn value_wf(v: SpecValue) -> bool
    decreases v,
{
    match v {
        SpecValue::List(items) => list_wf(items),
        SpecValue::Object(es) => unique_keys(es) && entries_wf(es),
        _ => true,
    }
}

pub open spec fn list_wf(items: Seq<SpecValue>) -> bool
    decreases items,
{
    if items.len() == 0 {
        true
    } else {
        value_wf(items.first()) && list_wf(items.drop_first())
    }
}

pub open spec fn entries_wf(es: SpecEntries) -> bool
    decreases es,
{
    if es.len() == 0 {
        true
    } else {
        value_wf(es.first().1) && entries_wf(es.drop_first())
    }
}

/// The element-wise characterization of `list_wf`.
pub broadcast proof fn lemma_list_wf_index(items: Seq<SpecValue>)
    ensures
        #[trigger] list_wf(items) <==> (forall|i: int|
            0 <= i < items.len() ==> value_wf(#[trigger] items[i])),
    decreases items,
{
    if items.len() > 0 {
        lemma_list_wf_index(items.drop_first());
        assert(forall|j: int| 1 <= j < items.len() ==> #[trigger] items[j] == items.drop_first()[j
            - 1]);
        assert(forall|j: int|
            0 <= j < items.drop_first().len() ==> #[trigger] items.drop_first()[j] == items[j + 1]);
    }
}

/// The element-wise characterization of `entries_wf`.
pub broadcast proof fn lemma_entries_wf_index(es: SpecEntries)
    ensures
        #[trigger] entries_wf(es) <==> (forall|i: int|
            0 <= i < es.len() ==> value_wf((#[trigger] es[i]).1)),
    decreases es,
{
    if es.len() > 0 {
        lemma_entries_wf_index(es.drop_first());
        assert(forall|j: int| 1 <= j < es.len() ==> #[trigger] es[j] == es.drop_first()[j - 1]);
        assert(forall|j: int|
            0 <= j < es.drop_first().len() ==> #[trigger] es.drop_first()[j] == es[j + 1]);
    }
}

/// In a node whose values are all well-formed, whatever `entries_get` finds
/// is well-formed.
pub proof fn lemma_entries_get_wf(es: SpecEntries, k: Seq<char>)
    requires
        entries_wf(es),
        entries_get(es, k) is Some,
    ensures
        value_wf(entries_get(es, k)->0),
    decreases es,
{
    broadcast use lemma_entries_wf_index;

    if es.len() > 0 && es.first().0 != k {
        assert(forall|j: int|
            0 <= j < es.drop_first().len() ==> #[trigger] es.drop_first()[j] == es[j + 1]);
        lemma_entries_get_wf(es.drop_first(), k);
    }
}

/// First-match lookup described by indices: `entries_get` returns the value
/// of the first entry whose key matches, and `None` exactly when no key
/// matches.
pub proof fn lemma_entries_get_index(es: SpecEntries, k: Seq<char>)
    ensures
        (entries_get(es, k) is None) <==> (forall|i: int| 0 <= i < es.len() ==> (#[trigger] es[i]).0
            != k),
        entries_get(es, k) matches Some(v) ==> exists|i: int|
            0 <= i < es.len() && (#[trigger] es[i]).0 == k && es[i].1 == v && (forall|j: int|
                0 <= j < i ==> (#[trigger] es[j]).0 != k),
    decreases es,
{
    if es.len() > 0 {
        lemma_entries_get_index(es.drop_first(), k);
        assert(forall|j: int| 1 <= j < es.len() ==> #[trigger] es[j] == es.drop_first()[j - 1]);
        if es.first().0 != k {
            if entries_get(es, k) is Some {
                let v = entries_get(es, k)->0;
                let i0 = choose|i: int|
                    0 <= i < es.drop_first().len() && (#[trigger] es.drop_first()[i]).0 == k
                        && es.drop_first()[i].1 == v && (forall|j: int|
                        0 <= j < i ==> (#[trigger] es.drop_first()[j]).0 != k);
                assert(es[i0 + 1].0 == k && es[i0 + 1].1 == v);
                assert(forall|j: int| 0 <= j < i0 + 1 ==> (#[trigger] es[j]).0 != k);
            }
        }
    }
}

/// `entries_get` returns the value of the first entry binding `k`.
pub proof fn lemma_entries_get_at_first(es: SpecEntries, k: Seq<char>, i: int)
    requires
        0 <= i < es.len(),
        es[i].0 == k,
        forall|j: int| 0 <= j < i ==> (#[trigger] es[j]).0 != k,
    ensures
        entries_get(es, k) == Some(es[i].1),
    decreases es,
{
    if i == 0 {
    } else {
        assert(forall|j: int| 0 <= j < es.drop_first().len() ==> #[trigger] es.drop_first()[j]
            == es[j + 1]);
        lemma_entries_get_at_first(es.drop_first(), k, i - 1);
    }
}

/// Structural copy of a value, proved to preserve the model.
pub fn deep_copy(v: &Value) -> (r: Value)
    ensures
        r@ == v@,
    decreases *v,
{
    match v {
        Value::Null => Value::Null,
        Value::Bool(b) => Value::Bool(*b),
        Value::Int(i) => Value::Int(*i),
        Value::Float(t) => Value::Float(t.clone()),
        Value::Text(s) => Value::Text(s.clone()),
        Value::List(items) => {
            let mut out: Vec<Value> = Vec::new();
            let mut i: usize = 0;
            while i < items.len()
                invariant
                    *v is List,
                    *items == (*v)->List_0,
                    i <= items.len(),
                    out@.len() == i,
                    forall|j: int| 0 <= j < i ==> value_view(out@[j]) == value_view(items@[j]),
                decreases items.len() - i,
            {
                proof {
                    assert(decreases_to!(*v => (*v)->List_0));
                    assert(decreases_to!((*v)->List_0 => (*v)->List_0[i as int]));
                }
                out.push(deep_copy(&items[i]));
                i = i + 1;
            }
            proof {
                broadcast use lemma_list_view_index;

                assert(list_view(out@) =~= list_view(items@));
            }
            Value::List(out)
        },
        Value::Object(entries) => {
            let mut out: Vec<(String, Value)> = Vec::new();
            let mut i: usize = 0;
            while i < entries.len()
                invariant
                    *v is Object,
                    *entries == (*v)->Object_0,
                    i <= entries.len(),
                    out@.len() == i,
                    forall|j: int| 0 <= j < i ==> out@[j].0@ == entries@[j].0@ && value_view(
                        out@[j].1,
                    ) == value_view(entries@[j].1),
                decreases entries.len() - i,
            {
                proof {
                    assert(decreases_to!(*v => (*v)->Object_0));
                    assert(decreases_to!((*v)->Object_0 => (*v)->Object_0[i as int]));
                    assert(decreases_to!((*v)->Object_0[i as int] => (*v)->Object_0[i as int].1));
                }
                let (k, val) = &entries[i];
                out.push((k.clone(), deep_copy(val)));
                i = i + 1;
            }
            proof {
                broadcast use lemma_entries_view_index;

                assert(entries_view(out@) =~= entries_view(entries@));
            }
            Value::Object(out)
        },
    }
}

/// Index of the first entry whose key equals `key`, if any.
pub fn obj_find(entries: &Vec<(String, Value)>, key: &String) -> (r: Option<usize>)
    ensures
        match r {
            Some(j) => j < entries@.len() && entries@[j as int].0@ == key@ && (forall|l: int|
                0 <= l < j ==> (#[trigger] entries@[l]).0@ != key@),
            None => forall|l: int| 0 <= l < entries@.len() ==> (#[trigger] entries@[l]).0@ != key@,
        },
{
    let mut i: usize = 0;
    while i < entries.len()
        invariant
            i <= entries@.len(),
            forall|l: int| 0 <= l < i ==> (#[trigger] entries@[l]).0@ != key@,
        decreases entries@.len() - i,
    {
        if entries[i].0 == *key {
            return Some(i);
        }
        i = i + 1;
    }
    None
}

/// The model keeps the variant of the value.
pub broadcast proof fn lemma_value_view_variant(v: Value)
    ensures
        (#[trigger] value_view(v)) is Null <==> v is Null,
        value_view(v) is Bool <==> v is Bool,
        value_view(v) is Int <==> v is Int,
        value_view(v) is Float <==> v is Float,
        value_view(v) is Text <==> v is Text,
        value_view(v) is List <==> v is List,
        value_view(v) is Object <==> v is Object,
{
}

/// Structural equality of two values, decided on the models.
pub fn value_eq(a: &Value, b: &Value) -> (r: bool)
    ensures
        r == (a@ == b@),
    decreases *a,
{
    match (a, b) {
        (Value::Null, Value::Null) => true,
        (Value::Bool(x), Value::Bool(y)) => x == y,
        (Value::Int(x), Value::Int(y)) => x == y,
        (Value::Float(x), Value::Float(y)) => *x == *y,
        (Value::Text(x), Value::Text(y)) => *x == *y,
        (Value::List(xs), Value::List(ys)) => {
            if xs.len() != ys.len() {
                proof {
                    lemma_list_view_index(xs@);
                    lemma_list_view_index(ys@);
                }
                return false;
            }
            let mut i: usize = 0;
            while i < xs.len()
                invariant
                    *a is List,
                    *xs == (*a)->List_0,
                    *b is List,
                    *ys == (*b)->List_0,
                    xs@.len() == ys@.len(),
                    i <= xs@.len(),
                    forall|j: int| 0 <= j < i ==> value_view(xs@[j]) == value_view(ys@[j]),
                decreases xs@.len() - i,
            {
                proof {
                    assert(decreases_to!(*a => (*a)->List_0));
                    assert(decreases_to!((*a)->List_0 => (*a)->List_0[i as int]));
                }
                if !value_eq(&xs[i], &ys[i]) {
                    proof {
                        lemma_list_view_index(xs@);
                        lemma_list_view_index(ys@);
                        assert(list_view(xs@)[i as int] != list_view(ys@)[i as int]);
                    }
                    return false;
                }
                i = i + 1;
            }
            proof {
                lemma_list_view_index(xs@);
                lemma_list_view_index(ys@);
                assert(list_view(xs@) =~= list_view(ys@));
            }
            true
        },
        (Value::Object(xs), Value::Object(ys)) => {
            if xs.len() != ys.len() {
                proof {
                    lemma_entries_view_index(xs@);
                    lemma_entries_view_index(ys@);
                }
                return false;
            }
            let mut i: usize = 0;
            while i < xs.len()
                invariant
                    *a is Object,
                    *xs == (*a)->Object_0,
                    *b is Object,
                    *ys == (*b)->Object_0,
                    xs@.len() == ys@.len(),
                    i <= xs@.len(),
                    forall|j: int| 0 <= j < i ==> xs@[j].0@ == ys@[j].0@ && value_view(xs@[j].1)
                        == value_view(ys@[j].1),
                decreases xs@.len() - i,
            {
                proof {
                    assert(decreases_to!(*a => (*a)->Object_0));
                    assert(decreases_to!((*a)->Object_0 => (*a)->Object_0[i as int]));
                    assert(decreases_to!((*a)->Object_0[i as int] => (*a)->Object_0[i as int].1));
                }
                let keys_equal = xs[i].0 == ys[i].0;
                if !keys_equal {
                    proof {
                        lemma_entries_view_index(xs@);
                        lemma_entries_view_index(ys@);
                        assert(entries_view(xs@)[i as int] != entries_view(ys@)[i as int]);
                    }
                    return false;
                }
                if !value_eq(&xs[i].1, &ys[i].1) {
                    proof {
                        lemma_entries_view_index(xs@);
                        lemma_entries_view_index(ys@);
                        assert(entries_view(xs@)[i as int] != entries_view(ys@)[i as int]);
                    }
                    return false;
                }
                i = i + 1;
            }
            proof {
                lemma_entries_view_index(xs@);
                lemma_entries_view_index(ys@);
                assert(entries_view(xs@) =~= entries_view(ys@));
            }
            true
        },
        _ => {
            proof {
                lemma_value_view_variant(*a);
                lemma_value_view_variant(*b);
            }
            false
        },
    }
}

} // verus!

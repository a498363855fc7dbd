use konfik::Value;
use konfik::paths::leaf_tree;
use konfik::value::deep_copy;
use konfik::value::obj_find;
use konfik::value::value_eq;

fn vobj(pairs: Vec<(&str, Value)>) -> Value {
    Value::Object(pairs.into_iter().map(|(k, v)| (k.to_string(), v)).collect())
}

#[test]
fn deep_copy_preserves_the_whole_tree() {
    let v = vobj(vec![
        ("n", Value::Null),
        ("b", Value::Bool(false)),
        ("i", Value::Int(-3)),
        ("f", Value::Float("2.5".to_string())),
        ("s", Value::Text("x".to_string())),
        ("l", Value::List(vec![Value::Int(1), vobj(vec![("k", Value::Int(2))])])),
    ]);
    let copy = deep_copy(&v);
    assert!(value_eq(&copy, &v));
}

#[test]
fn value_eq_distinguishes_variants_and_contents() {
    assert!(!value_eq(&Value::Int(1), &Value::Bool(true)));
    assert!(!value_eq(&Value::Int(1), &Value::Int(2)));
    assert!(!value_eq(
        &Value::Text("a".to_string()),
        &Value::Text("b".to_string()),
    ));
    assert!(!value_eq(
        &Value::List(vec![Value::Int(1)]),
        &Value::List(vec![Value::Int(1), Value::Int(2)]),
    ));
    assert!(!value_eq(
        &vobj(vec![("a", Value::Int(1))]),
        &vobj(vec![("b", Value::Int(1))]),
    ));
    assert!(value_eq(&Value::Null, &Value::Null));
}

#[test]
fn object_lookup_finds_the_first_match() {
    let entries = vec![
        ("a".to_string(), Value::Int(1)),
        ("b".to_string(), Value::Int(2)),
    ];
    assert_eq!(obj_find(&entries, &"b".to_string()), Some(1));
    assert_eq!(obj_find(&entries, &"missing".to_string()), None);
}

#[test]
fn leaf_trees_explode_each_segment() {
    let t = leaf_tree("a.b", Value::Int(7));
    let expected = vobj(vec![("a", vobj(vec![("b", Value::Int(7))]))]);
    assert!(value_eq(&t, &expected));
    let flat = leaf_tree("only", Value::Bool(true));
    assert!(value_eq(&flat, &vobj(vec![("only", Value::Bool(true))])));
}

use konfik::Value;
use konfik::merge::merge;
use konfik::value::value_eq;

fn mobj(pairs: Vec<(&str, Value)>) -> Value {
    Value::Object(pairs.into_iter().map(|(k, v)| (k.to_string(), v)).collect())
}

#[test]
fn merge_keys_are_the_union() {
    let a = mobj(vec![("x", Value::Int(1)), ("y", Value::Int(2))]);
    let b = mobj(vec![("y", Value::Int(3)), ("z", Value::Int(4))]);
    let m = merge(&a, &b);
    let expected = mobj(vec![("x", Value::Int(1)), ("y", Value::Int(3)), ("z", Value::Int(4))]);
    assert!(value_eq(&m, &expected));
}

#[test]
fn merge_recurses_through_three_levels() {
    let a = mobj(vec![(
        "l1",
        mobj(vec![(
            "l2",
            mobj(vec![("keep", Value::Int(1)), ("replace", Value::Int(2))]),
        )]),
    )]);
    let b = mobj(vec![(
        "l1",
        mobj(vec![(
            "l2",
            mobj(vec![("replace", Value::Int(20)), ("new", Value::Int(30))]),
        )]),
    )]);
    let m = merge(&a, &b);
    let expected = mobj(vec![(
        "l1",
        mobj(vec![(
            "l2",
            mobj(vec![
                ("keep", Value::Int(1)),
                ("replace", Value::Int(20)),
                ("new", Value::Int(30)),
            ]),
        )]),
    )]);
    assert!(value_eq(&m, &expected));
}

#[test]
fn merge_overlay_wins_for_non_maps() {
    let a = mobj(vec![("x", mobj(vec![("inner", Value::Int(1))]))]);
    let b = mobj(vec![("x", Value::Bool(true))]);
    let m = merge(&a, &b);
    let expected = mobj(vec![("x", Value::Bool(true))]);
    assert!(value_eq(&m, &expected));

    let m2 = merge(&Value::Int(7), &mobj(vec![("k", Value::Null)]));
    assert!(value_eq(&m2, &mobj(vec![("k", Value::Null)])));
}

#[test]
fn merge_replaces_arrays_entirely() {
    let a = mobj(vec![("xs", Value::List(vec![Value::Int(1), Value::Int(2)]))]);
    let b = mobj(vec![("xs", Value::List(vec![Value::Int(3)]))]);
    let m = merge(&a, &b);
    let expected = mobj(vec![("xs", Value::List(vec![Value::Int(3)]))]);
    assert!(value_eq(&m, &expected));
}

#[test]
fn merge_with_empty_overlay_is_identity_on_maps() {
    let a = mobj(vec![("x", Value::Int(1)), ("y", mobj(vec![("z", Value::Null)]))]);
    let m = merge(&a, &mobj(vec![]));
    assert!(value_eq(&m, &a));
}

#[test]
fn merge_with_empty_base_yields_the_overlay() {
    let b = mobj(vec![("x", Value::Int(1))]);
    let m = merge(&mobj(vec![]), &b);
    assert!(value_eq(&m, &b));
    let scalar = Value::Text("s".to_string());
    let m2 = merge(&mobj(vec![]), &scalar);
    assert!(value_eq(&m2, &scalar));
}

#[test]
fn merge_is_not_commutative_on_conflicts() {
    let a = mobj(vec![("port", Value::Int(80))]);
    let b = mobj(vec![("port", Value::Int(8080))]);
    let ab = merge(&a, &b);
    let ba = merge(&b, &a);
    assert!(!value_eq(&ab, &ba));
    assert!(value_eq(&ab, &mobj(vec![("port", Value::Int(8080))])));
    assert!(value_eq(&ba, &mobj(vec![("port", Value::Int(80))])));
}

#[test]
fn merge_keeps_base_order_and_appends_new_keys() {
    let a = mobj(vec![("b", Value::Int(1)), ("a", Value::Int(2))]);
    let b = mobj(vec![("c", Value::Int(3)), ("a", Value::Int(9))]);
    let m = merge(&a, &b);
    match &m {
        Value::Object(entries) => {
            let keys: Vec<&str> = entries.iter().map(|(k, _)| k.as_str()).collect();
            assert_eq!(keys, vec!["b", "a", "c"]);
        }
        _ => panic!("expected an object"),
    }
}

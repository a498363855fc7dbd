use konfik::ConfigMeta;
use konfik::FieldMeta;
use konfik::Value;
use konfik::analyzer::find_missing_required_fields;
use konfik::meta::TypeTag;
use konfik::meta::analyze_field;
use konfik::meta::correct_paths;
use konfik::paths::get_nested_value;

fn leaf(name: &str, path: &str, required: bool, skip: bool, has_default: bool) -> FieldMeta {
    FieldMeta {
        name: name.to_string(),
        path: path.to_string(),
        ty: TypeTag::Primitive,
        required,
        skip,
        has_default,
        nested: false,
        sub: None,
    }
}

fn nested(name: &str, path: &str, sub: ConfigMeta) -> FieldMeta {
    FieldMeta {
        name: name.to_string(),
        path: path.to_string(),
        ty: TypeTag::Nested,
        required: true,
        skip: false,
        has_default: false,
        nested: true,
        sub: Some(sub),
    }
}

fn aobj(pairs: Vec<(&str, Value)>) -> Value {
    Value::Object(pairs.into_iter().map(|(k, v)| (k.to_string(), v)).collect())
}

fn sample_schema() -> ConfigMeta {
    ConfigMeta {
        name: "Sample".to_string(),
        fields: vec![
            leaf("a", "a", true, false, false),
            leaf("b", "b", true, false, true),
            leaf("c", "c", false, false, false),
            nested(
                "d",
                "d",
                ConfigMeta {
                    name: "Inner".to_string(),
                    fields: vec![leaf("e", "d.e", true, false, false)],
                },
            ),
        ],
    }
}

#[test]
fn missing_required_on_empty_tree() {
    let schema = sample_schema();
    let missing = find_missing_required_fields(&schema, &aobj(vec![]));
    assert_eq!(missing, vec!["a".to_string(), "d.e".to_string()]);
}

#[test]
fn defaulted_and_optional_fields_are_never_missing() {
    let schema = sample_schema();
    let missing = find_missing_required_fields(&schema, &aobj(vec![]));
    assert!(!missing.contains(&"b".to_string()));
    assert!(!missing.contains(&"c".to_string()));
    assert!(!missing.contains(&"d".to_string()));
}

#[test]
fn skipped_fields_are_never_missing() {
    let schema = ConfigMeta {
        name: "S".to_string(),
        fields: vec![leaf("hidden", "hidden", true, true, false)],
    };
    let missing = find_missing_required_fields(&schema, &aobj(vec![]));
    assert!(missing.is_empty());
}

#[test]
fn a_skipped_nested_field_shields_its_subtree() {
    let mut d = nested(
        "d",
        "d",
        ConfigMeta {
            name: "Inner".to_string(),
            fields: vec![leaf("e", "d.e", true, false, false)],
        },
    );
    d.skip = true;
    let schema = ConfigMeta { name: "S".to_string(), fields: vec![d] };
    let missing = find_missing_required_fields(&schema, &aobj(vec![]));
    assert!(missing.is_empty());
}

#[test]
fn present_values_satisfy_required_fields() {
    let schema = sample_schema();
    let tree = aobj(vec![
        ("a", Value::Text("set".to_string())),
        ("d", aobj(vec![("e", Value::Int(1))])),
    ]);
    let missing = find_missing_required_fields(&schema, &tree);
    assert!(missing.is_empty());
}

#[test]
fn null_counts_as_missing() {
    let schema = sample_schema();
    let tree = aobj(vec![
        ("a", Value::Null),
        ("d", aobj(vec![("e", Value::Int(1))])),
    ]);
    let missing = find_missing_required_fields(&schema, &tree);
    assert_eq!(missing, vec!["a".to_string()]);
}

#[test]
fn a_present_but_incomplete_nested_object_is_still_caught() {
    let schema = sample_schema();
    let tree = aobj(vec![
        ("a", Value::Int(1)),
        ("d", aobj(vec![("other", Value::Int(2))])),
    ]);
    let missing = find_missing_required_fields(&schema, &tree);
    assert_eq!(missing, vec!["d.e".to_string()]);
}

#[test]
fn nested_value_lookup_follows_dotted_paths() {
    let tree = aobj(vec![(
        "d",
        aobj(vec![("e", Value::Int(5))]),
    )]);
    match get_nested_value(&tree, "d.e") {
        Some(Value::Int(n)) => assert_eq!(*n, 5),
        _ => panic!("expected d.e to resolve to 5"),
    }
    assert!(get_nested_value(&tree, "d.x").is_none());
    assert!(get_nested_value(&tree, "d.e.deeper").is_none());
    assert!(get_nested_value(&Value::Int(3), "d").is_none());
}

#[test]
fn analyze_field_derives_requiredness_from_the_type_shape() {
    let plain = analyze_field(false, false, false, false);
    assert!(plain.required && !plain.skip && !plain.has_default && !plain.nested);
    let optional = analyze_field(true, false, true, false);
    assert!(!optional.required && optional.has_default);
    let skipped = analyze_field(false, true, false, true);
    assert!(skipped.required && skipped.skip && skipped.nested);
}

#[test]
fn correct_paths_prefixes_the_whole_subtree() {
    let sub = ConfigMeta {
        name: "Inner".to_string(),
        fields: vec![leaf("e", "e", true, false, false)],
    };
    let fields = vec![
        leaf("x", "x", true, false, false),
        nested("inner", "inner", sub),
    ];
    let prefixed = correct_paths(&fields, "parent");
    assert_eq!(prefixed[0].path, "parent.x");
    assert_eq!(prefixed[1].path, "parent.inner");
    let inner = prefixed[1].sub.as_ref().unwrap();
    assert_eq!(inner.fields[0].path, "parent.e");
}

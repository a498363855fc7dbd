use konfik::ConfigLoader;
use konfik::ConfigMeta;
use konfik::FieldMeta;
use konfik::Value;
use konfik::analyzer::find_missing_required_fields;
use konfik::cli_source::build_flag_specs;
use konfik::env_source::env_requests;
use konfik::formats::FileFormat;
use konfik::formats::parse_file_content;
use konfik::loader::resolve;
use konfik::meta::TypeTag;
use konfik::paths::get_nested_value;
use konfik::value::value_eq;

fn field(name: &str, ty: TypeTag, required: bool, has_default: bool) -> FieldMeta {
    FieldMeta {
        name: name.to_string(),
        path: name.to_string(),
        ty,
        required,
        skip: false,
        has_default,
        nested: false,
        sub: None,
    }
}

fn server_schema() -> ConfigMeta {
    ConfigMeta {
        name: "ServerConfig".to_string(),
        fields: vec![
            field("database_url", TypeTag::Primitive, true, false),
            field("port", TypeTag::Primitive, true, false),
            field("debug", TypeTag::Boolean, true, true),
        ],
    }
}

fn port_of(tree: &Value) -> i64 {
    match get_nested_value(tree, "port") {
        Some(Value::Int(n)) => *n,
        _ => panic!("port is not an integer"),
    }
}

#[test]
fn cli_beats_environment_beats_files() {
    let schema = server_schema();
    let file = parse_file_content(r#"{"port":80}"#, FileFormat::Json).unwrap();
    let env_found = vec![("port".to_string(), "8080".to_string())];
    let cli = vec![("port".to_string(), vec!["9090".to_string()])];
    let merged = resolve(&schema, &vec![file], &env_found, Some(&cli));
    assert_eq!(port_of(&merged), 9090);
}

#[test]
fn with_the_cli_disabled_the_environment_wins() {
    let schema = server_schema();
    let file = parse_file_content(r#"{"port":80}"#, FileFormat::Json).unwrap();
    let env_found = vec![("port".to_string(), "8080".to_string())];
    let merged = resolve(&schema, &vec![file], &env_found, None);
    assert_eq!(port_of(&merged), 8080);
}

#[test]
fn with_no_other_source_the_file_value_stands() {
    let schema = server_schema();
    let file = parse_file_content(r#"{"port":80}"#, FileFormat::Json).unwrap();
    let merged = resolve(&schema, &vec![file], &vec![], None);
    assert_eq!(port_of(&merged), 80);
}

#[test]
fn later_files_override_earlier_ones() {
    let schema = server_schema();
    let f1 = parse_file_content(r#"{"port":80,"database_url":"a"}"#, FileFormat::Json).unwrap();
    let f2 = parse_file_content(r#"{"port":81}"#, FileFormat::Json).unwrap();
    let merged = resolve(&schema, &vec![f1, f2], &vec![], None);
    assert_eq!(port_of(&merged), 81);
    match get_nested_value(&merged, "database_url") {
        Some(Value::Text(s)) => assert_eq!(s, "a"),
        _ => panic!("database_url lost"),
    }
}

#[test]
fn environment_only_end_to_end() {
    let schema = server_schema();
    let env_found = vec![
        ("database_url".to_string(), "postgres://x".to_string()),
        ("port".to_string(), "5432".to_string()),
    ];
    let merged = resolve(&schema, &vec![], &env_found, None);
    let expected = Value::Object(vec![
        ("database_url".to_string(), Value::Text("postgres://x".to_string())),
        ("port".to_string(), Value::Int(5432)),
    ]);
    assert!(value_eq(&merged, &expected));
    let missing = find_missing_required_fields(&schema, &merged);
    assert!(missing.is_empty());
    assert!(get_nested_value(&merged, "debug").is_none());
}

#[test]
fn env_requests_cover_every_unskipped_field() {
    let schema = server_schema();
    let requests = env_requests(&schema, Some("app"));
    let names: Vec<&str> = requests.iter().map(|r| r.var.as_str()).collect();
    assert_eq!(names, vec!["APP_DATABASE_URL", "APP_PORT", "APP_DEBUG"]);
    let paths: Vec<&str> = requests.iter().map(|r| r.path.as_str()).collect();
    assert_eq!(paths, vec!["database_url", "port", "debug"]);
}

#[test]
fn flags_are_mandatory_exactly_for_the_missing_fields() {
    let schema = server_schema();
    let tree = Value::Object(vec![(
        "database_url".to_string(),
        Value::Text("set".to_string()),
    )]);
    let flags = build_flag_specs(&schema, &tree);
    assert_eq!(flags.len(), 3);
    assert_eq!(flags[0].long, "database-url");
    assert!(!flags[0].required);
    assert_eq!(flags[1].long, "port");
    assert!(flags[1].required);
    assert_eq!(flags[2].long, "debug");
    assert!(!flags[2].required);
    assert!(flags[2].switch);
    assert!(!flags[2].multiple);
}

#[test]
fn switch_and_append_flags_build_the_expected_tree() {
    let schema = ConfigMeta {
        name: "S".to_string(),
        fields: vec![
            field("verbose", TypeTag::Boolean, true, true),
            field("tag", TypeTag::Sequence, false, false),
        ],
    };
    let cli = vec![
        ("verbose".to_string(), vec![]),
        ("tag".to_string(), vec!["a".to_string(), "2".to_string()]),
    ];
    let merged = resolve(&schema, &vec![], &vec![], Some(&cli));
    let expected = Value::Object(vec![
        ("verbose".to_string(), Value::Bool(true)),
        (
            "tag".to_string(),
            Value::List(vec![Value::Text("a".to_string()), Value::Int(2)]),
        ),
    ]);
    assert!(value_eq(&merged, &expected));
}

#[test]
fn an_unknown_cli_match_contributes_nothing() {
    let schema = server_schema();
    let cli = vec![("unknown-flag".to_string(), vec!["x".to_string()])];
    let merged = resolve(&schema, &vec![], &vec![], Some(&cli));
    assert!(value_eq(&merged, &Value::Object(vec![])));
}

#[test]
fn loader_defaults_and_builders() {
    let loader = ConfigLoader::default();
    assert!(loader.env_prefix.is_none());
    assert_eq!(loader.config_files, vec!["config.json", "config.yaml", "config.toml"]);
    assert!(!loader.cli_enabled);

    let loader = ConfigLoader::default()
        .with_env_prefix("APP".to_string())
        .with_config_file("extra.toml".to_string())
        .with_cli();
    assert_eq!(loader.env_prefix.as_deref(), Some("APP"));
    assert_eq!(loader.config_files.len(), 4);
    assert_eq!(loader.config_files[3], "extra.toml");
    assert!(loader.cli_enabled);

    let loader = ConfigLoader::default().with_config_files(vec!["only.yaml".to_string()]);
    assert_eq!(loader.config_files, vec!["only.yaml"]);
}

#[test]
fn dotted_paths_explode_into_nested_objects() {
    let schema = ConfigMeta {
        name: "S".to_string(),
        fields: vec![FieldMeta {
            name: "port".to_string(),
            path: "server.port".to_string(),
            ty: TypeTag::Primitive,
            required: true,
            skip: false,
            has_default: false,
            nested: false,
            sub: None,
        }],
    };
    let env_found = vec![("server.port".to_string(), "8080".to_string())];
    let merged = resolve(&schema, &vec![], &env_found, None);
    let expected = Value::Object(vec![(
        "server".to_string(),
        Value::Object(vec![("port".to_string(), Value::Int(8080))]),
    )]);
    assert!(value_eq(&merged, &expected));
}

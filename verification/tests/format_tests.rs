use konfik::Error;
use konfik::Value;
use konfik::formats::FileFormat;
use konfik::formats::extension_of;
use konfik::formats::format_of_extension;
use konfik::formats::parse_file_auto;
use konfik::formats::parse_file_content;
use konfik::formats::read_file_value;
use konfik::value::value_eq;

fn fobj(pairs: Vec<(&str, Value)>) -> Value {
    Value::Object(pairs.into_iter().map(|(k, v)| (k.to_string(), v)).collect())
}

#[test]
fn json_and_yaml_of_the_same_data_give_identical_trees() {
    let json = r#"{"name":"app","port":80,"debug":true,"ratio":1.5,"tags":["a","b"]}"#;
    let yaml = "name: app\nport: 80\ndebug: true\nratio: 1.5\ntags:\n  - a\n  - b\n";
    let from_json = parse_file_content(json, FileFormat::Json).unwrap();
    let from_yaml = parse_file_content(yaml, FileFormat::Yaml).unwrap();
    assert!(value_eq(&from_json, &from_yaml));
}

#[test]
fn toml_of_the_same_data_gives_the_identical_tree() {
    let json = r#"{"name":"app","port":80}"#;
    let toml_text = "name = \"app\"\nport = 80\n";
    let from_json = parse_file_content(json, FileFormat::Json).unwrap();
    let from_toml = parse_file_content(toml_text, FileFormat::Toml).unwrap();
    assert!(value_eq(&from_json, &from_toml));
}

#[test]
fn parsed_json_builds_the_expected_tree() {
    let v = parse_file_content(r#"{"port":80,"null_field":null}"#, FileFormat::Json).unwrap();
    let expected = fobj(vec![("null_field", Value::Null), ("port", Value::Int(80))]);
    assert!(value_eq(&v, &expected));
}

#[test]
fn format_detection_by_extension() {
    assert_eq!(format_of_extension("json"), Ok(FileFormat::Json));
    assert_eq!(format_of_extension("yaml"), Ok(FileFormat::Yaml));
    assert_eq!(format_of_extension("yml"), Ok(FileFormat::Yaml));
    assert_eq!(format_of_extension("toml"), Ok(FileFormat::Toml));
    assert_eq!(format_of_extension("TOML"), Ok(FileFormat::Toml));
    assert!(format_of_extension("ini").is_err());
}

#[test]
fn extension_is_read_from_the_final_path_component() {
    assert_eq!(extension_of("config.json"), Some("json".to_string()));
    assert_eq!(extension_of("a.b.yaml"), Some("yaml".to_string()));
    assert_eq!(extension_of("noext"), None);
    assert_eq!(extension_of("trailing."), Some("".to_string()));
    assert_eq!(extension_of("./config"), None);
    assert_eq!(extension_of("conf.d/settings"), None);
    assert_eq!(extension_of("conf.d/app.toml"), Some("toml".to_string()));
}

#[test]
fn auto_detection_tries_json_before_yaml() {
    let v = parse_file_auto(r#"{"a":1}"#).unwrap();
    assert!(value_eq(&v, &fobj(vec![("a", Value::Int(1))])));
    let v2 = parse_file_auto("b: 2\n").unwrap();
    assert!(value_eq(&v2, &fobj(vec![("b", Value::Int(2))])));
}

#[test]
fn an_unknown_extension_falls_back_to_content_detection() {
    let v = read_file_value("config.ini", r#"{"a":1}"#).unwrap();
    assert!(value_eq(&v, &fobj(vec![("a", Value::Int(1))])));
}

#[test]
fn an_extensionless_file_in_a_dotted_directory_is_not_refused() {
    let v = read_file_value("./config", "b: 2
").unwrap();
    assert!(value_eq(&v, &fobj(vec![("b", Value::Int(2))])));
    let v2 = read_file_value("conf.d/settings", r#"{"c":3}"#).unwrap();
    assert!(value_eq(&v2, &fobj(vec![("c", Value::Int(3))])));
}

#[test]
fn content_no_parser_accepts_is_a_parse_error() {
    match read_file_value("config.ini", "{") {
        Err(Error::Parse(name)) => assert_eq!(name, "config.ini"),
        _ => panic!("expected a parse error"),
    }
}

#[test]
fn unparsable_content_is_an_error_not_a_skip() {
    match read_file_value("config.json", "not json at all {{{") {
        Err(Error::Parse(name)) => assert_eq!(name, "config.json"),
        _ => panic!("expected a parse error"),
    }
}

#[test]
fn a_named_format_is_not_second_guessed() {
    let toml_text = "key = \"val\"\n";
    match read_file_value("config.json", toml_text) {
        Err(Error::Parse(_)) => {}
        _ => panic!("a .json file with TOML content must fail"),
    }
    let v = read_file_value("config.toml", toml_text).unwrap();
    assert!(value_eq(&v, &fobj(vec![("key", Value::Text("val".to_string()))])));
}

#[test]
fn a_file_without_extension_falls_back_to_trying_every_format() {
    let v = read_file_value("config", "b: 2\n").unwrap();
    assert!(value_eq(&v, &fobj(vec![("b", Value::Int(2))])));
}

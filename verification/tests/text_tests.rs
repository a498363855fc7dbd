use konfik::text::env_var_name;
use konfik::text::kebab_name;
use konfik::text::lowercase;
use konfik::text::split_path;
use konfik::text::str_eq;

#[test]
fn env_names_without_a_prefix() {
    assert_eq!(env_var_name(None, "database_url"), "DATABASE_URL");
    assert_eq!(env_var_name(None, "port"), "PORT");
    assert_eq!(env_var_name(None, "maxConnections"), "MAXCONNECTIONS");
}

#[test]
fn env_names_with_a_prefix() {
    assert_eq!(env_var_name(Some("myapp"), "database_url"), "MYAPP_DATABASE_URL");
    assert_eq!(env_var_name(Some("CONFIK"), "port"), "CONFIK_PORT");
}

#[test]
fn env_names_explode_dotted_paths() {
    assert_eq!(env_var_name(None, "server.port"), "SERVER_PORT");
    assert_eq!(env_var_name(Some("app"), "db.pool.size"), "APP_DB_POOL_SIZE");
}

#[test]
fn kebab_case_flag_names() {
    assert_eq!(kebab_name("maxConnections"), "max-connections");
    assert_eq!(kebab_name("apiKey"), "api-key");
    assert_eq!(kebab_name("database_url"), "database-url");
    assert_eq!(kebab_name("port"), "port");
    assert_eq!(kebab_name(""), "");
}

#[test]
fn splitting_dotted_paths() {
    assert_eq!(split_path("a.b.c"), vec!["a", "b", "c"]);
    assert_eq!(split_path("single"), vec!["single"]);
    assert_eq!(split_path(""), vec![""]);
    assert_eq!(split_path("a..b"), vec!["a", "", "b"]);
    assert_eq!(split_path("trailing."), vec!["trailing", ""]);
}

#[test]
fn lowercasing_and_string_equality() {
    assert_eq!(lowercase("JSON"), "json");
    assert_eq!(lowercase("MiXeD_09"), "mixed_09");
    assert!(str_eq("same", "same"));
    assert!(!str_eq("same", "different"));
}

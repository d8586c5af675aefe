use supertoml::template::{has_template_syntax, render, template_variables, toml_value_to_jinja};
use supertoml::utils::template_error;
use supertoml::{EnvVars, SuperTomlError, TomlValue, ValueMap};

fn text(s: &str) -> TomlValue {
    TomlValue::String(s.to_string())
}

fn render_plain(source: &str, env: &EnvVars) -> Result<String, String> {
    render(source, &ValueMap::new(), env)
}

#[test]
fn test_toml_string_to_jinja() {
    let jinja_val = toml_value_to_jinja(&text("hello"));
    assert_eq!(jinja_val.to_string(), "hello");
}

#[test]
fn test_toml_integer_to_jinja() {
    let jinja_val = toml_value_to_jinja(&TomlValue::Integer(42));
    assert_eq!(jinja_val.to_string(), "42");
}

#[test]
fn test_toml_boolean_to_jinja() {
    let jinja_val = toml_value_to_jinja(&TomlValue::Boolean(true));
    assert_eq!(jinja_val.to_string(), "true");
}

#[test]
fn test_toml_array_to_jinja() {
    let jinja_val = toml_value_to_jinja(&TomlValue::Array(vec![text("first"), TomlValue::Integer(2)]));
    assert_eq!(jinja_val.kind(), minijinja::value::ValueKind::Seq);
}

#[test]
fn test_toml_table_to_jinja() {
    let value = TomlValue::Table(vec![
        ("key1".to_string(), text("value1")),
        ("key2".to_string(), TomlValue::Integer(42)),
    ]);
    let jinja_val = toml_value_to_jinja(&value);
    let str_repr = jinja_val.to_string();
    assert!(!str_repr.is_empty());
}

#[test]
fn float_reaches_templates_as_a_number() {
    let jinja_val = toml_value_to_jinja(&TomlValue::Float("1.5".to_string()));
    assert_eq!(jinja_val.to_string(), "1.5");
    assert!(jinja_val.as_i64().is_none());
    let mut values = ValueMap::new();
    values.insert("ratio".to_string(), TomlValue::Float("1.5".to_string()));
    assert_eq!(render("{{ ratio * 2 }}", &values, &EnvVars::new()), Ok("3.0".to_string()));
}

#[test]
fn test_custom_env_or_function() {
    let result = render_plain("{{ env_or('NONEXISTENT_VAR_12345', 'default') }}", &EnvVars::new()).unwrap();
    assert_eq!(result, "default");
}

#[test]
fn test_custom_env_or_function_with_existing_var() {
    let mut env = EnvVars::new();
    env.set("TEST_VAR_12345".to_string(), "test_value".to_string());
    let result = render_plain("{{ env_or('TEST_VAR_12345', 'default') }}", &env).unwrap();
    assert_eq!(result, "test_value");
}

#[test]
fn test_custom_env_function_error() {
    let result = render_plain("{{ env('NONEXISTENT_VAR_12345') }}", &EnvVars::new());
    assert!(result.is_err());
}

#[test]
fn env_function_reads_snapshot() {
    let mut env = EnvVars::new();
    env.set("A".to_string(), "1".to_string());
    env.set("A".to_string(), "2".to_string());
    assert_eq!(render_plain("{{ env('A') }}", &env), Ok("2".to_string()));
    assert_eq!(env.get("A"), Some("2".to_string()));
    assert_eq!(env.get("B"), None);
}

#[test]
fn template_markers_are_detected() {
    assert!(has_template_syntax("{{ x }}"));
    assert!(has_template_syntax("a {% if x %}b{% endif %}"));
    assert!(has_template_syntax("{# note #}"));
    assert!(!has_template_syntax("plain { text }"));
    assert!(!has_template_syntax(""));
}

#[test]
fn later_context_layers_win() {
    let mut values = ValueMap::new();
    values.insert("key".to_string(), text("resolved"));
    let mut raw = ValueMap::new();
    raw.insert("key".to_string(), text("raw"));
    let context = template_variables(raw, &values, &ValueMap::new());
    assert_eq!(render("{{ key }}", &context, &EnvVars::new()), Ok("resolved".to_string()));
}

#[test]
fn template_error_names_operation() {
    assert_eq!(
        template_error("import", "Failed to render key_format template", "boom"),
        SuperTomlError::PluginError {
            plugin_name: "import".to_string(),
            error: "Failed to render key_format template: boom".to_string(),
        }
    );
}

#[test]
fn error_messages() {
    assert_eq!(SuperTomlError::FileRead("x".to_string()).message(), "Failed to read file: x");
    assert_eq!(SuperTomlError::TomlParse("y".to_string()).message(), "Failed to parse TOML: y");
    assert_eq!(SuperTomlError::TableNotFound("t".to_string()).message(), "Table 't' not found");
    assert_eq!(
        SuperTomlError::PluginError { plugin_name: "p".to_string(), error: "e".to_string() }.message(),
        "Plugin 'p' error: e"
    );
}

#[test]
fn value_map_replaces_and_counts() {
    let mut m = ValueMap::new();
    m.insert("a".to_string(), TomlValue::Integer(1));
    m.insert("b".to_string(), TomlValue::Integer(2));
    m.insert("a".to_string(), TomlValue::Integer(3));
    assert_eq!(m.len(), 2);
    assert_eq!(m.get("a").unwrap().as_integer(), Some(3));
    assert!(m.contains_key("b"));
    assert!(!m.contains_key("c"));
    let mut n = ValueMap::new();
    n.insert("b".to_string(), TomlValue::Integer(20));
    n.insert("c".to_string(), TomlValue::Integer(30));
    m.add_all(&n);
    assert_eq!(m.len(), 3);
    assert_eq!(m.get("b").unwrap().as_integer(), Some(20));
}

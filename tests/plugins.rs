use supertoml::plugins::{
    AfterPlugin, BeforePlugin, ImportPlugin, NoopPlugin, ReferencePlugin, TemplatingPlugin,
};
use supertoml::{ImportedFile, Plugin, Resolver, SuperTomlError, TomlValue, ValueMap};

fn text(s: &str) -> TomlValue {
    TomlValue::String(s.to_string())
}

fn table(entries: Vec<(&str, TomlValue)>) -> TomlValue {
    TomlValue::Table(entries.into_iter().map(|(k, v)| (k.to_string(), v)).collect())
}

fn source_document() -> TomlValue {
    table(vec![(
        "source",
        table(vec![("key1", text("value1")), ("key2", TomlValue::Integer(42))]),
    )])
}

fn import_entry(file: &str, table_name: &str, key_format: Option<&str>) -> TomlValue {
    let mut entries = vec![("file", text(file)), ("table", text(table_name))];
    if let Some(k) = key_format {
        entries.push(("key_format", text(k)));
    }
    table(entries)
}

fn imported(path: &str, document: TomlValue) -> ImportedFile {
    ImportedFile { path: path.to_string(), document: Ok(document) }
}

#[test]
fn test_after_plugin() {
    let plugin = AfterPlugin;
    let mut resolver = Resolver::new(vec![Plugin::Noop(NoopPlugin)]);
    let mut table_values = ValueMap::new();
    table_values.insert("main_key".to_string(), text("main_value"));
    let config = TomlValue::Array(vec![text("source")]);
    resolver.toml_file = Some(source_document());

    let result = plugin.process(&mut resolver, &mut table_values, config);
    assert!(result.is_ok());

    assert_eq!(table_values.len(), 1);
    assert_eq!(table_values.get("main_key").unwrap().as_str().unwrap(), "main_value");

    // After does not merge its own table; the no-op plugin of the source
    // table merges the source's values.
    assert!(resolver.values.get("main_key").is_none());
    assert_eq!(resolver.values.get("key1").unwrap().as_str().unwrap(), "value1");
    assert_eq!(resolver.values.get("key2").unwrap().as_integer().unwrap(), 42);
    assert_eq!(resolver.call_stack.len(), 0);
}

#[test]
fn test_after_plugin_empty_config() {
    let plugin = AfterPlugin;
    let mut resolver = Resolver::new(vec![]);
    let mut table_values = ValueMap::new();
    table_values.insert("key1".to_string(), text("value1"));
    let config = TomlValue::Array(vec![]);

    let result = plugin.process(&mut resolver, &mut table_values, config);
    assert!(result.is_ok());

    assert_eq!(resolver.values.len(), 0);
    assert_eq!(table_values.len(), 1);
}

#[test]
fn test_before_plugin() {
    let plugin = BeforePlugin;
    let mut resolver = Resolver::new(vec![Plugin::Noop(NoopPlugin)]);
    let mut table_values = ValueMap::new();
    table_values.insert("main_key".to_string(), text("main_value"));
    let config = TomlValue::Array(vec![text("source")]);
    resolver.toml_file = Some(source_document());

    let result = plugin.process(&mut resolver, &mut table_values, config);
    assert!(result.is_ok());

    assert_eq!(table_values.len(), 1);
    assert_eq!(resolver.values.get("main_key").unwrap().as_str().unwrap(), "main_value");
    // The no-op plugin of the source table merges the source's values.
    assert_eq!(resolver.values.get("key1").unwrap().as_str().unwrap(), "value1");
    assert_eq!(resolver.values.get("key2").unwrap().as_integer().unwrap(), 42);
}

#[test]
fn test_before_plugin_empty_config() {
    let plugin = BeforePlugin;
    let mut resolver = Resolver::new(vec![]);
    let mut table_values = ValueMap::new();
    table_values.insert("key1".to_string(), text("value1"));
    let config = TomlValue::Array(vec![]);

    let result = plugin.process(&mut resolver, &mut table_values, config);
    assert!(result.is_ok());

    assert_eq!(table_values.len(), 1);
    assert_eq!(resolver.values.get("key1").unwrap().as_str().unwrap(), "value1");
}

#[test]
fn before_plugin_with_no_source_table_fails() {
    let mut resolver = Resolver::new(vec![]);
    resolver.toml_file = Some(source_document());
    let mut table_values = ValueMap::new();
    let config = TomlValue::Array(vec![text("missing")]);
    let result = BeforePlugin.process(&mut resolver, &mut table_values, config);
    assert_eq!(result, Err(SuperTomlError::TableNotFound("missing".to_string())));
    assert_eq!(resolver.call_stack.len(), 0);
}

#[test]
fn test_import_plugin_basic() {
    let plugin = ImportPlugin;
    let mut resolver = Resolver::new(vec![]);
    let mut table_values = ValueMap::new();
    table_values.insert("existing_key".to_string(), text("existing_value"));
    resolver.imports.push(imported(
        "external.toml",
        table(vec![
            (
                "database",
                table(vec![
                    ("host", text("localhost")),
                    ("port", TomlValue::Integer(5432)),
                    ("user", text("test_user")),
                ]),
            ),
            (
                "cache",
                table(vec![("ttl", TomlValue::Integer(300)), ("size", TomlValue::Integer(1000))]),
            ),
        ]),
    ));
    let config = TomlValue::Array(vec![import_entry("external.toml", "database", None)]);

    let result = plugin.process(&mut resolver, &mut table_values, config);
    assert!(result.is_ok());

    assert_eq!(table_values.get("host").unwrap().as_str().unwrap(), "localhost");
    assert_eq!(table_values.get("port").unwrap().as_integer().unwrap(), 5432);
    assert_eq!(table_values.get("user").unwrap().as_str().unwrap(), "test_user");
    assert_eq!(table_values.get("existing_key").unwrap().as_str().unwrap(), "existing_value");
    assert_eq!(resolver.values.get("host").unwrap().as_str().unwrap(), "localhost");
    assert_eq!(resolver.values.get("existing_key").unwrap().as_str().unwrap(), "existing_value");
    assert!(table_values.get("ttl").is_none());
}

#[test]
fn test_import_plugin_with_key_format() {
    let plugin = ImportPlugin;
    let mut resolver = Resolver::new(vec![]);
    let mut table_values = ValueMap::new();
    resolver.imports.push(imported(
        "config.toml",
        table(vec![(
            "config",
            table(vec![("host", text("example.com")), ("port", TomlValue::Integer(443))]),
        )]),
    ));
    let config = TomlValue::Array(vec![import_entry("config.toml", "config", Some("api_{{key}}"))]);

    let result = plugin.process(&mut resolver, &mut table_values, config);
    assert!(result.is_ok());

    assert_eq!(table_values.get("api_host").unwrap().as_str().unwrap(), "example.com");
    assert_eq!(table_values.get("api_port").unwrap().as_integer().unwrap(), 443);
    assert!(table_values.get("host").is_none());
    assert!(table_values.get("port").is_none());
}

#[test]
fn test_import_plugin_multiple_imports() {
    let plugin = ImportPlugin;
    let mut resolver = Resolver::new(vec![]);
    let mut table_values = ValueMap::new();
    resolver.imports.push(imported(
        "db.toml",
        table(vec![(
            "database",
            table(vec![("host", text("db.example.com")), ("port", TomlValue::Integer(5432))]),
        )]),
    ));
    resolver.imports.push(imported(
        "cache.toml",
        table(vec![(
            "cache",
            table(vec![("host", text("cache.example.com")), ("port", TomlValue::Integer(6379))]),
        )]),
    ));
    let config = TomlValue::Array(vec![
        import_entry("db.toml", "database", Some("db_{{key}}")),
        import_entry("cache.toml", "cache", Some("cache_{{key}}")),
    ]);

    let result = plugin.process(&mut resolver, &mut table_values, config);
    assert!(result.is_ok());

    assert_eq!(table_values.get("db_host").unwrap().as_str().unwrap(), "db.example.com");
    assert_eq!(table_values.get("db_port").unwrap().as_integer().unwrap(), 5432);
    assert_eq!(table_values.get("cache_host").unwrap().as_str().unwrap(), "cache.example.com");
    assert_eq!(table_values.get("cache_port").unwrap().as_integer().unwrap(), 6379);
}

#[test]
fn test_import_plugin_file_not_found() {
    let plugin = ImportPlugin;
    let mut resolver = Resolver::new(vec![]);
    let mut table_values = ValueMap::new();
    let config = TomlValue::Array(vec![import_entry("nonexistent.toml", "test", None)]);

    let result = plugin.process(&mut resolver, &mut table_values, config);
    assert!(result.is_err());
}

#[test]
fn test_import_plugin_table_not_found() {
    let plugin = ImportPlugin;
    let mut resolver = Resolver::new(vec![]);
    let mut table_values = ValueMap::new();
    resolver.imports.push(imported(
        "external.toml",
        table(vec![("database", table(vec![("host", text("localhost"))]))]),
    ));
    let config = TomlValue::Array(vec![import_entry("external.toml", "nonexistent_table", None)]);

    let result = plugin.process(&mut resolver, &mut table_values, config);
    assert!(result.is_err());
    assert!(result.unwrap_err().message().contains("Table 'nonexistent_table' not found"));
}

#[test]
fn import_plugin_reports_unreadable_file() {
    let mut resolver = Resolver::new(vec![]);
    resolver.imports.push(ImportedFile {
        path: "broken.toml".to_string(),
        document: Err(SuperTomlError::TomlParse("expected `=`".to_string())),
    });
    let mut table_values = ValueMap::new();
    let config = TomlValue::Array(vec![import_entry("broken.toml", "any", None)]);
    let result = ImportPlugin.process(&mut resolver, &mut table_values, config);
    assert_eq!(result, Err(SuperTomlError::TomlParse("expected `=`".to_string())));
}

#[test]
fn import_plugin_rejects_malformed_entry() {
    let mut resolver = Resolver::new(vec![]);
    let mut table_values = ValueMap::new();
    let config = TomlValue::Array(vec![table(vec![("file", text("x.toml"))])]);
    let result = ImportPlugin.process(&mut resolver, &mut table_values, config);
    match result {
        Err(SuperTomlError::PluginDeserialization { plugin_name, .. }) => assert_eq!(plugin_name, "import"),
        other => panic!("unexpected result {:?}", other),
    }
}

#[test]
fn import_plugin_without_configuration_only_merges() {
    let mut resolver = Resolver::new(vec![]);
    let mut table_values = ValueMap::new();
    table_values.insert("a".to_string(), TomlValue::Integer(1));
    let result = ImportPlugin.process(&mut resolver, &mut table_values, table(vec![]));
    assert!(result.is_ok());
    assert_eq!(table_values.len(), 1);
    assert_eq!(resolver.values.get("a").unwrap().as_integer(), Some(1));
}

#[test]
fn import_with_key_format_renames_and_keeps_value() {
    let mut resolver = Resolver::new(vec![]);
    let mut table_values = ValueMap::new();
    resolver.imports.push(imported("names.toml", table(vec![("t", table(vec![("name", text("x"))]))])));
    let config = TomlValue::Array(vec![import_entry("names.toml", "t", Some("{{key}}_id"))]);
    let result = ImportPlugin.process(&mut resolver, &mut table_values, config);
    assert!(result.is_ok());
    assert_eq!(table_values.get("name_id").unwrap().as_str(), Some("x"));
    assert!(table_values.get("name").is_none());
    assert_eq!(table_values.len(), 1);
}

#[test]
fn import_skips_reserved_key() {
    let mut resolver = Resolver::new(vec![]);
    let mut table_values = ValueMap::new();
    resolver.imports.push(imported(
        "r.toml",
        table(vec![("t", table(vec![("_", table(vec![])), ("k", TomlValue::Boolean(true))]))]),
    ));
    let config = TomlValue::Array(vec![import_entry("r.toml", "t", None)]);
    assert!(ImportPlugin.process(&mut resolver, &mut table_values, config).is_ok());
    assert_eq!(table_values.len(), 1);
    assert_eq!(table_values.get("k").unwrap().as_bool(), Some(true));
}

#[test]
fn test_noop_plugin_with_message() {
    let plugin = NoopPlugin;
    let mut resolver = Resolver::new(vec![]);
    resolver.values.insert("key1".to_string(), text("value1"));
    let config = table(vec![("message", text("Hello from noop!")), ("enabled", TomlValue::Boolean(true))]);
    let mut table_values = ValueMap::new();

    let result = plugin.process(&mut resolver, &mut table_values, config);
    assert!(result.is_ok());

    assert_eq!(resolver.values.len(), 1);
    assert_eq!(resolver.values.get("key1").unwrap().as_str().unwrap(), "value1");
}

#[test]
fn test_noop_plugin_disabled() {
    let plugin = NoopPlugin;
    let mut resolver = Resolver::new(vec![]);
    resolver.values.insert("key1".to_string(), text("value1"));
    let config = table(vec![("message", text("This should not print")), ("enabled", TomlValue::Boolean(false))]);
    let mut table_values = ValueMap::new();

    let result = plugin.process(&mut resolver, &mut table_values, config);
    assert!(result.is_ok());

    assert_eq!(resolver.values.len(), 1);
}

#[test]
fn noop_plugin_rejects_configuration_without_enabled() {
    let mut resolver = Resolver::new(vec![]);
    let mut table_values = ValueMap::new();
    let config = table(vec![("message", text("hi"))]);
    let result = NoopPlugin.process(&mut resolver, &mut table_values, config);
    assert_eq!(
        result,
        Err(SuperTomlError::PluginDeserialization {
            plugin_name: "noop".to_string(),
            error: "missing field `enabled`".to_string(),
        })
    );
}

#[test]
fn test_reference_plugin() {
    let plugin = ReferencePlugin;
    let mut resolver = Resolver::new(vec![Plugin::Noop(NoopPlugin)]);
    let mut table_values = ValueMap::new();
    let config = table(vec![("table", text("source"))]);
    resolver.toml_file = Some(source_document());

    let result = plugin.process(&mut resolver, &mut table_values, config);
    assert!(result.is_ok());

    assert_eq!(table_values.len(), 0);
    assert_eq!(resolver.values.get("key1").unwrap().as_str().unwrap(), "value1");
    assert_eq!(resolver.values.get("key2").unwrap().as_integer().unwrap(), 42);
}

#[test]
fn test_reference_plugin_empty_config() {
    let plugin = ReferencePlugin;
    let mut resolver = Resolver::new(vec![]);
    let mut table_values = ValueMap::new();
    table_values.insert("key1".to_string(), text("value1"));
    let config = table(vec![]);

    let result = plugin.process(&mut resolver, &mut table_values, config);
    assert!(result.is_ok());

    assert_eq!(table_values.len(), 1);
}

#[test]
fn reference_plugin_rejects_non_string_table() {
    let mut resolver = Resolver::new(vec![]);
    let mut table_values = ValueMap::new();
    let config = table(vec![("table", TomlValue::Integer(3))]);
    let result = ReferencePlugin.process(&mut resolver, &mut table_values, config);
    assert!(matches!(result, Err(SuperTomlError::PluginDeserialization { .. })));
}

#[test]
fn templating_plugin_renders_nested_strings() {
    let mut resolver = Resolver::new(vec![]);
    resolver.values.insert("host".to_string(), text("db.local"));
    resolver.values.insert("port".to_string(), TomlValue::Integer(5432));
    let mut table_values = ValueMap::new();
    table_values.insert("url".to_string(), text("{{ host }}:{{ port }}"));
    table_values.insert("plain".to_string(), text("no markers"));
    table_values.insert(
        "list".to_string(),
        TomlValue::Array(vec![text("{{ port + 1 }}"), TomlValue::Boolean(false)]),
    );
    table_values.insert("nested".to_string(), table(vec![("inner", text("{# gone #}x"))]));

    let result = TemplatingPlugin.process(&mut resolver, &mut table_values, table(vec![]));
    assert!(result.is_ok());
    assert_eq!(table_values.get("url").unwrap().as_str(), Some("db.local:5432"));
    assert_eq!(table_values.get("plain").unwrap().as_str(), Some("no markers"));
    assert_eq!(
        table_values.get("list").unwrap(),
        &TomlValue::Array(vec![text("5433"), TomlValue::Boolean(false)])
    );
    assert_eq!(table_values.get("nested").unwrap(), &table(vec![("inner", text("x"))]));
    assert_eq!(resolver.values.get("url").unwrap().as_str(), Some("db.local:5432"));
}

#[test]
fn templating_plugin_reports_broken_template() {
    let mut resolver = Resolver::new(vec![]);
    let mut table_values = ValueMap::new();
    table_values.insert("bad".to_string(), text("{{ unclosed"));
    let result = TemplatingPlugin.process(&mut resolver, &mut table_values, table(vec![]));
    match result {
        Err(SuperTomlError::PluginError { plugin_name, error }) => {
            assert_eq!(plugin_name, "templating");
            assert!(error.starts_with("Template error: "));
        },
        other => panic!("unexpected result {:?}", other),
    }
}

#[test]
fn templating_plugin_uses_environment_snapshot() {
    let mut resolver = Resolver::new(vec![]);
    resolver.environment.set("PRESENT_X".to_string(), "actual".to_string());
    let mut table_values = ValueMap::new();
    table_values.insert("a".to_string(), text("{{ env_or('MISSING_X', 'fallback') }}"));
    table_values.insert("b".to_string(), text("{{ env_or('PRESENT_X', 'fallback') }}"));
    let result = TemplatingPlugin.process(&mut resolver, &mut table_values, table(vec![]));
    assert!(result.is_ok());
    assert_eq!(table_values.get("a").unwrap().as_str(), Some("fallback"));
    assert_eq!(table_values.get("b").unwrap().as_str(), Some("actual"));
}

#[test]
fn reference_plugin_copies_under_prefix() {
    let mut resolver = Resolver::new(vec![Plugin::Noop(NoopPlugin)]);
    resolver.toml_file = Some(source_document());
    let mut table_values = ValueMap::new();
    table_values.insert("own".to_string(), TomlValue::Integer(1));
    let config = table(vec![("table", text("source")), ("prefix", text("src_"))]);
    let result = ReferencePlugin.process(&mut resolver, &mut table_values, config);
    assert!(result.is_ok());
    assert_eq!(resolver.values.get("src_key1").unwrap().as_str(), Some("value1"));
    assert_eq!(resolver.values.get("src_key2").unwrap().as_integer(), Some(42));
    assert_eq!(resolver.values.get("key1").unwrap().as_str(), Some("value1"));
    assert_eq!(resolver.values.get("own").unwrap().as_integer(), Some(1));
    assert_eq!(resolver.values.len(), 5);
}

#[test]
fn reference_plugin_rejects_non_string_prefix() {
    let mut resolver = Resolver::new(vec![]);
    let mut table_values = ValueMap::new();
    let config = table(vec![("prefix", TomlValue::Boolean(true))]);
    let result = ReferencePlugin.process(&mut resolver, &mut table_values, config);
    assert!(matches!(result, Err(SuperTomlError::PluginDeserialization { .. })));
    assert_eq!(resolver.values.len(), 0);
}

#[test]
fn raw_key_wins_over_collected_key() {
    let mut resolver = Resolver::new(vec![]);
    resolver.values.insert("key".to_string(), text("collected"));
    resolver.imports.push(imported("k.toml", table(vec![("t", table(vec![("name", text("x"))]))])));
    let mut table_values = ValueMap::new();
    let config = TomlValue::Array(vec![import_entry("k.toml", "t", Some("{{ key }}_id"))]);
    assert!(ImportPlugin.process(&mut resolver, &mut table_values, config).is_ok());
    assert_eq!(table_values.get("name_id").unwrap().as_str(), Some("x"));
    assert!(table_values.get("collected_id").is_none());
}

#[test]
fn import_key_rendering_to_reserved_is_skipped() {
    let mut resolver = Resolver::new(vec![]);
    resolver.imports.push(imported("k.toml", table(vec![("t", table(vec![("a", text("x")), ("b", text("y"))]))])));
    let mut table_values = ValueMap::new();
    let config = TomlValue::Array(vec![import_entry("k.toml", "t", Some("{% if key == 'a' %}_{% else %}{{ key }}{% endif %}"))]);
    assert!(ImportPlugin.process(&mut resolver, &mut table_values, config).is_ok());
    assert!(table_values.get("_").is_none());
    assert_eq!(table_values.get("b").unwrap().as_str(), Some("y"));
    assert!(resolver.values.get("_").is_none());
}

#[test]
fn import_key_render_failure_is_reported() {
    let mut resolver = Resolver::new(vec![]);
    resolver.imports.push(imported("k.toml", table(vec![("t", table(vec![("a", text("x"))]))])));
    let mut table_values = ValueMap::new();
    let config = TomlValue::Array(vec![import_entry("k.toml", "t", Some("{{ unclosed"))]);
    match ImportPlugin.process(&mut resolver, &mut table_values, config) {
        Err(SuperTomlError::PluginError { plugin_name, error }) => {
            assert_eq!(plugin_name, "import");
            assert!(error.starts_with("Failed to render key_format template: "));
        },
        other => panic!("unexpected result {:?}", other),
    }
}

#[test]
fn import_missing_file_is_reported() {
    let mut resolver = Resolver::new(vec![]);
    let mut table_values = ValueMap::new();
    let config = TomlValue::Array(vec![import_entry("gone.toml", "t", None)]);
    let result = ImportPlugin.process(&mut resolver, &mut table_values, config);
    assert_eq!(result, Err(SuperTomlError::FileRead("file 'gone.toml' was not loaded".to_string())));
}

#[test]
fn noop_diagnostics() {
    let mut resolver = Resolver::new(vec![]);
    resolver.values.insert("a".to_string(), TomlValue::Integer(1));
    let mut table_values = ValueMap::new();
    let config = table(vec![("enabled", TomlValue::Boolean(true))]);
    assert!(NoopPlugin.process(&mut resolver, &mut table_values, config).is_ok());
    let config = table(vec![("message", text("hi")), ("enabled", TomlValue::Boolean(true))]);
    assert!(NoopPlugin.process(&mut resolver, &mut table_values, config).is_ok());
    let config = table(vec![("message", text("quiet")), ("enabled", TomlValue::Boolean(false))]);
    assert!(NoopPlugin.process(&mut resolver, &mut table_values, config).is_ok());
    assert_eq!(
        resolver.diagnostics,
        vec!["NoopPlugin: Running with 1 values".to_string(), "NoopPlugin: hi".to_string()]
    );
    assert_eq!(supertoml::plugins::noop::decimal_text(1207), "1207");
    assert_eq!(supertoml::plugins::noop::decimal_text(0), "0");
}

#[test]
fn reference_prefix_to_reserved_is_skipped() {
    let mut resolver = Resolver::new(vec![Plugin::Noop(NoopPlugin)]);
    resolver.toml_file = Some(table(vec![("s", table(vec![("_", table(vec![])), ("k", TomlValue::Integer(1))]))]));
    let mut table_values = ValueMap::new();
    let config = table(vec![("table", text("s")), ("prefix", text("_"))]);
    assert!(ReferencePlugin.process(&mut resolver, &mut table_values, config).is_ok());
    assert!(resolver.values.get("_").is_none());
    assert_eq!(resolver.values.get("_k").unwrap().as_integer(), Some(1));
}

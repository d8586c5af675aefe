use supertoml::plugins::{
    import_paths, AfterPlugin, BeforePlugin, ImportPlugin, NoopPlugin, ReferencePlugin,
    TemplatingPlugin,
};
use supertoml::{
    extract_table, resolve_table_recursive, run, EnvVars, FromTomlValue, TomlTableExt, ImportedFile, Plugin, Resolver,
    SuperTomlError, TomlValue, ValueMap,
};

fn text(s: &str) -> TomlValue {
    TomlValue::String(s.to_string())
}

fn table(entries: Vec<(&str, TomlValue)>) -> TomlValue {
    TomlValue::Table(entries.into_iter().map(|(k, v)| (k.to_string(), v)).collect())
}

fn names(list: &[&str]) -> TomlValue {
    TomlValue::Array(list.iter().map(|n| text(n)).collect())
}

fn reserved(plugin: &str, config: TomlValue) -> (&'static str, TomlValue) {
    ("_", table(vec![(plugin, config)]))
}

fn default_plugins() -> Vec<Plugin> {
    vec![
        Plugin::Before(BeforePlugin),
        Plugin::Import(ImportPlugin),
        Plugin::Templating(TemplatingPlugin),
        Plugin::After(AfterPlugin),
    ]
}

fn sorted_keys(m: &ValueMap) -> Vec<String> {
    let mut k = m.keys();
    k.sort();
    k
}

fn cycle_error(plugin: &str, t: &str) -> SuperTomlError {
    SuperTomlError::PluginError {
        plugin_name: plugin.to_string(),
        error: format!("Cycle detected when processing table '{}'", t),
    }
}

#[test]
fn before_dependency_values_are_visible() {
    let doc = table(vec![
        ("base", table(vec![("host", text("localhost"))])),
        ("app", table(vec![reserved("before", names(&["base"])), ("port", TomlValue::Integer(8080))])),
    ]);
    let mut resolver = Resolver::new(default_plugins());
    let result = resolver.resolve_table(doc, "config.toml", "app").unwrap();
    assert_eq!(sorted_keys(&result), vec!["host".to_string(), "port".to_string()]);
    assert_eq!(result.get("host").unwrap().as_str(), Some("localhost"));
    assert_eq!(result.get("port").unwrap().as_integer(), Some(8080));
}

#[test]
fn resolution_keeps_every_key_but_the_reserved_one() {
    let doc = table(vec![(
        "t",
        table(vec![
            ("a", TomlValue::Integer(1)),
            ("b", TomlValue::Boolean(true)),
            ("c", TomlValue::Float("2.5".to_string())),
            ("d", TomlValue::Datetime("1979-05-27T07:32:00Z".to_string())),
            reserved("after", names(&[])),
        ]),
    )]);
    let mut resolver = Resolver::new(default_plugins());
    let result = resolver.resolve_table(doc, "f.toml", "t").unwrap();
    assert_eq!(sorted_keys(&result), vec!["a", "b", "c", "d"]);
    assert!(result.get("_").is_none());
    assert_eq!(result.get("c").unwrap(), &TomlValue::Float("2.5".to_string()));
}

#[test]
fn empty_table_resolves_to_empty_mapping() {
    let doc = table(vec![("empty", table(vec![]))]);
    let mut resolver = Resolver::new(default_plugins());
    let result = resolver.resolve_table(doc, "f.toml", "empty").unwrap();
    assert_eq!(result.len(), 0);
}

#[test]
fn self_reference_in_before_is_a_cycle() {
    let doc = table(vec![("a", table(vec![reserved("before", names(&["a"])), ("x", TomlValue::Integer(1))]))]);
    let mut resolver = Resolver::new(default_plugins());
    let result = resolver.resolve_table(doc, "f.toml", "a");
    assert_eq!(result.unwrap_err(), cycle_error("before", "a"));
}

#[test]
fn self_reference_in_after_is_a_cycle() {
    let doc = table(vec![("a", table(vec![reserved("after", names(&["a"]))]))]);
    let mut resolver = Resolver::new(default_plugins());
    assert_eq!(resolver.resolve_table(doc, "f.toml", "a").unwrap_err(), cycle_error("after", "a"));
}

#[test]
fn self_reference_in_reference_is_a_cycle() {
    let doc = table(vec![("a", table(vec![reserved("reference", table(vec![("table", text("a"))]))]))]);
    let mut resolver = Resolver::new(vec![Plugin::Reference(ReferencePlugin)]);
    assert_eq!(resolver.resolve_table(doc, "f.toml", "a").unwrap_err(), cycle_error("reference", "a"));
}

#[test]
fn mutual_before_is_a_cycle_from_either_side() {
    let doc = table(vec![
        ("a", table(vec![reserved("before", names(&["b"]))])),
        ("b", table(vec![reserved("before", names(&["a"]))])),
    ]);
    let mut first = Resolver::new(default_plugins());
    let from_a = first.resolve_table(table(vec![
        ("a", table(vec![reserved("before", names(&["b"]))])),
        ("b", table(vec![reserved("before", names(&["a"]))])),
    ]), "f.toml", "a");
    assert_eq!(from_a.unwrap_err(), cycle_error("before", "a"));
    let mut second = Resolver::new(default_plugins());
    assert_eq!(second.resolve_table(doc, "f.toml", "b").unwrap_err(), cycle_error("before", "b"));
}

#[test]
fn two_sessions_give_identical_mappings() {
    let make = || {
        table(vec![
            ("base", table(vec![("host", text("h")), ("n", TomlValue::Integer(2))])),
            ("app", table(vec![reserved("before", names(&["base"])), ("url", text("{{ host }}/{{ n * 2 }}"))])),
        ])
    };
    let mut one = Resolver::new(default_plugins());
    let mut two = Resolver::new(default_plugins());
    two.values.insert("leftover".to_string(), TomlValue::Integer(9));
    let a = one.resolve_table(make(), "f.toml", "app").unwrap();
    let b = two.resolve_table(make(), "f.toml", "app").unwrap();
    assert_eq!(sorted_keys(&a), sorted_keys(&b));
    for k in sorted_keys(&a) {
        assert_eq!(a.get(&k), b.get(&k));
    }
    assert_eq!(a.get("url").unwrap().as_str(), Some("h/4"));
    assert!(b.get("leftover").is_none());
}

#[test]
fn missing_table_is_reported() {
    let mut resolver = Resolver::new(default_plugins());
    let result = resolver.resolve_table(table(vec![("a", table(vec![]))]), "f.toml", "nonexistent");
    assert_eq!(result.unwrap_err(), SuperTomlError::TableNotFound("nonexistent".to_string()));
}

#[test]
fn non_table_item_is_reported() {
    let mut resolver = Resolver::new(default_plugins());
    let result = resolver.resolve_table(table(vec![("a", TomlValue::Integer(1))]), "f.toml", "a");
    let err = result.unwrap_err();
    assert_eq!(err, SuperTomlError::InvalidTableType("a".to_string()));
    assert_eq!(err.message(), "Item 'a' is not a table");
}

#[test]
fn non_table_document_is_reported() {
    let mut resolver = Resolver::new(default_plugins());
    let result = resolver.resolve_table(TomlValue::Integer(1), "f.toml", "a");
    assert_eq!(result.unwrap_err(), SuperTomlError::InvalidTableType("root".to_string()));
}

#[test]
fn recursive_resolution_on_stack_is_cycle() {
    let mut resolver = Resolver::new(vec![]);
    resolver.toml_file = Some(table(vec![("a", table(vec![]))]));
    resolver.call_stack.push("a".to_string());
    let result = resolve_table_recursive(&mut resolver, "a");
    assert_eq!(result, Err(SuperTomlError::CycleDetected("a".to_string())));
    assert_eq!(result.unwrap_err().message(), "Cycle detected when processing table 'a'");
    assert_eq!(resolver.call_stack.len(), 1);
}

#[test]
fn no_document_loaded_is_reported() {
    let mut resolver = Resolver::new(vec![]);
    let result = resolve_table_recursive(&mut resolver, "a");
    assert_eq!(result, Err(SuperTomlError::TableNotFound("No TOML file loaded".to_string())));
}

#[test]
fn plugin_errors_are_attributed_once() {
    let doc = table(vec![
        ("inner", table(vec![reserved("noop", table(vec![("enabled", text("yes"))]))])),
        ("outer", table(vec![reserved("before", names(&["inner"]))])),
    ]);
    let mut resolver = Resolver::new(vec![Plugin::Before(BeforePlugin), Plugin::Noop(NoopPlugin)]);
    let err = resolver.resolve_table(doc, "f.toml", "outer").unwrap_err();
    assert_eq!(
        err,
        SuperTomlError::PluginDeserialization {
            plugin_name: "noop".to_string(),
            error: "field `enabled` must be a boolean".to_string(),
        }
    );
    assert_eq!(err.message(), "Plugin 'noop' failed to deserialize data: field `enabled` must be a boolean");
}

#[test]
fn meta_values_are_visible_to_templates() {
    let doc = table(vec![(
        "t",
        table(vec![("who", text("{{ _.args.table_name }} from {{ _.args.file_path }} as {{ _.args.output_format }}"))]),
    )]);
    let mut resolver = Resolver::new(default_plugins());
    let result = resolver.resolve_table_with_meta(doc, "conf.toml", "t", "json").unwrap();
    assert_eq!(result.get("who").unwrap().as_str(), Some("t from conf.toml as json"));
    assert!(resolver.meta_values.get("_").is_some());
    assert!(result.get("_").is_none());
}

#[test]
fn run_resolves_with_imports_and_environment() {
    let doc = table(vec![(
        "svc",
        table(vec![
            reserved("import", TomlValue::Array(vec![table(vec![("file", text("shared.toml")), ("table", text("common"))])])),
            ("name", text("{{ env_or('SVC_NAME', 'default') }}-{{ region }}")),
        ]),
    )]);
    let imports = vec![ImportedFile {
        path: "shared.toml".to_string(),
        document: Ok(table(vec![("common", table(vec![("region", text("eu"))]))])),
    }];
    let mut env = EnvVars::new();
    env.set("SVC_NAME".to_string(), "api".to_string());
    let result = run(doc, imports, env, "main.toml", "svc", "toml").unwrap();
    assert_eq!(result.get("region").unwrap().as_str(), Some("eu"));
    assert_eq!(result.get("name").unwrap().as_str(), Some("api-eu"));
}

#[test]
fn import_paths_lists_every_imported_file() {
    let doc = table(vec![
        ("a", table(vec![reserved("import", TomlValue::Array(vec![
            table(vec![("file", text("one.toml")), ("table", text("x"))]),
            table(vec![("file", text("bad"))]),
        ]))])),
        ("b", table(vec![reserved("import", TomlValue::Array(vec![table(vec![("file", text("two.toml")), ("table", text("y"))])]))])),
        ("c", table(vec![("k", TomlValue::Integer(1))])),
    ]);
    assert_eq!(import_paths(&doc), vec!["one.toml".to_string(), "two.toml".to_string()]);
    assert!(import_paths(&TomlValue::Integer(3)).is_empty());
}

#[test]
fn extract_table_finds_named_table() {
    let doc = table(vec![("a", table(vec![("k", TomlValue::Integer(1))])), ("s", text("x"))]);
    let entries = extract_table(&doc, "a").unwrap();
    assert_eq!(entries.len(), 1);
    assert_eq!(entries[0].0, "k");
    assert_eq!(extract_table(&doc, "zz").unwrap_err(), SuperTomlError::TableNotFound("zz".to_string()));
    assert_eq!(extract_table(&doc, "s").unwrap_err(), SuperTomlError::InvalidTableType("s".to_string()));
    assert_eq!(extract_table(&text("x"), "a").unwrap_err(), SuperTomlError::InvalidTableType("root".to_string()));
}

#[test]
fn get_field_reads_typed_fields() {
    let entries = extract_table(
        &table(vec![("t", table(vec![("name", text("x")), ("port", TomlValue::Integer(80)), ("on", TomlValue::Boolean(true))]))]),
        "t",
    )
    .unwrap();
    assert_eq!(entries.get_field::<String>("name"), Ok("x".to_string()));
    assert_eq!(entries.get_field::<i64>("port"), Ok(80));
    assert_eq!(entries.get_field::<bool>("on"), Ok(true));
    assert_eq!(entries.get_field::<i64>("name"), Err(SuperTomlError::TableNotFound("name".to_string())));
    assert_eq!(entries.get_field::<bool>("missing"), Err(SuperTomlError::TableNotFound("missing".to_string())));
    assert_eq!(<String as FromTomlValue>::from_toml_value(&TomlValue::Integer(1)), None);
}

#[test]
fn before_only_pipeline_reports_cycles() {
    let mut r = Resolver::new(vec![Plugin::Before(BeforePlugin)]);
    let doc = table(vec![("a", table(vec![("x", TomlValue::Integer(1)), reserved("before", names(&["a"]))]))]);
    assert_eq!(r.resolve_table(doc, "f.toml", "a").unwrap_err(), cycle_error("before", "a"));
    let mutual = || table(vec![
        ("A", table(vec![reserved("before", names(&["B"]))])),
        ("B", table(vec![reserved("before", names(&["A"]))])),
    ]);
    let mut r = Resolver::new(vec![Plugin::Before(BeforePlugin)]);
    assert_eq!(r.resolve_table(mutual(), "f.toml", "A").unwrap_err(), cycle_error("before", "A"));
    assert_eq!(r.call_stack.len(), 0);
    let mut r = Resolver::new(vec![Plugin::Before(BeforePlugin)]);
    assert_eq!(r.resolve_table(mutual(), "f.toml", "B").unwrap_err(), cycle_error("before", "B"));
}

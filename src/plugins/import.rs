use vstd::prelude::*;
use crate::error::{join3, SuperTomlError};
use crate::utils::{add_values_to_resolver, template_error};
use crate::resolver::{config_of, local_of, root_of, step_ok, table_of, ImportedFile, Plugin, Resolver};
use crate::value::lookup;
use crate::template::{render, rendered, template_variables, variables_of};
use crate::value::{entries_view, field, items_view, lemma_entries_view, lemma_items_view, Data, TomlValue, ValueMap};

verus! {

/// One entry of an import configuration: copy the table `table` of the file
/// `file`, renaming each key through the template `key_format` if given.
pub struct ImportConfig {
    pub file: String,
    pub table: String,
    pub key_format: Option<String>,
}

/// Whether an import entry can be read: a table with string `file` and
/// `table` and, if present, a string `key_format`.
pub open spec fn import_entry_ok(d: Data) -> bool {
    &&& d is Table
    &&& field(d, "file"@) matches Some(Data::Str(_))
    &&& field(d, "table"@) matches Some(Data::Str(_))
    &&& field(d, "key_format"@) matches Some(k) ==> k is Str
}

pub open spec fn entry_text(d: Data, name: Seq<char>) -> Seq<char> {
    match field(d, name) {
        Some(Data::Str(s)) => s,
        _ => Seq::empty(),
    }
}

/// The loaded file at `path`; where a path repeats, the later entry wins.
pub open spec fn find_import(imports: Seq<ImportedFile>, path: Seq<char>) -> Option<ImportedFile>
    decreases imports.len(),
{
    if imports.len() == 0 {
        None
    } else if imports.last().path@ == path {
        Some(imports.last())
    } else {
        find_import(imports.drop_last(), path)
    }
}

/// The entries of table `table` of the loaded file at `file`, when there is one.
pub open spec fn imported_table(imports: Seq<ImportedFile>, file: Seq<char>, table: Seq<char>) -> Option<Seq<(Seq<char>, Data)>> {
    match find_import(imports, file) {
        Some(f) => match f.document {
            Ok(doc) => match field(doc@, table) {
                Some(Data::Table(entries)) => Some(entries),
                _ => None,
            },
            Err(_) => None,
        },
        None => None,
    }
}

/// The variables that a key template sees: the collected values, the
/// invocation data over them, and the raw key as `key` over both.
pub open spec fn key_variables(key: Seq<char>, values: Map<Seq<char>, Data>, meta: Map<Seq<char>, Data>) -> Map<Seq<char>, Data> {
    values.union_prefer_right(meta).insert("key"@, Data::Str(key))
}

/// The key template of an import entry, if it has one.
pub open spec fn entry_format(d: Data) -> Option<Seq<char>> {
    match field(d, "key_format"@) {
        Some(Data::Str(f)) => Some(f),
        _ => None,
    }
}

/// The working values after copying `entries` in order, each key renamed
/// through `format` if given, and `_` left out before and after renaming;
/// `None` when a key does not render.
pub open spec fn import_entries(
    entries: Seq<(Seq<char>, Data)>,
    format: Option<Seq<char>>,
    local: Map<Seq<char>, Data>,
    values: Map<Seq<char>, Data>,
    meta: Map<Seq<char>, Data>,
    env: Seq<(Seq<char>, Seq<char>)>,
) -> Option<Map<Seq<char>, Data>>
    decreases entries.len(),
{
    if entries.len() == 0 {
        Some(local)
    } else {
        match import_entries(entries.drop_last(), format, local, values, meta, env) {
            None => None,
            Some(m) => {
                let (k, v) = entries.last();
                if k == "_"@ {
                    Some(m)
                } else {
                    match format {
                        None => Some(m.insert(k, v)),
                        Some(f) => match rendered(f, key_variables(k, values, meta), env) {
                            Some(nk) => if nk == "_"@ {
                                Some(m)
                            } else {
                                Some(m.insert(nk, v))
                            },
                            None => None,
                        },
                    }
                }
            },
        }
    }
}

/// The working values after one import entry; `None` when its table cannot
/// be had or a key does not render.
pub open spec fn import_one(
    imports: Seq<ImportedFile>,
    d: Data,
    local: Map<Seq<char>, Data>,
    values: Map<Seq<char>, Data>,
    meta: Map<Seq<char>, Data>,
    env: Seq<(Seq<char>, Seq<char>)>,
) -> Option<Map<Seq<char>, Data>> {
    match imported_table(imports, entry_text(d, "file"@), entry_text(d, "table"@)) {
        Some(entries) => import_entries(entries, entry_format(d), local, values, meta, env),
        None => None,
    }
}

/// The working values after every entry of `items` in order.
pub open spec fn import_list(
    imports: Seq<ImportedFile>,
    items: Seq<Data>,
    local: Map<Seq<char>, Data>,
    values: Map<Seq<char>, Data>,
    meta: Map<Seq<char>, Data>,
    env: Seq<(Seq<char>, Seq<char>)>,
) -> Option<Map<Seq<char>, Data>>
    decreases items.len(),
{
    if items.len() == 0 {
        Some(local)
    } else {
        match import_list(imports, items.drop_last(), local, values, meta, env) {
            Some(m) => import_one(imports, items.last(), m, values, meta, env),
            None => None,
        }
    }
}

/// The working values after the import plugin ran with `config`: unchanged
/// without a list; `None` when an entry is malformed, a table cannot be had
/// or a key does not render.
pub open spec fn import_spec(
    imports: Seq<ImportedFile>,
    config: Data,
    local: Map<Seq<char>, Data>,
    values: Map<Seq<char>, Data>,
    meta: Map<Seq<char>, Data>,
    env: Seq<(Seq<char>, Seq<char>)>,
) -> Option<Map<Seq<char>, Data>> {
    match config {
        Data::Array(items) => if forall|i: int| 0 <= i < items.len() ==> import_entry_ok(#[trigger] items[i]) {
            import_list(imports, items, local, values, meta, env)
        } else {
            None
        },
        _ => Some(local),
    }
}

/// The errors that importing table `table` of file `file` can end in.
pub open spec fn import_failure(imports: Seq<ImportedFile>, file: Seq<char>, table: Seq<char>, e: SuperTomlError) -> bool {
    match find_import(imports, file) {
        None => e matches SuperTomlError::FileRead(m) && m@ == "file '"@ + file + "' was not loaded"@,
        Some(f) => match f.document {
            Err(d) => e == d,
            Ok(doc) => {
                ||| !(doc@ is Table) && (e matches SuperTomlError::InvalidTableType(m) && m@ == "Root element in file '"@ + file + "' is not a table"@)
                ||| doc@ is Table && field(doc@, table) is None && (e matches SuperTomlError::TableNotFound(m)
                    && m@ == "Table '"@ + table + "' not found in file '"@ + file + "'"@)
                ||| (field(doc@, table) matches Some(v) && !(v is Table)) && (e matches SuperTomlError::InvalidTableType(m)
                    && m@ == "Table '"@ + table + "' in file '"@ + file + "' is not a table"@)
                ||| (field(doc@, table) matches Some(v) && v is Table) && (e matches SuperTomlError::PluginError { plugin_name, error }
                    && plugin_name@ == "import"@ && exists|t: Seq<char>| error@ == "Failed to render key_format template: "@ + t)
            },
        },
    }
}

pub proof fn lemma_import_entries_prefix(
    s: Seq<(Seq<char>, Data)>,
    i: int,
    format: Option<Seq<char>>,
    local: Map<Seq<char>, Data>,
    values: Map<Seq<char>, Data>,
    meta: Map<Seq<char>, Data>,
    env: Seq<(Seq<char>, Seq<char>)>,
)
    requires
        0 <= i <= s.len(),
        import_entries(s.subrange(0, i), format, local, values, meta, env) is None,
    ensures
        import_entries(s, format, local, values, meta, env) is None,
    decreases s.len() - i,
{
    if i == s.len() {
        assert(s.subrange(0, i) =~= s);
    } else {
        assert(s.subrange(0, i + 1).drop_last() =~= s.subrange(0, i));
        lemma_import_entries_prefix(s, i + 1, format, local, values, meta, env);
    }
}

pub proof fn lemma_import_list_prefix(
    imports: Seq<ImportedFile>,
    s: Seq<Data>,
    i: int,
    local: Map<Seq<char>, Data>,
    values: Map<Seq<char>, Data>,
    meta: Map<Seq<char>, Data>,
    env: Seq<(Seq<char>, Seq<char>)>,
)
    requires
        0 <= i <= s.len(),
        import_list(imports, s.subrange(0, i), local, values, meta, env) is None,
    ensures
        import_list(imports, s, local, values, meta, env) is None,
    decreases s.len() - i,
{
    if i == s.len() {
        assert(s.subrange(0, i) =~= s);
    } else {
        assert(s.subrange(0, i + 1).drop_last() =~= s.subrange(0, i));
        lemma_import_list_prefix(imports, s, i + 1, local, values, meta, env);
    }
}

/// Importing only adds keys.
pub proof fn lemma_import_entries_grow(
    entries: Seq<(Seq<char>, Data)>,
    format: Option<Seq<char>>,
    local: Map<Seq<char>, Data>,
    values: Map<Seq<char>, Data>,
    meta: Map<Seq<char>, Data>,
    env: Seq<(Seq<char>, Seq<char>)>,
)
    ensures
        import_entries(entries, format, local, values, meta, env) matches Some(m) ==> local.dom().subset_of(m.dom()),
    decreases entries.len(),
{
    if entries.len() > 0 {
        lemma_import_entries_grow(entries.drop_last(), format, local, values, meta, env);
    }
}

fn import_config_error(detail: &str) -> (r: SuperTomlError)
    ensures
        r matches SuperTomlError::PluginDeserialization { plugin_name, .. } && plugin_name@ == "import"@,
{
    SuperTomlError::PluginDeserialization { plugin_name: "import".to_string(), error: detail.to_string() }
}

impl ImportConfig {
    /// The key template, as text.
    pub open spec fn format(&self) -> Option<Seq<char>> {
        match self.key_format {
            Some(f) => Some(f@),
            None => None,
        }
    }

    /// Reads one import entry.
    pub fn decode(v: &TomlValue) -> (r: Result<ImportConfig, SuperTomlError>)
        ensures
            r is Ok <==> import_entry_ok(v@),
            r matches Ok(c) ==> c.file@ == entry_text(v@, "file"@) && c.table@ == entry_text(v@, "table"@),
            r matches Ok(c) ==> c.format() == entry_format(v@),
            r matches Err(e) ==> (e matches SuperTomlError::PluginDeserialization { plugin_name, .. } && plugin_name@ == "import"@),
    {
        if v.as_table().is_none() {
            return Err(import_config_error("expected a table"));
        }
        let file = match v.get("file") {
            Some(f) => match f.as_str() {
                Some(s) => s.to_string(),
                None => return Err(import_config_error("field `file` must be a string")),
            },
            None => return Err(import_config_error("missing field `file`")),
        };
        let table = match v.get("table") {
            Some(t) => match t.as_str() {
                Some(s) => s.to_string(),
                None => return Err(import_config_error("field `table` must be a string")),
            },
            None => return Err(import_config_error("missing field `table`")),
        };
        let key_format = match v.get("key_format") {
            Some(k) => match k.as_str() {
                Some(s) => Some(s.to_string()),
                None => return Err(import_config_error("field `key_format` must be a string")),
            },
            None => None,
        };
        Ok(ImportConfig { file, table, key_format })
    }
}

/// The loaded file at `path`, if the caller supplied one.
fn find_imported<'a>(imports: &'a Vec<ImportedFile>, path: &str) -> (r: Option<&'a ImportedFile>)
    ensures
        r matches Some(f) ==> find_import(imports@, path@) == Some(*f),
        r is None ==> find_import(imports@, path@) is None,
{
    let k = path.to_string();
    let mut i: usize = imports.len();
    proof {
        assert(imports@.subrange(0, i as int) =~= imports@);
    }
    while i > 0
        invariant
            i <= imports@.len(),
            k@ == path@,
            find_import(imports@, path@) == find_import(imports@.subrange(0, i as int), path@),
        decreases i,
    {
        assert(imports@.subrange(0, i as int).drop_last() =~= imports@.subrange(0, i - 1));
        if imports[i - 1].path == k {
            return Some(&imports[i - 1]);
        }
        i -= 1;
    }
    None
}

/// Copies a table of another file into the working values, renaming keys
/// through `key_format` when given and leaving out `_`.
#[derive(Clone, Copy)]
pub struct ImportPlugin;

impl ImportPlugin {
    /// The name under which this plugin finds its configuration.
    pub fn name(&self) -> (r: &'static str)
        ensures
            r@ == "import"@,
    {
        "import"
    }

    /// The table that an import entry names, within the document of its file.
    pub fn extract_table_from_toml<'a>(&self, toml: &'a TomlValue, config: &ImportConfig) -> (r: Result<&'a Vec<(String, TomlValue)>, SuperTomlError>)
        ensures
            r matches Ok(entries) ==> field(toml@, config.table@) == Some(Data::Table(entries_view(entries@))),
            r is Ok <==> field(toml@, config.table@) matches Some(Data::Table(_)),
            toml@ is Table && field(toml@, config.table@) is None ==> (r matches Err(SuperTomlError::TableNotFound(m)) && m@ == "Table '"@ + config.table@ + "' not found in file '"@ + config.file@ + "'"@),
            field(toml@, config.table@) matches Some(v) && !(v is Table) ==> (r matches Err(SuperTomlError::InvalidTableType(m)) && m@ == "Table '"@ + config.table@ + "' in file '"@ + config.file@ + "' is not a table"@),
            !(toml@ is Table) ==> (r matches Err(SuperTomlError::InvalidTableType(m)) && m@ == "Root element in file '"@ + config.file@ + "' is not a table"@),
    {
        if toml.as_table().is_none() {
            return Err(SuperTomlError::InvalidTableType(join3("Root element in file '", config.file.as_str(), "' is not a table")));
        }
        let table = match toml.get(config.table.as_str()) {
            Some(t) => t,
            None => {
                let head = join3("Table '", config.table.as_str(), "' not found in file '");
                return Err(SuperTomlError::TableNotFound(join3(head.as_str(), config.file.as_str(), "'")));
            },
        };
        match table.as_table() {
            Some(e) => Ok(e),
            None => {
                let head = join3("Table '", config.table.as_str(), "' in file '");
                Err(SuperTomlError::InvalidTableType(join3(head.as_str(), config.file.as_str(), "' is not a table")))
            },
        }
    }

    /// The key that `key` becomes under the template `template`, rendered
    /// with the raw key as `key`, over which the collected values and the
    /// invocation data lie.
    pub fn transform_key_with_template(&self, key: &str, template: &str, resolver: &Resolver) -> (r: Result<String, SuperTomlError>)
        requires
            resolver.wf(),
        ensures
            r is Ok <==> rendered(template@, key_variables(key@, resolver.values@, resolver.meta_values@), resolver.environment.entries()) is Some,
            r matches Ok(k) ==> rendered(template@, key_variables(key@, resolver.values@, resolver.meta_values@), resolver.environment.entries()) == Some(k@),
            r matches Err(e) ==> (e matches SuperTomlError::PluginError { plugin_name, error } && plugin_name@ == "import"@
                && exists|t: Seq<char>| error@ == "Failed to render key_format template: "@ + t),
    {
        let mut variables = template_variables(ValueMap::new(), &resolver.values, &resolver.meta_values);
        variables.insert("key".to_string(), TomlValue::String(key.to_string()));
        proof {
            assert(variables@ =~= key_variables(key@, resolver.values@, resolver.meta_values@));
        }
        match render(template, &variables, &resolver.environment) {
            Ok(k) => Ok(k),
            Err(message) => {
                let e = template_error("import", "Failed to render key_format template", message.as_str());
                proof {
                    reveal_strlit("Failed to render key_format template");
                    reveal_strlit(": ");
                    reveal_strlit("Failed to render key_format template: ");
                    assert("Failed to render key_format template"@ + ": "@ =~= "Failed to render key_format template: "@);
                    assert("Failed to render key_format template"@ + ": "@ + message@ == "Failed to render key_format template: "@ + message@);
                }
                Err(e)
            },
        }
    }

    /// Imports the table that one entry names.
    pub fn process_single_import(&self, import_config: &ImportConfig, table_values: &mut ValueMap, resolver: &Resolver) -> (r: Result<(), SuperTomlError>)
        requires
            old(table_values).wf(),
            !old(table_values)@.contains_key("_"@),
            resolver.wf(),
        ensures
            final(table_values).wf(),
            !final(table_values)@.contains_key("_"@),
            r is Ok <==> (imported_table(resolver.imports@, import_config.file@, import_config.table@) matches Some(e) && import_entries(
                e,
                import_config.format(),
                old(table_values)@,
                resolver.values@,
                resolver.meta_values@,
                resolver.environment.entries(),
            ) is Some),
            r matches Err(e) ==> import_failure(resolver.imports@, import_config.file@, import_config.table@, e),
            r is Ok ==> Some(final(table_values)@) == import_entries(
                imported_table(resolver.imports@, import_config.file@, import_config.table@)->Some_0,
                import_config.format(),
                old(table_values)@,
                resolver.values@,
                resolver.meta_values@,
                resolver.environment.entries(),
            ),
    {
        let ghost values = resolver.values@;
        let ghost meta = resolver.meta_values@;
        let ghost env = resolver.environment.entries();
        let ghost fmt = import_config.format();
        let file = match find_imported(&resolver.imports, import_config.file.as_str()) {
            Some(f) => f,
            None => return Err(SuperTomlError::FileRead(join3("file '", import_config.file.as_str(), "' was not loaded"))),
        };
        let doc = match &file.document {
            Ok(d) => d,
            Err(e) => return Err(e.duplicate()),
        };
        let entries = match self.extract_table_from_toml(doc, import_config) {
            Ok(e) => e,
            Err(e) => return Err(e),
        };
        let ghost imported = entries_view(entries@);
        let reserved = "_".to_string();
        let mut i: usize = 0;
        proof {
            lemma_entries_view(entries@);
            assert(imported.subrange(0, 0) =~= Seq::empty());
            assert(imported_table(resolver.imports@, import_config.file@, import_config.table@) == Some(imported));
        }
        while i < entries.len()
            invariant
                resolver.wf(),
                table_values.wf(),
                !table_values@.contains_key("_"@),
                i <= entries@.len(),
                reserved@ == "_"@,
                values == resolver.values@,
                meta == resolver.meta_values@,
                env == resolver.environment.entries(),
                fmt == import_config.format(),
                imported == entries_view(entries@),
                imported_table(resolver.imports@, import_config.file@, import_config.table@) == Some(imported),
                imported.len() == entries@.len(),
                forall|j: int| 0 <= j < entries@.len() ==> #[trigger] imported[j] == (entries@[j].0@, entries@[j].1@),
                import_entries(imported.subrange(0, i as int), fmt, old(table_values)@, values, meta, env) == Some(table_values@),
            decreases entries@.len() - i,
        {
            proof {
                assert(imported.subrange(0, i + 1).drop_last() =~= imported.subrange(0, i as int));
                assert(imported.subrange(0, i + 1).last() == imported[i as int]);
            }
            if entries[i].0 != reserved {
                let key = match &import_config.key_format {
                    Some(key_format) => match self.transform_key_with_template(entries[i].0.as_str(), key_format.as_str(), resolver) {
                        Ok(k) => k,
                        Err(e) => {
                            proof {
                                let sub = imported.subrange(0, i + 1);
                                assert(sub.last() == (entries@[i as int].0@, entries@[i as int].1@));
                                assert(fmt == Some(key_format@));
                                assert(import_entries(sub, fmt, old(table_values)@, values, meta, env) is None);
                                lemma_import_entries_prefix(imported, i + 1, fmt, old(table_values)@, values, meta, env);
                            }
                            return Err(e);
                        },
                    },
                    None => entries[i].0.clone(),
                };
                if key != reserved {
                    let value = entries[i].1.deep_clone();
                    table_values.insert(key, value);
                }
            }
            i += 1;
        }
        proof {
            assert(imported.subrange(0, i as int) =~= imported);
        }
        Ok(())
    }

    /// Imports every entry of the configuration in order, then copies the
    /// working values into the result.
    pub fn process(&self, resolver: &mut Resolver, table_values: &mut ValueMap, config: TomlValue) -> (r: Result<(), SuperTomlError>)
        requires
            old(resolver).wf(),
            old(table_values).wf(),
            !old(table_values)@.contains_key("_"@),
        ensures
            final(resolver).wf(),
            final(table_values).wf(),
            !final(table_values)@.contains_key("_"@),
            final(resolver).same_session(old(resolver)),
            r is Ok <==> import_spec(
                old(resolver).imports@,
                config@,
                old(table_values)@,
                old(resolver).values@,
                old(resolver).meta_values@,
                old(resolver).environment.entries(),
            ) is Some,
            r is Ok ==> Some(final(table_values)@) == import_spec(
                old(resolver).imports@,
                config@,
                old(table_values)@,
                old(resolver).values@,
                old(resolver).meta_values@,
                old(resolver).environment.entries(),
            ),
            config@ matches Data::Array(items) && (exists|i: int| 0 <= i < items.len() && !import_entry_ok(#[trigger] items[i])) ==> {
                &&& r matches Err(SuperTomlError::PluginDeserialization { plugin_name, .. }) && plugin_name@ == "import"@
                &&& final(table_values)@ == old(table_values)@
            },
            r is Ok ==> final(resolver).values@ == old(resolver).values@.union_prefer_right(final(table_values)@),
            r is Err ==> final(resolver).values == old(resolver).values,
            r matches Err(e) ==> (config@ is Array && (forall|i: int| 0 <= i < config@->Array_0.len() ==> import_entry_ok(#[trigger] config@->Array_0[i])) ==>
                exists|k: int| 0 <= k < config@->Array_0.len() && import_list(
                    old(resolver).imports@,
                    config@->Array_0.subrange(0, k),
                    old(table_values)@,
                    old(resolver).values@,
                    old(resolver).meta_values@,
                    old(resolver).environment.entries(),
                ) is Some && #[trigger] import_failure(
                    old(resolver).imports@,
                    entry_text(config@->Array_0[k], "file"@),
                    entry_text(config@->Array_0[k], "table"@),
                    e,
                )),
            r is Ok ==> step_ok(Plugin::Import(*self), *old(resolver), *final(resolver), old(table_values)@, final(table_values)@, config@),
        decreases old(resolver).budget() + 1, 0int,
    {
        let ghost values = resolver.values@;
        let ghost meta = resolver.meta_values@;
        let ghost env = resolver.environment.entries();
        let ghost imports = resolver.imports@;
        let items = match config.as_array() {
            Some(items) => items,
            None => {
                add_values_to_resolver(resolver, table_values);
                return Ok(());
            },
        };
        proof {
            lemma_items_view(items@);
        }
        let mut configs: Vec<ImportConfig> = Vec::new();
        let mut i: usize = 0;
        while i < items.len()
            invariant
                resolver.wf(),
                *resolver == *old(resolver),
                table_values.wf(),
                *table_values == *old(table_values),
                !table_values@.contains_key("_"@),
                i <= items@.len(),
                config@ == Data::Array(items_view(items@)),
                items_view(items@).len() == items@.len(),
                forall|j: int| 0 <= j < items@.len() ==> #[trigger] items_view(items@)[j] == items@[j]@,
                configs@.len() == i,
                forall|j: int| 0 <= j < i ==> import_entry_ok(#[trigger] items@[j]@),
                forall|j: int| 0 <= j < i ==> (#[trigger] configs@[j]).file@ == entry_text(items@[j]@, "file"@) && configs@[j].table@ == entry_text(items@[j]@, "table"@)
                    && configs@[j].format() == entry_format(items@[j]@),
            decreases items@.len() - i,
        {
            match ImportConfig::decode(&items[i]) {
                Ok(c) => configs.push(c),
                Err(e) => {
                    proof {
                        assert(!import_entry_ok(config@->Array_0[i as int]));
                    }
                    return Err(e);
                },
            }
            i += 1;
        }
        let ghost items_d = items_view(items@);
        let mut i: usize = 0;
        proof {
            assert(items_d.subrange(0, 0) =~= Seq::<Data>::empty());
            assert forall|j: int| 0 <= j < items_d.len() implies import_entry_ok(#[trigger] items_d[j]) by {
                assert(import_entry_ok(items@[j]@));
            }
        }
        while i < configs.len()
            invariant
                resolver.wf(),
                *resolver == *old(resolver),
                table_values.wf(),
                !table_values@.contains_key("_"@),
                values == resolver.values@,
                meta == resolver.meta_values@,
                env == resolver.environment.entries(),
                imports == resolver.imports@,
                i <= configs@.len(),
                configs@.len() == items@.len(),
                config@ == Data::Array(items_d),
                items_d == items_view(items@),
                items_d.len() == items@.len(),
                forall|j: int| 0 <= j < items@.len() ==> #[trigger] items_d[j] == items@[j]@,
                forall|j: int| 0 <= j < items_d.len() ==> import_entry_ok(#[trigger] items_d[j]),
                forall|j: int| 0 <= j < configs@.len() ==> (#[trigger] configs@[j]).file@ == entry_text(items@[j]@, "file"@) && configs@[j].table@ == entry_text(items@[j]@, "table"@)
                    && configs@[j].format() == entry_format(items@[j]@),
                import_list(imports, items_d.subrange(0, i as int), old(table_values)@, values, meta, env) == Some(table_values@),
                old(table_values)@.dom().subset_of(table_values@.dom()),
            decreases configs@.len() - i,
        {
            let ghost before = table_values@;
            proof {
                let sub = items_d.subrange(0, i + 1);
                assert(sub.drop_last() =~= items_d.subrange(0, i as int));
                assert(sub.last() == items@[i as int]@);
            }
            match self.process_single_import(&configs[i], table_values, resolver) {
                Ok(()) => {},
                Err(e) => {
                    proof {
                        lemma_import_list_prefix(imports, items_d, i + 1, old(table_values)@, values, meta, env);
                        assert(config@->Array_0[i as int] == items@[i as int]@);
                        assert(import_failure(imports, entry_text(config@->Array_0[i as int], "file"@), entry_text(config@->Array_0[i as int], "table"@), e));
                    }
                    return Err(e);
                },
            }
            proof {
                lemma_import_entries_grow(
                    imported_table(imports, configs@[i as int].file@, configs@[i as int].table@)->Some_0,
                    configs@[i as int].format(), before, values, meta, env);
            }
            i += 1;
        }
        proof {
            assert(items_d.subrange(0, i as int) =~= items_d);
        }
        add_values_to_resolver(resolver, table_values);
        Ok(())
    }
}

/// Every file that a well-formed import entry of `table` names.
pub open spec fn names_import(table: Data, file: Seq<char>) -> bool {
    exists|i: int|
        #![trigger config_of(table, "import"@)->Array_0[i]]
        config_of(table, "import"@) is Array && 0 <= i < config_of(table, "import"@)->Array_0.len()
            && import_entry_ok(config_of(table, "import"@)->Array_0[i])
            && entry_text(config_of(table, "import"@)->Array_0[i], "file"@) == file
}

pub proof fn lemma_lookup_entry(entries: Seq<(Seq<char>, Data)>, k: Seq<char>)
    requires
        lookup(entries, k) is Some,
    ensures
        exists|i: int| 0 <= i < entries.len() && entries[i] == (k, lookup(entries, k)->Some_0),
    decreases entries.len(),
{
    if entries.last().0 != k {
        lemma_lookup_entry(entries.drop_last(), k);
        let i = choose|i: int| 0 <= i < entries.drop_last().len() && entries.drop_last()[i] == (k, lookup(entries.drop_last(), k)->Some_0);
        assert(entries[i] == (k, lookup(entries, k)->Some_0));
    } else {
        assert(entries[entries.len() - 1] == (k, lookup(entries, k)->Some_0));
    }
}

/// The files that the import entries of a document's tables name, so that
/// they can be loaded before resolution starts.
pub fn import_paths(document: &TomlValue) -> (r: Vec<String>)
    ensures
        forall|t: Seq<char>, f: Seq<char>|
            table_of(Some(document@), t) is Some && #[trigger] names_import(table_of(Some(document@), t)->Some_0, f) ==> exists|j: int| 0 <= j < r@.len() && #[trigger] r@[j]@ == f,
{
    let mut out: Vec<String> = Vec::new();
    let entries = match document.as_table() {
        Some(e) => e,
        None => return out,
    };
    proof {
        lemma_entries_view(entries@);
    }
    let mut k: usize = 0;
    while k < entries.len()
        invariant
            k <= entries@.len(),
            document@ == Data::Table(entries_view(entries@)),
            entries_view(entries@).len() == entries@.len(),
            forall|j: int| 0 <= j < entries@.len() ==> #[trigger] entries_view(entries@)[j] == (entries@[j].0@, entries@[j].1@),
            forall|kk: int, f: Seq<char>| 0 <= kk < k && #[trigger] names_import(entries@[kk].1@, f) ==> exists|j: int| 0 <= j < out@.len() && #[trigger] out@[j]@ == f,
        decreases entries@.len() - k,
    {
        let ghost table = entries@[k as int].1@;
        let ghost before = out@;
        let reserved = entries[k].1.get("_");
        let items = match reserved {
            Some(u) => match u.get("import") {
                Some(c) => c.as_array(),
                None => None,
            },
            None => None,
        };
        if let Some(items) = items {
            proof {
                lemma_items_view(items@);
                assert(config_of(table, "import"@) == Data::Array(items_view(items@)));
            }
            let mut i: usize = 0;
            while i < items.len()
                invariant
                    i <= items@.len(),
                    config_of(table, "import"@) == Data::Array(items_view(items@)),
                    items_view(items@).len() == items@.len(),
                    forall|j: int| 0 <= j < items@.len() ==> #[trigger] items_view(items@)[j] == items@[j]@,
                    before.len() <= out@.len(),
                    forall|j: int| 0 <= j < before.len() ==> #[trigger] out@[j] == before[j],
                    out@.len() >= before.len(),
                    forall|ii: int| 0 <= ii < i && import_entry_ok(#[trigger] items@[ii]@) ==> exists|j: int| 0 <= j < out@.len() && #[trigger] out@[j]@ == entry_text(items@[ii]@, "file"@),
                decreases items@.len() - i,
            {
                let ghost prev = out@;
                if let Ok(c) = ImportConfig::decode(&items[i]) {
                    out.push(c.file);
                    proof {
                        assert(out@[out@.len() - 1]@ == entry_text(items@[i as int]@, "file"@));
                    }
                }
                proof {
                    assert forall|ii: int| 0 <= ii < i + 1 && import_entry_ok(#[trigger] items@[ii]@) implies exists|j: int| 0 <= j < out@.len() && #[trigger] out@[j]@ == entry_text(items@[ii]@, "file"@) by {
                        if ii < i {
                            let j = choose|j: int| 0 <= j < prev.len() && #[trigger] prev[j]@ == entry_text(items@[ii]@, "file"@);
                            assert(out@[j] == prev[j]);
                        } else {
                            assert(out@[out@.len() - 1]@ == entry_text(items@[ii]@, "file"@));
                        }
                    }
                }
                i += 1;
            }
            proof {
                assert forall|f: Seq<char>| names_import(table, f) implies exists|j: int| 0 <= j < out@.len() && #[trigger] out@[j]@ == f by {
                    let ii = choose|ii: int|
                        #![trigger config_of(table, "import"@)->Array_0[ii]]
                        config_of(table, "import"@) is Array && 0 <= ii < config_of(table, "import"@)->Array_0.len()
                            && import_entry_ok(config_of(table, "import"@)->Array_0[ii])
                            && entry_text(config_of(table, "import"@)->Array_0[ii], "file"@) == f;
                    assert(config_of(table, "import"@)->Array_0[ii] == items@[ii]@);
                }
            }
        } else {
            proof {
                assert forall|f: Seq<char>| !names_import(table, f) by {}
            }
        }
        proof {
            assert forall|kk: int, f: Seq<char>| 0 <= kk < k + 1 && #[trigger] names_import(entries@[kk].1@, f) implies exists|j: int| 0 <= j < out@.len() && #[trigger] out@[j]@ == f by {
                if kk < k {
                    let j = choose|j: int| 0 <= j < before.len() && #[trigger] before[j]@ == f;
                    assert(out@[j]@ == f);
                }
            }
        }
        k += 1;
    }
    proof {
        assert forall|t: Seq<char>, f: Seq<char>|
            table_of(Some(document@), t) is Some && #[trigger] names_import(table_of(Some(document@), t)->Some_0, f) implies exists|j: int| 0 <= j < out@.len() && #[trigger] out@[j]@ == f by {
            let ev = entries_view(entries@);
            lemma_lookup_entry(ev, t);
            let kk = choose|kk: int| 0 <= kk < ev.len() && ev[kk] == (t, lookup(ev, t)->Some_0);
            assert(entries@[kk].1@ == table_of(Some(document@), t)->Some_0);
        }
    }
    out
}

} // verus!

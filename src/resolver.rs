use vstd::prelude::*;
use crate::error::SuperTomlError;
use crate::plugins::import::import_spec;
use crate::plugins::noop::noop_config_ok;
use crate::plugins::templating::render_map;
use crate::template::variables_of;

use crate::plugins::reference::{prefixed, reference_config_ok, reference_prefix, table_entries};
use crate::plugins::{
    AfterPlugin, BeforePlugin, ImportPlugin, NoopPlugin, ReferencePlugin, TemplatingPlugin,
};
use crate::template::EnvVars;
use crate::value::{entries_view, field, lemma_entries_view, lookup, Data, TomlValue, ValueMap};

verus! {

/// A document that the import plugin reads from, as the caller loaded it.
pub struct ImportedFile {
    pub path: String,
    pub document: Result<TomlValue, SuperTomlError>,
}

/// The built-in transformation steps, run in the order in which a resolver
/// lists them for every table that it resolves.
#[derive(Clone, Copy)]
pub enum Plugin {
    Before(BeforePlugin),
    Import(ImportPlugin),
    Templating(TemplatingPlugin),
    After(AfterPlugin),
    Reference(ReferencePlugin),
    Noop(NoopPlugin),
}

/// The name under which a plugin finds its configuration.
pub open spec fn name_of(p: Plugin) -> Seq<char> {
    match p {
        Plugin::Before(_) => "before"@,
        Plugin::Import(_) => "import"@,
        Plugin::Templating(_) => "templating"@,
        Plugin::After(_) => "after"@,
        Plugin::Reference(_) => "reference"@,
        Plugin::Noop(_) => "noop"@,
    }
}

/// Whether a plugin copies its table's working values into the result.
pub open spec fn merges(p: Plugin) -> bool {
    !(p is After)
}

/// Whether some plugin of a pipeline copies the table's values into the result.
pub open spec fn pipeline_merges(plugins: Seq<Plugin>) -> bool {
    exists|i: int| 0 <= i < plugins.len() && merges(#[trigger] plugins[i])
}

/// The configuration value that means "no configuration".
pub open spec fn empty_config() -> Data {
    Data::Table(Seq::empty())
}

/// The configuration of the plugin named `name` in a table: the value at
/// `table["_"][name]`, or an empty table.
pub open spec fn config_of(table: Data, name: Seq<char>) -> Data {
    match field(table, "_"@) {
        Some(reserved) => match field(reserved, name) {
            Some(c) => c,
            None => empty_config(),
        },
        None => empty_config(),
    }
}

/// The strings among a sequence of values, in order.
pub open spec fn string_items(items: Seq<Data>) -> Seq<Seq<char>>
    decreases items.len(),
{
    if items.len() == 0 {
        Seq::empty()
    } else {
        let rest = string_items(items.drop_last());
        match items.last() {
            Data::Str(s) => rest.push(s),
            _ => rest,
        }
    }
}

/// A string among the first `i` values is among all of them.
pub proof fn lemma_string_items_prefix(s: Seq<Data>, i: int, x: Seq<char>)
    requires
        0 <= i <= s.len(),
        string_items(s.subrange(0, i)).contains(x),
    ensures
        string_items(s).contains(x),
    decreases s.len() - i,
{
    if i == s.len() {
        assert(s.subrange(0, i) =~= s);
    } else {
        let a = s.subrange(0, i);
        let b = s.subrange(0, i + 1);
        assert(b.drop_last() =~= a);
        let k = choose|k: int| 0 <= k < string_items(a).len() && string_items(a)[k] == x;
        assert(string_items(b)[k] == x);
        lemma_string_items_prefix(s, i + 1, x);
    }
}

/// The table names that a before/after configuration lists.
pub open spec fn table_names(config: Data) -> Seq<Seq<char>> {
    match config {
        Data::Array(items) => string_items(items),
        _ => Seq::empty(),
    }
}

/// The table that a reference configuration names, if any.
pub open spec fn reference_target(config: Data) -> Option<Seq<char>> {
    match config {
        Data::Table(entries) => if entries.len() > 0 {
            match lookup(entries, "table"@) {
                Some(Data::Str(s)) => Some(s),
                _ => None,
            }
        } else {
            None
        },
        _ => None,
    }
}

/// The tables that a plugin resolves, given its configuration.
pub open spec fn config_deps(p: Plugin, config: Data) -> Seq<Seq<char>> {
    match p {
        Plugin::Before(_) => table_names(config),
        Plugin::After(_) => table_names(config),
        Plugin::Reference(_) => match reference_target(config) {
            Some(n) => seq![n],
            None => Seq::empty(),
        },
        _ => Seq::empty(),
    }
}

/// The tables that a pipeline resolves on behalf of `table`, in order.
pub open spec fn deps(plugins: Seq<Plugin>, table: Data) -> Seq<Seq<char>>
    decreases plugins.len(),
{
    if plugins.len() == 0 {
        Seq::empty()
    } else {
        let p = plugins.last();
        deps(plugins.drop_last(), table) + config_deps(p, config_of(table, name_of(p)))
    }
}

/// The root table of a document, when the document is a table.
pub open spec fn root_of(doc: Option<Data>) -> Option<Seq<(Seq<char>, Data)>> {
    match doc {
        Some(Data::Table(entries)) => Some(entries),
        _ => None,
    }
}

/// The table named `t` in a document.
pub open spec fn table_of(doc: Option<Data>, t: Seq<char>) -> Option<Data> {
    match root_of(doc) {
        Some(entries) => lookup(entries, t),
        None => None,
    }
}

/// The names of the root table's entries.
pub open spec fn doc_keys(doc: Option<Data>) -> Set<Seq<char>> {
    match root_of(doc) {
        Some(entries) => entries.map_values(|e: (Seq<char>, Data)| e.0).to_set(),
        None => Set::empty(),
    }
}

/// No chain of dependencies that starts at the last table of `path` comes
/// back to a table of `path`, and every table on it exists.
pub open spec fn acyclic(doc: Option<Data>, plugins: Seq<Plugin>, path: Seq<Seq<char>>) -> bool
    decreases doc_keys(doc).len() - path.len(),
{
    &&& path.len() > 0
    &&& table_of(doc, path.last()) is Some
    &&& forall|n: Seq<char>|
        #[trigger] deps(plugins, table_of(doc, path.last())->Some_0).contains(n) ==> {
            &&& doc_keys(doc).contains(n)
            &&& !path.contains(n)
            &&& path.len() < doc_keys(doc).len()
            &&& acyclic(doc, plugins, path.push(n))
        }
}

/// Dependency `n` of the last table of `path` resolves without a cycle.
pub open spec fn dep_ok(doc: Option<Data>, plugins: Seq<Plugin>, path: Seq<Seq<char>>, n: Seq<char>) -> bool {
    &&& doc_keys(doc).contains(n)
    &&& !path.contains(n)
    &&& path.len() < doc_keys(doc).len()
    &&& acyclic(doc, plugins, path.push(n))
}

/// Everything a resolution reads besides the collected values: the document,
/// the pipeline, the imported files, the environment and the invocation data.
pub struct Session {
    pub doc: Option<Data>,
    pub plugins: Seq<Plugin>,
    pub imports: Seq<ImportedFile>,
    pub env: Seq<(Seq<char>, Seq<char>)>,
    pub meta: Map<Seq<char>, Data>,
}

/// The working values of a table value.
pub open spec fn table_local(table: Data) -> Map<Seq<char>, Data> {
    match table {
        Data::Table(entries) => local_of(entries),
        _ => Map::empty(),
    }
}

/// The collected values after resolving the last table of `path`, starting
/// from `values`; `None` when the resolution fails.
pub open spec fn resolve_spec(c: Session, path: Seq<Seq<char>>, values: Map<Seq<char>, Data>) -> Option<Map<Seq<char>, Data>>
    decreases doc_keys(c.doc).len() - path.len(), 4int, 0int,
{
    if path.len() > 0 && table_of(c.doc, path.last()) matches Some(Data::Table(_)) {
        let table = table_of(c.doc, path.last())->Some_0;
        match run_plugins(c, path, table, table_local(table), values, c.plugins.len()) {
            Some(st) => Some(st.0),
            None => None,
        }
    } else {
        None
    }
}

/// The collected and working values after the first `k` plugins ran on
/// `table`; `None` when one of them fails.
pub open spec fn run_plugins(
    c: Session,
    path: Seq<Seq<char>>,
    table: Data,
    local: Map<Seq<char>, Data>,
    values: Map<Seq<char>, Data>,
    k: nat,
) -> Option<(Map<Seq<char>, Data>, Map<Seq<char>, Data>)>
    decreases doc_keys(c.doc).len() - path.len(), 3int, k,
{
    if k == 0 || k > c.plugins.len() {
        Some((values, local))
    } else {
        match run_plugins(c, path, table, local, values, (k - 1) as nat) {
            Some(st) => {
                let p = c.plugins[k - 1];
                step_spec(c, path, p, config_of(table, name_of(p)), st.1, st.0)
            },
            None => None,
        }
    }
}

/// The collected and working values after plugin `p` ran with `config`;
/// `None` when it fails.
pub open spec fn step_spec(
    c: Session,
    path: Seq<Seq<char>>,
    p: Plugin,
    config: Data,
    local: Map<Seq<char>, Data>,
    values: Map<Seq<char>, Data>,
) -> Option<(Map<Seq<char>, Data>, Map<Seq<char>, Data>)>
    decreases doc_keys(c.doc).len() - path.len(), 2int, 0int,
{
    match p {
        Plugin::Before(_) => match deps_spec(c, path, config, values) {
            Some(v) => Some((v.union_prefer_right(local), local)),
            None => None,
        },
        Plugin::After(_) => match deps_spec(c, path, config, values) {
            Some(v) => Some((v, local)),
            None => None,
        },
        Plugin::Reference(_) => if !reference_config_ok(config) {
            None
        } else {
            match reference_target(config) {
                Some(n) => match dep_spec(c, path, n, values) {
                    Some(v) => {
                        let copied = match reference_prefix(config) {
                            Some(p) => prefixed(v, table_entries(c.doc, n), p),
                            None => v,
                        };
                        Some((copied.union_prefer_right(local), local))
                    },
                    None => None,
                },
                None => Some((values.union_prefer_right(local), local)),
            }
        },
        Plugin::Noop(_) => if noop_config_ok(config) {
            Some((values.union_prefer_right(local), local))
        } else {
            None
        },
        Plugin::Import(_) => match import_spec(c.imports, config, local, values, c.meta, c.env) {
            Some(l) => Some((values.union_prefer_right(l), l)),
            None => None,
        },
        Plugin::Templating(_) => match render_map(local, variables_of(values, c.meta), c.env) {
            Some(l) => Some((values.union_prefer_right(l), l)),
            None => None,
        },
    }
}

/// The collected values after resolving the tables that a before/after
/// configuration lists, in order.
pub open spec fn deps_spec(c: Session, path: Seq<Seq<char>>, config: Data, values: Map<Seq<char>, Data>) -> Option<Map<Seq<char>, Data>>
    decreases doc_keys(c.doc).len() - path.len(), 1int, 0int,
{
    match config {
        Data::Array(items) => dep_items(c, path, items, values),
        _ => Some(values),
    }
}

/// The collected values after resolving the strings among `items`, in order.
pub open spec fn dep_items(c: Session, path: Seq<Seq<char>>, items: Seq<Data>, values: Map<Seq<char>, Data>) -> Option<Map<Seq<char>, Data>>
    decreases doc_keys(c.doc).len() - path.len(), 0int, items.len(),
{
    if items.len() == 0 {
        Some(values)
    } else {
        match dep_items(c, path, items.drop_last(), values) {
            Some(v) => match items.last() {
                Data::Str(n) => dep_spec(c, path, n, v),
                _ => Some(v),
            },
            None => None,
        }
    }
}

/// The collected values after resolving table `n` on behalf of the last
/// table of `path`; `None` on a cycle or a failure.
pub open spec fn dep_spec(c: Session, path: Seq<Seq<char>>, n: Seq<char>, values: Map<Seq<char>, Data>) -> Option<Map<Seq<char>, Data>>
    decreases doc_keys(c.doc).len() - path.len(), 0int, 0int,
{
    if path.contains(n) || path.len() >= doc_keys(c.doc).len() {
        None
    } else {
        resolve_spec(c, path.push(n), values)
    }
}

/// The error for a table `n` that the document `doc` lacks or holds as
/// something other than a table (`unloaded`: no document at all).
pub open spec fn table_error(unloaded: bool, doc: Option<Data>, n: Seq<char>, e: SuperTomlError) -> bool {
    ||| unloaded && (e matches SuperTomlError::TableNotFound(m) && m@ == "No TOML file loaded"@)
    ||| !unloaded && root_of(doc) is None && (e matches SuperTomlError::InvalidTableType(m) && m@ == "root"@)
    ||| root_of(doc) is Some && table_of(doc, n) is None && (e matches SuperTomlError::TableNotFound(m) && m@ == n)
    ||| table_of(doc, n) is Some && (e matches SuperTomlError::InvalidTableType(m) && m@ == n)
}

/// The errors that resolving table `n` from state `r` can end in: a cycle
/// when `n` is under way, the lookup error when it is not a table, and a
/// plugin's error otherwise.
pub open spec fn resolution_error(r: Resolver, n: Seq<char>, e: SuperTomlError) -> bool {
    ||| r.stack().contains(n) && (e matches SuperTomlError::CycleDetected(m) && m@ == n)
    ||| !r.stack().contains(n) && !is_table(table_of(r.doc(), n)) && table_error(r.toml_file is None, r.doc(), n, e)
    ||| !r.stack().contains(n) && is_table(table_of(r.doc(), n)) && (e is PluginError || e is PluginDeserialization)
}

/// Whether an entry exists and is a table.
pub open spec fn is_table(d: Option<Data>) -> bool {
    d matches Some(Data::Table(_))
}

/// The text of the error for a cycle found at table `n`.
pub open spec fn cycle_text(n: Seq<char>) -> Seq<char> {
    "Cycle detected when processing table '"@ + n + "'"@
}

/// The first table that a before/after configuration lists, when its first
/// item is a string.
pub open spec fn first_listed(config: Data) -> Option<Seq<char>> {
    match config {
        Data::Array(items) => if items.len() > 0 && items[0] is Str {
            Some(items[0]->Str_0)
        } else {
            None
        },
        _ => None,
    }
}

/// The cycle that the pipeline runs into first on `table`, when its first
/// plugin orders dependencies and following first dependencies from
/// `stack` comes back to a table on the way: the name of the plugin that
/// reports it and the table at which it closes.
pub open spec fn first_step_cycle(c: Session, stack: Seq<Seq<char>>, table: Data) -> Option<(Seq<char>, Seq<char>)>
    decreases doc_keys(c.doc).len() - stack.len(), 0int,
{
    if c.plugins.len() > 0 && (c.plugins[0] is Before || c.plugins[0] is After) {
        match first_listed(config_of(table, name_of(c.plugins[0]))) {
            Some(n) => if stack.contains(n) {
                Some((name_of(c.plugins[0]), n))
            } else if is_table(table_of(c.doc, n)) && stack.len() < doc_keys(c.doc).len() {
                first_cycle(c, stack.push(n))
            } else {
                None
            },
            None => None,
        }
    } else {
        None
    }
}

/// `first_step_cycle` for the last table of `path`.
pub open spec fn first_cycle(c: Session, path: Seq<Seq<char>>) -> Option<(Seq<char>, Seq<char>)>
    decreases doc_keys(c.doc).len() - path.len(), 1int,
{
    if path.len() > 0 && table_of(c.doc, path.last()) is Some {
        first_step_cycle(c, path, table_of(c.doc, path.last())->Some_0)
    } else {
        None
    }
}

pub proof fn lemma_dep_items_prefix(c: Session, path: Seq<Seq<char>>, s: Seq<Data>, i: int, values: Map<Seq<char>, Data>)
    requires
        0 <= i <= s.len(),
        dep_items(c, path, s.subrange(0, i), values) is None,
    ensures
        dep_items(c, path, s, values) is None,
    decreases s.len() - i,
{
    if i == s.len() {
        assert(s.subrange(0, i) =~= s);
    } else {
        assert(s.subrange(0, i + 1).drop_last() =~= s.subrange(0, i));
        lemma_dep_items_prefix(c, path, s, i + 1, values);
    }
}

pub proof fn lemma_run_plugins_prefix(c: Session, path: Seq<Seq<char>>, table: Data, local: Map<Seq<char>, Data>, values: Map<Seq<char>, Data>, k: nat)
    requires
        k <= c.plugins.len(),
        run_plugins(c, path, table, local, values, k) is None,
    ensures
        run_plugins(c, path, table, local, values, c.plugins.len()) is None,
    decreases c.plugins.len() - k,
{
    if k < c.plugins.len() {
        lemma_run_plugins_prefix(c, path, table, local, values, k + 1);
    }
}

/// The working values of a table: every entry but the reserved `_`; where a
/// key repeats, the later entry wins.
pub open spec fn local_of(entries: Seq<(Seq<char>, Data)>) -> Map<Seq<char>, Data>
    decreases entries.len(),
{
    if entries.len() == 0 {
        Map::empty()
    } else {
        let m = local_of(entries.drop_last());
        if entries.last().0 == "_"@ {
            m
        } else {
            m.insert(entries.last().0, entries.last().1)
        }
    }
}

/// A table's working values never hold the reserved key.
pub proof fn lemma_local_of_reserved(entries: Seq<(Seq<char>, Data)>)
    ensures
        !local_of(entries).contains_key("_"@),
    decreases entries.len(),
{
    if entries.len() > 0 {
        lemma_local_of_reserved(entries.drop_last());
    }
}

/// The keys that table `t` contributes: all of its keys but `_`.
pub open spec fn table_keys(doc: Option<Data>, t: Seq<char>) -> Set<Seq<char>> {
    match table_of(doc, t) {
        Some(Data::Table(entries)) => local_of(entries).dom(),
        _ => Set::empty(),
    }
}

/// The text of the names on a call stack.
pub open spec fn names(stack: Seq<String>) -> Seq<Seq<char>> {
    stack.map_values(|s: String| s@)
}

/// The session state of one resolution.
pub struct Resolver {
    /// The pipeline, in the order in which it runs for every table.
    pub plugins: Vec<Plugin>,
    /// The values collected so far.
    pub values: ValueMap,
    /// The tables whose resolution is under way, outermost first.
    pub call_stack: Vec<String>,
    /// The document that the tables are taken from.
    pub toml_file: Option<TomlValue>,
    pub file_path: Option<String>,
    /// Read-only invocation data for templates, under the key `_`.
    pub meta_values: ValueMap,
    /// The documents that import configurations may name.
    pub imports: Vec<ImportedFile>,
    /// The environment that templates see.
    pub environment: EnvVars,
    /// Diagnostic lines that plugins left for the caller to show.
    pub diagnostics: Vec<String>,
}

impl Resolver {
    /// What resolution reads besides the collected values.
    pub open spec fn session(&self) -> Session {
        Session {
            doc: self.doc(),
            plugins: self.plugins@,
            imports: self.imports@,
            env: self.environment.entries(),
            meta: self.meta_values@,
        }
    }

    /// The document's model.
    pub open spec fn doc(&self) -> Option<Data> {
        match self.toml_file {
            Some(v) => Some(v@),
            None => None,
        }
    }

    /// The names on the call stack.
    pub open spec fn stack(&self) -> Seq<Seq<char>> {
        names(self.call_stack@)
    }

    /// Well-formed: both maps are, and the call stack holds distinct tables
    /// of the document.
    pub open spec fn wf(&self) -> bool {
        &&& self.values.wf()
        &&& !self.values@.contains_key("_"@)
        &&& self.meta_values.wf()
        &&& self.stack().no_duplicates()
        &&& forall|i: int| 0 <= i < self.stack().len() ==> doc_keys(self.doc()).contains(#[trigger] self.stack()[i])
    }

    /// How many more tables can go onto the call stack.
    pub open spec fn budget(&self) -> int {
        doc_keys(self.doc()).len() - self.call_stack@.len()
    }

    /// The parts of the state that resolving a table leaves as they were.
    pub open spec fn same_session(&self, other: &Resolver) -> bool {
        &&& self.plugins == other.plugins
        &&& self.toml_file == other.toml_file
        &&& self.stack() == other.stack()
        &&& self.file_path == other.file_path
        &&& self.meta_values == other.meta_values
        &&& self.imports == other.imports
        &&& self.environment == other.environment
    }

    /// A resolver with the given pipeline and an empty session.
    pub fn new(plugins: Vec<Plugin>) -> (r: Resolver)
        ensures
            r.wf(),
            r.plugins == plugins,
            r.values@ == Map::<Seq<char>, Data>::empty(),
            r.call_stack@.len() == 0,
            r.toml_file is None,
            r.imports@.len() == 0,
            r.diagnostics@.len() == 0,
            forall|n: Seq<char>| r.environment.spec_get(n) is None,
            r.environment.entries() == Seq::<(Seq<char>, Seq<char>)>::empty(),
    {
        let r = Resolver {
            plugins,
            values: ValueMap::new(),
            call_stack: Vec::new(),
            toml_file: None,
            file_path: None,
            meta_values: ValueMap::new(),
            imports: Vec::new(),
            environment: EnvVars::new(),
            diagnostics: Vec::new(),
        };
        assert(r.stack() =~= Seq::empty());
        r
    }
}

/// The depth of nested resolutions is bounded: in every well-formed state,
/// which every resolving function keeps, the call stack holds at most as
/// many tables as the document has distinct table names.
pub proof fn lemma_budget(r: &Resolver)
    requires
        r.wf(),
    ensures
        doc_keys(r.doc()).finite(),
        r.budget() >= 0,
{
    let keys = doc_keys(r.doc());
    match root_of(r.doc()) {
        Some(entries) => {
            let ks = entries.map_values(|e: (Seq<char>, Data)| e.0);
            vstd::seq_lib::seq_to_set_is_finite(ks);
        },
        None => {},
    }
    r.stack().unique_seq_to_set();
    assert(r.stack().to_set().subset_of(keys));
    vstd::set_lib::lemma_len_subset(r.stack().to_set(), keys);
}

pub proof fn lemma_table_in_keys(doc: Option<Data>, t: Seq<char>)
    requires
        table_of(doc, t) is Some,
    ensures
        doc_keys(doc).contains(t),
{
    let entries = root_of(doc)->Some_0;
    lemma_lookup_key(entries, t);
    let i = choose|i: int| 0 <= i < entries.len() && entries[i].0 == t;
    let ks = entries.map_values(|e: (Seq<char>, Data)| e.0);
    assert(ks[i] == t);
}

pub proof fn lemma_lookup_key(entries: Seq<(Seq<char>, Data)>, k: Seq<char>)
    requires
        lookup(entries, k) is Some,
    ensures
        exists|i: int| 0 <= i < entries.len() && entries[i].0 == k,
    decreases entries.len(),
{
    if entries.last().0 != k {
        lemma_lookup_key(entries.drop_last(), k);
        let i = choose|i: int| 0 <= i < entries.drop_last().len() && entries.drop_last()[i].0 == k;
        assert(entries[i].0 == k);
    }
}

/// What every plugin step guarantees when it succeeds: collected values and
/// working values only grow, a merging plugin leaves every working value in
/// the result, and every table that the step resolved lies on no cycle.
pub open spec fn step_ok(
    p: Plugin,
    r0: Resolver,
    r1: Resolver,
    l0: Map<Seq<char>, Data>,
    l1: Map<Seq<char>, Data>,
    config: Data,
) -> bool {
    &&& r0.values@.dom().subset_of(r1.values@.dom())
    &&& l0.dom().subset_of(l1.dom())
    &&& merges(p) ==> l1.dom().subset_of(r1.values@.dom())
    &&& forall|n: Seq<char>|
        #[trigger] config_deps(p, config).contains(n) ==> dep_ok(r0.doc(), r0.plugins@, r0.stack(), n)
}

impl Plugin {
    /// The name under which this plugin finds its configuration.
    pub fn name(&self) -> (r: &'static str)
        ensures
            r@ == name_of(*self),
    {
        match self {
            Plugin::Before(p) => p.name(),
            Plugin::Import(p) => p.name(),
            Plugin::Templating(p) => p.name(),
            Plugin::After(p) => p.name(),
            Plugin::Reference(p) => p.name(),
            Plugin::Noop(p) => p.name(),
        }
    }

    /// Runs this plugin on one table's working values.
    pub fn process(&self, resolver: &mut Resolver, table_values: &mut ValueMap, config: TomlValue) -> (r: Result<(), SuperTomlError>)
        requires
            old(resolver).wf(),
            old(table_values).wf(),
            !old(table_values)@.contains_key("_"@),
        ensures
            final(resolver).wf(),
            final(table_values).wf(),
            !final(table_values)@.contains_key("_"@),
            final(resolver).same_session(old(resolver)),
            r is Ok ==> step_ok(*self, *old(resolver), *final(resolver), old(table_values)@, final(table_values)@, config@),
            r is Ok <==> step_spec(old(resolver).session(), old(resolver).stack(), *self, config@, old(table_values)@, old(resolver).values@) is Some,
            r is Ok ==> step_spec(old(resolver).session(), old(resolver).stack(), *self, config@, old(table_values)@, old(resolver).values@) == Some((final(resolver).values@, final(table_values)@)),
            (*self is Before || *self is After) && first_listed(config@) is Some && old(resolver).stack().contains(first_listed(config@)->Some_0) ==> (r matches Err(SuperTomlError::CycleDetected(m)) && m@ == first_listed(config@)->Some_0),
            (*self is Before || *self is After) && first_listed(config@) is Some && !old(resolver).stack().contains(first_listed(config@)->Some_0)
                && is_table(table_of(old(resolver).doc(), first_listed(config@)->Some_0)) && old(resolver).stack().len() < doc_keys(old(resolver).doc()).len()
                && first_cycle(old(resolver).session(), old(resolver).stack().push(first_listed(config@)->Some_0)) is Some ==> (r matches Err(SuperTomlError::PluginError { plugin_name: p, error: m })
                && p@ == first_cycle(old(resolver).session(), old(resolver).stack().push(first_listed(config@)->Some_0))->Some_0.0
                && m@ == cycle_text(first_cycle(old(resolver).session(), old(resolver).stack().push(first_listed(config@)->Some_0))->Some_0.1)),
        decreases old(resolver).budget() + 1, 1int,
    {
        match self {
            Plugin::Before(p) => p.process(resolver, table_values, config),
            Plugin::Import(p) => p.process(resolver, table_values, config),
            Plugin::Templating(p) => p.process(resolver, table_values, config),
            Plugin::After(p) => p.process(resolver, table_values, config),
            Plugin::Reference(p) => p.process(resolver, table_values, config),
            Plugin::Noop(p) => p.process(resolver, table_values, config),
        }
    }
}

/// Whether `name` is on the call stack.
fn stack_contains(stack: &Vec<String>, name: &String) -> (r: bool)
    ensures
        r == names(stack@).contains(name@),
{
    let mut i: usize = 0;
    while i < stack.len()
        invariant
            i <= stack@.len(),
            forall|j: int| 0 <= j < i ==> stack@[j]@ != name@,
        decreases stack@.len() - i,
    {
        if stack[i] == *name {
            assert(names(stack@)[i as int] == name@);
            return true;
        }
        i += 1;
    }
    proof {
        if names(stack@).contains(name@) {
            let j = choose|j: int| 0 <= j < names(stack@).len() && names(stack@)[j] == name@;
            assert(stack@[j]@ == name@);
        }
    }
    false
}

/// The table named `table_name` of the loaded document.
fn get_table_from_loaded_file(resolver: &Resolver, table_name: &str) -> (r: Result<TomlValue, SuperTomlError>)
    ensures
        r matches Ok(t) ==> t is Table && table_of(resolver.doc(), table_name@) == Some(t@),
        r is Ok <==> table_of(resolver.doc(), table_name@) matches Some(Data::Table(_)),
        r matches Err(e) ==> table_error(resolver.toml_file is None, resolver.doc(), table_name@, e),
{
    let doc = match &resolver.toml_file {
        Some(d) => d,
        None => return Err(SuperTomlError::TableNotFound("No TOML file loaded".to_string())),
    };
    if doc.as_table().is_none() {
        return Err(SuperTomlError::InvalidTableType("root".to_string()));
    }
    let table = match doc.get(table_name) {
        Some(t) => t,
        None => return Err(SuperTomlError::TableNotFound(table_name.to_string())),
    };
    if table.as_table().is_none() {
        return Err(SuperTomlError::InvalidTableType(table_name.to_string()));
    }
    Ok(table.deep_clone())
}

/// The working values of a table: its entries but `_`.
fn split_table(entries: &Vec<(String, TomlValue)>) -> (r: ValueMap)
    ensures
        r.wf(),
        !r@.contains_key("_"@),
        r@ == local_of(entries_view(entries@)),
{
    let mut local = ValueMap::new();
    let reserved = "_".to_string();
    let mut i: usize = 0;
    proof {
        lemma_entries_view(entries@);
        assert(entries_view(entries@).subrange(0, 0) =~= Seq::empty());
    }
    while i < entries.len()
        invariant
            i <= entries@.len(),
            local.wf(),
            reserved@ == "_"@,
            entries_view(entries@).len() == entries@.len(),
            forall|j: int| 0 <= j < entries@.len() ==> #[trigger] entries_view(entries@)[j] == (entries@[j].0@, entries@[j].1@),
            local@ == local_of(entries_view(entries@).subrange(0, i as int)),
        decreases entries@.len() - i,
    {
        proof {
            assert(entries_view(entries@).subrange(0, i + 1).drop_last() =~= entries_view(entries@).subrange(0, i as int));
        }
        if entries[i].0 != reserved {
            local.insert(entries[i].0.clone(), entries[i].1.deep_clone());
        }
        i += 1;
    }
    proof {
        assert(entries_view(entries@).subrange(0, entries@.len() as int) =~= entries_view(entries@));
        lemma_local_of_reserved(entries_view(entries@));
    }
    local
}

/// Resolves the table `table_name` of the loaded document within the current
/// session: fails on a cycle, runs the pipeline on the table's working values,
/// and leaves the call stack as it found it on every path.
pub fn resolve_table_recursive(resolver: &mut Resolver, table_name: &str) -> (r: Result<(), SuperTomlError>)
    requires
        old(resolver).wf(),
    ensures
        final(resolver).wf(),
        final(resolver).same_session(old(resolver)),
        old(resolver).stack().contains(table_name@) ==> (r matches Err(SuperTomlError::CycleDetected(n)) && n@ == table_name@),
        old(resolver).stack().contains(table_name@) ==> final(resolver).values == old(resolver).values,
        !old(resolver).stack().contains(table_name@) && !(table_of(old(resolver).doc(), table_name@) matches Some(Data::Table(_))) ==> {
            &&& r is Err
            &&& final(resolver).values == old(resolver).values
        },
        r is Ok ==> dep_ok(old(resolver).doc(), old(resolver).plugins@, old(resolver).stack(), table_name@),
        r is Ok <==> dep_spec(old(resolver).session(), old(resolver).stack(), table_name@, old(resolver).values@) is Some,
        r is Ok ==> dep_spec(old(resolver).session(), old(resolver).stack(), table_name@, old(resolver).values@) == Some(final(resolver).values@),
        !old(resolver).stack().contains(table_name@) && is_table(table_of(old(resolver).doc(), table_name@))
            && first_cycle(old(resolver).session(), old(resolver).stack().push(table_name@)) is Some ==> (r matches Err(SuperTomlError::PluginError { plugin_name: p, error: m })
            && p@ == first_cycle(old(resolver).session(), old(resolver).stack().push(table_name@))->Some_0.0
            && m@ == cycle_text(first_cycle(old(resolver).session(), old(resolver).stack().push(table_name@))->Some_0.1)),
        r matches Err(e) ==> resolution_error(*old(resolver), table_name@, e),
        r is Ok ==> old(resolver).values@.dom().subset_of(final(resolver).values@.dom()),
        r is Ok && pipeline_merges(old(resolver).plugins@) ==> table_keys(old(resolver).doc(), table_name@).subset_of(final(resolver).values@.dom()),
    decreases old(resolver).budget(), 3int,
{
    let name = table_name.to_string();
    if stack_contains(&resolver.call_stack, &name) {
        return Err(SuperTomlError::CycleDetected(name));
    }
    let table = match get_table_from_loaded_file(resolver, table_name) {
        Ok(t) => t,
        Err(e) => return Err(e),
    };
    proof {
        lemma_table_in_keys(resolver.doc(), table_name@);
    }
    let ghost before_push = *resolver;
    resolver.call_stack.push(name);
    proof {
        assert(resolver.stack() =~= before_push.stack().push(table_name@));
        lemma_budget(resolver);
    }
    let mut local = match table.as_table() {
        Some(entries) => split_table(entries),
        None => ValueMap::new(),
    };
    proof {
        let path = before_push.stack().push(table_name@);
        assert(path.last() == table_name@);
        assert(table_of(resolver.doc(), table_name@) == Some(table@));
        assert(local@ == table_local(table@));
        assert(resolver.session() == before_push.session());
        assert(!before_push.stack().contains(table_name@));
        assert(before_push.stack().len() < doc_keys(before_push.doc()).len());
    }
    let result = process_plugins(resolver, &mut local, &table);
    let ghost after = *resolver;
    resolver.call_stack.pop();
    proof {
        assert(resolver.stack() =~= after.stack().drop_last());
        assert(resolver.stack() =~= before_push.stack());
        if result is Ok {
            let path = before_push.stack().push(table_name@);
            assert(path.last() == table_name@);
            assert(acyclic(before_push.doc(), before_push.plugins@, path));
        }
    }
    result
}

/// The pipeline on `table` gets through the first `k` plugins and fails at
/// plugin `k`.
pub open spec fn fails_at(c: Session, stack: Seq<Seq<char>>, table: Data, local: Map<Seq<char>, Data>, values: Map<Seq<char>, Data>, k: int) -> bool {
    &&& 0 <= k < c.plugins.len()
    &&& run_plugins(c, stack, table, local, values, k as nat) is Some
    &&& ({
        let st = run_plugins(c, stack, table, local, values, k as nat)->Some_0;
        step_spec(c, stack, c.plugins[k], config_of(table, name_of(c.plugins[k])), st.1, st.0) is None
    })
}

/// `e` is how the pipeline reports the error `e0` of the plugin named
/// `plugin_name`: a plugin's own error unchanged, any other error wrapped
/// once with its text.
pub open spec fn attributed(e0: SuperTomlError, plugin_name: Seq<char>, e: SuperTomlError) -> bool {
    if e0 is PluginError || e0 is PluginDeserialization {
        e == e0
    } else {
        e matches SuperTomlError::PluginError { plugin_name: p, error: m } && p@ == plugin_name && m@ == crate::error::error_text(e0)
    }
}

/// An error as the pipeline reports it: a plugin's own error as it is, any
/// other error as an error of the plugin `plugin_name`, with its text.
pub fn attribute_error(e: SuperTomlError, plugin_name: &str) -> (r: SuperTomlError)
    ensures
        attributed(e, plugin_name@, r),
        (e is PluginError || e is PluginDeserialization) ==> r == e,
        !(e is PluginError || e is PluginDeserialization) ==> (r matches SuperTomlError::PluginError { plugin_name: p, error: m } && p@ == plugin_name@ && m@ == crate::error::error_text(e)),
{
    match e {
        SuperTomlError::PluginError { .. } => e,
        SuperTomlError::PluginDeserialization { .. } => e,
        _ => SuperTomlError::PluginError { plugin_name: plugin_name.to_string(), error: e.message() },
    }
}

/// Runs the whole pipeline on one table's working values; a failure that is
/// not already a plugin's is reported as an error of the plugin that ran into it.
fn process_plugins(resolver: &mut Resolver, table_values: &mut ValueMap, table: &TomlValue) -> (r: Result<(), SuperTomlError>)
    requires
        old(resolver).wf(),
        old(table_values).wf(),
        !old(table_values)@.contains_key("_"@),
    ensures
        final(resolver).wf(),
        final(table_values).wf(),
        !final(table_values)@.contains_key("_"@),
        final(resolver).same_session(old(resolver)),
        r matches Err(e) ==> e is PluginError || e is PluginDeserialization,
        r matches Err(e) ==> exists|k: int, e0: SuperTomlError|
            0 <= k < old(resolver).plugins@.len() && fails_at(old(resolver).session(), old(resolver).stack(), table@, old(table_values)@, old(resolver).values@, k)
                && #[trigger] attributed(e0, name_of(old(resolver).plugins@[k]), e),
        r is Ok ==> old(resolver).values@.dom().subset_of(final(resolver).values@.dom()),
        r is Ok ==> old(table_values)@.dom().subset_of(final(table_values)@.dom()),
        r is Ok && pipeline_merges(old(resolver).plugins@) ==> old(table_values)@.dom().subset_of(final(resolver).values@.dom()),
        r is Ok ==> forall|n: Seq<char>|
            #[trigger] deps(old(resolver).plugins@, table@).contains(n) ==> dep_ok(old(resolver).doc(), old(resolver).plugins@, old(resolver).stack(), n),
        r is Ok <==> run_plugins(old(resolver).session(), old(resolver).stack(), table@, old(table_values)@, old(resolver).values@, old(resolver).plugins@.len()) is Some,
        r is Ok ==> run_plugins(old(resolver).session(), old(resolver).stack(), table@, old(table_values)@, old(resolver).values@, old(resolver).plugins@.len()) == Some((final(resolver).values@, final(table_values)@)),
        first_step_cycle(old(resolver).session(), old(resolver).stack(), table@) is Some ==> (r matches Err(SuperTomlError::PluginError { plugin_name: p, error: m })
            && p@ == first_step_cycle(old(resolver).session(), old(resolver).stack(), table@)->Some_0.0
            && m@ == cycle_text(first_step_cycle(old(resolver).session(), old(resolver).stack(), table@)->Some_0.1)),
    decreases old(resolver).budget() + 1, 2int,
{
    let plugins_table = table.get("_");
    let mut i: usize = 0;
    let ghost merged = false;
    while i < resolver.plugins.len()
        invariant
            resolver.wf(),
            table_values.wf(),
            !table_values@.contains_key("_"@),
            resolver.same_session(old(resolver)),
            i <= resolver.plugins@.len(),
            old(resolver).values@.dom().subset_of(resolver.values@.dom()),
            old(table_values)@.dom().subset_of(table_values@.dom()),
            merged == pipeline_merges(resolver.plugins@.subrange(0, i as int)),
            merged ==> old(table_values)@.dom().subset_of(resolver.values@.dom()),
            resolver.session() == old(resolver).session(),
            i > 0 ==> first_step_cycle(old(resolver).session(), old(resolver).stack(), table@) is None,
            run_plugins(old(resolver).session(), old(resolver).stack(), table@, old(table_values)@, old(resolver).values@, i as nat) == Some((resolver.values@, table_values@)),
            plugins_table matches Some(u) ==> field(table@, "_"@) == Some(u@),
            plugins_table is None ==> field(table@, "_"@) is None,
            forall|n: Seq<char>|
                #[trigger] deps(resolver.plugins@.subrange(0, i as int), table@).contains(n) ==> dep_ok(old(resolver).doc(), old(resolver).plugins@, old(resolver).stack(), n),
        decreases resolver.plugins@.len() - i,
    {
        let plugin = resolver.plugins[i];
        let plugin_name = plugin.name();
        let config = match plugins_table {
            Some(t) => match t.get(plugin_name) {
                Some(c) => c.deep_clone(),
                None => TomlValue::Table(Vec::new()),
            },
            None => TomlValue::Table(Vec::new()),
        };
        proof {
            assert(entries_view(Seq::<(String, TomlValue)>::empty()) =~= Seq::empty());
            assert(config@ == config_of(table@, name_of(plugin)));
        }
        let ghost r0 = *resolver;
        proof {
            assert(plugin == old(resolver).session().plugins[i as int]);
        }
        match plugin.process(resolver, table_values, config) {
            Ok(()) => {},
            Err(e) => {
                proof {
                    lemma_run_plugins_prefix(old(resolver).session(), old(resolver).stack(), table@, old(table_values)@, old(resolver).values@, (i + 1) as nat);
                }
                let ghost st = run_plugins(old(resolver).session(), old(resolver).stack(), table@, old(table_values)@, old(resolver).values@, i as nat)->Some_0;
                let wrapped = attribute_error(e, plugin_name);
                proof {
                    assert(fails_at(old(resolver).session(), old(resolver).stack(), table@, old(table_values)@, old(resolver).values@, i as int));
                    assert(attributed(e, name_of(old(resolver).plugins@[i as int]), wrapped));
                }
                return Err(wrapped);
            },
        }
        proof {
            let sub = resolver.plugins@.subrange(0, i + 1);
            assert(sub.drop_last() =~= resolver.plugins@.subrange(0, i as int));
            assert(sub.last() == plugin);
            assert forall|n: Seq<char>| #[trigger] deps(sub, table@).contains(n) implies dep_ok(old(resolver).doc(), old(resolver).plugins@, old(resolver).stack(), n) by {
                let left = deps(sub.drop_last(), table@);
                let right = config_deps(plugin, config_of(table@, name_of(plugin)));
                assert(deps(sub, table@) == left + right);
                if !left.contains(n) {
                    let k = choose|k: int| 0 <= k < (left + right).len() && (left + right)[k] == n;
                    assert(right[k - left.len()] == n);
                    assert(right.contains(n));
                }
            }
            if merges(plugin) {
                assert(sub[i as int] == plugin);
            }
            if pipeline_merges(sub) && !merged {
                let k = choose|k: int| 0 <= k < sub.len() && merges(#[trigger] sub[k]);
                if k < i {
                    assert(resolver.plugins@.subrange(0, i as int)[k] == sub[k]);
                }
            }
            if merged {
                let k = choose|k: int| 0 <= k < i && merges(#[trigger] resolver.plugins@.subrange(0, i as int)[k]);
                assert(sub[k] == resolver.plugins@.subrange(0, i as int)[k]);
            }
        }
        proof {
            merged = pipeline_merges(resolver.plugins@.subrange(0, i + 1));
        }
        i += 1;
    }
    proof {
        assert(resolver.plugins@.subrange(0, i as int) =~= old(resolver).plugins@);
    }
    Ok(())
}

/// The read-only invocation data that templates see under `_`.
pub open spec fn meta_of(file_path: Seq<char>, table_name: Seq<char>, output_format: Option<Seq<char>>) -> Data {
    let args = match output_format {
        Some(f) => seq![("file_path"@, Data::Str(file_path)), ("table_name"@, Data::Str(table_name)), ("output_format"@, Data::Str(f))],
        None => seq![("file_path"@, Data::Str(file_path)), ("table_name"@, Data::Str(table_name))],
    };
    Data::Table(seq![("args"@, Data::Table(args))])
}

fn text_entry(key: &str, text: &str) -> (r: (String, TomlValue))
    ensures
        r.0@ == key@,
        r.1@ == Data::Str(text@),
{
    (key.to_string(), TomlValue::String(text.to_string()))
}

fn meta_value(file_path: &str, table_name: &str, output_format: Option<&str>) -> (r: TomlValue)
    ensures
        r@ == meta_of(file_path@, table_name@, match output_format { Some(f) => Some(f@), None => None }),
{
    let mut args: Vec<(String, TomlValue)> = Vec::new();
    args.push(text_entry("file_path", file_path));
    args.push(text_entry("table_name", table_name));
    if let Some(f) = output_format {
        args.push(text_entry("output_format", f));
    }
    let ghost a = args@;
    let mut top: Vec<(String, TomlValue)> = Vec::new();
    top.push(("args".to_string(), TomlValue::Table(args)));
    proof {
        lemma_entries_view(a);
        lemma_entries_view(top@);
        let expected = meta_of(file_path@, table_name@, match output_format { Some(f) => Some(f@), None => None });
        assert(entries_view(a) =~= expected->Table_0[0].1->Table_0);
        assert(entries_view(top@) =~= expected->Table_0);
    }
    TomlValue::Table(top)
}

impl Resolver {
    /// Starts a fresh session on `document`, with `meta` as the invocation
    /// data, and resolves `table_name` in it.
    fn resolve_session(&mut self, document: TomlValue, file_path: &str, table_name: &str, meta: TomlValue) -> (r: Result<ValueMap, SuperTomlError>)
        ensures
            final(self).plugins == old(self).plugins,
            final(self).toml_file == Some(document),
            final(self).meta_values@ == Map::<Seq<char>, Data>::empty().insert("_"@, meta@),
            final(self).wf(),
            r matches Ok(m) ==> m.wf() && !m@.contains_key("_"@),
            r is Ok ==> acyclic(Some(document@), old(self).plugins@, seq![table_name@]),
            r is Ok <==> resolve_spec(final(self).session(), seq![table_name@], Map::empty()) is Some,
            r matches Ok(m) ==> resolve_spec(final(self).session(), seq![table_name@], Map::empty()) == Some(m@),
            r is Ok ==> final(self).values@ == Map::<Seq<char>, Data>::empty(),
            is_table(table_of(Some(document@), table_name@)) && first_cycle(final(self).session(), seq![table_name@]) is Some ==> (r matches Err(SuperTomlError::PluginError { plugin_name: p, error: m })
                && p@ == first_cycle(final(self).session(), seq![table_name@])->Some_0.0
                && m@ == cycle_text(first_cycle(final(self).session(), seq![table_name@])->Some_0.1)),
            final(self).call_stack@.len() == 0,
            final(self).imports == old(self).imports,
            final(self).environment == old(self).environment,
            r matches Ok(m) ==> (pipeline_merges(old(self).plugins@) ==> table_keys(Some(document@), table_name@).subset_of(m@.dom())),
            !(table_of(Some(document@), table_name@) matches Some(Data::Table(_))) ==> r is Err,
    {
        self.values = ValueMap::new();
        self.call_stack = Vec::new();
        self.file_path = Some(file_path.to_string());
        self.toml_file = Some(document);
        let mut meta_values = ValueMap::new();
        meta_values.insert("_".to_string(), meta);
        self.meta_values = meta_values;
        proof {
            assert(self.stack() =~= Seq::<Seq<char>>::empty());
            assert(Seq::<Seq<char>>::empty().push(table_name@) =~= seq![table_name@]);
        }
        proof {
            if doc_keys(self.doc()).len() == 0 && table_of(self.doc(), table_name@) is Some {
                lemma_table_in_keys(self.doc(), table_name@);
            }
        }
        match resolve_table_recursive(self, table_name) {
            Ok(()) => {
                let mut out = ValueMap::new();
                core::mem::swap(&mut out, &mut self.values);
                Ok(out)
            },
            Err(e) => Err(e),
        }
    }

    /// Resolves `table_name` of `document`, the contents of the file at
    /// `file_path`, in a fresh session; on success, every value collected.
    pub fn resolve_table(&mut self, document: TomlValue, file_path: &str, table_name: &str) -> (r: Result<ValueMap, SuperTomlError>)
        ensures
            final(self).plugins == old(self).plugins,
            final(self).toml_file == Some(document),
            final(self).meta_values@ == Map::<Seq<char>, Data>::empty().insert("_"@, meta_of(file_path@, table_name@, None)),
            final(self).wf(),
            r matches Ok(m) ==> m.wf() && !m@.contains_key("_"@),
            r is Ok ==> acyclic(Some(document@), old(self).plugins@, seq![table_name@]),
            r is Ok <==> resolve_spec(final(self).session(), seq![table_name@], Map::empty()) is Some,
            r matches Ok(m) ==> resolve_spec(final(self).session(), seq![table_name@], Map::empty()) == Some(m@),
            r is Ok ==> final(self).values@ == Map::<Seq<char>, Data>::empty(),
            is_table(table_of(Some(document@), table_name@)) && first_cycle(final(self).session(), seq![table_name@]) is Some ==> (r matches Err(SuperTomlError::PluginError { plugin_name: p, error: m })
                && p@ == first_cycle(final(self).session(), seq![table_name@])->Some_0.0
                && m@ == cycle_text(first_cycle(final(self).session(), seq![table_name@])->Some_0.1)),
            final(self).call_stack@.len() == 0,
            final(self).imports == old(self).imports,
            final(self).environment == old(self).environment,
            r matches Ok(m) ==> (pipeline_merges(old(self).plugins@) ==> table_keys(Some(document@), table_name@).subset_of(m@.dom())),
            !(table_of(Some(document@), table_name@) matches Some(Data::Table(_))) ==> r is Err,
    {
        let meta = meta_value(file_path, table_name, None);
        self.resolve_session(document, file_path, table_name, meta)
    }

    /// As `resolve_table`, with the output format also visible to templates.
    pub fn resolve_table_with_meta(&mut self, document: TomlValue, file_path: &str, table_name: &str, output_format: &str) -> (r: Result<ValueMap, SuperTomlError>)
        ensures
            final(self).plugins == old(self).plugins,
            final(self).toml_file == Some(document),
            final(self).meta_values@ == Map::<Seq<char>, Data>::empty().insert("_"@, meta_of(file_path@, table_name@, Some(output_format@))),
            final(self).wf(),
            r matches Ok(m) ==> m.wf() && !m@.contains_key("_"@),
            r is Ok ==> acyclic(Some(document@), old(self).plugins@, seq![table_name@]),
            r is Ok <==> resolve_spec(final(self).session(), seq![table_name@], Map::empty()) is Some,
            r matches Ok(m) ==> resolve_spec(final(self).session(), seq![table_name@], Map::empty()) == Some(m@),
            r is Ok ==> final(self).values@ == Map::<Seq<char>, Data>::empty(),
            is_table(table_of(Some(document@), table_name@)) && first_cycle(final(self).session(), seq![table_name@]) is Some ==> (r matches Err(SuperTomlError::PluginError { plugin_name: p, error: m })
                && p@ == first_cycle(final(self).session(), seq![table_name@])->Some_0.0
                && m@ == cycle_text(first_cycle(final(self).session(), seq![table_name@])->Some_0.1)),
            final(self).call_stack@.len() == 0,
            final(self).imports == old(self).imports,
            final(self).environment == old(self).environment,
            r matches Ok(m) ==> (pipeline_merges(old(self).plugins@) ==> table_keys(Some(document@), table_name@).subset_of(m@.dom())),
            !(table_of(Some(document@), table_name@) matches Some(Data::Table(_))) ==> r is Err,
    {
        let meta = meta_value(file_path, table_name, Some(output_format));
        self.resolve_session(document, file_path, table_name, meta)
    }
}

/// The pipeline of the command-line tool.
pub open spec fn default_pipeline() -> Seq<Plugin> {
    seq![
        Plugin::Before(BeforePlugin),
        Plugin::Import(ImportPlugin),
        Plugin::Templating(TemplatingPlugin),
        Plugin::After(AfterPlugin),
    ]
}

/// What the command-line tool's resolution reads.
pub open spec fn run_session(
    document: Data,
    imports: Seq<ImportedFile>,
    env: Seq<(Seq<char>, Seq<char>)>,
    file_name: Seq<char>,
    table: Seq<char>,
    output_format: Seq<char>,
) -> Session {
    Session {
        doc: Some(document),
        plugins: default_pipeline(),
        imports,
        env,
        meta: Map::<Seq<char>, Data>::empty().insert("_"@, meta_of(file_name, table, Some(output_format))),
    }
}

/// Resolves `table` of `document` the way the command-line tool does: with
/// the before, import, templating and after plugins, the given imported
/// files and environment, and `file_name` and `output_format` visible to
/// templates.
pub fn run(
    document: TomlValue,
    imports: Vec<ImportedFile>,
    environment: EnvVars,
    file_name: &str,
    table: &str,
    output_format: &str,
) -> (r: Result<ValueMap, SuperTomlError>)
    ensures
        r matches Ok(m) ==> m.wf() && !m@.contains_key("_"@),
        r is Ok ==> acyclic(Some(document@), default_pipeline(), seq![table@]),
        r is Ok <==> resolve_spec(run_session(document@, imports@, environment.entries(), file_name@, table@, output_format@), seq![table@], Map::empty()) is Some,
        r matches Ok(m) ==> resolve_spec(run_session(document@, imports@, environment.entries(), file_name@, table@, output_format@), seq![table@], Map::empty()) == Some(m@),
        r matches Ok(m) ==> table_keys(Some(document@), table@).subset_of(m@.dom()),
        !(table_of(Some(document@), table@) matches Some(Data::Table(_))) ==> r is Err,
{
    let mut plugins: Vec<Plugin> = Vec::new();
    plugins.push(Plugin::Before(BeforePlugin));
    plugins.push(Plugin::Import(ImportPlugin));
    plugins.push(Plugin::Templating(TemplatingPlugin));
    plugins.push(Plugin::After(AfterPlugin));
    proof {
        assert(plugins@ =~= default_pipeline());
        assert(merges(plugins@[0]));
    }
    let mut resolver = Resolver::new(plugins);
    resolver.imports = imports;
    resolver.environment = environment;
    resolver.resolve_table_with_meta(document, file_name, table, output_format)
}

/// A table that depends on itself, through any plugin of the pipeline, never
/// resolves.
pub proof fn lemma_self_reference_never_resolves(
    doc: Option<Data>,
    plugins: Seq<Plugin>,
    path: Seq<Seq<char>>,
    t: Seq<char>,
    i: int,
)
    requires
        0 <= i < plugins.len(),
        table_of(doc, t) is Some,
        config_deps(plugins[i], config_of(table_of(doc, t)->Some_0, name_of(plugins[i]))).contains(t),
    ensures
        !acyclic(doc, plugins, path.push(t)),
{
    lemma_deps_contains(plugins, table_of(doc, t)->Some_0, i, t);
    if acyclic(doc, plugins, path.push(t)) {
        assert(path.push(t).last() == t);
        assert(path.push(t).contains(t)) by {
            assert(path.push(t)[path.len() as int] == t);
        }
    }
}

/// A table whose first dependency, under a first plugin that orders
/// dependencies, is itself runs into the cycle at once: resolving it fails
/// with that plugin's error for a cycle at the table.
pub proof fn lemma_self_reference_cycle(c: Session, t: Seq<char>)
    requires
        c.plugins.len() > 0,
        c.plugins[0] is Before || c.plugins[0] is After,
        is_table(table_of(c.doc, t)),
        first_listed(config_of(table_of(c.doc, t)->Some_0, name_of(c.plugins[0]))) == Some(t),
    ensures
        first_cycle(c, seq![t]) == Some((name_of(c.plugins[0]), t)),
{
    assert(seq![t].last() == t);
    assert(seq![t].contains(t)) by {
        assert(seq![t][0] == t);
    }
}

/// Two tables that list each other first, under a first plugin that orders
/// dependencies, run into a cycle at whichever of them was resolved first.
pub proof fn lemma_mutual_reference_cycle(c: Session, a: Seq<char>, b: Seq<char>)
    requires
        c.plugins.len() > 0,
        c.plugins[0] is Before || c.plugins[0] is After,
        a != b,
        is_table(table_of(c.doc, a)),
        is_table(table_of(c.doc, b)),
        first_listed(config_of(table_of(c.doc, a)->Some_0, name_of(c.plugins[0]))) == Some(b),
        first_listed(config_of(table_of(c.doc, b)->Some_0, name_of(c.plugins[0]))) == Some(a),
    ensures
        first_cycle(c, seq![a]) == Some((name_of(c.plugins[0]), a)),
        first_cycle(c, seq![b]) == Some((name_of(c.plugins[0]), b)),
{
    lemma_table_in_keys(c.doc, a);
    lemma_table_in_keys(c.doc, b);
    let keys = doc_keys(c.doc);
    match root_of(c.doc) {
        Some(entries) => {
            vstd::seq_lib::seq_to_set_is_finite(entries.map_values(|e: (Seq<char>, Data)| e.0));
        },
        None => {},
    }
    assert(set![a, b].subset_of(keys));
    vstd::set_lib::lemma_len_subset(set![a, b], keys);
    assert(set![a, b].len() == 2) by {
        assert(set![a].insert(b).len() == set![a].len() + 1);
    }
    let pa = seq![a];
    let pb = seq![b];
    assert(!pa.contains(b)) by {
        if pa.contains(b) {
            let k = choose|k: int| 0 <= k < pa.len() && pa[k] == b;
            assert(pa[0] == a);
        }
    }
    assert(!pb.contains(a)) by {
        if pb.contains(a) {
            let k = choose|k: int| 0 <= k < pb.len() && pb[k] == a;
            assert(pb[0] == b);
        }
    }
    assert(pa.last() == a);
    assert(pb.last() == b);
    let pab = pa.push(b);
    let pba = pb.push(a);
    assert(pab.last() == b);
    assert(pba.last() == a);
    assert(pab.contains(a)) by {
        assert(pab[0] == a);
    }
    assert(pba.contains(b)) by {
        assert(pba[0] == b);
    }
    assert(pa.len() < keys.len());
    assert(first_step_cycle(c, pab, table_of(c.doc, b)->Some_0) == Some((name_of(c.plugins[0]), a)));
    assert(first_cycle(c, pab) == Some((name_of(c.plugins[0]), a)));
    assert(first_step_cycle(c, pa, table_of(c.doc, a)->Some_0) == first_cycle(c, pab));
    assert(first_step_cycle(c, pba, table_of(c.doc, a)->Some_0) == Some((name_of(c.plugins[0]), b)));
    assert(first_cycle(c, pba) == Some((name_of(c.plugins[0]), b)));
    assert(first_step_cycle(c, pb, table_of(c.doc, b)->Some_0) == first_cycle(c, pba));
}

/// Two tables that depend on each other never resolve, whichever comes first.
pub proof fn lemma_mutual_reference_never_resolves(
    doc: Option<Data>,
    plugins: Seq<Plugin>,
    path: Seq<Seq<char>>,
    a: Seq<char>,
    b: Seq<char>,
    i: int,
    j: int,
)
    requires
        0 <= i < plugins.len(),
        0 <= j < plugins.len(),
        table_of(doc, a) is Some,
        table_of(doc, b) is Some,
        config_deps(plugins[i], config_of(table_of(doc, a)->Some_0, name_of(plugins[i]))).contains(b),
        config_deps(plugins[j], config_of(table_of(doc, b)->Some_0, name_of(plugins[j]))).contains(a),
    ensures
        !acyclic(doc, plugins, path.push(a)),
        !acyclic(doc, plugins, path.push(b)),
{
    lemma_deps_contains(plugins, table_of(doc, a)->Some_0, i, b);
    lemma_deps_contains(plugins, table_of(doc, b)->Some_0, j, a);
    let pa = path.push(a);
    let pb = path.push(b);
    assert(pa.last() == a);
    assert(pb.last() == b);
    if acyclic(doc, plugins, pa) {
        let pab = pa.push(b);
        assert(acyclic(doc, plugins, pab));
        assert(pab.last() == b);
        assert(pab[path.len() as int] == a);
        assert(pab.contains(a));
    }
    if acyclic(doc, plugins, pb) {
        let pba = pb.push(a);
        assert(acyclic(doc, plugins, pba));
        assert(pba.last() == a);
        assert(pba[path.len() as int] == b);
        assert(pba.contains(b));
    }
}

/// Whatever one plugin of a pipeline resolves for a table, the pipeline does.
pub proof fn lemma_deps_contains(plugins: Seq<Plugin>, table: Data, i: int, n: Seq<char>)
    requires
        0 <= i < plugins.len(),
        config_deps(plugins[i], config_of(table, name_of(plugins[i]))).contains(n),
    ensures
        deps(plugins, table).contains(n),
    decreases plugins.len(),
{
    let left = deps(plugins.drop_last(), table);
    let right = config_deps(plugins.last(), config_of(table, name_of(plugins.last())));
    if i == plugins.len() - 1 {
        let k = choose|k: int| 0 <= k < right.len() && right[k] == n;
        assert((left + right)[left.len() + k] == n);
    } else {
        assert(plugins.drop_last()[i] == plugins[i]);
        lemma_deps_contains(plugins.drop_last(), table, i, n);
        let k = choose|k: int| 0 <= k < left.len() && left[k] == n;
        assert((left + right)[k] == n);
    }
}

} // verus!

use vstd::prelude::*;
use crate::error::SuperTomlError;
use crate::utils::add_values_to_resolver;
use crate::resolver::{
    dep_ok, lemma_budget, resolution_error, step_spec, table_of, reference_target, resolve_table_recursive, step_ok, Plugin, Resolver,
};
use crate::error::join2;
use crate::loader::extract_table;
use crate::value::{entries_view, field, lemma_entries_view, Data, TomlValue, ValueMap};

verus! {

/// The configuration of the reference plugin: the table to resolve first,
/// and the prefix under which its values are copied again, if any.
pub struct ReferenceConfig {
    pub table: Option<String>,
    pub prefix: Option<String>,
}

/// Whether a field is absent or a string.
pub open spec fn optional_text(d: Option<Data>) -> bool {
    match d {
        Some(Data::Str(_)) => true,
        None => true,
        _ => false,
    }
}

/// Whether a reference configuration can be read: anything but a non-empty
/// table whose `table` or `prefix` field is not a string.
pub open spec fn reference_config_ok(config: Data) -> bool {
    match config {
        Data::Table(entries) => entries.len() == 0 || (optional_text(field(config, "table"@)) && optional_text(field(config, "prefix"@))),
        _ => true,
    }
}

/// The prefix that a reference configuration names, if any.
pub open spec fn reference_prefix(config: Data) -> Option<Seq<char>> {
    match config {
        Data::Table(entries) => if entries.len() > 0 {
            match field(config, "prefix"@) {
                Some(Data::Str(p)) => Some(p),
                _ => None,
            }
        } else {
            None
        },
        _ => None,
    }
}

/// `values` with, for every key of `entries` but `_` that `values` holds,
/// that value again under `prefix` followed by the key, unless that is `_`.
pub open spec fn prefixed(values: Map<Seq<char>, Data>, entries: Seq<(Seq<char>, Data)>, prefix: Seq<char>) -> Map<Seq<char>, Data>
    decreases entries.len(),
{
    if entries.len() == 0 {
        values
    } else {
        let m = prefixed(values, entries.drop_last(), prefix);
        let k = entries.last().0;
        if k != "_"@ && prefix + k != "_"@ && values.contains_key(k) {
            m.insert(prefix + k, values[k])
        } else {
            m
        }
    }
}

impl ReferenceConfig {
    /// Reads a reference configuration out of a table.
    pub fn decode(config: &TomlValue) -> (r: Result<ReferenceConfig, SuperTomlError>)
        ensures
            r matches Ok(c) ==> (c.table matches Some(t) ==> field(config@, "table"@) == Some(Data::Str(t@))) && (c.table is None ==> field(config@, "table"@) is None),
            r matches Ok(c) ==> (c.prefix matches Some(t) ==> field(config@, "prefix"@) == Some(Data::Str(t@))) && (c.prefix is None ==> field(config@, "prefix"@) is None),
            r is Err <==> !(optional_text(field(config@, "table"@)) && optional_text(field(config@, "prefix"@))),
            r matches Err(e) ==> (e matches SuperTomlError::PluginDeserialization { plugin_name, .. } && plugin_name@ == "reference"@),
    {
        let table = match config.get("table") {
            None => None,
            Some(v) => match v.as_str() {
                Some(s) => Some(s.to_string()),
                None => return Err(SuperTomlError::PluginDeserialization {
                    plugin_name: "reference".to_string(),
                    error: "field `table` must be a string".to_string(),
                }),
            },
        };
        let prefix = match config.get("prefix") {
            None => None,
            Some(v) => match v.as_str() {
                Some(s) => Some(s.to_string()),
                None => return Err(SuperTomlError::PluginDeserialization {
                    plugin_name: "reference".to_string(),
                    error: "field `prefix` must be a string".to_string(),
                }),
            },
        };
        Ok(ReferenceConfig { table, prefix })
    }
}

/// The entries of table `n` of the document, or none.
pub open spec fn table_entries(doc: Option<Data>, n: Seq<char>) -> Seq<(Seq<char>, Data)> {
    match table_of(doc, n) {
        Some(Data::Table(e)) => e,
        _ => Seq::empty(),
    }
}

/// Copies each value that the result holds under a key of table `name`
/// again under `prefix` followed by the key.
fn copy_prefixed(resolver: &mut Resolver, name: &str, prefix: &str)
    requires
        old(resolver).wf(),
    ensures
        final(resolver).wf(),
        final(resolver).same_session(old(resolver)),
        final(resolver).values@ == prefixed(old(resolver).values@, table_entries(old(resolver).doc(), name@), prefix@),
        old(resolver).values@.dom().subset_of(final(resolver).values@.dom()),
{
    let entries = match &resolver.toml_file {
        Some(doc) => match extract_table(doc, name) {
            Ok(e) => e,
            Err(_) => Vec::new(),
        },
        None => Vec::new(),
    };
    let ghost ev = entries_view(entries@);
    proof {
        lemma_entries_view(entries@);
        assert(entries_view(Seq::<(String, TomlValue)>::empty()) =~= Seq::empty());
        assert(ev == table_entries(old(resolver).doc(), name@));
        assert(ev.subrange(0, 0) =~= Seq::empty());
    }
    let mut snapshot = ValueMap::new();
    snapshot.add_all(&resolver.values);
    assert(snapshot@ =~= old(resolver).values@);
    let reserved = "_".to_string();
    let mut i: usize = 0;
    while i < entries.len()
        invariant
            resolver.wf(),
            snapshot.wf(),
            resolver.same_session(old(resolver)),
            snapshot@ == old(resolver).values@,
            reserved@ == "_"@,
            i <= entries@.len(),
            ev == entries_view(entries@),
            ev.len() == entries@.len(),
            forall|j: int| 0 <= j < entries@.len() ==> #[trigger] ev[j] == (entries@[j].0@, entries@[j].1@),
            resolver.values@ == prefixed(old(resolver).values@, ev.subrange(0, i as int), prefix@),
            old(resolver).values@.dom().subset_of(resolver.values@.dom()),
        decreases entries@.len() - i,
    {
        proof {
            assert(ev.subrange(0, i + 1).drop_last() =~= ev.subrange(0, i as int));
        }
        if entries[i].0 != reserved {
            let target = join2(prefix, entries[i].0.as_str());
            if target != reserved {
                if let Some(v) = snapshot.get(entries[i].0.as_str()) {
                    let copy = v.deep_clone();
                    resolver.values.insert(target, copy);
                }
            }
        }
        i += 1;
    }
    proof {
        assert(ev.subrange(0, i as int) =~= ev);
    }
}

/// Resolves the table that its configuration names, if any, then copies
/// this table's working values into the result. The referenced table's
/// values reach the result through its own pipeline, under their own keys;
/// with a `prefix`, each of its keys that the result holds is copied again
/// under the prefix followed by the key.
#[derive(Clone, Copy)]
pub struct ReferencePlugin;

impl ReferencePlugin {
    /// The name under which this plugin finds its configuration.
    pub fn name(&self) -> (r: &'static str)
        ensures
            r@ == "reference"@,
    {
        "reference"
    }

    pub fn process(&self, resolver: &mut Resolver, table_values: &mut ValueMap, config: TomlValue) -> (r: Result<(), SuperTomlError>)
        requires
            old(resolver).wf(),
            old(table_values).wf(),
            !old(table_values)@.contains_key("_"@),
        ensures
            final(resolver).wf(),
            final(table_values).wf(),
            !final(table_values)@.contains_key("_"@),
            final(resolver).same_session(old(resolver)),
            final(table_values)@ == old(table_values)@,
            !reference_config_ok(config@) ==> (r matches Err(SuperTomlError::PluginDeserialization { plugin_name, .. }) && plugin_name@ == "reference"@),
            r is Ok <==> step_spec(old(resolver).session(), old(resolver).stack(), Plugin::Reference(*self), config@, old(table_values)@, old(resolver).values@) is Some,
            r is Ok ==> step_spec(old(resolver).session(), old(resolver).stack(), Plugin::Reference(*self), config@, old(table_values)@, old(resolver).values@) == Some((final(resolver).values@, final(table_values)@)),
            reference_config_ok(config@) && reference_target(config@) is Some && old(resolver).stack().contains(reference_target(config@)->Some_0) ==> {
                &&& r matches Err(SuperTomlError::CycleDetected(m)) && m@ == reference_target(config@)->Some_0
                &&& final(resolver).values == old(resolver).values
            },
            r is Ok ==> step_ok(Plugin::Reference(*self), *old(resolver), *final(resolver), old(table_values)@, final(table_values)@, config@),
            r is Ok ==> forall|k: Seq<char>| old(table_values)@.contains_key(k) ==> final(resolver).values@.contains_key(k) && final(resolver).values@[k] == old(table_values)@[k],
            r matches Err(e) ==> {
                ||| !reference_config_ok(config@) && (e matches SuperTomlError::PluginDeserialization { plugin_name, .. } && plugin_name@ == "reference"@)
                ||| reference_config_ok(config@) && reference_target(config@) is Some && resolution_error(*old(resolver), reference_target(config@)->Some_0, e)
            },
        decreases old(resolver).budget() + 1, 0int,
    {
        let is_empty = match config.as_table() {
            Some(entries) => entries.len() == 0,
            None => true,
        };
        if !is_empty {
            let cfg = match ReferenceConfig::decode(&config) {
                Ok(c) => c,
                Err(e) => return Err(e),
            };
            if let Some(name) = cfg.table {
                proof {
                    lemma_budget(resolver);
                }
                let ghost rc = *resolver;
                let res = resolve_table_recursive(resolver, name.as_str());
                if res.is_err() {
                    proof {
                        assert(reference_target(config@) == Some(name@));
                        assert(rc.session() == old(resolver).session());
                        assert(rc.stack() == old(resolver).stack());
                    }
                    return res;
                }
                if let Some(p) = cfg.prefix {
                    copy_prefixed(resolver, name.as_str(), p.as_str());
                }
                proof {
                    assert(dep_ok(rc.doc(), rc.plugins@, rc.stack(), name@));
                    assert(rc.stack() == old(resolver).stack());
                    assert(rc.doc() == old(resolver).doc());
                    assert(rc.session() == old(resolver).session());
                    assert(reference_target(config@) == Some(name@));
                    assert(seq![name@].contains(name@) ) by {
                        assert(seq![name@][0] == name@);
                    }
                }
            }
        }
        add_values_to_resolver(resolver, table_values);
        Ok(())
    }
}

} // verus!

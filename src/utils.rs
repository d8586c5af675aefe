use vstd::prelude::*;
use crate::error::{join3, SuperTomlError};
use crate::resolver::Resolver;
use crate::value::ValueMap;

verus! {

/// Copies a table's working values into the values that the resolution has
/// collected, replacing values under keys that both hold.
pub fn add_values_to_resolver(resolver: &mut Resolver, table_values: &ValueMap)
    requires
        old(resolver).wf(),
        table_values.wf(),
        !table_values@.contains_key("_"@),
    ensures
        final(resolver).wf(),
        final(resolver).same_session(old(resolver)),
        final(resolver).diagnostics == old(resolver).diagnostics,
        final(resolver).values@ == old(resolver).values@.union_prefer_right(table_values@),
{
    resolver.values.add_all(table_values);
}

/// The error that a failed template operation of a plugin becomes:
/// `operation: error`, attributed to `plugin_name`.
pub fn template_error(plugin_name: &str, operation: &str, error: &str) -> (r: SuperTomlError)
    ensures
        r matches SuperTomlError::PluginError { plugin_name: p, error: m } && p@ == plugin_name@ && m@ == operation@ + ": "@ + error@,
{
    SuperTomlError::PluginError { plugin_name: plugin_name.to_string(), error: join3(operation, ": ", error) }
}

} // verus!

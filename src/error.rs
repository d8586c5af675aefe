use vstd::prelude::*;
use vstd::string::StringExecFns;

verus! {

/// Everything that can end a resolution.
#[derive(Clone, Debug, PartialEq)]
pub enum SuperTomlError {
    /// A file could not be read; the reason as text.
    FileRead(String),
    /// A file is not a well-formed document; the reason as text.
    TomlParse(String),
    TableNotFound(String),
    InvalidTableType(String),
    CycleDetected(String),
    /// A plugin's configuration does not have the shape that the plugin needs.
    PluginDeserialization { plugin_name: String, error: String },
    /// Any other failure inside a plugin.
    PluginError { plugin_name: String, error: String },
}

/// The text that describes an error to a person.
pub open spec fn error_text(e: SuperTomlError) -> Seq<char> {
    match e {
        SuperTomlError::FileRead(m) => "Failed to read file: "@ + m@,
        SuperTomlError::TomlParse(m) => "Failed to parse TOML: "@ + m@,
        SuperTomlError::TableNotFound(n) => "Table '"@ + n@ + "' not found"@,
        SuperTomlError::InvalidTableType(n) => "Item '"@ + n@ + "' is not a table"@,
        SuperTomlError::CycleDetected(n) => "Cycle detected when processing table '"@ + n@ + "'"@,
        SuperTomlError::PluginDeserialization { plugin_name, error } => "Plugin '"@ + plugin_name@
            + "' failed to deserialize data: "@ + error@,
        SuperTomlError::PluginError { plugin_name, error } => "Plugin '"@ + plugin_name@
            + "' error: "@ + error@,
    }
}

/// `a + b` as a new string.
pub fn join2(a: &str, b: &str) -> (r: String)
    ensures
        r@ == a@ + b@,
{
    let mut r = String::from_str(a);
    r.append(b);
    r
}

/// `a + b + c` as a new string.
pub fn join3(a: &str, b: &str, c: &str) -> (r: String)
    ensures
        r@ == a@ + b@ + c@,
{
    let mut r = join2(a, b);
    r.append(c);
    r
}

/// `a + b + c + d` as a new string.
pub fn join4(a: &str, b: &str, c: &str, d: &str) -> (r: String)
    ensures
        r@ == a@ + b@ + c@ + d@,
{
    let mut r = join3(a, b, c);
    r.append(d);
    r
}

impl SuperTomlError {
    /// The text that describes this error to a person.
    pub fn message(&self) -> (r: String)
        ensures
            r@ == error_text(*self),
    {
        match self {
            SuperTomlError::FileRead(m) => join2("Failed to read file: ", m.as_str()),
            SuperTomlError::TomlParse(m) => join2("Failed to parse TOML: ", m.as_str()),
            SuperTomlError::TableNotFound(n) => join3("Table '", n.as_str(), "' not found"),
            SuperTomlError::InvalidTableType(n) => join3("Item '", n.as_str(), "' is not a table"),
            SuperTomlError::CycleDetected(n) => join3(
                "Cycle detected when processing table '",
                n.as_str(),
                "'",
            ),
            SuperTomlError::PluginDeserialization { plugin_name, error } => join4(
                "Plugin '",
                plugin_name.as_str(),
                "' failed to deserialize data: ",
                error.as_str(),
            ),
            SuperTomlError::PluginError { plugin_name, error } => join4(
                "Plugin '",
                plugin_name.as_str(),
                "' error: ",
                error.as_str(),
            ),
        }
    }

    /// An identical error.
    pub fn duplicate(&self) -> (r: SuperTomlError)
        ensures
            r == *self,
    {
        match self {
            SuperTomlError::FileRead(m) => SuperTomlError::FileRead(m.clone()),
            SuperTomlError::TomlParse(m) => SuperTomlError::TomlParse(m.clone()),
            SuperTomlError::TableNotFound(n) => SuperTomlError::TableNotFound(n.clone()),
            SuperTomlError::InvalidTableType(n) => SuperTomlError::InvalidTableType(n.clone()),
            SuperTomlError::CycleDetected(n) => SuperTomlError::CycleDetected(n.clone()),
            SuperTomlError::PluginDeserialization { plugin_name, error } => {
                SuperTomlError::PluginDeserialization {
                    plugin_name: plugin_name.clone(),
                    error: error.clone(),
                }
            },
            SuperTomlError::PluginError { plugin_name, error } => SuperTomlError::PluginError {
                plugin_name: plugin_name.clone(),
                error: error.clone(),
            },
        }
    }
}

} // verus!

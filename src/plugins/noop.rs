use vstd::prelude::*;
use crate::error::{join2, join3, SuperTomlError};
use vstd::string::StringExecFns;
use crate::utils::add_values_to_resolver;
use crate::resolver::{step_ok, Plugin, Resolver};
use crate::value::{entries_view, field, lemma_entries_view, Data, TomlValue, ValueMap};

verus! {

/// The configuration of the no-op plugin.
pub struct NoopConfig {
    pub message: Option<String>,
    pub enabled: bool,
}

/// The message that a readable no-op configuration holds, if any.
pub open spec fn noop_message(config: Data) -> Option<Seq<char>> {
    match field(config, "message"@) {
        Some(Data::Str(m)) => Some(m),
        _ => None,
    }
}

/// Whether a readable no-op configuration enables the plugin.
pub open spec fn noop_enabled(config: Data) -> bool {
    field(config, "enabled"@) == Some(Data::Bool(true))
}

/// Whether a no-op configuration can be read: the empty table, which means
/// the default (disabled, no message), or a table with a boolean `enabled`
/// and, if present, a string `message`.
pub open spec fn noop_config_ok(config: Data) -> bool {
    ||| config == Data::Table(Seq::empty())
    ||| {
        &&& config is Table
        &&& field(config, "enabled"@) matches Some(Data::Bool(_))
        &&& field(config, "message"@) matches Some(m) ==> m is Str
    }
}

impl NoopConfig {
    /// The message, as text.
    pub open spec fn message_text(&self) -> Option<Seq<char>> {
        match self.message {
            Some(m) => Some(m@),
            None => None,
        }
    }

    /// Reads a no-op configuration out of a table.
    pub fn decode(config: &TomlValue) -> (r: Result<NoopConfig, SuperTomlError>)
        ensures
            r is Ok <==> noop_config_ok(config@),
            r matches Ok(c) ==> (config@ == Data::Table(Seq::empty()) ==> !c.enabled && c.message is None),
            r matches Ok(c) ==> (config@ != Data::Table(Seq::empty()) ==> field(config@, "enabled"@) == Some(Data::Bool(c.enabled))),
            r matches Ok(c) ==> (c.message matches Some(m) ==> field(config@, "message"@) == Some(Data::Str(m@))),
            r matches Ok(c) ==> c.message_text() == noop_message(config@) && c.enabled == noop_enabled(config@),
            r matches Err(e) ==> (e matches SuperTomlError::PluginDeserialization { plugin_name, .. } && plugin_name@ == "noop"@),
    {
        match config.as_table() {
            Some(entries) => {
                if entries.len() == 0 {
                    proof {
                        assert(entries_view(entries@) =~= Seq::empty());
                    }
                    return Ok(NoopConfig { message: None, enabled: false });
                }
            },
            None => return Err(noop_error("expected a table")),
        }
        let enabled = match config.get("enabled") {
            Some(v) => match v.as_bool() {
                Some(b) => b,
                None => return Err(noop_error("field `enabled` must be a boolean")),
            },
            None => return Err(noop_error("missing field `enabled`")),
        };
        let message = match config.get("message") {
            Some(v) => match v.as_str() {
                Some(s) => Some(s.to_string()),
                None => return Err(noop_error("field `message` must be a string")),
            },
            None => None,
        };
        Ok(NoopConfig { message, enabled })
    }
}

fn noop_error(detail: &str) -> (r: SuperTomlError)
    ensures
        r matches SuperTomlError::PluginDeserialization { plugin_name, error } && plugin_name@ == "noop"@ && error@ == detail@,
{
    SuperTomlError::PluginDeserialization { plugin_name: "noop".to_string(), error: detail.to_string() }
}

/// Checks its configuration and copies this table's working values into the
/// result unchanged.
#[derive(Clone, Copy)]
pub struct NoopPlugin;

/// The digit `d` as a character.
pub open spec fn digit_char(d: nat) -> char {
    seq!['0', '1', '2', '3', '4', '5', '6', '7', '8', '9'][d as int]
}

/// `n` in decimal digits.
pub open spec fn decimal(n: nat) -> Seq<char>
    decreases n,
{
    if n < 10 {
        seq![digit_char(n)]
    } else {
        decimal(n / 10).push(digit_char(n % 10))
    }
}

/// The digit `d` as text.
fn digit_text(d: usize) -> (r: &'static str)
    requires
        d < 10,
    ensures
        r@ == seq![digit_char(d as nat)],
{
    proof {
        reveal_strlit("0");
        reveal_strlit("1");
        reveal_strlit("2");
        reveal_strlit("3");
        reveal_strlit("4");
        reveal_strlit("5");
        reveal_strlit("6");
        reveal_strlit("7");
        reveal_strlit("8");
        reveal_strlit("9");
    }
    let r = if d == 0 {
        "0"
    } else if d == 1 {
        "1"
    } else if d == 2 {
        "2"
    } else if d == 3 {
        "3"
    } else if d == 4 {
        "4"
    } else if d == 5 {
        "5"
    } else if d == 6 {
        "6"
    } else if d == 7 {
        "7"
    } else if d == 8 {
        "8"
    } else {
        "9"
    };
    assert(r@ =~= seq![digit_char(d as nat)]);
    r
}

/// `n` in decimal digits, as text.
pub fn decimal_text(n: usize) -> (r: String)
    ensures
        r@ == decimal(n as nat),
    decreases n,
{
    if n < 10 {
        String::from_str(digit_text(n))
    } else {
        let mut r = decimal_text(n / 10);
        r.append(digit_text(n % 10));
        r
    }
}

/// The line that an enabled no-op configuration asks to show: its message,
/// or the number of values collected so far.
pub open spec fn noop_diagnostic(message: Option<Seq<char>>, enabled: bool, count: nat) -> Option<Seq<char>> {
    if !enabled {
        None
    } else {
        match message {
            Some(m) => Some("NoopPlugin: "@ + m),
            None => Some("NoopPlugin: Running with "@ + decimal(count) + " values"@),
        }
    }
}

impl NoopPlugin {
    /// The diagnostic line for `config` when `value_count` values have been
    /// collected; none when the plugin is disabled.
    pub fn diagnostic(&self, config: &NoopConfig, value_count: usize) -> (r: Option<String>)
        ensures
            r matches Some(t) ==> noop_diagnostic(config.message_text(), config.enabled, value_count as nat) == Some(t@),
            r is None ==> noop_diagnostic(config.message_text(), config.enabled, value_count as nat) is None,
    {
        if !config.enabled {
            return None;
        }
        match &config.message {
            Some(m) => Some(join2("NoopPlugin: ", m.as_str())),
            None => {
                let count = decimal_text(value_count);
                Some(join3("NoopPlugin: Running with ", count.as_str(), " values"))
            },
        }
    }

    /// The name under which this plugin finds its configuration.
    pub fn name(&self) -> (r: &'static str)
        ensures
            r@ == "noop"@,
    {
        "noop"
    }

    pub fn process(&self, resolver: &mut Resolver, table_values: &mut ValueMap, config: TomlValue) -> (r: Result<(), SuperTomlError>)
        requires
            old(resolver).wf(),
            old(table_values).wf(),
            !old(table_values)@.contains_key("_"@),
        ensures
            final(resolver).wf(),
            final(table_values).wf(),
            !final(table_values)@.contains_key("_"@),
            final(resolver).same_session(old(resolver)),
            final(table_values)@ == old(table_values)@,
            r is Ok <==> noop_config_ok(config@),
            r matches Err(e) ==> (e matches SuperTomlError::PluginDeserialization { plugin_name, .. } && plugin_name@ == "noop"@),
            r is Ok ==> final(resolver).values@ == old(resolver).values@.union_prefer_right(old(table_values)@),
            r is Err ==> final(resolver).values@ == old(resolver).values@,
            r is Ok ==> step_ok(Plugin::Noop(*self), *old(resolver), *final(resolver), old(table_values)@, final(table_values)@, config@),
            r is Err ==> final(resolver).diagnostics@ == old(resolver).diagnostics@,
            r is Ok ==> ({
                let line = noop_diagnostic(noop_message(config@), noop_enabled(config@), old(resolver).values@.len());
                &&& line is None ==> final(resolver).diagnostics@ == old(resolver).diagnostics@
                &&& line is Some ==> final(resolver).diagnostics@.len() == old(resolver).diagnostics@.len() + 1
                    && final(resolver).diagnostics@.drop_last() == old(resolver).diagnostics@
                    && final(resolver).diagnostics@.last()@ == line->Some_0
            }),
        decreases old(resolver).budget() + 1, 0int,
    {
        let cfg = match NoopConfig::decode(&config) {
            Ok(c) => c,
            Err(e) => return Err(e),
        };
        let count = resolver.values.len();
        let ghost before = resolver.diagnostics@;
        if let Some(line) = self.diagnostic(&cfg, count) {
            resolver.diagnostics.push(line);
            proof {
                assert(resolver.diagnostics@.drop_last() =~= before);
            }
        }
        add_values_to_resolver(resolver, table_values);
        Ok(())
    }
}

} // verus!

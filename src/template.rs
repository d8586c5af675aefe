use vstd::prelude::*;
use crate::value::{Data, ValueMap};

verus! {

/// The template engine's values, carried as they are.
#[verifier::external_type_specification]
#[verifier::external_body]
pub struct ExJinjaValue(minijinja::Value);

/// The template engine's errors, carried as they are.
#[verifier::external_type_specification]
#[verifier::external_body]
pub struct ExJinjaError(minijinja::Error);

/// Whether `pat` occurs in `s` as a contiguous run.
pub open spec fn occurs_in(pat: Seq<char>, s: Seq<char>) -> bool {
    exists|i: int| 0 <= i <= s.len() - pat.len() && #[trigger] s.subrange(i, i + pat.len()) == pat
}

/// Whether a string holds one of the template markers `{{`, `{%` or `{#`.
pub open spec fn is_template(s: Seq<char>) -> bool {
    occurs_in(seq!['{', '{'], s) || occurs_in(seq!['{', '%'], s) || occurs_in(seq!['{', '#'], s)
}

/// Relies on `str::contains`: whether `pat` occurs in `s`.
#[verifier::external_body]
fn contains_text(s: &str, pat: &str) -> (r: bool)
    ensures
        r == occurs_in(pat@, s@),
{
    s.contains(pat)
}

/// Whether `s` holds a template marker, so that it must be rendered.
pub fn has_template_syntax(s: &str) -> (r: bool)
    ensures
        r == is_template(s@),
{
    proof {
        reveal_strlit("{{");
        reveal_strlit("{%");
        reveal_strlit("{#");
        assert("{{"@ =~= seq!['{', '{']);
        assert("{%"@ =~= seq!['{', '%']);
        assert("{#"@ =~= seq!['{', '#']);
    }
    contains_text(s, "{{") || contains_text(s, "{%") || contains_text(s, "{#")
}

/// A snapshot of the process environment, handed to templates through the
/// `env` and `env_or` functions.
#[derive(Clone)]
pub struct EnvVars {
    vars: Vec<(String, String)>,
}

/// The variable named `name` in a snapshot; where a name repeats, the later
/// entry wins.
pub open spec fn env_lookup(vars: Seq<(String, String)>, name: Seq<char>) -> Option<Seq<char>>
    decreases vars.len(),
{
    if vars.len() == 0 {
        None
    } else if vars.last().0@ == name {
        Some(vars.last().1@)
    } else {
        env_lookup(vars.drop_last(), name)
    }
}

impl EnvVars {
    /// The snapshot's entries, in the order in which they were set.
    pub closed spec fn entries(&self) -> Seq<(Seq<char>, Seq<char>)> {
        self.vars@.map_values(|p: (String, String)| (p.0@, p.1@))
    }

    pub closed spec fn spec_get(&self, name: Seq<char>) -> Option<Seq<char>> {
        env_lookup(self.vars@, name)
    }

    /// An empty snapshot: no variable is set.
    pub fn new() -> (r: EnvVars)
        ensures
            forall|n: Seq<char>| r.spec_get(n) is None,
            r.entries() == Seq::<(Seq<char>, Seq<char>)>::empty(),
    {
        let r = EnvVars { vars: Vec::new() };
        assert(r.entries() =~= Seq::<(Seq<char>, Seq<char>)>::empty());
        r
    }

    /// Records that variable `name` holds `value`.
    pub fn set(&mut self, name: String, value: String)
        ensures
            final(self).spec_get(name@) == Some(value@),
            final(self).entries() == old(self).entries().push((name@, value@)),
            forall|n: Seq<char>| n != name@ ==> final(self).spec_get(n) == old(self).spec_get(n),
    {
        self.vars.push((name, value));
        proof {
            assert(self.vars@.drop_last() =~= old(self).vars@);
            assert(self.entries() =~= old(self).entries().push((name@, value@)));
        }
    }

    /// The value of variable `name`, if it is set.
    pub fn get(&self, name: &str) -> (r: Option<String>)
        ensures
            r matches Some(v) ==> self.spec_get(name@) == Some(v@),
            r is None ==> self.spec_get(name@) is None,
    {
        let k = name.to_string();
        let mut i: usize = self.vars.len();
        proof {
            assert(self.vars@.subrange(0, i as int) =~= self.vars@);
        }
        while i > 0
            invariant
                i <= self.vars@.len(),
                k@ == name@,
                env_lookup(self.vars@, name@) == env_lookup(self.vars@.subrange(0, i as int), name@),
            decreases i,
        {
            assert(self.vars@.subrange(0, i as int).drop_last() =~= self.vars@.subrange(0, i - 1));
            if self.vars[i - 1].0 == k {
                return Some(self.vars[i - 1].1.clone());
            }
            i -= 1;
        }
        None
    }

    /// What a template's `env(name)` gives: the value, or an error when the
    /// variable is not set.
    pub fn require(&self, name: String) -> (r: Result<String, minijinja::Error>)
        ensures
            r matches Ok(v) ==> self.spec_get(name@) == Some(v@),
            r is Err ==> self.spec_get(name@) is None,
    {
        match self.get(name.as_str()) {
            Some(v) => Ok(v),
            None => Err(undefined_error(crate::error::join3("Environment variable '", name.as_str(), "' not found"))),
        }
    }

    /// What a template's `env_or(name, default)` gives: the value, or
    /// `default` when the variable is not set.
    pub fn get_or(&self, name: String, default: String) -> (r: String)
        ensures
            self.spec_get(name@) matches Some(v) ==> r@ == v,
            self.spec_get(name@) is None ==> r@ == default@,
    {
        match self.get(name.as_str()) {
            Some(v) => v,
            None => default,
        }
    }
}

/// Relies on `minijinja::Error::new`: an error of kind `UndefinedError`
/// carrying `message`.
#[verifier::external_body]
fn undefined_error(message: String) -> (r: minijinja::Error) {
    minijinja::Error::new(minijinja::ErrorKind::UndefinedError, message)
}

/// Relies on `minijinja::Value: From<&str>`: a string for a template.
#[verifier::external_body]
fn jinja_text(s: &str) -> (r: minijinja::Value) {
    minijinja::Value::from(s)
}

/// Relies on `minijinja::Value: From<i64>`: an integer for a template.
#[verifier::external_body]
fn jinja_integer(i: i64) -> (r: minijinja::Value) {
    minijinja::Value::from(i)
}

/// Relies on `minijinja::Value: From<bool>`: a boolean for a template.
#[verifier::external_body]
fn jinja_bool(b: bool) -> (r: minijinja::Value) {
    minijinja::Value::from(b)
}

/// Relies on `minijinja::Value: Deserialize`, through `serde_json::from_str`:
/// a number for a template, read from its decimal text; text that is no JSON
/// number (`inf`, `nan`) reaches the template as a string.
#[verifier::external_body]
fn jinja_number(text: &str) -> (r: minijinja::Value) {
    match serde_json::from_str::<minijinja::Value>(text) {
        Ok(v) => v,
        Err(_) => minijinja::Value::from(text),
    }
}

/// Relies on `minijinja::Value: From<Vec<_>>`: a sequence for a template.
#[verifier::external_body]
fn jinja_list(items: Vec<minijinja::Value>) -> (r: minijinja::Value) {
    minijinja::Value::from(items)
}

/// Relies on `minijinja::Value: FromIterator<(K, V)>`: a map for a template.
#[verifier::external_body]
fn jinja_map(entries: Vec<(String, minijinja::Value)>) -> (r: minijinja::Value) {
    entries.into_iter().collect()
}

/// What the template engine renders `template` to, with `variables` as its
/// variables and `env` answering `env` and `env_or`; `None` when the
/// template does not parse or fails to render.
pub uninterp spec fn rendered(template: Seq<char>, variables: Map<Seq<char>, Data>, env: Seq<(Seq<char>, Seq<char>)>) -> Option<Seq<char>>;

/// Relies on `minijinja::Environment::new`, `add_function` and `render_str`:
/// renders `template` with the entries of `variables` as its variables and
/// `env`/`env_or` answered from `vars`. On failure, the engine's message.
#[verifier::external_body]
fn render_with(template: &str, variables: &ValueMap, vars: &EnvVars) -> (r: Result<String, String>)
    ensures
        r is Ok <==> rendered(template@, variables@, vars.entries()) is Some,
        r matches Ok(s) ==> rendered(template@, variables@, vars.entries()) == Some(s@),
{
    let mut env = minijinja::Environment::new();
    let (required, optional) = (vars.clone(), vars.clone());
    env.add_function("env", move |name: String| required.require(name));
    env.add_function("env_or", move |name: String, default: String| optional.get_or(name, default));
    let context: minijinja::Value = variables.entries.iter().map(|(k, v)| (k.clone(), toml_value_to_jinja(v))).collect();
    env.render_str(template, context).map_err(|e| e.to_string())
}

/// A value as the template engine sees it.
pub fn toml_value_to_jinja(v: &crate::value::TomlValue) -> (r: minijinja::Value)
    decreases v,
{
    match v {
        crate::value::TomlValue::String(s) => jinja_text(s.as_str()),
        crate::value::TomlValue::Integer(i) => jinja_integer(*i),
        crate::value::TomlValue::Float(t) => jinja_number(t.as_str()),
        crate::value::TomlValue::Boolean(b) => jinja_bool(*b),
        crate::value::TomlValue::Datetime(t) => jinja_text(t.as_str()),
        crate::value::TomlValue::Array(items) => {
            let mut out: Vec<minijinja::Value> = Vec::new();
            let mut i: usize = 0;
            while i < items.len()
                invariant
                    *v == crate::value::TomlValue::Array(*items),
                    i <= items@.len(),
                decreases items@.len() - i,
            {
                proof {
                    assert(decreases_to!(*v => v->Array_0));
                    assert(decreases_to!(*items => items@));
                    assert(decreases_to!(items@ => items@[i as int]));
                }
                out.push(toml_value_to_jinja(&items[i]));
                i += 1;
            }
            jinja_list(out)
        },
        crate::value::TomlValue::Table(entries) => {
            let mut out: Vec<(String, minijinja::Value)> = Vec::new();
            let mut i: usize = 0;
            while i < entries.len()
                invariant
                    *v == crate::value::TomlValue::Table(*entries),
                    i <= entries@.len(),
                decreases entries@.len() - i,
            {
                proof {
                    assert(decreases_to!(*v => v->Table_0));
                    assert(decreases_to!(*entries => entries@));
                    assert(decreases_to!(entries@ => entries@[i as int]));
                    assert(decreases_to!(entries@[i as int] => entries@[i as int].1));
                }
                let item = toml_value_to_jinja(&entries[i].1);
                out.push((entries[i].0.clone(), item));
                i += 1;
            }
            jinja_map(out)
        },
    }
}

/// The variables that templates see: `values`, with `meta` over them.
pub open spec fn variables_of(values: Map<Seq<char>, Data>, meta: Map<Seq<char>, Data>) -> Map<Seq<char>, Data> {
    values.union_prefer_right(meta)
}

/// `extra`, with every entry of `values` and then of `meta` over it.
pub fn template_variables(extra: ValueMap, values: &ValueMap, meta: &ValueMap) -> (r: ValueMap)
    requires
        extra.wf(),
        values.wf(),
        meta.wf(),
    ensures
        r.wf(),
        r@ == extra@.union_prefer_right(values@).union_prefer_right(meta@),
{
    let mut r = extra;
    r.add_all(values);
    r.add_all(meta);
    r
}

/// Renders `template` with `variables`; on failure, the engine's message.
pub fn render(template: &str, variables: &ValueMap, vars: &EnvVars) -> (r: Result<String, String>)
    ensures
        r is Ok <==> rendered(template@, variables@, vars.entries()) is Some,
        r matches Ok(s) ==> rendered(template@, variables@, vars.entries()) == Some(s@),
{
    render_with(template, variables, vars)
}

} // verus!

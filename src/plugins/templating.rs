use vstd::prelude::*;
use crate::error::SuperTomlError;
use crate::resolver::{step_ok, Plugin, Resolver};
use crate::template::{has_template_syntax, is_template, render, rendered, template_variables, variables_of, EnvVars};
use crate::utils::{add_values_to_resolver, template_error};
use crate::value::{entries_view, items_view, lemma_entries_view, lemma_items_view, Data, TomlValue, ValueMap};

verus! {

/// A value with every string that holds a template marker replaced by its
/// rendering; `None` when one of them does not render.
pub open spec fn render_tree(d: Data, vars: Map<Seq<char>, Data>, env: Seq<(Seq<char>, Seq<char>)>) -> Option<Data>
    decreases d,
{
    match d {
        Data::Str(s) => if is_template(s) {
            match rendered(s, vars, env) {
                Some(t) => Some(Data::Str(t)),
                None => None,
            }
        } else {
            Some(d)
        },
        Data::Array(items) => match render_items(items, vars, env) {
            Some(x) => Some(Data::Array(x)),
            None => None,
        },
        Data::Table(entries) => match render_entries(entries, vars, env) {
            Some(x) => Some(Data::Table(x)),
            None => None,
        },
        _ => Some(d),
    }
}

/// `render_tree` on each element, in order.
pub open spec fn render_items(s: Seq<Data>, vars: Map<Seq<char>, Data>, env: Seq<(Seq<char>, Seq<char>)>) -> Option<Seq<Data>>
    decreases s,
{
    if s.len() == 0 {
        Some(Seq::empty())
    } else {
        match render_items(s.drop_last(), vars, env) {
            Some(a) => match render_tree(s.last(), vars, env) {
                Some(b) => Some(a.push(b)),
                None => None,
            },
            None => None,
        }
    }
}

/// `render_tree` on each entry's value, keys kept, in order.
pub open spec fn render_entries(s: Seq<(Seq<char>, Data)>, vars: Map<Seq<char>, Data>, env: Seq<(Seq<char>, Seq<char>)>) -> Option<Seq<(Seq<char>, Data)>>
    decreases s,
{
    if s.len() == 0 {
        Some(Seq::empty())
    } else {
        match render_entries(s.drop_last(), vars, env) {
            Some(a) => match render_tree(s.last().1, vars, env) {
                Some(b) => Some(a.push((s.last().0, b))),
                None => None,
            },
            None => None,
        }
    }
}

/// The working values with every value rendered; `None` when one of them
/// does not render.
pub open spec fn render_map(local: Map<Seq<char>, Data>, vars: Map<Seq<char>, Data>, env: Seq<(Seq<char>, Seq<char>)>) -> Option<Map<Seq<char>, Data>> {
    if forall|k: Seq<char>| #[trigger] local.contains_key(k) ==> render_tree(local[k], vars, env) is Some {
        Some(Map::new(|k: Seq<char>| local.contains_key(k), |k: Seq<char>| render_tree(local[k], vars, env)->Some_0))
    } else {
        None
    }
}

pub proof fn lemma_render_items_prefix(s: Seq<Data>, i: int, vars: Map<Seq<char>, Data>, env: Seq<(Seq<char>, Seq<char>)>)
    requires
        0 <= i <= s.len(),
        render_items(s.subrange(0, i), vars, env) is None,
    ensures
        render_items(s, vars, env) is None,
    decreases s.len() - i,
{
    if i == s.len() {
        assert(s.subrange(0, i) =~= s);
    } else {
        assert(s.subrange(0, i + 1).drop_last() =~= s.subrange(0, i));
        lemma_render_items_prefix(s, i + 1, vars, env);
    }
}

pub proof fn lemma_render_entries_prefix(s: Seq<(Seq<char>, Data)>, i: int, vars: Map<Seq<char>, Data>, env: Seq<(Seq<char>, Seq<char>)>)
    requires
        0 <= i <= s.len(),
        render_entries(s.subrange(0, i), vars, env) is None,
    ensures
        render_entries(s, vars, env) is None,
    decreases s.len() - i,
{
    if i == s.len() {
        assert(s.subrange(0, i) =~= s);
    } else {
        assert(s.subrange(0, i + 1).drop_last() =~= s.subrange(0, i));
        lemma_render_entries_prefix(s, i + 1, vars, env);
    }
}

/// A value with every string that holds a template marker rendered with
/// `variables`; arrays and tables are rebuilt element by element.
pub fn process_value_with_jinja(value: &TomlValue, variables: &ValueMap, vars: &EnvVars) -> (r: Result<TomlValue, SuperTomlError>)
    ensures
        r is Ok <==> render_tree(value@, variables@, vars.entries()) is Some,
        r matches Ok(v) ==> render_tree(value@, variables@, vars.entries()) == Some(v@),
        r matches Err(e) ==> (e matches SuperTomlError::PluginError { plugin_name, .. } && plugin_name@ == "templating"@),
    decreases value,
{
    let ghost env = vars.entries();
    match value {
        TomlValue::String(s) => {
            if has_template_syntax(s.as_str()) {
                match render(s.as_str(), variables, vars) {
                    Ok(text) => Ok(TomlValue::String(text)),
                    Err(message) => Err(template_error("templating", "Template error", message.as_str())),
                }
            } else {
                Ok(TomlValue::String(s.clone()))
            }
        },
        TomlValue::Array(items) => {
            let mut out: Vec<TomlValue> = Vec::new();
            let mut i: usize = 0;
            proof {
                lemma_items_view(items@);
                assert(items_view(items@).subrange(0, 0) =~= Seq::empty());
            }
            while i < items.len()
                invariant
                    *value == TomlValue::Array(*items),
                    env == vars.entries(),
                    i <= items@.len(),
                    items_view(items@).len() == items@.len(),
                    forall|j: int| 0 <= j < items@.len() ==> #[trigger] items_view(items@)[j] == items@[j]@,
                    render_items(items_view(items@).subrange(0, i as int), variables@, env) == Some(items_view(out@)),
                decreases items@.len() - i,
            {
                proof {
                    assert(decreases_to!(*value => value->Array_0));
                    assert(decreases_to!(*items => items@));
                    assert(decreases_to!(items@ => items@[i as int]));
                    assert(items_view(items@).subrange(0, i + 1).drop_last() =~= items_view(items@).subrange(0, i as int));
                }
                let ghost prev = out@;
                let v = match process_value_with_jinja(&items[i], variables, vars) {
                    Ok(v) => v,
                    Err(e) => {
                        proof {
                            let sub = items_view(items@).subrange(0, i + 1);
                            assert(sub.last() == items@[i as int]@);
                            assert(render_tree(items@[i as int]@, variables@, env) is None);
                            assert(sub.drop_last() == items_view(items@).subrange(0, i as int));
                            assert(render_items(sub.drop_last(), variables@, env) is Some);
                            assert(render_items(sub, variables@, env) is None);
                            lemma_render_items_prefix(items_view(items@), i + 1, variables@, env);
                        }
                        return Err(e);
                    },
                };
                out.push(v);
                proof {
                    assert(out@.drop_last() =~= prev);
                }
                i += 1;
            }
            proof {
                assert(items_view(items@).subrange(0, i as int) =~= items_view(items@));
            }
            Ok(TomlValue::Array(out))
        },
        TomlValue::Table(entries) => {
            let mut out: Vec<(String, TomlValue)> = Vec::new();
            let mut i: usize = 0;
            proof {
                lemma_entries_view(entries@);
                assert(entries_view(entries@).subrange(0, 0) =~= Seq::empty());
            }
            while i < entries.len()
                invariant
                    *value == TomlValue::Table(*entries),
                    env == vars.entries(),
                    i <= entries@.len(),
                    entries_view(entries@).len() == entries@.len(),
                    forall|j: int| 0 <= j < entries@.len() ==> #[trigger] entries_view(entries@)[j] == (entries@[j].0@, entries@[j].1@),
                    render_entries(entries_view(entries@).subrange(0, i as int), variables@, env) == Some(entries_view(out@)),
                decreases entries@.len() - i,
            {
                proof {
                    assert(decreases_to!(*value => value->Table_0));
                    assert(decreases_to!(*entries => entries@));
                    assert(decreases_to!(entries@ => entries@[i as int]));
                    assert(decreases_to!(entries@[i as int] => entries@[i as int].1));
                    assert(entries_view(entries@).subrange(0, i + 1).drop_last() =~= entries_view(entries@).subrange(0, i as int));
                }
                let ghost prev = out@;
                let v = match process_value_with_jinja(&entries[i].1, variables, vars) {
                    Ok(v) => v,
                    Err(e) => {
                        proof {
                            let sub = entries_view(entries@).subrange(0, i + 1);
                            assert(sub.last() == (entries@[i as int].0@, entries@[i as int].1@));
                            assert(render_entries(sub, variables@, env) is None);
                            lemma_render_entries_prefix(entries_view(entries@), i + 1, variables@, env);
                        }
                        return Err(e);
                    },
                };
                out.push((entries[i].0.clone(), v));
                proof {
                    assert(out@.drop_last() =~= prev);
                }
                i += 1;
            }
            proof {
                assert(entries_view(entries@).subrange(0, i as int) =~= entries_view(entries@));
            }
            Ok(TomlValue::Table(out))
        },
        TomlValue::Integer(i) => Ok(TomlValue::Integer(*i)),
        TomlValue::Float(t) => Ok(TomlValue::Float(t.clone())),
        TomlValue::Boolean(b) => Ok(TomlValue::Boolean(*b)),
        TomlValue::Datetime(t) => Ok(TomlValue::Datetime(t.clone())),
    }
}

/// Renders every template string among the working values against the
/// values collected so far, then copies the working values into the result.
#[derive(Clone, Copy)]
pub struct TemplatingPlugin;

impl TemplatingPlugin {
    /// The name under which this plugin finds its configuration.
    pub fn name(&self) -> (r: &'static str)
        ensures
            r@ == "templating"@,
    {
        "templating"
    }

    pub fn process(&self, resolver: &mut Resolver, table_values: &mut ValueMap, config: TomlValue) -> (r: Result<(), SuperTomlError>)
        requires
            old(resolver).wf(),
            old(table_values).wf(),
            !old(table_values)@.contains_key("_"@),
        ensures
            final(resolver).wf(),
            final(table_values).wf(),
            !final(table_values)@.contains_key("_"@),
            final(resolver).same_session(old(resolver)),
            r is Ok <==> render_map(old(table_values)@, variables_of(old(resolver).values@, old(resolver).meta_values@), old(resolver).environment.entries()) is Some,
            r is Ok ==> final(table_values)@ == render_map(old(table_values)@, variables_of(old(resolver).values@, old(resolver).meta_values@), old(resolver).environment.entries())->Some_0,
            r is Ok ==> final(resolver).values@ == old(resolver).values@.union_prefer_right(final(table_values)@),
            r is Err ==> final(resolver).values == old(resolver).values && final(table_values)@ == old(table_values)@,
            r matches Err(e) ==> (e matches SuperTomlError::PluginError { plugin_name, .. } && plugin_name@ == "templating"@),
            r is Ok ==> step_ok(Plugin::Templating(*self), *old(resolver), *final(resolver), old(table_values)@, final(table_values)@, config@),
        decreases old(resolver).budget() + 1, 0int,
    {
        let variables = template_variables(ValueMap::new(), &resolver.values, &resolver.meta_values);
        let ghost vars = variables_of(old(resolver).values@, old(resolver).meta_values@);
        let ghost env = resolver.environment.entries();
        proof {
            assert(variables@ =~= vars);
        }
        let keys = table_values.keys();
        let mut processed = ValueMap::new();
        let mut i: usize = 0;
        while i < keys.len()
            invariant
                *resolver == *old(resolver),
                resolver.wf(),
                table_values.wf(),
                processed.wf(),
                *table_values == *old(table_values),
                !table_values@.contains_key("_"@),
                variables@ == vars,
                vars == variables_of(old(resolver).values@, old(resolver).meta_values@),
                env == resolver.environment.entries(),
                i <= keys@.len(),
                keys@.len() == table_values@.len(),
                forall|j: int| 0 <= j < keys@.len() ==> table_values@.contains_key(#[trigger] keys@[j]@),
                forall|k: Seq<char>| table_values@.contains_key(k) ==> exists|j: int| 0 <= j < keys@.len() && #[trigger] keys@[j]@ == k,
                forall|k: Seq<char>| #[trigger] processed@.contains_key(k) <==> exists|j: int| 0 <= j < i && keys@[j]@ == k,
                forall|k: Seq<char>| #[trigger] processed@.contains_key(k) ==> render_tree(table_values@[k], vars, env) == Some(processed@[k]),
            decreases keys@.len() - i,
        {
            if let Some(v) = table_values.get(keys[i].as_str()) {
                let nv = match process_value_with_jinja(v, &variables, &resolver.environment) {
                    Ok(nv) => nv,
                    Err(e) => {
                        proof {
                            let k = keys@[i as int]@;
                            assert(old(table_values)@.contains_key(k));
                            assert(render_tree(old(table_values)@[k], vars, env) is None);
                            assert(!(forall|k2: Seq<char>| #[trigger] old(table_values)@.contains_key(k2) ==> render_tree(old(table_values)@[k2], vars, env) is Some));
                        }
                        return Err(e);
                    },
                };
                processed.insert(keys[i].clone(), nv);
            }
            proof {
                assert(table_values@.contains_key(keys@[i as int]@));
                assert forall|k: Seq<char>| #[trigger] processed@.contains_key(k) <==> exists|j: int| 0 <= j < i + 1 && keys@[j]@ == k by {
                    if k == keys@[i as int]@ {
                        assert(exists|j: int| 0 <= j < i + 1 && keys@[j]@ == k);
                    }
                }
            }
            i += 1;
        }
        proof {
            assert(processed@.dom() =~= table_values@.dom()) by {
                assert forall|k: Seq<char>| processed@.contains_key(k) implies table_values@.contains_key(k) by {
                    let j = choose|j: int| 0 <= j < i && keys@[j]@ == k;
                    assert(table_values@.contains_key(keys@[j]@));
                }
                assert forall|k: Seq<char>| table_values@.contains_key(k) implies processed@.contains_key(k) by {
                    let j = choose|j: int| 0 <= j < keys@.len() && #[trigger] keys@[j]@ == k;
                    assert(exists|j: int| 0 <= j < i && keys@[j]@ == k);
                }
            }
            assert(render_map(table_values@, vars, env) is Some);
            assert(processed@ =~= render_map(table_values@, vars, env)->Some_0);
        }
        *table_values = processed;
        add_values_to_resolver(resolver, table_values);
        Ok(())
    }
}

} // verus!

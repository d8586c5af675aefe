use vstd::prelude::*;
use crate::error::SuperTomlError;
use crate::utils::add_values_to_resolver;
use crate::resolver::{dep_items, dep_ok, deps_spec, lemma_budget, lemma_dep_items_prefix, lemma_string_items_prefix, cycle_text, resolution_error, table_error, first_cycle, first_listed, is_table, table_of, resolve_table_recursive, step_ok, string_items, table_names, Plugin, Resolver};
use crate::value::{items_view, lemma_items_view, Data, TomlValue, ValueMap};

verus! {

/// Orders dependencies: the tables named in its configuration are resolved
/// before this table's own values are merged.
#[derive(Clone, Copy)]
pub struct BeforePlugin;

impl BeforePlugin {
    /// The name under which this plugin finds its configuration.
    pub fn name(&self) -> (r: &'static str)
        ensures
            r@ == "before"@,
    {
        "before"
    }

    /// Resolves each table that the configuration lists, in order, then
    /// copies this table's working values into the result.
    pub fn process(&self, resolver: &mut Resolver, table_values: &mut ValueMap, config: TomlValue) -> (r: Result<(), SuperTomlError>)
        requires
            old(resolver).wf(),
            old(table_values).wf(),
            !old(table_values)@.contains_key("_"@),
        ensures
            final(resolver).wf(),
            final(table_values).wf(),
            !final(table_values)@.contains_key("_"@),
            final(resolver).same_session(old(resolver)),
            final(table_values)@ == old(table_values)@,
            r is Ok ==> step_ok(Plugin::Before(*self), *old(resolver), *final(resolver), old(table_values)@, final(table_values)@, config@),
            r is Ok ==> forall|k: Seq<char>| old(table_values)@.contains_key(k) ==> final(resolver).values@.contains_key(k) && final(resolver).values@[k] == old(table_values)@[k],
            r is Ok <==> deps_spec(old(resolver).session(), old(resolver).stack(), config@, old(resolver).values@) is Some,
            r is Ok ==> final(resolver).values@ == deps_spec(old(resolver).session(), old(resolver).stack(), config@, old(resolver).values@)->Some_0.union_prefer_right(old(table_values)@),
            first_listed(config@) is Some && old(resolver).stack().contains(first_listed(config@)->Some_0) ==> {
                &&& r matches Err(SuperTomlError::CycleDetected(m)) && m@ == first_listed(config@)->Some_0
                &&& final(resolver).values == old(resolver).values
            },
            first_listed(config@) is Some && !old(resolver).stack().contains(first_listed(config@)->Some_0)
                && is_table(table_of(old(resolver).doc(), first_listed(config@)->Some_0))
                && first_cycle(old(resolver).session(), old(resolver).stack().push(first_listed(config@)->Some_0)) is Some ==> (r matches Err(SuperTomlError::PluginError { plugin_name: p, error: m })
                && p@ == first_cycle(old(resolver).session(), old(resolver).stack().push(first_listed(config@)->Some_0))->Some_0.0
                && m@ == cycle_text(first_cycle(old(resolver).session(), old(resolver).stack().push(first_listed(config@)->Some_0))->Some_0.1)),
            first_listed(config@) is Some && !old(resolver).stack().contains(first_listed(config@)->Some_0)
                && !is_table(table_of(old(resolver).doc(), first_listed(config@)->Some_0)) ==> {
                &&& r matches Err(e) && table_error(old(resolver).toml_file is None, old(resolver).doc(), first_listed(config@)->Some_0, e)
                &&& final(resolver).values == old(resolver).values
            },
            r matches Err(e) ==> exists|n: Seq<char>| #[trigger] table_names(config@).contains(n) && resolution_error(*old(resolver), n, e),
        decreases old(resolver).budget() + 1, 0int,
    {
        if let Some(items) = config.as_array() {
            proof {
                lemma_items_view(items@);
                assert(items_view(items@).subrange(0, 0) =~= Seq::empty());
            }
            let mut i: usize = 0;
            while i < items.len()
                invariant
                    resolver.wf(),
                    *table_values == *old(table_values),
                    table_values.wf(),
                    !table_values@.contains_key("_"@),
                    resolver.same_session(old(resolver)),
                    old(resolver).values@.dom().subset_of(resolver.values@.dom()),
                    config@ == Data::Array(items_view(items@)),
                    items_view(items@).len() == items@.len(),
                    forall|j: int| 0 <= j < items@.len() ==> #[trigger] items_view(items@)[j] == items@[j]@,
                    i <= items@.len(),
                    resolver.session() == old(resolver).session(),
                    i == 0 ==> resolver.values == old(resolver).values,
                    i > 0 && items_view(items@)[0] is Str ==> !old(resolver).stack().contains(items_view(items@)[0]->Str_0),
                    i > 0 && items_view(items@)[0] is Str ==> is_table(table_of(old(resolver).doc(), items_view(items@)[0]->Str_0)),
                    i > 0 && items_view(items@)[0] is Str ==> !(is_table(table_of(old(resolver).doc(), items_view(items@)[0]->Str_0))
                        && first_cycle(old(resolver).session(), old(resolver).stack().push(items_view(items@)[0]->Str_0)) is Some),
                    dep_items(old(resolver).session(), old(resolver).stack(), items_view(items@).subrange(0, i as int), old(resolver).values@) == Some(resolver.values@),
                    forall|n: Seq<char>|
                        #[trigger] string_items(items_view(items@).subrange(0, i as int)).contains(n) ==> dep_ok(
                            old(resolver).doc(),
                            old(resolver).plugins@,
                            old(resolver).stack(),
                            n,
                        ),
                decreases items@.len() - i,
            {
                let ghost sub = items_view(items@).subrange(0, i + 1);
                let ghost done = string_items(sub.drop_last());
                proof {
                    assert(sub.drop_last() =~= items_view(items@).subrange(0, i as int));
                    assert(sub.last() == items@[i as int]@);
                }
                if let Some(table_name) = items[i].as_str() {
                    proof {
                        lemma_budget(resolver);
                        assert(resolver.stack().len() == old(resolver).stack().len());
                    }
                    let ghost rc = *resolver;
                    let res = resolve_table_recursive(resolver, table_name);
                    if res.is_err() {
                        proof {
                            assert(rc.session() == old(resolver).session());
                            assert(rc.stack() == old(resolver).stack());
                            assert(items@[i as int]@ == Data::Str(table_name@));
                            assert(dep_items(old(resolver).session(), old(resolver).stack(), sub, old(resolver).values@) is None);
                            lemma_dep_items_prefix(old(resolver).session(), old(resolver).stack(), items_view(items@), i + 1, old(resolver).values@);
                            assert(string_items(sub) == done.push(table_name@));
                            assert(string_items(sub).contains(table_name@)) by {
                                assert(string_items(sub)[done.len() as int] == table_name@);
                            }
                            lemma_string_items_prefix(items_view(items@), i + 1, table_name@);
                            assert(table_names(config@).contains(table_name@));
                        }
                        return res;
                    }
                    proof {
                        assert(rc.doc() == old(resolver).doc());
                        assert(rc.plugins@ == old(resolver).plugins@);
                        assert(rc.stack() == old(resolver).stack());
                        assert(dep_ok(rc.doc(), rc.plugins@, rc.stack(), table_name@));
                        assert(done.push(table_name@).drop_last() =~= done);
                        assert(rc.session() == old(resolver).session());
                        assert(string_items(sub) == done.push(table_name@));
                        assert forall|n: Seq<char>| #[trigger] string_items(sub).contains(n) implies dep_ok(
                            old(resolver).doc(),
                            old(resolver).plugins@,
                            old(resolver).stack(),
                            n,
                        ) by {
                            if n != table_name@ {
                                let k = choose|k: int| 0 <= k < done.push(table_name@).len() && done.push(table_name@)[k] == n;
                                assert(done[k] == n);
                                assert(done.contains(n));
                            }
                        }
                    }
                } else {
                    proof {
                        assert(string_items(sub) == done);
                        assert(!(sub.last() is Str));
                    }
                }
                i += 1;
            }
            proof {
                assert(items_view(items@).subrange(0, i as int) =~= items_view(items@));
            }
        } else {
            proof {
                assert(!(config@ is Array));
            }
        }
        add_values_to_resolver(resolver, table_values);
        Ok(())
    }
}

} // verus!

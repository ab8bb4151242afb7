use vstd::prelude::*;
use crate::ids::{DerivedNodeId, Epoch, Key, NodeKind};
use crate::model::{
    denote, denote_fuel, denoted_inputs, derived_time, derived_value, engine_inv, frame, has_key,
    fresh_read, input_below, reads_current, stale_read, stored_deps, is_fresh, param_ok, key_index, keys_unique, lemma_denote_unfold, lemma_frame_lookup, lemma_frame_refl,
    lemma_frame_trans, lemma_frame_weaken, lemma_inv_push, lemma_inv_set, lemma_key_index, node_ok, recipe_of,
    registry_wf, source_time, source_value, stored, stored_values, time_of, touchable, value_of,
};
use crate::node::{Dependency, DerivedNode, DidRecalculate, SourceNode};
use crate::params::{ParamArena, ParamValue};
use crate::table::{DerivedTable, FunctionTable, SourceTable};
use crate::recipe::{apply_step, fold_values, lemma_fold_push, param_int, start_value, Recipe};

verus! {

/// The current value and update time of a source; an unwritten slot reads
/// as 0 at epoch 0.
pub fn read_source_entry(src: &SourceTable, k: Key) -> (r: (i64, Epoch))
    requires
        src.wf(),
        keys_unique(src@),
    ensures
        r.0 == source_value(src@, k),
        r.1.value == source_time(src@, k),
{
    match src.find(k) {
        Some(i) => {
            proof {
                lemma_key_index(src@, k, i as int);
            }
            (src.entry(i).1.value, src.entry(i).1.time_updated)
        },
        None => (0, Epoch { value: 0 }),
    }
}

/// Checks the dependency list of the stored node at `i`: reads or resolves
/// each dependency in order and stops at the first one whose update time
/// differs from the one recorded. Returns true when none differs.
fn dependencies_unchanged(
    der: &mut DerivedTable,
    src: &SourceTable,
    par: &ParamArena,
    reg: &FunctionTable,
    epoch: Epoch,
    id: DerivedNodeId,
    i: usize,
) -> (r: bool)
    requires
        old(der).wf(),
        src.wf(),
        reg.wf(),
        engine_inv(src@, par@, reg@, old(der)@, epoch.value),
        has_key(reg@, id.key),
        i < old(der)@.len(),
        old(der)@[i as int].0 == id,
        old(der)@[i as int].1.time_verified.value != epoch.value,
    ensures
        final(der).wf(),
        engine_inv(src@, par@, reg@, final(der)@, epoch.value),
        frame(reg@, epoch.value, old(der)@, final(der)@, key_index(reg@, id.key), id, false),
        final(der)@[i as int] == old(der)@[i as int],
        !r ==> exists|j: int|
            0 <= j < old(der)@[i as int].1.dependencies@.len() && #[trigger] stale_read(
                src@,
                final(der)@,
                epoch.value,
                old(der)@[i as int].1.dependencies@[j],
            ),
        r ==> forall|j: int|
            0 <= j < old(der)@[i as int].1.dependencies@.len() ==> {
                let dep = #[trigger] old(der)@[i as int].1.dependencies@[j];
                &&& dep.time_verified_or_updated.value == time_of(src@, final(der)@, dep.node_to)
                &&& match dep.node_to {
                    NodeKind::Source(_) => true,
                    NodeKind::Derived(d) => is_fresh(final(der)@, d, epoch.value),
                }
            },
    decreases key_index(reg@, id.key), 0nat,
{
    let ghost d0 = der@;
    let ghost rk = key_index(reg@, id.key);
    proof {
        lemma_key_index(der@, id, i as int);
        assert(node_ok(src@, par@, reg@, der@, epoch.value, der@[i as int].0, der@[i as int].1));
    }
    let n = der.entry(i).1.dependencies.len();
    let mut j: usize = 0;
    while j < n
        invariant
            der.wf(),
            src.wf(),
            reg.wf(),
        reg.wf(),
            engine_inv(src@, par@, reg@, der@, epoch.value),
            has_key(reg@, id.key),
            rk == key_index(reg@, id.key),
            i < d0.len(),
            d0[i as int].0 == id,
            d0[i as int].1.time_verified.value != epoch.value,
            n == d0[i as int].1.dependencies@.len(),
            node_ok(src@, par@, reg@, d0, epoch.value, id, d0[i as int].1),
            frame(reg@, epoch.value, d0, der@, rk, id, false),
            d0 == old(der)@,
            0 <= j <= n,
            forall|jj: int|
                0 <= jj < j ==> {
                    let dep = #[trigger] d0[i as int].1.dependencies@[jj];
                    &&& dep.time_verified_or_updated.value == time_of(src@, der@, dep.node_to)
                    &&& match dep.node_to {
                        NodeKind::Source(_) => true,
                        NodeKind::Derived(d) => is_fresh(der@, d, epoch.value),
                    }
                },
        decreases n - j,
    {
        proof {
            assert(der@[i as int] == d0[i as int]);
        }
        let dep = der.entry(i).1.dependencies[j];
        let ghost before = der@;
        let t: Epoch = match dep.node_to {
            NodeKind::Source(k) => {
                let (_, t) = read_source_entry(src, k);
                t
            },
            NodeKind::Derived(d) => {
                proof {
                    let r = recipe_of(reg@, id.key);
                    assert(dep.node_to == r.inputs@[j as int]);
                    assert(input_below(reg@, reg@[rk].1.inputs@[j as int], rk));
                    assert(param_ok(par@, reg@[rk].1.inputs@[j as int]));
                    assert(stored(d0, dep.node_to));
                }
                resolve_node(der, src, par, reg, epoch, d);
                proof {
                    assert forall|x: DerivedNodeId|
                        #[trigger] touchable(reg@, key_index(reg@, d.key), d, true, x) implies touchable(
                        reg@,
                        rk,
                        id,
                        false,
                        x,
                    ) by {
                        assert(input_below(reg@, NodeKind::Derived(d), rk));
                    }
                    lemma_frame_weaken(
                        reg@,
                        epoch.value,
                        before,
                        der@,
                        key_index(reg@, d.key),
                        d,
                        true,
                        rk,
                        id,
                        false,
                    );
                    lemma_frame_trans(reg@, epoch.value, d0, before, der@, rk, id, false, rk, id, false);
                }
                match der.find(d) {
                    Some(di) => {
                        proof {
                            lemma_key_index(der@, d, di as int);
                        }
                        der.entry(di).1.time_updated
                    },
                    None => Epoch { value: 0 },
                }
            },
        };
        proof {
            // what was shown of earlier dependencies still holds
            assert forall|jj: int| 0 <= jj < j implies {
                let dep = #[trigger] d0[i as int].1.dependencies@[jj];
                &&& dep.time_verified_or_updated.value == time_of(src@, der@, dep.node_to)
                &&& match dep.node_to {
                    NodeKind::Source(_) => true,
                    NodeKind::Derived(d) => is_fresh(der@, d, epoch.value),
                }
            } by {
                let depj = d0[i as int].1.dependencies@[jj];
                match depj.node_to {
                    NodeKind::Source(_) => {},
                    NodeKind::Derived(dd) => {
                        match dep.node_to {
                            NodeKind::Source(_) => {},
                            NodeKind::Derived(d) => {
                                lemma_frame_lookup(
                                    reg@,
                                    epoch.value,
                                    before,
                                    der@,
                                    key_index(reg@, d.key),
                                    d,
                                    true,
                                    dd,
                                );
                            },
                        }
                    },
                }
            }
        }
        if t.value != dep.time_verified_or_updated.value {
            assert(stale_read(src@, der@, epoch.value, d0[i as int].1.dependencies@[j as int]));
            return false;
        }
        j = j + 1;
    }
    true
}

/// The inputs of a registered function never include a node of that
/// function.
proof fn lemma_inputs_below(reg: Seq<(Key, Recipe)>, id: DerivedNodeId)
    requires
        registry_wf(reg),
        has_key(reg, id.key),
    ensures
        forall|j: int|
            0 <= j < recipe_of(reg, id.key).inputs@.len() ==> #[trigger] input_below(
                reg,
                recipe_of(reg, id.key).inputs@[j],
                key_index(reg, id.key),
            ),
        forall|j: int|
            0 <= j < recipe_of(reg, id.key).inputs@.len() ==> #[trigger] recipe_of(
                reg,
                id.key,
            ).inputs@[j] != NodeKind::Derived(id),
{
    let rk = key_index(reg, id.key);
    assert forall|j: int| 0 <= j < recipe_of(reg, id.key).inputs@.len() implies #[trigger] input_below(
        reg,
        recipe_of(reg, id.key).inputs@[j],
        rk,
    ) && recipe_of(reg, id.key).inputs@[j] != NodeKind::Derived(id) by {
        assert(0 <= rk < reg.len() && reg[rk].0 == id.key);
        assert(recipe_of(reg, id.key) == reg[rk].1);
        assert(input_below(reg, reg[rk].1.inputs@[j], rk));
    }
    assert forall|j: int| 0 <= j < recipe_of(reg, id.key).inputs@.len() implies #[trigger] recipe_of(
        reg,
        id.key,
    ).inputs@[j] != NodeKind::Derived(id) by {
        assert(input_below(reg, reg[rk].1.inputs@[j], rk));
    }
}

/// A stored value of an input equals its value from scratch: true of
/// sources, and of derived nodes verified in the current epoch.
pub proof fn lemma_input_value(
    src: Seq<(Key, SourceNode)>,
    par: Seq<ParamValue>,
    reg: Seq<(Key, Recipe)>,
    der: Seq<(DerivedNodeId, DerivedNode)>,
    e: u64,
    k: NodeKind,
)
    requires
        engine_inv(src, par, reg, der, e),
        match k {
            NodeKind::Source(_) => true,
            NodeKind::Derived(d) => is_fresh(der, d, e),
        },
    ensures
        value_of(src, der, k) == denote(reg, src, par, k),
{
    match k {
        NodeKind::Source(s) => {
            assert(denote_fuel(reg, src, par, k, reg.len()) == source_value(src, s));
        },
        NodeKind::Derived(d) => {
            let i = key_index(der, d);
            assert(node_ok(src, par, reg, der, e, der[i].0, der[i].1));
        },
    }
}

/// Runs the registered function of `id` afresh: reads or resolves each input
/// in order, recording each read, and folds the values.
fn compute(
    der: &mut DerivedTable,
    src: &SourceTable,
    par: &ParamArena,
    reg: &FunctionTable,
    epoch: Epoch,
    id: DerivedNodeId,
) -> (r: (i64, Vec<Dependency>))
    requires
        old(der).wf(),
        src.wf(),
        reg.wf(),
        engine_inv(src@, par@, reg@, old(der)@, epoch.value),
        has_key(reg@, id.key),
        (id.param_id.index as int) < par@.len(),
    ensures
        final(der).wf(),
        engine_inv(src@, par@, reg@, final(der)@, epoch.value),
        frame(reg@, epoch.value, old(der)@, final(der)@, key_index(reg@, id.key), id, false),
        r.1@.len() == recipe_of(reg@, id.key).inputs@.len(),
        forall|j: int|
            0 <= j < r.1@.len() ==> {
                let dep = #[trigger] r.1@[j];
                &&& dep.node_to == recipe_of(reg@, id.key).inputs@[j]
                &&& dep.time_verified_or_updated.value == time_of(src@, final(der)@, dep.node_to)
                &&& stored(final(der)@, dep.node_to)
                &&& value_of(src@, final(der)@, dep.node_to) == denote(reg@, src@, par@, dep.node_to)
                &&& fresh_read(src@, final(der)@, epoch.value, dep)
            },
        r.0 == denote(reg@, src@, par@, NodeKind::Derived(id)),
    decreases key_index(reg@, id.key), 0nat,
{
    let fi = match reg.find(id.key) {
        Some(f) => f,
        None => {
            return (0, Vec::new());
        },
    };
    proof {
        lemma_key_index(reg@, id.key, fi as int);
        lemma_inputs_below(reg@, id);
    }
    let ghost d0 = der@;
    let ghost rk = fi as int;
    let ghost inputs = reg@[rk].1.inputs@;
    let ghost dens = denoted_inputs(reg@, src@, par@, inputs);
    let n = reg.entry(fi).1.inputs.len();
    let combine = reg.entry(fi).1.combine;
    let arg = match par.get(id.param_id) {
        Some(v) => v.as_int(),
        None => 0,
    };
    let mut acc: i64 = if reg.entry(fi).1.with_arg {
        apply_step(combine, reg.entry(fi).1.constant, arg)
    } else {
        reg.entry(fi).1.constant
    };
    let mut deps: Vec<Dependency> = Vec::new();
    let mut j: usize = 0;
    while j < n
        invariant
            der.wf(),
            src.wf(),
            reg.wf(),
        reg.wf(),
            engine_inv(src@, par@, reg@, der@, epoch.value),
            has_key(reg@, id.key),
            fi < reg@.len(),
            rk == fi as int,
            rk == key_index(reg@, id.key),
            inputs == reg@[rk].1.inputs@,
            inputs == recipe_of(reg@, id.key).inputs@,
            dens == denoted_inputs(reg@, src@, par@, inputs),
            n == inputs.len(),
            combine == reg@[rk].1.combine,
            forall|jj: int|
                0 <= jj < inputs.len() ==> #[trigger] input_below(reg@, inputs[jj], rk),
            frame(reg@, epoch.value, d0, der@, rk, id, false),
            d0 == old(der)@,
            0 <= j <= n,
            deps@.len() == j,
            forall|jj: int|
                0 <= jj < j ==> {
                    let dep = #[trigger] deps@[jj];
                    &&& dep.node_to == inputs[jj]
                    &&& dep.time_verified_or_updated.value == time_of(src@, der@, dep.node_to)
                    &&& stored(der@, dep.node_to)
                    &&& match dep.node_to {
                        NodeKind::Source(_) => true,
                        NodeKind::Derived(d) => is_fresh(der@, d, epoch.value),
                    }
                },
            acc == fold_values(
                combine,
                start_value(reg@[rk].1, param_int(par@, id.param_id)),
                dens.take(j as int),
            ),
        decreases n - j,
    {
        let input = reg.entry(fi).1.inputs[j];
        let ghost before = der@;
        assert(input_below(reg@, inputs[j as int], rk));
        assert(param_ok(par@, reg@[rk].1.inputs@[j as int]));
        let (v, t) = match input {
            NodeKind::Source(k) => read_source_entry(src, k),
            NodeKind::Derived(d) => {
                let (v, _) = resolve_node(der, src, par, reg, epoch, d);
                proof {
                    assert forall|x: DerivedNodeId|
                        #[trigger] touchable(reg@, key_index(reg@, d.key), d, true, x) implies touchable(
                        reg@,
                        rk,
                        id,
                        false,
                        x,
                    ) by {
                        assert(input_below(reg@, NodeKind::Derived(d), rk));
                    }
                    lemma_frame_weaken(
                        reg@,
                        epoch.value,
                        before,
                        der@,
                        key_index(reg@, d.key),
                        d,
                        true,
                        rk,
                        id,
                        false,
                    );
                    lemma_frame_trans(reg@, epoch.value, d0, before, der@, rk, id, false, rk, id, false);
                }
                match der.find(d) {
                    Some(di) => {
                        proof {
                            lemma_key_index(der@, d, di as int);
                        }
                        (v, der.entry(di).1.time_updated)
                    },
                    None => (v, Epoch { value: 0 }),
                }
            },
        };
        proof {
            lemma_input_value(src@, par@, reg@, der@, epoch.value, input);
            assert forall|jj: int| 0 <= jj < j implies {
                let dep = #[trigger] deps@[jj];
                &&& dep.node_to == inputs[jj]
                &&& dep.time_verified_or_updated.value == time_of(src@, der@, dep.node_to)
                &&& stored(der@, dep.node_to)
                &&& match dep.node_to {
                    NodeKind::Source(_) => true,
                    NodeKind::Derived(d) => is_fresh(der@, d, epoch.value),
                }
            } by {
                match deps@[jj].node_to {
                    NodeKind::Source(_) => {},
                    NodeKind::Derived(dd) => {
                        match input {
                            NodeKind::Source(_) => {},
                            NodeKind::Derived(d) => {
                                lemma_frame_lookup(
                                    reg@,
                                    epoch.value,
                                    before,
                                    der@,
                                    key_index(reg@, d.key),
                                    d,
                                    true,
                                    dd,
                                );
                            },
                        }
                    },
                }
            }
            lemma_fold_push(combine, start_value(reg@[rk].1, param_int(par@, id.param_id)), dens.take(j as int), dens[j as int]);
            assert(dens.take(j as int + 1) =~= dens.take(j as int).push(dens[j as int]));
        }
        deps.push(Dependency { node_to: input, time_verified_or_updated: t });
        acc = apply_step(combine, acc, v);
        j = j + 1;
    }
    proof {
        assert(dens.take(n as int) =~= dens);
        lemma_denote_unfold(reg@, src@, par@, id);
        assert forall|jj: int| 0 <= jj < deps@.len() implies value_of(
            src@,
            der@,
            (#[trigger] deps@[jj]).node_to,
        ) == denote(reg@, src@, par@, deps@[jj].node_to) by {
            lemma_input_value(src@, par@, reg@, der@, epoch.value, deps@[jj].node_to);
        }
    }
    (acc, deps)
}

/// Returns the value of `id`, recomputing only where a dependency has
/// changed since the node was last verified.
pub fn resolve_node(
    der: &mut DerivedTable,
    src: &SourceTable,
    par: &ParamArena,
    reg: &FunctionTable,
    epoch: Epoch,
    id: DerivedNodeId,
) -> (r: (i64, DidRecalculate))
    requires
        old(der).wf(),
        src.wf(),
        reg.wf(),
        engine_inv(src@, par@, reg@, old(der)@, epoch.value),
        has_key(reg@, id.key),
        (id.param_id.index as int) < par@.len(),
    ensures
        final(der).wf(),
        engine_inv(src@, par@, reg@, final(der)@, epoch.value),
        frame(reg@, epoch.value, old(der)@, final(der)@, key_index(reg@, id.key), id, true),
        is_fresh(final(der)@, id, epoch.value),
        r.0 == derived_value(final(der)@, id),
        r.0 == denote(reg@, src@, par@, NodeKind::Derived(id)),
        is_fresh(old(der)@, id, epoch.value) ==> final(der)@ == old(der)@ && r.1
            == DidRecalculate::NotRecalculated,
        (r.1 == DidRecalculate::Recalculated) == (!has_key(old(der)@, id) || derived_value(
            old(der)@,
            id,
        ) != r.0),
        has_key(old(der)@, id) && reads_current(src@, final(der)@, stored_deps(old(der)@, id))
            ==> stored_deps(final(der)@, id) == stored_deps(old(der)@, id),
        derived_time(final(der)@, id) == (if r.1 == DidRecalculate::Recalculated {
            epoch.value
        } else {
            derived_time(old(der)@, id)
        }),
    decreases key_index(reg@, id.key), 1nat,
{
    let ghost d0 = der@;
    let ghost rk = key_index(reg@, id.key);
    proof {
        lemma_inputs_below(reg@, id);
    }
    match der.find(id) {
        None => {
            let (value, deps) = compute(der, src, par, reg, epoch, id);
            let ghost d1 = der@;
            let node = DerivedNode {
                time_verified: epoch,
                time_updated: epoch,
                dependencies: deps,
                value,
            };
            proof {
                assert forall|k: int| 0 <= k < d1.len() implies d1[k].0 != id by {
                    if k < d0.len() {
                        assert(d1[k].0 == d0[k].0);
                    } else {
                        assert(touchable(reg@, rk, id, false, d1[k].0));
                    }
                }
                assert(stored_values(src@, d1, recipe_of(reg@, id.key).inputs@) =~= denoted_inputs(reg@, src@, par@,
                    recipe_of(reg@, id.key).inputs@,
                )) by {
                    assert forall|jj: int| 0 <= jj < recipe_of(reg@, id.key).inputs@.len() implies
                        stored_values(src@, d1, recipe_of(reg@, id.key).inputs@)[jj] == denoted_inputs(reg@, src@, par@,
                        recipe_of(reg@, id.key).inputs@,
                    )[jj] by {
                        assert(node.dependencies@[jj].node_to == recipe_of(reg@, id.key).inputs@[jj]);
                    }
                }
                lemma_denote_unfold(reg@, src@, par@, id);
                assert(node_ok(src@, par@, reg@, d1, epoch.value, id, node));
                lemma_inv_push(src@, par@, reg@, d1, epoch.value, id, node);
                lemma_key_index(d1.push((id, node)), id, d1.len() as int);
                assert(frame(reg@, epoch.value, d1, d1.push((id, node)), rk, id, true));
                lemma_frame_trans(reg@, epoch.value, d0, d1, d1.push((id, node)), rk, id, false, rk, id, true);
            }
            der.push(id, node);
            (value, DidRecalculate::Recalculated)
        },
        Some(i) => {
            proof {
                lemma_key_index(d0, id, i as int);
                assert(node_ok(src@, par@, reg@, d0, epoch.value, d0[i as int].0, d0[i as int].1));
            }
            if der.entry(i).1.time_verified == epoch {
                proof {
                    lemma_frame_refl(reg@, epoch.value, d0, rk, id, true);
                }
                return (der.entry(i).1.value, DidRecalculate::NotRecalculated);
            }
            let unchanged = dependencies_unchanged(der, src, par, reg, epoch, id, i);
            let ghost dmid = der@;
            if unchanged {
                let ghost d1 = der@;
                let mut node = der.entry(i).1.duplicate();
                node.time_verified = epoch;
                proof {
                    lemma_key_index(d1, id, i as int);
                    assert(node_ok(src@, par@, reg@, d1, epoch.value, d1[i as int].0, d1[i as int].1));
                    let r = recipe_of(reg@, id.key);
                    assert(stored_values(src@, d1, r.inputs@) =~= denoted_inputs(reg@, src@, par@, r.inputs@)) by {
                        assert forall|jj: int| 0 <= jj < r.inputs@.len() implies stored_values(
                            src@,
                            d1,
                            r.inputs@,
                        )[jj] == denoted_inputs(reg@, src@, par@, r.inputs@)[jj] by {
                            let dep = d0[i as int].1.dependencies@[jj];
                            assert(dep.node_to == r.inputs@[jj]);
                            lemma_input_value(src@, par@, reg@, d1, epoch.value, dep.node_to);
                        }
                    }
                    lemma_denote_unfold(reg@, src@, par@, id);
                    assert(node_ok(src@, par@, reg@, d1, epoch.value, id, node));
                    assert forall|jj: int| 0 <= jj < node.dependencies@.len() implies #[trigger] node.dependencies@[jj].node_to
                        != NodeKind::Derived(d1[i as int].0) by {
                        assert(input_below(reg@, r.inputs@[jj], rk));
                    }
                    lemma_inv_set(src@, par@, reg@, d1, epoch.value, i as int, node);
                    assert(frame(reg@, epoch.value, d1, d1.update(i as int, (id, node)), rk, id, true));
                    lemma_frame_trans(
                        reg@,
                        epoch.value,
                        d0,
                        d1,
                        d1.update(i as int, (id, node)),
                        rk,
                        id,
                        false,
                        rk,
                        id,
                        true,
                    );
                    lemma_key_index(d1.update(i as int, (id, node)), id, i as int);
                }
                let value = node.value;
                der.set(i, node);
                proof {
                    lemma_key_index(d0, id, i as int);
                    lemma_key_index(der@, id, i as int);
                    assert(stored_deps(der@, id) == stored_deps(d0, id));
                }
                (value, DidRecalculate::NotRecalculated)
            } else {
                let (value, deps) = compute(der, src, par, reg, epoch, id);
                let ghost d1 = der@;
                proof {
                    lemma_frame_trans(reg@, epoch.value, d0, d0, d1, rk, id, false, rk, id, false);
                    assert(d1[i as int] == d0[i as int]);
                }
                let mut node = der.entry(i).1.duplicate();
                let fresh = DerivedNode {
                    time_verified: epoch,
                    time_updated: epoch,
                    dependencies: deps,
                    value,
                };
                let changed = node.update(fresh);
                proof {
                    let r = recipe_of(reg@, id.key);
                    assert(stored_values(src@, d1, r.inputs@) =~= denoted_inputs(reg@, src@, par@, r.inputs@)) by {
                        assert forall|jj: int| 0 <= jj < r.inputs@.len() implies stored_values(
                            src@,
                            d1,
                            r.inputs@,
                        )[jj] == denoted_inputs(reg@, src@, par@, r.inputs@)[jj] by {
                            assert(node.dependencies@[jj].node_to == r.inputs@[jj]);
                        }
                    }
                    lemma_denote_unfold(reg@, src@, par@, id);
                    assert(node_ok(src@, par@, reg@, d1, epoch.value, id, node));
                    assert forall|jj: int| 0 <= jj < node.dependencies@.len() implies #[trigger] node.dependencies@[jj].node_to
                        != NodeKind::Derived(d1[i as int].0) by {
                        assert(input_below(reg@, r.inputs@[jj], rk));
                    }
                    lemma_inv_set(src@, par@, reg@, d1, epoch.value, i as int, node);
                    assert(frame(reg@, epoch.value, d1, d1.update(i as int, (id, node)), rk, id, true));
                    lemma_frame_trans(
                        reg@,
                        epoch.value,
                        d0,
                        d1,
                        d1.update(i as int, (id, node)),
                        rk,
                        id,
                        false,
                        rk,
                        id,
                        true,
                    );
                    lemma_key_index(d1.update(i as int, (id, node)), id, i as int);
                }
                der.set(i, node);
                proof {
                    let dd0 = d0[i as int].1.dependencies@;
                    let jj = choose|jj: int| 0 <= jj < dd0.len() && #[trigger] stale_read(src@, dmid, epoch.value, dd0[jj]);
                    let dep = dd0[jj];
                    assert(dep.node_to == recipe_of(reg@, id.key).inputs@[jj]);
                    match dep.node_to {
                        NodeKind::Source(_) => {},
                        NodeKind::Derived(dd) => {
                            lemma_frame_lookup(reg@, epoch.value, dmid, d1, rk, id, false, dd);
                            let k = key_index(d1, dd);
                            assert(d1[k].0 == dd);
                            assert(k != i);
                            lemma_key_index(der@, dd, k);
                        },
                    }
                    lemma_key_index(d0, id, i as int);
                    assert(!reads_current(src@, der@, stored_deps(d0, id)));
                }
                if changed {
                    (value, DidRecalculate::Recalculated)
                } else {
                    (value, DidRecalculate::NotRecalculated)
                }
            }
        },
    }
}

} // verus!
